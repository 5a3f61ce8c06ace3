//! Numbers read from and written as decimal and hexadecimal text.
use crate::text::chars_of;
use vstd::prelude::*;

verus! {

broadcast use vstd::string::group_string_axioms;

/// The value of a digit, and 99 for a character that is none, so that no base has it.
pub open spec fn digit_value(c: char) -> nat {
    if '0' <= c <= '9' {
        (c as nat - '0' as nat) as nat
    } else if 'a' <= c <= 'f' {
        (c as nat - 'a' as nat + 10) as nat
    } else if 'A' <= c <= 'F' {
        (c as nat - 'A' as nat + 10) as nat
    } else {
        99
    }
}

/// All characters of `s` are digits in `base`.
pub open spec fn all_digits(s: Seq<char>, base: nat) -> bool {
    forall|i: int| 0 <= i < s.len() ==> digit_value(#[trigger] s[i]) < base
}

/// The number that the digits `s` denote in `base`.
pub open spec fn value_of(s: Seq<char>, base: nat) -> nat
    decreases s.len(),
{
    if s.len() == 0 {
        0
    } else {
        value_of(s.drop_last(), base) * base + digit_value(s.last())
    }
}

/// What a natural number's text denotes: an optional `+`, then digits; nothing above `max`.
pub open spec fn natural(s: Seq<char>, base: nat, max: nat) -> Option<nat> {
    let t: Seq<char> = if s.len() > 0 && s[0] == '+' {
        s.skip(1)
    } else {
        s
    };
    if t.len() > 0 && all_digits(t, base) && value_of(t, base) <= max {
        Some(value_of(t, base))
    } else {
        None
    }
}

/// What an integer's text denotes: a natural number's text, or `-` and digits, in the
/// range of 64 bits.
pub open spec fn integer(s: Seq<char>) -> Option<int> {
    if s.len() > 0 && s[0] == '-' {
        let t: Seq<char> = s.skip(1);
        if t.len() > 0 && all_digits(t, 10) && value_of(t, 10) <= 0x8000_0000_0000_0000 {
            Some(-value_of(t, 10))
        } else {
            None
        }
    } else {
        match natural(s, 10, i64::MAX as nat) {
            Some(v) => Some(v as int),
            None => None,
        }
    }
}

/// The decimal digit of `d`.
pub open spec fn digit(d: nat) -> char {
    (d + '0' as nat) as char
}

/// The decimal text of `n`.
pub open spec fn dec(n: nat) -> Seq<char>
    decreases n,
{
    if n < 10 {
        seq![digit(n)]
    } else {
        dec(n / 10).push(digit(n % 10))
    }
}

/// The decimal text of `n`, with a sign where it is negative.
pub open spec fn dec_int(n: int) -> Seq<char> {
    if n < 0 {
        seq!['-'] + dec((-n) as nat)
    } else {
        dec(n as nat)
    }
}

/// The decimal text of `n`, with a zero before a lone digit.
pub open spec fn dec_two(n: int) -> Seq<char> {
    if 0 <= n < 10 {
        seq!['0'] + dec_int(n)
    } else {
        dec_int(n)
    }
}

/// The hexadecimal digit of `d`.
pub open spec fn hex_digit(d: nat) -> char {
    if d < 10 {
        digit(d)
    } else {
        (d - 10 + 'a' as nat) as char
    }
}

/// The two hexadecimal digits of `b`.
pub open spec fn hex_two(b: u8) -> Seq<char> {
    seq![hex_digit(b as nat / 16), hex_digit(b as nat % 16)]
}

proof fn lemma_value_prefix(s: Seq<char>, base: nat, n: int)
    requires
        0 <= n <= s.len(),
        base >= 1,
    ensures
        value_of(s.take(n), base) <= value_of(s, base),
    decreases s.len() - n,
{
    if n == s.len() {
        assert(s.take(n) == s);
    } else {
        lemma_value_prefix(s, base, n + 1);
        assert(s.take(n + 1).drop_last() == s.take(n));
        let v: nat = value_of(s.take(n), base);
        assert(v * base >= v) by (nonlinear_arith)
            requires
                base >= 1,
        ;
    }
}

fn value_of_digit(c: char) -> (r: u64)
    ensures
        r == digit_value(c),
{
    if '0' <= c && c <= '9' {
        c as u64 - '0' as u64
    } else if 'a' <= c && c <= 'f' {
        c as u64 - 'a' as u64 + 10
    } else if 'A' <= c && c <= 'F' {
        c as u64 - 'A' as u64 + 10
    } else {
        99
    }
}

/// The number that the digits from `from` on denote, if it is at most `max`.
fn read_digits(cs: &Vec<char>, from: usize, base: u64, max: u64) -> (r: Option<u64>)
    requires
        from <= cs.len(),
        1 <= base <= 16,
    ensures
        ({
            let t: Seq<char> = cs@.skip(from as int);
            match r {
                Some(v) => t.len() > 0 && all_digits(t, base as nat) && v == value_of(
                    t,
                    base as nat,
                ) && v <= max,
                None => t.len() == 0 || !all_digits(t, base as nat) || value_of(t, base as nat)
                    > max,
            }
        }),
{
    let ghost t: Seq<char> = cs@.skip(from as int);
    if from == cs.len() {
        return None;
    }
    let mut v: u64 = 0;
    let mut i: usize = from;
    while i < cs.len()
        invariant
            from <= i <= cs.len(),
            1 <= base <= 16,
            t == cs@.skip(from as int),
            v == value_of(t.take(i - from), base as nat),
            v <= max,
            forall|j: int| 0 <= j < i - from ==> digit_value(#[trigger] t[j]) < base,
        decreases cs.len() - i,
    {
        let d: u64 = value_of_digit(cs[i]);
        assert(t[i - from] == cs[i as int]);
        if d >= base {
            return None;
        }
        assert(v * base <= 0xffff_ffff_ffff_ffff * 16) by (nonlinear_arith)
            requires
                v <= 0xffff_ffff_ffff_ffff,
                base <= 16,
        ;
        let w: u128 = v as u128 * base as u128 + d as u128;
        proof {
            assert(t.take(i - from + 1).drop_last() == t.take(i - from));
            lemma_value_prefix(t, base as nat, i - from + 1);
        }
        if w > max as u128 {
            return None;
        }
        v = w as u64;
        i = i + 1;
    }
    assert(t.take(t.len() as int) == t);
    Some(v)
}

fn read_natural(s: &str, base: u64, max: u64) -> (r: Option<u64>)
    requires
        1 <= base <= 16,
    ensures
        match r {
            Some(v) => natural(s@, base as nat, max as nat) == Some(v as nat),
            None => natural(s@, base as nat, max as nat) is None,
        },
{
    let cs: Vec<char> = chars_of(s);
    let from: usize = if cs.len() > 0 && cs[0] == '+' {
        1
    } else {
        0
    };
    assert(cs@.skip(0) == cs@);
    read_digits(&cs, from, base, max)
}

/// The number that `s` denotes in decimal.
pub fn parse_u64(s: &str) -> (r: Option<u64>)
    ensures
        match r {
            Some(v) => natural(s@, 10, u64::MAX as nat) == Some(v as nat),
            None => natural(s@, 10, u64::MAX as nat) is None,
        },
{
    read_natural(s, 10, u64::MAX)
}

/// The number that `s` denotes in decimal.
pub fn parse_u32(s: &str) -> (r: Option<u32>)
    ensures
        match r {
            Some(v) => natural(s@, 10, u32::MAX as nat) == Some(v as nat),
            None => natural(s@, 10, u32::MAX as nat) is None,
        },
{
    match read_natural(s, 10, u32::MAX as u64) {
        Some(v) => Some(v as u32),
        None => None,
    }
}

/// The number that `s` denotes in hexadecimal.
pub fn parse_hex(s: &str) -> (r: Option<u64>)
    ensures
        match r {
            Some(v) => natural(s@, 16, u64::MAX as nat) == Some(v as nat),
            None => natural(s@, 16, u64::MAX as nat) is None,
        },
{
    read_natural(s, 16, u64::MAX)
}

/// The integer that `s` denotes in decimal.
pub fn parse_i64(s: &str) -> (r: Option<i64>)
    ensures
        match r {
            Some(v) => integer(s@) == Some(v as int),
            None => integer(s@) is None,
        },
{
    let cs: Vec<char> = chars_of(s);
    if cs.len() > 0 && cs[0] == '-' {
        match read_digits(&cs, 1, 10, 0x8000_0000_0000_0000) {
            Some(v) => {
                if v == 0x8000_0000_0000_0000 {
                    Some(i64::MIN)
                } else {
                    Some(-(v as i64))
                }
            },
            None => None,
        }
    } else {
        match read_natural(s, 10, i64::MAX as u64) {
            Some(v) => Some(v as i64),
            None => None,
        }
    }
}

/// Writes the decimal digit `d`.
pub fn push_digit(out: &mut String, d: u8)
    requires
        d < 10,
    ensures
        final(out)@ == old(out)@.push(digit(d as nat)),
{
    proof {
        reveal_strlit("0");
        reveal_strlit("1");
        reveal_strlit("2");
        reveal_strlit("3");
        reveal_strlit("4");
        reveal_strlit("5");
        reveal_strlit("6");
        reveal_strlit("7");
        reveal_strlit("8");
        reveal_strlit("9");
    }
    let t: &str = match d {
        0 => "0",
        1 => "1",
        2 => "2",
        3 => "3",
        4 => "4",
        5 => "5",
        6 => "6",
        7 => "7",
        8 => "8",
        _ => "9",
    };
    assert(t@ == seq![digit(d as nat)]);
    out.append(t);
    assert(out@ == old(out)@.push(digit(d as nat)));
}

/// Writes `n` in decimal.
pub fn push_u64(out: &mut String, n: u64)
    ensures
        final(out)@ == old(out)@ + dec(n as nat),
    decreases n,
{
    if n >= 10 {
        push_u64(out, n / 10);
    }
    push_digit(out, (n % 10) as u8);
    assert(out@ == old(out)@ + dec(n as nat));
}

/// Writes `n` in decimal.
pub fn push_i64(out: &mut String, n: i64)
    ensures
        final(out)@ == old(out)@ + dec_int(n as int),
{
    if n < 0 {
        proof {
            reveal_strlit("-");
        }
        assert("-"@ == seq!['-']);
        out.append("-");
        if n == i64::MIN {
            push_u64(out, 0x8000_0000_0000_0000);
        } else {
            push_u64(out, (-n) as u64);
        }
        assert(out@ == old(out)@ + dec_int(n as int));
    } else {
        push_u64(out, n as u64);
    }
}

/// Writes `n` in decimal, in two characters at least.
pub fn push_two(out: &mut String, n: i64)
    ensures
        final(out)@ == old(out)@ + dec_two(n as int),
{
    if 0 <= n && n < 10 {
        push_digit(out, 0);
        push_i64(out, n);
        assert(out@ == old(out)@ + dec_two(n as int));
    } else {
        push_i64(out, n);
    }
}

/// Writes the hexadecimal digit `d`.
fn push_hex_digit(out: &mut String, d: u8)
    requires
        d < 16,
    ensures
        final(out)@ == old(out)@.push(hex_digit(d as nat)),
{
    if d < 10 {
        push_digit(out, d);
    } else {
        proof {
            reveal_strlit("a");
            reveal_strlit("b");
            reveal_strlit("c");
            reveal_strlit("d");
            reveal_strlit("e");
            reveal_strlit("f");
        }
        let t: &str = match d {
            10 => "a",
            11 => "b",
            12 => "c",
            13 => "d",
            14 => "e",
            _ => "f",
        };
        assert(t@ == seq![hex_digit(d as nat)]);
        out.append(t);
        assert(out@ == old(out)@.push(hex_digit(d as nat)));
    }
}

/// Writes `b` in two hexadecimal digits.
pub fn push_hex(out: &mut String, b: u8)
    ensures
        final(out)@ == old(out)@ + hex_two(b),
{
    push_hex_digit(out, b / 16);
    push_hex_digit(out, b % 16);
    assert(out@ == old(out)@ + hex_two(b));
}

/// A digit has its value, and no other character has one.
pub proof fn digits_have_their_values(c: char)
    ensures
        natural(seq![c], 10, 9) == (if '0' <= c <= '9' {
            Some((c as nat - '0' as nat) as nat)
        } else {
            None
        }),
        natural(seq![c], 16, 15) == (if '0' <= c <= '9' {
            Some((c as nat - '0' as nat) as nat)
        } else if 'a' <= c <= 'f' {
            Some((c as nat - 'a' as nat + 10) as nat)
        } else if 'A' <= c <= 'F' {
            Some((c as nat - 'A' as nat + 10) as nat)
        } else {
            None
        }),
{
    let s: Seq<char> = seq![c];
    reveal_with_fuel(value_of, 2);
    assert(s.drop_last().len() == 0);
    assert(s[0] == c);
    assert(all_digits(s, 10) == (digit_value(c) < 10));
    assert(all_digits(s, 16) == (digit_value(c) < 16));
}

/// One more digit behind a number multiplies it by the base and adds the digit's value; it
/// has to stay within the limit. What is no digit makes no number.
pub proof fn numbers_are_positional(s: Seq<char>, c: char, base: nat, max: nat)
    requires
        s.len() > 0,
        s != seq!['+'],
        base == 10 || base == 16,
    ensures
        natural(s.push(c), base, max) == (match (
            natural(s, base, max),
            natural(seq![c], base, (base - 1) as nat),
        ) {
            (Some(v), Some(d)) => if v * base + d <= max {
                Some(v * base + d)
            } else {
                None
            },
            _ => None,
        }),
{
    digits_have_their_values(c);
    let t: Seq<char> = if s[0] == '+' {
        s.skip(1)
    } else {
        s
    };
    assert(t.len() > 0) by {
        if s[0] == '+' && s.len() == 1 {
            assert(s =~= seq!['+']);
        }
    }
    assert(s.push(c)[0] == s[0]);
    let u: Seq<char> = t.push(c);
    assert(s[0] == '+' ==> s.push(c).skip(1) == u);
    assert(u.drop_last() == t);
    assert(u.last() == c);
    assert(all_digits(u, base) == (all_digits(t, base) && digit_value(c) < base)) by {
        if all_digits(u, base) {
            assert forall|i: int| 0 <= i < t.len() implies digit_value(#[trigger] t[i]) < base by {
                assert(u[i] == t[i]);
            }
            assert(u[t.len() as int] == c);
        }
        if all_digits(t, base) && digit_value(c) < base {
            assert forall|i: int| 0 <= i < u.len() implies digit_value(#[trigger] u[i]) < base by {
                if i < t.len() {
                    assert(u[i] == t[i]);
                }
            }
        }
    }
    lemma_value_prefix(u, base, t.len() as int);
    assert(u.take(t.len() as int) == t);
}

/// A sign before a number makes no number more than one: a plus sign changes nothing, a minus
/// sign makes the number negative.
pub proof fn signs_stand_in_front(s: Seq<char>)
    requires
        s.len() > 0,
        s[0] != '+',
        s[0] != '-',
    ensures
        forall|base: nat, max: nat|
            natural(seq!['+'] + s, base, max) == #[trigger] natural(s, base, max),
        integer(seq!['+'] + s) == integer(s),
        integer(s) == (match natural(s, 10, i64::MAX as nat) {
            Some(v) => Some(v as int),
            None => None,
        }),
        integer(seq!['-'] + s) == (match natural(s, 10, 0x8000_0000_0000_0000) {
            Some(v) => Some(-v),
            None => None,
        }),
{
    assert((seq!['+'] + s).skip(1) == s);
    assert((seq!['-'] + s).skip(1) == s);
}

/// The text of a number reads as the number.
pub proof fn numbers_can_be_read_back(n: nat)
    ensures
        natural(dec(n), 10, n) == Some(n),
        dec(n).len() > 0,
        dec(n)[0] == '0' ==> n == 0,
        '0' <= dec(n)[0] <= '9',
        all_digits(dec(n), 10),
        value_of(dec(n), 10) == n,
        forall|max: nat| n <= max ==> #[trigger] natural(dec(n), 10, max) == Some(n),
    decreases n,
{
    let s: Seq<char> = dec(n);
    if n < 10 {
        reveal_with_fuel(value_of, 2);
        assert(s.drop_last().len() == 0);
        assert(s[0] == digit(n));
    } else {
        let t: Seq<char> = dec(n / 10);
        numbers_can_be_read_back(n / 10);
        assert(s.drop_last() == t);
        assert(s[0] == t[0]);
        assert forall|i: int| 0 <= i < s.len() implies digit_value(#[trigger] s[i]) < 10 by {
            if i < t.len() {
                assert(s[i] == t[i]);
            }
        }
    }
}

/// The text of an integer reads as the integer.
pub proof fn integers_can_be_read_back(n: int)
    requires
        i64::MIN <= n <= i64::MAX,
    ensures
        integer(dec_int(n)) == Some(n),
        dec_int(n).len() > 0,
{
    if n < 0 {
        numbers_can_be_read_back((-n) as nat);
        assert(dec_int(n).skip(1) == dec((-n) as nat));
    } else {
        numbers_can_be_read_back(n as nat);
    }
}

/// The text with two digits reads as the number too; below a hundred it has two characters.
pub proof fn two_digits_can_be_read_back(n: int)
    requires
        i64::MIN <= n <= i64::MAX,
    ensures
        integer(dec_two(n)) == Some(n),
        dec_two(n).len() >= 2,
        0 <= n < 100 ==> dec_two(n).len() == 2,
{
    integers_can_be_read_back(n);
    reveal_with_fuel(dec, 3);
    if 0 <= n < 10 {
        let s: Seq<char> = dec_two(n);
        assert(s =~= seq!['0', digit(n as nat)]);
        reveal_with_fuel(value_of, 3);
        assert(s.drop_last() =~= seq!['0']);
        assert(s.drop_last().drop_last().len() == 0);
        assert forall|i: int| 0 <= i < s.len() implies digit_value(#[trigger] s[i]) < 10 by {
            assert(i == 0 || i == 1);
        }
    } else if n < 0 {
        numbers_can_be_read_back((-n) as nat);
    }
}

/// The two hexadecimal digits of a byte read as the byte, and have no capitals.
pub proof fn bytes_can_be_read_back(b: u8)
    ensures
        natural(hex_two(b), 16, 255) == Some(b as nat),
        hex_two(b).len() == 2,
        forall|i: int| 0 <= i < 2 ==> !('A' <= #[trigger] hex_two(b)[i] <= 'F'),
{
    let s: Seq<char> = hex_two(b);
    reveal_with_fuel(value_of, 3);
    assert(s.drop_last() =~= seq![hex_digit(b as nat / 16)]);
    assert(s.drop_last().drop_last().len() == 0);
    assert forall|i: int| 0 <= i < s.len() implies digit_value(#[trigger] s[i]) < 16 by {
        assert(i == 0 || i == 1);
    }
}

} // verus!
