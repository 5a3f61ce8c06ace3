//! Doubles written with one digit after the point.
use crate::binary64::{
    lemma_round_half_even_error, lemma_up_pos, lemma_up_zero, power_of_two, round_half_even, up,
    Binary64, Dyadic, MANT_END,
};
use crate::numbers::{
    all_digits, dec, digit, digit_value, natural, numbers_can_be_read_back, push_digit, value_of,
};
use vstd::arithmetic::power2::{lemma_pow2_strictly_increases, lemma_pow2_unfold, pow2};
use vstd::prelude::*;

verus! {

broadcast use vstd::string::group_string_axioms;

/// The value of `x` in tenths, rounded to the nearest natural number, ties to even.
pub open spec fn tenths(x: Dyadic) -> nat {
    round_half_even(10 * x.num(), x.den())
}

/// The text of `x` with one digit after the point.
pub open spec fn one_decimal(x: Dyadic) -> Seq<char> {
    dec(tenths(x) / 10).push('.').push(digit(tenths(x) % 10))
}

/// The number that decimal digits denote, the lowest digit first.
spec fn value_up(ds: Seq<u8>) -> nat
    decreases ds.len(),
{
    if ds.len() == 0 {
        0
    } else {
        ds[0] as nat + 10 * value_up(ds.skip(1))
    }
}

spec fn power_of_ten(k: nat) -> nat
    decreases k,
{
    if k == 0 {
        1
    } else {
        10 * power_of_ten((k - 1) as nat)
    }
}

/// Decimal digits without leading zeros, the lowest digit first.
spec fn canonical(ds: Seq<u8>) -> bool {
    &&& ds.len() >= 1
    &&& forall|i: int| 0 <= i < ds.len() ==> #[trigger] ds[i] < 10
    &&& ds.len() > 1 ==> ds.last() > 0
}

proof fn lemma_value_push(ds: Seq<u8>, d: u8)
    ensures
        value_up(ds.push(d)) == value_up(ds) + power_of_ten(ds.len()) * d,
    decreases ds.len(),
{
    if ds.len() == 0 {
        assert(ds.push(d).skip(1) == ds);
        assert(power_of_ten(0) * d == d) by (nonlinear_arith)
            requires
                power_of_ten(0) == 1,
        ;
    } else {
        assert(ds.push(d).skip(1) == ds.skip(1).push(d));
        lemma_value_push(ds.skip(1), d);
        let p: nat = power_of_ten((ds.len() - 1) as nat);
        assert(10 * (p * d) == (10 * p) * d) by (nonlinear_arith);
    }
}

proof fn lemma_value_positive(ds: Seq<u8>)
    requires
        ds.len() >= 1,
        ds.last() > 0,
    ensures
        value_up(ds) > 0,
    decreases ds.len(),
{
    if ds.len() > 1 {
        assert(ds.skip(1).last() == ds.last());
        lemma_value_positive(ds.skip(1));
    }
}

/// The digits of `n`.
fn digits_of(n: u64) -> (r: Vec<u8>)
    ensures
        canonical(r@),
        value_up(r@) == n,
{
    let mut r: Vec<u8> = Vec::new();
    let mut rest: u64 = n;
    assert(power_of_ten(0) * rest == rest) by (nonlinear_arith)
        requires
            power_of_ten(0) == 1,
    ;
    while rest >= 10
        invariant
            value_up(r@) + power_of_ten(r.len() as nat) * rest == n,
            forall|i: int| 0 <= i < r.len() ==> #[trigger] r[i] < 10,
            r.len() > 0 ==> rest > 0,
        decreases rest,
    {
        let d: u8 = (rest % 10) as u8;
        proof {
            lemma_value_push(r@, d);
            let p: nat = power_of_ten(r.len() as nat);
            let q: nat = (rest / 10) as nat;
            assert(p * d + (10 * p) * q == p * rest) by (nonlinear_arith)
                requires
                    rest == 10 * q + d,
            ;
        }
        r.push(d);
        rest = rest / 10;
    }
    proof {
        lemma_value_push(r@, rest as u8);
    }
    r.push(rest as u8);
    r
}

/// The digits of twice the number.
fn doubled(ds: &Vec<u8>) -> (r: Vec<u8>)
    requires
        canonical(ds@),
    ensures
        canonical(r@),
        value_up(r@) == 2 * value_up(ds@),
{
    let mut r: Vec<u8> = Vec::new();
    let mut carry: u8 = 0;
    let mut i: usize = 0;
    assert(ds@.skip(0) == ds@);
    assert(power_of_ten(0) * (0 + 2 * value_up(ds@)) == 2 * value_up(ds@)) by (nonlinear_arith)
        requires
            power_of_ten(0) == 1,
    ;
    while i < ds.len()
        invariant
            canonical(ds@),
            i <= ds.len(),
            r.len() == i,
            carry <= 1,
            value_up(r@) + power_of_ten(i as nat) * (carry + 2 * value_up(ds@.skip(i as int))) == 2
                * value_up(ds@),
            forall|j: int| 0 <= j < r.len() ==> #[trigger] r[j] < 10,
            i == ds.len() && i > 1 ==> carry > 0 || r@.last() > 0,
        decreases ds.len() - i,
    {
        let t: u8 = 2 * ds[i] + carry;
        proof {
            let p: nat = power_of_ten(i as nat);
            let v: nat = value_up(ds@.skip(i + 1));
            let c: nat = carry as nat;
            let d: nat = ds[i as int] as nat;
            let lo: nat = (t % 10) as nat;
            let hi: nat = (t / 10) as nat;
            assert(ds@.skip(i as int).skip(1) == ds@.skip(i + 1));
            lemma_value_push(r@, t % 10);
            assert(p * lo + (10 * p) * (hi + 2 * v) == p * (c + 2 * (d + 10 * v)))
                by (nonlinear_arith)
                requires
                    10 * hi + lo == 2 * d + c,
            ;
        }
        r.push(t % 10);
        carry = t / 10;
        i = i + 1;
    }
    assert(ds@.skip(i as int).len() == 0);
    if carry > 0 {
        proof {
            lemma_value_push(r@, carry);
        }
        r.push(carry);
    } else {
        assert(power_of_ten(i as nat) * 0 == 0) by (nonlinear_arith);
    }
    r
}

/// Writes the digits, the highest first.
fn push_digits(out: &mut String, ds: &Vec<u8>)
    requires
        canonical(ds@),
    ensures
        final(out)@ == old(out)@ + dec(value_up(ds@)),
{
    let mut i: usize = ds.len() - 1;
    let ghost start: Seq<char> = out@;
    assert(ds@.skip(i as int).skip(1).len() == 0);
    assert(value_up(ds@.skip(i as int)) == ds[i as int] + 10 * value_up(
        ds@.skip(i as int).skip(1),
    ));
    push_digit(out, ds[i]);
    assert(out@ == start + dec(value_up(ds@.skip(i as int))));
    while i > 0
        invariant
            canonical(ds@),
            i < ds.len(),
            out@ == start + dec(value_up(ds@.skip(i as int))),
        decreases i,
    {
        let ghost v: nat = value_up(ds@.skip(i as int));
        proof {
            assert(ds@.skip(i as int).last() == ds@.last());
            lemma_value_positive(ds@.skip(i as int));
            assert(ds@.skip(i - 1).skip(1) == ds@.skip(i as int));
        }
        i = i - 1;
        push_digit(out, ds[i]);
        assert(out@ == start + dec(value_up(ds@.skip(i as int))));
    }
    assert(ds@.skip(0) == ds@);
}

/// Writes `m * 2^e` in decimal.
fn push_shifted(out: &mut String, m: u64, e: i32)
    requires
        0 <= e,
    ensures
        final(out)@ == old(out)@ + dec(m as nat * pow2(e as nat)),
{
    let mut ds: Vec<u8> = digits_of(m);
    let mut i: i32 = 0;
    proof {
        lemma_up_zero();
        assert(m as nat * pow2(0) == m) by (nonlinear_arith)
            requires
                pow2(0) == 1,
        ;
    }
    while i < e
        invariant
            0 <= i <= e,
            canonical(ds@),
            value_up(ds@) == m as nat * pow2(i as nat),
        decreases e - i,
    {
        proof {
            lemma_pow2_unfold((i + 1) as nat);
            let p: nat = pow2(i as nat);
            assert(m as nat * (2 * p) == 2 * (m as nat * p)) by (nonlinear_arith);
        }
        ds = doubled(&ds);
        i = i + 1;
    }
    push_digits(out, &ds);
}

/// The tenths of a number below one, or with bits after the point.
fn small_tenths(x: Binary64) -> (r: u64)
    requires
        x.mant < MANT_END,
        x.exp < 0,
    ensures
        r == tenths(x@),
{
    let ghost m: nat = 10 * x@.num();
    let ghost d: nat = x@.den();
    proof {
        lemma_up_zero();
        vstd::arithmetic::power2::lemma2_to64();
        assert(x@.num() == x.mant) by (nonlinear_arith)
            requires
                x@.num() == x.mant * up(x.exp as int),
                up(x.exp as int) == 1,
        ;
    }
    if x.exp <= -64 {
        proof {
            if x.exp < -64 {
                lemma_pow2_strictly_increases(64, (-x.exp) as nat);
            }
            assert(m / d == 0 && m % d == m) by (nonlinear_arith)
                requires
                    m < d,
            ;
        }
        return 0;
    }
    let p: u128 = power_of_two(-x.exp);
    proof {
        lemma_pow2_strictly_increases((-x.exp) as nat, 64);
    }
    let n: u128 = 10 * x.mant as u128;
    let q: u128 = n / p;
    let r: u128 = n % p;
    assert(q <= n) by (nonlinear_arith)
        requires
            q == n / p,
            p >= 1,
    ;
    if 2 * r < p || (2 * r == p && q % 2 == 0) {
        q as u64
    } else {
        q as u64 + 1
    }
}

/// Writes `x` with one digit after the point.
pub fn push_one_decimal(out: &mut String, x: Binary64)
    requires
        x.mant < MANT_END,
    ensures
        final(out)@ == old(out)@ + one_decimal(x@),
{
    proof {
        lemma_up_zero();
        reveal_strlit(".");
    }
    assert("."@ == seq!['.']);
    let ghost start: Seq<char> = out@;
    if x.exp >= 0 {
        let ghost n: nat = x@.num();
        proof {
            assert(round_half_even(10 * n, 1) == 10 * n) by {
                assert((10 * n) / 1 == 10 * n && (10 * n) % 1 == 0) by (nonlinear_arith);
            }
            assert((10 * n) / 10 == n && (10 * n) % 10 == 0) by (nonlinear_arith);
        }
        push_shifted(out, x.mant, x.exp);
        out.append(".");
        push_digit(out, 0);
        assert(out@ == start + one_decimal(x@));
    } else {
        let t: u64 = small_tenths(x);
        crate::numbers::push_u64(out, t / 10);
        out.append(".");
        push_digit(out, (t % 10) as u8);
        assert(out@ == start + one_decimal(x@));
    }
}

/// The text is that of `n` tenths: digits, a point, and one digit behind it.
pub open spec fn shows_tenths(s: Seq<char>, n: nat) -> bool {
    &&& s.len() >= 3
    &&& s[s.len() - 2] == '.'
    &&& natural(s.take(s.len() - 2).push(s.last()), 10, n) == Some(n)
}

/// The number that is written is the nearest with one digit behind the point; of two that are
/// as near it is the even one.
pub proof fn decimals_are_the_nearest(x: Dyadic)
    ensures
        shows_tenths(one_decimal(x), tenths(x)),
        ({
            let error: int = 2 * (tenths(x) * x.den() - 10 * x.num());
            &&& -(x.den() as int) <= error <= x.den()
            &&& error == x.den() || error == -(x.den() as int) ==> tenths(x) % 2 == 0
        }),
{
    lemma_up_pos(-x.exp);
    lemma_round_half_even_error(10 * x.num(), x.den());
    let t: nat = tenths(x);
    let s: Seq<char> = one_decimal(x);
    let q: Seq<char> = dec(t / 10);
    numbers_can_be_read_back(t / 10);
    assert(s.take(s.len() - 2) == q);
    let u: Seq<char> = q.push(digit(t % 10));
    assert(s.last() == digit(t % 10));
    assert(u.drop_last() == q);
    assert(u[0] == q[0]);
    assert(all_digits(u, 10)) by {
        assert forall|i: int| 0 <= i < u.len() implies digit_value(#[trigger] u[i]) < 10 by {
            if i < q.len() {
                assert(u[i] == q[i]);
            }
        }
    }
    assert(value_of(u, 10) == t);
}

} // verus!
