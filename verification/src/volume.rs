//! The volume of the desktop session, by way of `wpctl`.
use crate::binary64::{
    exponent_field, fraction_field, lemma_up_zero, magnitude, round_half_up, times, up, Binary64,
    Dyadic, MANT_MIN,
};
use crate::close::{lemma_nearest_is_close, lemma_rounded_near};
use crate::numbers::{dec, natural, numbers_can_be_read_back, parse_u32, push_u64};
use crate::text::{
    contains, holds, is_space, is_word, texts, words, words_end_at_white_space, words_of,
};
use vstd::arithmetic::power2::{
    lemma2_to64_rest, lemma_pow2_pos, lemma_pow2_strictly_increases, pow2,
};
use vstd::prelude::*;

verus! {

broadcast use vstd::string::group_string_axioms;

/// An entry of the directory that holds the users' runtime directories.
#[derive(Debug)]
pub struct RuntimeDir {
    /// The entry's name, where it is text.
    pub name: Option<String>,
    /// Whether it holds a PipeWire socket.
    pub has_pipewire: bool,
}

/// The user of a runtime directory with a PipeWire socket.
pub open spec fn session_user(d: RuntimeDir) -> Option<nat> {
    match d.name {
        Some(name) => if d.has_pipewire {
            natural(name@, 10, u32::MAX as nat)
        } else {
            None
        },
        None => None,
    }
}

/// The user of the first directory that belongs to a session.
pub open spec fn first_session(dirs: Seq<RuntimeDir>) -> Option<nat>
    decreases dirs.len(),
{
    if dirs.len() == 0 {
        None
    } else {
        match session_user(dirs[0]) {
            Some(uid) => Some(uid),
            None => first_session(dirs.skip(1)),
        }
    }
}

/// The user of the desktop session: the first whose runtime directory has a PipeWire socket.
pub fn session_uid(dirs: &Vec<RuntimeDir>) -> (r: Option<u32>)
    ensures
        match r {
            Some(uid) => first_session(dirs@) == Some(uid as nat),
            None => first_session(dirs@) is None,
        },
{
    let mut i: usize = 0;
    assert(dirs@.skip(0) == dirs@);
    while i < dirs.len()
        invariant
            i <= dirs.len(),
            first_session(dirs@) == first_session(dirs@.skip(i as int)),
        decreases dirs.len() - i,
    {
        assert(dirs@.skip(i as int).skip(1) == dirs@.skip(i + 1));
        if dirs[i].has_pipewire {
            match &dirs[i].name {
                Some(name) => match parse_u32(name.as_str()) {
                    Some(uid) => {
                        return Some(uid);
                    },
                    None => {},
                },
                None => {},
            }
        }
        i = i + 1;
    }
    None
}

/// A run of `wpctl` as a user.
#[derive(Debug)]
pub struct WpctlCall {
    pub uid: u32,
    /// The value of `XDG_RUNTIME_DIR`.
    pub runtime_dir: String,
    pub args: Vec<String>,
}

/// The texts of the arguments.
pub open spec fn arg_texts(args: Seq<String>) -> Seq<Seq<char>> {
    args.map_values(|s: String| s@)
}

impl WpctlCall {
    /// The call runs as `uid`, in its runtime directory, with the arguments `args`.
    pub open spec fn is_call(self, uid: u32, args: Seq<Seq<char>>) -> bool {
        &&& self.uid == uid
        &&& self.runtime_dir@ == "/run/user/"@ + dec(uid as nat)
        &&& arg_texts(self.args@) == args
    }
}

/// A run of `wpctl` as the user `uid`.
pub fn wpctl(uid: u32, args: Vec<String>) -> (r: WpctlCall)
    ensures
        r.is_call(uid, arg_texts(args@)),
{
    let mut runtime_dir: String = "/run/user/".to_string();
    push_u64(&mut runtime_dir, uid as u64);
    WpctlCall { uid, runtime_dir, args }
}

/// The percentage that is set: the panel's, but no more than a hundred.
pub open spec fn capped(percent: u8) -> nat {
    if percent > 100 {
        100
    } else {
        percent as nat
    }
}

/// The run of `wpctl` that sets the volume, where there is a session.
pub fn set_system_volume(session: Option<u32>, percent: u8) -> (r: Option<WpctlCall>)
    ensures
        match r {
            Some(call) => session matches Some(uid) && call.is_call(
                uid,
                seq![
                    "set-volume"@,
                    "@DEFAULT_AUDIO_SINK@"@,
                    dec(capped(percent)) + "%"@,
                ],
            ),
            None => session is None,
        },
{
    match session {
        Some(uid) => {
            let mut level: String = String::new();
            push_u64(&mut level, if percent > 100 {
                100
            } else {
                percent as u64
            });
            level.append("%");
            let mut args: Vec<String> = Vec::new();
            args.push("set-volume".to_string());
            args.push("@DEFAULT_AUDIO_SINK@".to_string());
            args.push(level);
            assert(level@ == dec(capped(percent)) + "%"@);
            assert(arg_texts(args@) == seq![
                "set-volume"@,
                "@DEFAULT_AUDIO_SINK@"@,
                dec(capped(percent)) + "%"@,
            ]);
            Some(wpctl(uid, args))
        },
        None => None,
    }
}

/// The run of `wpctl` that asks for the volume, where there is a session.
pub fn volume_query(session: Option<u32>) -> (r: Option<WpctlCall>)
    ensures
        match r {
            Some(call) => session matches Some(uid) && call.is_call(
                uid,
                seq!["get-volume"@, "@DEFAULT_AUDIO_SINK@"@],
            ),
            None => session is None,
        },
{
    match session {
        Some(uid) => {
            let mut args: Vec<String> = Vec::new();
            args.push("get-volume".to_string());
            args.push("@DEFAULT_AUDIO_SINK@".to_string());
            assert(arg_texts(args@) == seq!["get-volume"@, "@DEFAULT_AUDIO_SINK@"@]);
            Some(wpctl(uid, args))
        },
        None => None,
    }
}

/// The volume that the double with the bits stands for, in percent: a hundred times it in
/// double precision, rounded to the nearest integer, ties away from zero, within 64 bits.
/// What is not a number is zero.
pub open spec fn level_percent(bits: u64) -> int {
    let p: Dyadic = times(magnitude(bits), 100);
    let r: int = if exponent_field(bits) == 2047 {
        if fraction_field(bits) == 0 {
            0x8000_0000_0000_0000
        } else {
            0
        }
    } else {
        round_half_up(p.num(), p.den()) as int
    };
    if bits >= 0x8000_0000_0000_0000 {
        if r > 0x8000_0000_0000_0000 {
            -0x8000_0000_0000_0000
        } else {
            -r
        }
    } else {
        if r > 0x7fff_ffff_ffff_ffff {
            0x7fff_ffff_ffff_ffff
        } else {
            r
        }
    }
}

/// A number with an exponent above ten is at least 2^63, and an integer.
proof fn lemma_large(x: Binary64)
    requires
        x.wf(),
        x.exp > 10,
    ensures
        round_half_up(x@.num(), x@.den()) >= 0x8000_0000_0000_0000,
{
    lemma_up_zero();
    vstd::arithmetic::power2::lemma2_to64();
    if x.exp > 11 {
        vstd::arithmetic::power2::lemma_pow2_strictly_increases(11, x.exp as nat);
    }
    let n: int = x@.num() as int;
    assert(n >= 0x8000_0000_0000_0000) by (nonlinear_arith)
        requires
            n == x.mant * up(x.exp as int),
            x.mant >= 0x10_0000_0000_0000,
            up(x.exp as int) >= 2048,
    ;
    assert(x@.den() == 1);
    assert((2 * n + 1) / 2 == n) by (nonlinear_arith);
}

/// The volume that the double with the bits stands for, in percent.
pub fn volume_percent(bits: u64) -> (r: i64)
    ensures
        r == level_percent(bits),
{
    let negative: bool = bits >= 0x8000_0000_0000_0000;
    let r: u64 = match Binary64::from_bits(bits) {
        Some(x) => {
            let p: Binary64 = x.mul(100);
            if p.exp > 10 {
                proof {
                    lemma_large(p);
                }
                0x8000_0000_0000_0000
            } else {
                p.round()
            }
        },
        None => if bits % MANT_MIN == 0 {
            0x8000_0000_0000_0000
        } else {
            0
        },
    };
    if negative {
        if r >= 0x8000_0000_0000_0000 {
            i64::MIN
        } else {
            -(r as i64)
        }
    } else {
        if r > 0x7fff_ffff_ffff_ffff {
            i64::MAX
        } else {
            r as i64
        }
    }
}

/// The word of `wpctl`'s report that gives the volume: its second, unless the sink is muted.
pub open spec fn level_word(report: Option<&str>) -> Option<Seq<char>> {
    match report {
        Some(text) => if !holds(text@, "[MUTED]"@) && words_of(text@).len() >= 2 {
            Some(words_of(text@)[1])
        } else {
            None
        },
        None => None,
    }
}

/// `f` may read the word, where there is one, as the double with the bits, or as no number.
pub open spec fn may_read<F: Fn(&str) -> Option<u64>>(
    f: F,
    word: Option<Seq<char>>,
    bits: Option<u64>,
) -> bool {
    match word {
        Some(w) => exists|s: &str| s@ == w && #[trigger] call_ensures(f, (s,), bits),
        None => bits is None,
    }
}

/// The volume that the double with the bits stands for, zero where there is none.
pub open spec fn reported_percent(bits: Option<u64>) -> int {
    match bits {
        Some(b) => level_percent(b),
        None => 0,
    }
}

/// The volume that `wpctl` reports, in percent. Without a report, with the sink muted, or
/// where `read` finds no number, it is zero. `read` gives the bits of the double that a word
/// denotes.
pub fn system_volume_percent<F: Fn(&str) -> Option<u64>>(report: Option<&str>, read: F) -> (r: i64)
    requires
        forall|s: &str| #[trigger] call_requires(read, (s,)),
    ensures
        exists|bits: Option<u64>|
            #[trigger] may_read(read, level_word(report), bits) && r == reported_percent(bits),
{
    let bits: Option<u64> = match report {
        Some(text) => {
            if contains(text, "[MUTED]") {
                None
            } else {
                let ws: Vec<&str> = words(text);
                assert(texts(ws@).len() == ws.len());
                if ws.len() < 2 {
                    None
                } else {
                    assert(texts(ws@)[1] == ws[1]@);
                    let b: Option<u64> = read(ws[1]);
                    assert(call_ensures(read, (ws[1],), b));
                    b
                }
            }
        },
        None => None,
    };
    assert(may_read(read, level_word(report), bits));
    match bits {
        Some(b) => volume_percent(b),
        None => 0,
    }
}

/// Up to 256 a volume is shown as its nearest whole percentage: the double with the exponent
/// field `e` and the fraction `f` is `(2^52 + f) / 2^(1075 - e)`. A negative volume mirrors it,
/// and zero is zero.
pub proof fn volumes_are_the_nearest(bits: u64, e: int, f: int)
    requires
        1 <= e <= 1030,
        0 <= f < 0x10_0000_0000_0000,
        bits == e * 0x10_0000_0000_0000 + f,
    ensures
        ({
            let n: int = 100 * (0x10_0000_0000_0000 + f);
            let d: int = pow2((1075 - e) as nat) as int;
            let error: int = 2 * (level_percent(bits) * d - n);
            let bound: int = 0x20_0000_0000_0000 * d + 2 * n;
            -bound <= 0x20_0000_0000_0000 * error <= bound
        }),
        level_percent((bits + 0x8000_0000_0000_0000) as u64) == -level_percent(bits),
        level_percent(0) == 0,
{
    lemma_fields(bits, e, f);
    let negative: u64 = (bits + 0x8000_0000_0000_0000) as u64;
    lemma_fields(negative, e, f);
    let m: Dyadic = magnitude(bits);
    let d: int = pow2((1075 - e) as nat) as int;
    lemma_up_zero();
    assert(m.den() == d);
    assert(m.num() == 0x10_0000_0000_0000 + f) by {
        assert((0x10_0000_0000_0000 + f) * 1 == 0x10_0000_0000_0000 + f);
    }
    lemma_pow2_pos((1075 - e) as nat);
    let p: Dyadic = times(m, 100);
    lemma_nearest_is_close(m.num() * 100, m.den());
    let n: int = 100 * (0x10_0000_0000_0000 + f);
    lemma_rounded_near(p, n, d, 1);
    let r: int = round_half_up(p.num(), p.den()) as int;
    lemma2_to64_rest();
    if 1075 - e > 45 {
        lemma_pow2_strictly_increases(45, (1075 - e) as nat);
    }
    assert(d >= 0x2000_0000_0000);
    assert(r < 0x1_0000_0000) by (nonlinear_arith)
        requires
            0x20_0000_0000_0000 * (2 * (r * d - n)) <= 0x20_0000_0000_0000 * d + 2 * n,
            n <= 100 * 0x20_0000_0000_0000,
            d >= 0x2000_0000_0000,
    {
        assert(n <= 25600 * d);
        assert(r * d <= 26000 * d);
    }
    lemma_fields(0, 0, 0);
    let z: Dyadic = magnitude(0);
    assert(z.mant == 0 && z.exp == 0);
    assert(0nat * up(0) == 0) by (nonlinear_arith);
    let zero: Dyadic = times(z, 100);
    assert(zero.mant == 0 && zero.exp == 0);
    assert((2 * 0nat + 1) / (2 * 1nat) == 0) by (nonlinear_arith);
}

proof fn lemma_fields(bits: u64, e: int, f: int)
    requires
        0 <= e < 2048,
        0 <= f < 0x10_0000_0000_0000,
        bits == e * 0x10_0000_0000_0000 + f || bits == e * 0x10_0000_0000_0000 + f
            + 0x8000_0000_0000_0000,
    ensures
        exponent_field(bits) == e,
        fraction_field(bits) == f,
{
}

/// The first runtime directory with a socket whose name is a user's number is the session's.
pub proof fn first_sessions_count(d: RuntimeDir, rest: Seq<RuntimeDir>, uid: u32)
    ensures
        d.has_pipewire && (d.name matches Some(name) && name@ == dec(uid as nat))
            ==> first_session(seq![d] + rest) == Some(uid as nat),
        !d.has_pipewire || d.name is None ==> first_session(seq![d] + rest) == first_session(rest),
        d.name matches Some(name) ==> (natural(name@, 10, u32::MAX as nat) is None
            ==> first_session(seq![d] + rest) == first_session(rest)),
        first_session(Seq::<RuntimeDir>::empty()) is None,
{
    assert((seq![d] + rest).skip(1) == rest);
    numbers_can_be_read_back(uid as nat);
}

/// A percentage is set as it is, up to a hundred.
pub proof fn percentages_are_capped(percent: u8)
    ensures
        percent <= 100 ==> capped(percent) == percent,
        percent >= 100 ==> capped(percent) == 100,
{
}

/// The level is the second word of the report. A report that says that the sink is muted, or
/// that has fewer words, gives none.
pub proof fn levels_are_second_words(
    text: &str,
    first: Seq<char>,
    c: char,
    level: Seq<char>,
    d: char,
    rest: Seq<char>,
)
    requires
        is_word(first),
        is_word(level),
        is_space(c),
        is_space(d),
    ensures
        !holds(text@, "[MUTED]"@) && text@ == first.push(c) + (level.push(d) + rest) ==> level_word(
            Some(text),
        ) == Some(level),
        !holds(text@, "[MUTED]"@) && text@ == first.push(c) + level ==> level_word(Some(text))
            == Some(level),
        holds(text@, "[MUTED]"@) ==> level_word(Some(text)) is None,
        text@ == first ==> level_word(Some(text)) is None,
        level_word(None) is None,
{
    words_end_at_white_space(first, c, level.push(d) + rest);
    words_end_at_white_space(level, d, rest);
    words_end_at_white_space(first, c, level);
    assert((seq![first] + (seq![level] + words_of(rest)))[1] == level);
    assert((seq![first] + seq![level])[1] == level);
}

/// Each argument is seen as its text.
pub proof fn arguments_are_seen_one_for_one(args: Seq<String>, i: int)
    requires
        0 <= i < args.len(),
    ensures
        arg_texts(args).len() == args.len(),
        arg_texts(args)[i] == args[i]@,
{
}

/// A call runs as its user, in that user's runtime directory, with its arguments.
pub proof fn calls_run_as_their_user(call: WpctlCall, uid: u32, args: Seq<Seq<char>>)
    requires
        call.is_call(uid, args),
    ensures
        call.uid == uid,
        call.runtime_dir@ == "/run/user/"@ + dec(uid as nat),
        call.args.len() == args.len(),
        forall|i: int| 0 <= i < args.len() ==> (#[trigger] call.args[i])@ == args[i],
{
    assert(arg_texts(call.args@).len() == call.args.len());
    assert forall|i: int| 0 <= i < args.len() implies (#[trigger] call.args[i])@ == args[i] by {
        assert(arg_texts(call.args@)[i] == call.args[i]@);
    }
}

/// What can be read is shown, and what cannot counts as zero. A reader that has one answer for
/// a word gives that answer.
pub proof fn readers_are_believed<F: Fn(&str) -> Option<u64>>(
    f: F,
    word: Seq<char>,
    bits: Option<u64>,
    answer: Option<u64>,
)
    requires
        forall|s: &str, b: Option<u64>| s@ == word && #[trigger] call_ensures(f, (s,), b) ==> b
            == answer,
    ensures
        may_read(f, Some(word), bits) ==> bits == answer,
        may_read(f, None, bits) ==> bits is None,
        bits matches Some(b) ==> reported_percent(bits) == level_percent(b),
        reported_percent(None) == 0,
{
}

} // verus!
