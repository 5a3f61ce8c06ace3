//! Network transfer rates and memory sizes, as the panel shows them.
use crate::binary64::{
    at_least, difference, halved, lemma_nearest_exact, lemma_nearest_normal, lemma_nearest_order,
    lemma_nearest_ratio, lemma_of_nat_exact, lemma_up_pos, lemma_up_zero, nearest, of_nat, pos,
    quotient, sum, up, Binary64, Dyadic, MANT_END,
};
use crate::close::{
    is_near, lemma_close_wider, lemma_near_positive, lemma_nearest_is_close, lemma_quotient_near,
    lemma_sum_near,
};
use crate::decimal::{
    decimals_are_the_nearest, one_decimal, push_one_decimal, shows_tenths, tenths,
};
use crate::procfs::minus;
use vstd::arithmetic::power2::{lemma2_to64, lemma_pow2_adds, lemma_pow2_pos, pow2};
use vstd::prelude::*;

verus! {

broadcast use vstd::string::group_string_axioms;

/// A time in seconds, as a double.
pub open spec fn seconds(secs: u64, nanos: u32) -> Dyadic {
    sum(of_nat(secs as nat), quotient(of_nat(nanos as nat), of_nat(1_000_000_000)))
}

/// The rate at which a counter went from `prev` to `cur`, per second. Without elapsed time,
/// and where the counter went back, it is zero.
pub open spec fn rate_of(prev: u64, cur: u64, secs: u64, nanos: u32) -> Dyadic {
    if seconds(secs, nanos).mant == 0 {
        Dyadic { mant: 0, exp: 0 }
    } else {
        quotient(of_nat(minus(cur, prev)), seconds(secs, nanos))
    }
}

/// The rate at which a counter went from `prev` to `cur`, per second.
pub fn transfer_rate(prev: u64, cur: u64, secs: u64, nanos: u32) -> (r: Binary64)
    ensures
        r.wf(),
        r@ == rate_of(prev, cur, secs, nanos),
{
    let fraction: Binary64 = Binary64::from_u64(nanos as u64).div(
        Binary64::from_u64(1_000_000_000),
    );
    let elapsed: Binary64 = Binary64::from_u64(secs).add(fraction);
    if elapsed.mant == 0 {
        return Binary64 { mant: 0, exp: 0 };
    }
    Binary64::from_u64(cur.saturating_sub(prev)).div(elapsed)
}

/// `x` is less than `c`.
pub open spec fn is_less(x: Dyadic, c: nat) -> bool {
    x.num() < c * x.den()
}

/// The text of a rate in bytes per second: in K/s below 1024000, in M/s below 1048576000,
/// and otherwise in G/s, with one digit after the point.
pub open spec fn rate_text(x: Dyadic) -> Seq<char> {
    if is_less(x, 1_024_000) {
        one_decimal(halved(x, 10)) + "K/s"@
    } else if is_less(x, 1_048_576_000) {
        one_decimal(halved(x, 20)) + "M/s"@
    } else {
        one_decimal(halved(x, 30)) + "G/s"@
    }
}

/// The text of a rate in bytes per second.
pub fn format_rate(bytes_per_sec: Binary64) -> (r: String)
    requires
        bytes_per_sec.wf(),
    ensures
        r@ == rate_text(bytes_per_sec@),
{
    let mut r: String = String::new();
    if bytes_per_sec.is_below(1_024_000) {
        push_one_decimal(&mut r, bytes_per_sec.halve(10));
        r.append("K/s");
    } else if bytes_per_sec.is_below(1_048_576_000) {
        push_one_decimal(&mut r, bytes_per_sec.halve(20));
        r.append("M/s");
    } else {
        push_one_decimal(&mut r, bytes_per_sec.halve(30));
        r.append("G/s");
    }
    assert(r@ == rate_text(bytes_per_sec@));
    r
}

/// Dividing by `2^k` and multiplying by it again gives the same value.
proof fn lemma_halved_value(x: Dyadic, k: nat)
    requires
        x.mant > 0,
    ensures
        halved(x, k).num() * pow2(k) * x.den() == x.num() * halved(x, k).den(),
{
    let e: int = x.exp;
    let a: nat = up(e - k);
    let b: nat = up(-e);
    let c: nat = up(e);
    let d: nat = up(k - e);
    lemma_pow2_adds(pos(e - k), k);
    lemma_pow2_adds(pos(e - k) + k, pos(-e));
    lemma_pow2_adds(pos(e), pos(k - e));
    assert(pos(e - k) + k + pos(-e) == pos(e) + pos(k - e));
    assert(x.mant * a * pow2(k) * b == x.mant * c * d) by (nonlinear_arith)
        requires
            a * pow2(k) * b == c * d,
    ;
}

proof fn lemma_tenths_bound(x: Dyadic, k: nat, c: nat)
    requires
        is_less(x, c * pow2(k)),
    ensures
        tenths(halved(x, k)) <= 10 * c,
{
    let h: Dyadic = halved(x, k);
    lemma_up_pos(-x.exp);
    lemma_up_pos(-h.exp);
    let (n, d, p): (int, int, int) = (h.num() as int, h.den() as int, pow2(k) as int);
    if x.mant == 0 {
        assert(0nat * up(x.exp) == 0) by (nonlinear_arith);
        assert(c > 0) by (nonlinear_arith)
            requires
                0 < c * p * d,
        ;
        assert(n < c * d) by (nonlinear_arith)
            requires
                n == 0,
                c > 0,
                d > 0,
        ;
    } else {
        lemma_halved_value(x, k);
        lemma_pow2_pos(k);
        let (m, e): (int, int) = (x.num() as int, x.den() as int);
        assert(n < c * d) by (nonlinear_arith)
            requires
                n * p * e == m * d,
                m < c * p * e,
                d > 0,
                e > 0,
                p > 0,
        {
            assert(m * d < c * p * e * d);
            assert(n * (p * e) < (c * d) * (p * e));
            assert(p * e > 0);
        }
    }
    assert((10 * n) / d < 10 * c) by (nonlinear_arith)
        requires
            n < c * d,
            d > 0,
    ;
}

/// The unit changes before the number passes a thousand: in K/s and in M/s, 1000.0 is the
/// greatest that is shown.
pub proof fn rates_stay_within_a_thousand(x: Dyadic)
    ensures
        is_less(x, 1_024_000) ==> tenths(halved(x, 10)) <= 10_000,
        is_less(x, 1_048_576_000) ==> tenths(halved(x, 20)) <= 10_000,
{
    lemma2_to64();
    if is_less(x, 1_024_000) {
        lemma_tenths_bound(x, 10, 1000);
    }
    if is_less(x, 1_048_576_000) {
        lemma_tenths_bound(x, 20, 1000);
    }
}

/// A counter that stands still, or was reset, has no rate.
pub proof fn still_counters_have_no_rate(prev: u64, cur: u64, secs: u64, nanos: u32)
    requires
        cur <= prev,
    ensures
        rate_text(rate_of(prev, cur, secs, nanos)) == "0.0K/s"@,
{
    let x: Dyadic = rate_of(prev, cur, secs, nanos);
    let t: Dyadic = seconds(secs, nanos);
    let zero: Dyadic = of_nat(minus(cur, prev));
    lemma_up_zero();
    assert(0nat * up(0) == 0) by (nonlinear_arith);
    assert(zero.num() * t.den() == 0) by (nonlinear_arith)
        requires
            zero.num() == 0,
    ;
    assert(x.mant == 0 && x.exp == 0);
    assert(x.num() == 0 && x.den() == 1);
    assert(tenths(x) == 0);
    reveal_strlit("0.0K/s");
    reveal_strlit("K/s");
    assert(rate_text(x) =~= "0.0K/s"@);
}

/// Kilobytes in gigabytes, as a double.
pub open spec fn gigabytes(kb: u64) -> Dyadic {
    halved(of_nat(kb as nat), 20)
}

/// Kilobytes in gigabytes.
pub fn to_gigabytes(kb: u64) -> (r: Binary64)
    ensures
        r.wf(),
        r@ == gigabytes(kb),
        kb == 0 <==> r.mant == 0,
        kb > 0 ==> -72 <= r.exp <= -8,
{
    Binary64::from_u64(kb).halve(20)
}

/// The gigabytes that are in use, as a double.
pub open spec fn used_gigabytes(total_kb: u64, available_kb: u64) -> Dyadic {
    difference(gigabytes(total_kb), gigabytes(available_kb))
}

/// The gigabytes that are in use.
pub fn to_used_gigabytes(total_kb: u64, available_kb: u64) -> (r: Binary64)
    requires
        available_kb <= total_kb,
    ensures
        r.wf(),
        r@ == used_gigabytes(total_kb, available_kb),
{
    let total: Binary64 = to_gigabytes(total_kb);
    let available: Binary64 = to_gigabytes(available_kb);
    proof {
        lemma_nearest_order(total_kb as nat, 1, available_kb as nat, 1);
        assert(at_least(total@, available@));
    }
    total.sub(available)
}

/// The text of the gigabytes that are in use, with one digit after the point. Where there
/// is no total, what is available stands there as a negative amount.
pub open spec fn used_text(total_kb: u64, available_kb: u64) -> Seq<char> {
    if total_kb == 0 && available_kb > 0 {
        "-"@ + one_decimal(gigabytes(available_kb))
    } else {
        one_decimal(used_gigabytes(total_kb, available_kb))
    }
}

/// Writes the gigabytes that are in use.
pub fn push_used(out: &mut String, total_kb: u64, available_kb: u64)
    requires
        total_kb == 0 || available_kb <= total_kb,
    ensures
        final(out)@ == old(out)@ + used_text(total_kb, available_kb),
{
    let ghost start: Seq<char> = out@;
    if total_kb == 0 && available_kb > 0 {
        out.append("-");
        push_one_decimal(out, to_gigabytes(available_kb));
        assert(out@ == start + used_text(total_kb, available_kb));
    } else {
        push_one_decimal(out, to_used_gigabytes(total_kb, available_kb));
    }
}

/// The tenths of `x / 2^k` that are written are the nearest.
proof fn lemma_halved_tenths(x: Dyadic, k: nat)
    ensures
        ({
            let p: int = pow2(k) as int;
            let error: int = 2 * (tenths(halved(x, k)) * p * x.den() - 10 * x.num());
            -(p * x.den()) <= error <= p * x.den()
        }),
{
    let h: Dyadic = halved(x, k);
    decimals_are_the_nearest(h);
    lemma_up_pos(-h.exp);
    lemma_up_pos(-x.exp);
    lemma_pow2_pos(k);
    let (p, t): (int, int) = (pow2(k) as int, tenths(h) as int);
    let (n, d): (int, int) = (x.num() as int, x.den() as int);
    let (m, e): (int, int) = (h.num() as int, h.den() as int);
    if x.mant == 0 {
        assert(0nat * up(x.exp) == 0) by (nonlinear_arith);
        assert(t == 0) by (nonlinear_arith)
            requires
                2 * (t * e) <= e,
                t >= 0,
                e > 0,
        ;
        assert(0 * p * d == 0 && p * d >= 0) by (nonlinear_arith)
            requires
                p > 0,
                d > 0,
        ;
    } else {
        lemma_halved_value(x, k);
        let q: int = p * d;
        let f: int = t * e - 10 * m;
        let g: int = t * q - 10 * n;
        assert(t * p * d == t * q) by (nonlinear_arith)
            requires
                q == p * d,
        ;
        assert(f * q == g * e) by (nonlinear_arith)
            requires
                m * p * d == n * e,
                q == p * d,
                f == t * e - 10 * m,
                g == t * q - 10 * n,
        {
            assert(m * p * d == m * q);
            assert(f * q == t * e * q - 10 * (m * q));
            assert(g * e == t * q * e - 10 * (n * e));
        }
        assert(q > 0) by (nonlinear_arith)
            requires
                q == p * d,
                p > 0,
                d > 0,
        ;
        assert(-q <= 2 * g && 2 * g <= q) by (nonlinear_arith)
            requires
                f * q == g * e,
                -e <= 2 * f,
                2 * f <= e,
                q > 0,
                e > 0,
        {
            assert(-e * q <= (2 * f) * q);
            assert((2 * f) * q <= e * q);
            assert((2 * f) * q == (2 * g) * e);
            assert((-q) * e <= (2 * g) * e);
            assert((2 * g) * e <= q * e);
        }
    }
}

/// A rate is written in K/s below 1024000 bytes per second, in M/s below 1048576000, and
/// otherwise in G/s; the number is the nearest with one digit behind the point.
pub proof fn rates_are_written_in_their_unit(x: Dyadic)
    ensures
        ({
            let s: Seq<char> = rate_text(x);
            let number: Seq<char> = s.take(s.len() - 3);
            let unit: Seq<char> = s.skip(s.len() - 3);
            let (n, d): (int, int) = (x.num() as int, x.den() as int);
            &&& s.len() > 3
            &&& n < 1_024_000 * d ==> unit == "K/s"@ && exists|t: nat|
                #[trigger] shows_tenths(number, t) && -(1024 * d) <= 2 * (t * 1024 * d - 10 * n)
                    <= 1024 * d
            &&& 1_024_000 * d <= n < 1_048_576_000 * d ==> unit == "M/s"@ && exists|t: nat|
                #[trigger] shows_tenths(number, t) && -(1_048_576 * d) <= 2 * (t * 1_048_576 * d
                    - 10 * n) <= 1_048_576 * d
            &&& 1_048_576_000 * d <= n ==> unit == "G/s"@ && exists|t: nat|
                #[trigger] shows_tenths(number, t) && -(1_073_741_824 * d) <= 2 * (t
                    * 1_073_741_824 * d - 10 * n) <= 1_073_741_824 * d
        }),
{
    reveal_strlit("K/s");
    reveal_strlit("M/s");
    reveal_strlit("G/s");
    lemma2_to64();
    lemma_up_pos(-x.exp);
    let s: Seq<char> = rate_text(x);
    let (n, d): (int, int) = (x.num() as int, x.den() as int);
    if n < 1_024_000 * d {
        let h: Dyadic = halved(x, 10);
        lemma_halved_tenths(x, 10);
        decimals_are_the_nearest(h);
        assert(s.take(s.len() - 3) == one_decimal(h));
        assert(s.skip(s.len() - 3) == "K/s"@);
        assert(shows_tenths(s.take(s.len() - 3), tenths(h)));
    } else if n < 1_048_576_000 * d {
        let h: Dyadic = halved(x, 20);
        lemma_halved_tenths(x, 20);
        decimals_are_the_nearest(h);
        assert(s.take(s.len() - 3) == one_decimal(h));
        assert(s.skip(s.len() - 3) == "M/s"@);
        assert(shows_tenths(s.take(s.len() - 3), tenths(h)));
    } else {
        let h: Dyadic = halved(x, 30);
        lemma_halved_tenths(x, 30);
        decimals_are_the_nearest(h);
        assert(s.take(s.len() - 3) == one_decimal(h));
        assert(s.skip(s.len() - 3) == "G/s"@);
        assert(shows_tenths(s.take(s.len() - 3), tenths(h)));
    }
}

/// A rate is the gain of the counter over the elapsed time, in bytes per second, to within
/// 20 parts in 2^53.
pub proof fn rates_are_bytes_per_second(prev: u64, cur: u64, secs: u64, nanos: u32)
    requires
        prev <= cur,
        secs > 0 || nanos > 0,
    ensures
        ({
            let x: Dyadic = rate_of(prev, cur, secs, nanos);
            let time: int = secs * 1_000_000_000 + nanos;
            let gain: int = (cur - prev) * 1_000_000_000;
            let bound: int = 20 * (gain * x.den());
            -bound <= 0x20_0000_0000_0000 * (x.num() * time - gain * x.den()) <= bound
        }),
{
    let billion: nat = 1_000_000_000;
    let s: Dyadic = of_nat(secs as nat);
    let a: Dyadic = of_nat(nanos as nat);
    let b: Dyadic = of_nat(billion);
    lemma_nearest_is_close(secs as nat, 1);
    lemma_nearest_is_close(nanos as nat, 1);
    lemma_nearest_is_close(billion, 1);
    lemma_nearest_normal(billion, 1);
    let f: Dyadic = quotient(a, b);
    lemma_quotient_near(a, b, nanos as int, 1, billion as int, 1, 1, 1);
    assert(nanos as int * 1 == nanos && 1 * billion as int == billion);
    lemma_close_wider(s.num() as int, s.den() as int, secs as int, 1, 1, 6);
    lemma_sum_near(s, f, secs as int, 1, nanos as int, billion as int, 6);
    let t: Dyadic = seconds(secs, nanos);
    let time: int = secs * 1_000_000_000 + nanos;
    assert(is_near(t, time, billion as int, 8));
    lemma_near_positive(t, time, billion as int, 8);
    let gain: nat = (cur - prev) as nat;
    lemma_nearest_is_close(gain, 1);
    lemma_quotient_near(of_nat(gain), t, gain as int, 1, time, billion as int, 1, 8);
}

/// Without elapsed time there is no rate.
pub proof fn no_time_no_rate(prev: u64, cur: u64)
    ensures
        rate_of(prev, cur, 0, 0).mant == 0,
{
    lemma_up_zero();
    let z: Dyadic = of_nat(0);
    let b: Dyadic = of_nat(1_000_000_000);
    assert(0nat * up(0) == 0) by (nonlinear_arith);
    assert(0 * b.den() == 0 && 0 * z.den() == 0) by (nonlinear_arith);
    let q: Dyadic = quotient(z, b);
    assert(q.mant == 0 && q.exp == 0);
    assert(0 * q.den() == 0) by (nonlinear_arith);
    assert(z.num() * q.den() + q.num() * z.den() == 0);
}

proof fn lemma_gigabytes_value(kb: u64)
    requires
        kb < MANT_END,
    ensures
        gigabytes(kb).num() * 0x10_0000 == kb * gigabytes(kb).den(),
        gigabytes(kb).den() > 0,
        nearest(kb as nat, 0x10_0000) == gigabytes(kb),
{
    let x: Dyadic = of_nat(kb as nat);
    let h: Dyadic = gigabytes(kb);
    lemma_of_nat_exact(kb as nat);
    lemma_up_pos(-h.exp);
    lemma_up_pos(-x.exp);
    lemma2_to64();
    lemma_up_zero();
    if kb > 0 {
        lemma_halved_value(x, 20);
        let (n, d): (int, int) = (x.num() as int, x.den() as int);
        let (m, e): (int, int) = (h.num() as int, h.den() as int);
        assert(m * 0x10_0000 == kb * e) by (nonlinear_arith)
            requires
                m * 0x10_0000 * d == n * e,
                n == kb * d,
                d > 0,
        {
            assert(n * e == (kb * e) * d);
            assert((m * 0x10_0000) * d == (kb * e) * d);
        }
        let b: Binary64 = Binary64 { mant: h.mant as u64, exp: h.exp as i32 };
        assert(b@ == h);
        lemma_nearest_exact(b);
        lemma_nearest_ratio(kb as nat, 0x10_0000, h.num(), h.den());
    } else {
        assert(0nat * up(0) == 0) by (nonlinear_arith);
        assert(0 * h.den() == 0) by (nonlinear_arith);
    }
}

/// What is in use is the total less what is available.
pub proof fn used_is_what_is_not_available(total_kb: u64, available_kb: u64)
    requires
        available_kb <= total_kb < MANT_END,
    ensures
        used_gigabytes(total_kb, available_kb) == gigabytes((total_kb - available_kb) as u64),
{
    let (x, y): (Dyadic, Dyadic) = (gigabytes(total_kb), gigabytes(available_kb));
    let used: u64 = (total_kb - available_kb) as u64;
    lemma_gigabytes_value(total_kb);
    lemma_gigabytes_value(available_kb);
    lemma_gigabytes_value(used);
    let (a, b): (int, int) = (x.num() as int, x.den() as int);
    let (c, d): (int, int) = (y.num() as int, y.den() as int);
    let n: int = a * d - c * b;
    let bd: int = b * d;
    assert(n * 0x10_0000 == used * bd && bd > 0) by (nonlinear_arith)
        requires
            a * 0x10_0000 == total_kb * b,
            c * 0x10_0000 == available_kb * d,
            used == total_kb - available_kb,
            n == a * d - c * b,
            bd == b * d,
            b > 0,
            d > 0,
    {
        assert((a * d) * 0x10_0000 == (a * 0x10_0000) * d);
        assert((c * b) * 0x10_0000 == (c * 0x10_0000) * b);
        assert((total_kb * b) * d == total_kb * bd);
        assert((available_kb * d) * b == available_kb * bd);
        assert(used * bd == total_kb * bd - available_kb * bd);
    }
    assert(n >= 0) by (nonlinear_arith)
        requires
            n * 0x10_0000 == used * bd,
            bd > 0,
    ;
    lemma_nearest_ratio(n as nat, bd as nat, used as nat, 0x10_0000);
}

/// A size in gigabytes is written with the nearest digit behind the point, and so is what is
/// in use: the total less what is available.
pub proof fn sizes_are_the_nearest(total_kb: u64, available_kb: u64)
    requires
        available_kb <= total_kb < MANT_END,
    ensures
        exists|t: nat|
            #[trigger] shows_tenths(one_decimal(gigabytes(total_kb)), t) && -0x10_0000 <= 2 * (t
                * 0x10_0000 - 10 * total_kb) <= 0x10_0000,
        total_kb > 0 ==> exists|t: nat|
            #[trigger] shows_tenths(used_text(total_kb, available_kb), t) && -0x10_0000 <= 2 * (t
                * 0x10_0000 - 10 * (total_kb - available_kb)) <= 0x10_0000,
{
    lemma_size(total_kb);
    let used: u64 = (total_kb - available_kb) as u64;
    lemma_size(used);
    used_is_what_is_not_available(total_kb, available_kb);
    assert(total_kb > 0 ==> shows_tenths(
        used_text(total_kb, available_kb),
        tenths(gigabytes(used)),
    ));
}

proof fn lemma_size(kb: u64)
    requires
        kb < MANT_END,
    ensures
        shows_tenths(one_decimal(gigabytes(kb)), tenths(gigabytes(kb))),
        -0x10_0000 <= 2 * (tenths(gigabytes(kb)) * 0x10_0000 - 10 * kb) <= 0x10_0000,
{
    let h: Dyadic = gigabytes(kb);
    decimals_are_the_nearest(h);
    lemma_gigabytes_value(kb);
    let (t, m, e): (int, int, int) = (tenths(h) as int, h.num() as int, h.den() as int);
    let g: int = t * 0x10_0000 - 10 * kb;
    let f: int = t * e - 10 * m;
    assert(f * 0x10_0000 == g * e) by (nonlinear_arith)
        requires
            f == t * e - 10 * m,
            g == t * 0x10_0000 - 10 * kb,
            m * 0x10_0000 == kb * e,
    ;
    assert(-0x10_0000 <= 2 * g && 2 * g <= 0x10_0000) by (nonlinear_arith)
        requires
            f * 0x10_0000 == g * e,
            -e <= 2 * f,
            2 * f <= e,
            e > 0,
    {
        assert((2 * g) * e == (2 * f) * 0x10_0000);
        assert((2 * g) * e <= 0x10_0000 * e);
        assert(-0x10_0000 * e <= (2 * g) * e);
    }
}

} // verus!
