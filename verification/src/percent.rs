//! Whole percentages.
use crate::binary64::{
    at_least, lemma_at_least_value, lemma_nearest_at, lemma_nearest_normal, lemma_nearest_order,
    lemma_nearest_ratio, lemma_up_pos, lemma_up_zero, nearest, of_nat, quotient, round_half_up,
    times, up, Binary64, Dyadic,
};
use crate::close::{is_close, lemma_close_chain, lemma_close_scaled, lemma_nearest_is_close};
use vstd::prelude::*;

verus! {

/// `part` as a whole percentage of `whole`: the quotient in double precision, times a
/// hundred, rounded to the nearest integer, ties away from zero.
pub open spec fn percent_of(part: nat, whole: nat) -> nat {
    let p: Dyadic = times(quotient(of_nat(part), of_nat(whole)), 100);
    round_half_up(p.num(), p.den())
}

proof fn lemma_round_half_up_order(a: nat, b: nat, c: nat, d: nat)
    requires
        b > 0,
        d > 0,
        a * d >= c * b,
    ensures
        round_half_up(a, b) >= round_half_up(c, d),
{
    let x: int = (2 * a + b) as int;
    let y: int = 2 * b as int;
    let z: int = (2 * c + d) as int;
    let w: int = 2 * d as int;
    let q: int = z / w;
    assert(x * w >= z * y) by (nonlinear_arith)
        requires
            x == 2 * a + b,
            y == 2 * b,
            z == 2 * c + d,
            w == 2 * d,
            a * d >= c * b,
    ;
    assert(q * w <= z) by (nonlinear_arith)
        requires
            q == z / w,
            w > 0,
    ;
    assert(q * y <= x) by (nonlinear_arith)
        requires
            q * w <= z,
            x * w >= z * y,
            w > 0,
            y > 0,
    {
        assert(q * w * y <= z * y);
        assert(q * y * w <= x * w);
    }
    assert(x / y >= q) by (nonlinear_arith)
        requires
            q * y <= x,
            y > 0,
    ;
}

proof fn lemma_round_half_up_value(a: nat, b: nat, q: nat)
    requires
        2 * q * b <= 2 * a + b < 2 * q * b + 2 * b,
    ensures
        round_half_up(a, b) == q,
{
    let x: int = (2 * a + b) as int;
    let y: int = 2 * b as int;
    assert(2 * q * b == q * y) by (nonlinear_arith)
        requires
            y == 2 * b,
    ;
    assert(x / y == q) by (nonlinear_arith)
        requires
            q * y <= x,
            x < q * y + y,
    ;
}

/// The double that a percentage rounds to an integer.
spec fn scaled_quotient(part: nat, whole: nat) -> Dyadic {
    times(quotient(of_nat(part), of_nat(whole)), 100)
}

proof fn lemma_scaled_quotient_order(a: nat, b: nat, whole: nat)
    requires
        a <= b,
        whole > 0,
    ensures
        at_least(scaled_quotient(b, whole), scaled_quotient(a, whole)),
{
    let x: Dyadic = of_nat(b);
    let y: Dyadic = of_nat(a);
    let w: Dyadic = of_nat(whole);
    lemma_nearest_normal(a, 1);
    lemma_nearest_normal(b, 1);
    lemma_nearest_normal(whole, 1);
    lemma_nearest_order(b, 1, a, 1);
    lemma_at_least_value(x, y);
    lemma_up_pos(-x.exp);
    lemma_up_pos(-y.exp);
    lemma_up_pos(w.exp);
    lemma_up_pos(-w.exp);
    let wn: nat = w.num();
    let wd: nat = w.den();
    let xn: nat = x.num();
    let xd: nat = x.den();
    let yn: nat = y.num();
    let yd: nat = y.den();
    assert(wn > 0) by (nonlinear_arith)
        requires
            wn == w.mant * up(w.exp),
            w.mant > 0,
            up(w.exp) > 0,
    ;
    assert(xd * wn > 0 && yd * wn > 0) by (nonlinear_arith)
        requires
            xd > 0,
            yd > 0,
            wn > 0,
    ;
    assert((xn * wd) * (yd * wn) >= (yn * wd) * (xd * wn)) by (nonlinear_arith)
        requires
            xn * yd >= yn * xd,
    {
        assert((xn * wd) * (yd * wn) == (xn * yd) * (wd * wn));
        assert((yn * wd) * (xd * wn) == (yn * xd) * (wd * wn));
    }
    lemma_nearest_order(xn * wd, xd * wn, yn * wd, yd * wn);
    lemma_nearest_normal(xn * wd, xd * wn);
    lemma_nearest_normal(yn * wd, yd * wn);
    let p: Dyadic = quotient(x, w);
    let q: Dyadic = quotient(y, w);
    lemma_at_least_value(p, q);
    lemma_up_pos(-p.exp);
    lemma_up_pos(-q.exp);
    let pn: nat = p.num();
    let pd: nat = p.den();
    let qn: nat = q.num();
    let qd: nat = q.den();
    assert((pn * 100) * qd >= (qn * 100) * pd) by (nonlinear_arith)
        requires
            pn * qd >= qn * pd,
    ;
    lemma_nearest_order(pn * 100, pd, qn * 100, qd);
}

/// A hundred percent, as a double.
spec fn hundred() -> Dyadic {
    Dyadic { mant: 0x19_0000_0000_0000, exp: -46 }
}

proof fn lemma_whole(whole: nat)
    requires
        whole > 0,
    ensures
        scaled_quotient(whole, whole) == hundred(),
        percent_of(whole, whole) == 100,
{
    let w: Dyadic = of_nat(whole);
    lemma_nearest_normal(whole, 1);
    lemma_up_pos(w.exp);
    lemma_up_pos(-w.exp);
    lemma_up_zero();
    vstd::arithmetic::power2::lemma2_to64();
    vstd::arithmetic::power2::lemma2_to64_rest();
    let n: nat = w.num();
    let d: nat = w.den();
    assert(n > 0) by (nonlinear_arith)
        requires
            n == w.mant * up(w.exp),
            w.mant > 0,
            up(w.exp) > 0,
    ;
    assert(d * n > 0 && n * d == d * n) by (nonlinear_arith)
        requires
            d > 0,
            n > 0,
    ;
    lemma_nearest_ratio(n * d, d * n, 1, 1);
    lemma_nearest_at(1, 1, -52, 0x10_0000_0000_0000, 1);
    assert(quotient(w, w) == (Dyadic { mant: 0x10_0000_0000_0000, exp: -52 }));
    lemma_nearest_at(
        0x10_0000_0000_0000 * 100,
        0x10_0000_0000_0000,
        -46,
        0x19_0000_0000_0000,
        1,
    );
    let h: Dyadic = hundred();
    assert(h.num() == 0x19_0000_0000_0000) by (nonlinear_arith)
        requires
            h.num() == h.mant * up(-46),
            h.mant == 0x19_0000_0000_0000,
            up(-46) == 1,
    ;
    lemma_round_half_up_value(h.num(), h.den(), 100);
}

/// A part is between none and a hundred percent of the whole, and the whole is a hundred.
pub proof fn percent_is_within_bounds(part: nat, whole: nat)
    requires
        part <= whole,
        whole > 0,
    ensures
        0 <= percent_of(part, whole) <= 100,
        percent_of(0, whole) == 0,
        percent_of(whole, whole) == 100,
{
    lemma_whole(whole);
    percent_grows_with_the_part(part, whole, whole);
    lemma_nearest_normal(whole, 1);
    lemma_up_zero();
    let w: Dyadic = of_nat(whole);
    assert((0 * up(0)) * w.den() == 0) by (nonlinear_arith);
    assert((0 * up(0)) * 100 == 0) by (nonlinear_arith);
    lemma_round_half_up_value(0, 1, 0);
}

/// `100 * part / whole` in double precision is close to its exact value.
proof fn lemma_scaled_quotient_is_close(part: nat, whole: nat)
    requires
        whole > 0,
    ensures
        is_close(
            scaled_quotient(part, whole).num() as int,
            scaled_quotient(part, whole).den() as int,
            100 * part as int,
            whole as int,
            8,
        ),
{
    let x: Dyadic = of_nat(part);
    let w: Dyadic = of_nat(whole);
    lemma_nearest_is_close(part, 1);
    lemma_nearest_is_close(whole, 1);
    lemma_nearest_normal(whole, 1);
    lemma_up_pos(w.exp);
    let (a, b): (int, int) = (x.num() as int, x.den() as int);
    let (c, d): (int, int) = (w.num() as int, w.den() as int);
    assert(c > 0) by (nonlinear_arith)
        requires
            c == w.mant * up(w.exp),
            w.mant > 0,
            up(w.exp) > 0,
    ;
    // d / c is close to 1 / whole.
    let (p, n): (int, int) = (part as int, whole as int);
    assert(is_close(d, c, 1, n, 2)) by {
        let g: int = n * d;
        assert(1 * c == c && c * 1 == c && p * 1 == p && d * n == g) by (nonlinear_arith)
            requires
                g == n * d,
        ;
        assert(1 * (n * d) == g);
    }
    // The quotient of the doubles is close to that of the numbers.
    lemma_close_scaled(a, b, p, 1, 1, d, c);
    lemma_close_scaled(d, c, 1, n, 2, p, 1);
    assert(d * p == p * d && c * 1 == 1 * c && 1 * p == p && n * 1 == n) by (nonlinear_arith);
    lemma_close_chain(a * d, b * c, p * d, 1 * c, p, n, 1, 2);
    // So is the double nearest to it, and a hundred times that.
    let q: Dyadic = quotient(x, w);
    assert(b * c > 0) by (nonlinear_arith)
        requires
            b > 0,
            c > 0,
    ;
    lemma_nearest_is_close(x.num() * w.den(), x.den() * w.num());
    lemma_close_chain(q.num() as int, q.den() as int, a * d, b * c, p, n, 1, 4);
    lemma_close_scaled(q.num() as int, q.den() as int, p, n, 6, 100, 1);
    let r: Dyadic = times(q, 100);
    lemma_nearest_is_close(q.num() * 100, q.den());
    assert(q.den() * 1 == q.den() && n * 1 == n && p * 100 == 100 * p) by (nonlinear_arith);
    lemma_close_chain(
        r.num() as int,
        r.den() as int,
        q.num() as int * 100,
        q.den() as int,
        100 * p,
        n,
        1,
        6,
    );
}

/// The percentage is the nearest whole one: it is off by half a percent at most.
pub proof fn percent_is_nearest(part: nat, whole: nat)
    requires
        part <= whole,
        0 < whole <= 0x1_0000_0000,
    ensures
        -(whole as int) <= 2 * (percent_of(part, whole) * whole - 100 * part) <= whole,
{
    lemma_scaled_quotient_is_close(part, whole);
    let x: Dyadic = scaled_quotient(part, whole);
    let (c, d): (int, int) = (x.num() as int, x.den() as int);
    let (p, n): (int, int) = (part as int, whole as int);
    let r: int = percent_of(part, whole) as int;
    assert(-d <= 2 * d * r - 2 * c && 2 * d * r - 2 * c <= d) by (nonlinear_arith)
        requires
            r == (2 * c + d) / (2 * d),
            d > 0,
    ;
    let f: int = c * n - (100 * p) * d;
    let g: int = (100 * p) * d;
    assert(-d < 2 * f && 2 * f < d) by (nonlinear_arith)
        requires
            -(8 * g) <= 0x20_0000_0000_0000 * f,
            0x20_0000_0000_0000 * f <= 8 * g,
            g == (100 * p) * d,
            0 <= p <= 0x1_0000_0000,
            d > 0,
    {
        assert(p * d <= 0x1_0000_0000 * d);
        assert(8 * g == 800 * (p * d));
    }
    let e: int = 2 * (r * n - 100 * p);
    assert(e * d == n * (2 * d * r - 2 * c) + 2 * f) by (nonlinear_arith)
        requires
            e == 2 * (r * n - 100 * p),
            f == c * n - (100 * p) * d,
    ;
    assert(-n <= e && e <= n) by (nonlinear_arith)
        requires
            e * d == n * (2 * d * r - 2 * c) + 2 * f,
            -d <= 2 * d * r - 2 * c,
            2 * d * r - 2 * c <= d,
            -d < 2 * f,
            2 * f < d,
            d > 0,
            n > 0,
    {
        let k: int = 2 * d * r - 2 * c;
        assert(-(n * d) <= n * k && n * k <= n * d);
        assert(e * d < n * d + d);
        assert(e * d < (n + 1) * d);
        assert(e < n + 1);
        assert(e * d > -(n * d) - d);
        assert(e * d > (-n - 1) * d);
        assert(e > -n - 1);
    }
}

/// Of any whole the percentage is nearly the nearest: it is off by half a percent, and by a
/// few parts in 2^53 of itself more.
pub proof fn percent_is_almost_nearest(part: nat, whole: nat)
    requires
        whole > 0,
    ensures
        ({
            let error: int = 2 * (percent_of(part, whole) * whole - 100 * part);
            let bound: int = 0x20_0000_0000_0000 * whole as int + 1600 * part as int;
            -bound <= 0x20_0000_0000_0000 * error <= bound
        }),
{
    lemma_scaled_quotient_is_close(part, whole);
    let x: Dyadic = scaled_quotient(part, whole);
    let (c, d): (int, int) = (x.num() as int, x.den() as int);
    let (p, n): (int, int) = (part as int, whole as int);
    let r: int = percent_of(part, whole) as int;
    let k: int = 2 * d * r - 2 * c;
    assert(-d <= k && k <= d) by (nonlinear_arith)
        requires
            k == 2 * d * r - 2 * c,
            r == (2 * c + d) / (2 * d),
            d > 0,
    ;
    let f: int = c * n - (100 * p) * d;
    let e: int = 2 * (r * n - 100 * p);
    let w: int = 0x20_0000_0000_0000;
    assert(e * d == n * k + 2 * f) by (nonlinear_arith)
        requires
            e == 2 * (r * n - 100 * p),
            f == c * n - (100 * p) * d,
            k == 2 * d * r - 2 * c,
    ;
    assert(-(n * d) <= n * k && n * k <= n * d) by (nonlinear_arith)
        requires
            -d <= k,
            k <= d,
            n > 0,
    ;
    let g: int = (100 * p) * d;
    assert(8 * g == (800 * p) * d) by (nonlinear_arith)
        requires
            g == (100 * p) * d,
    ;
    let b: int = w * n + 1600 * p;
    assert(w * (n * d) + 2 * ((800 * p) * d) == b * d) by (nonlinear_arith)
        requires
            b == w * n + 1600 * p,
    ;
    assert(w * (e * d) <= b * d && -(b * d) <= w * (e * d));
    assert(w * e <= b && -b <= w * e) by (nonlinear_arith)
        requires
            w * (e * d) <= b * d,
            -(b * d) <= w * (e * d),
            d > 0,
    {
        assert(w * (e * d) == (w * e) * d);
        assert((w * e) * d <= b * d);
        assert((-b) * d <= (w * e) * d);
    }
}

/// A greater part of the same whole is not a lesser percentage.
pub proof fn percent_grows_with_the_part(a: nat, b: nat, whole: nat)
    requires
        a <= b,
        whole > 0,
    ensures
        percent_of(a, whole) <= percent_of(b, whole),
{
    lemma_scaled_quotient_order(a, b, whole);
    let x: Dyadic = scaled_quotient(b, whole);
    let y: Dyadic = scaled_quotient(a, whole);
    let w: Dyadic = of_nat(whole);
    lemma_up_pos(-quotient(of_nat(a), w).exp);
    lemma_up_pos(-quotient(of_nat(b), w).exp);
    lemma_nearest_normal(quotient(of_nat(a), w).num() * 100, quotient(of_nat(a), w).den());
    lemma_nearest_normal(quotient(of_nat(b), w).num() * 100, quotient(of_nat(b), w).den());
    lemma_at_least_value(x, y);
    lemma_up_pos(-x.exp);
    lemma_up_pos(-y.exp);
    lemma_round_half_up_order(x.num(), x.den(), y.num(), y.den());
}

/// `part` as a whole percentage of `whole`.
pub fn percent(part: u64, whole: u64) -> (r: i64)
    requires
        part <= whole,
        whole > 0,
    ensures
        r == percent_of(part as nat, whole as nat),
        0 <= r <= 100,
{
    let q: Binary64 = Binary64::from_u64(part).div(Binary64::from_u64(whole));
    let p: Binary64 = q.mul(100);
    proof {
        lemma_scaled_quotient_order(part as nat, whole as nat, whole as nat);
        lemma_whole(whole as nat);
        percent_is_within_bounds(part as nat, whole as nat);
        assert(p@ == scaled_quotient(part as nat, whole as nat));
    }
    p.round() as i64
}

} // verus!
