//! How far double precision results are from exact ones.
use crate::binary64::{
    lemma_nearest_error, lemma_up_pos, nearest, quotient, round_half_up, sum, up, Dyadic,
};
use vstd::prelude::*;

verus! {

/// `n / d` differs from `m / e` by `k` parts in `2^53` at most.
pub open spec fn is_close(n: int, d: int, m: int, e: int, k: int) -> bool {
    &&& d > 0
    &&& e > 0
    &&& n >= 0
    &&& m >= 0
    &&& -(k * (m * d)) <= 0x20_0000_0000_0000 * (n * e - m * d) <= k * (m * d)
}

/// A bound of `k` parts in `2^53` may be scaled.
pub proof fn lemma_bound_scaled(f: int, g: int, k: int, s: int)
    requires
        -(k * g) <= 0x20_0000_0000_0000 * f <= k * g,
        s >= 0,
    ensures
        -(k * (g * s)) <= 0x20_0000_0000_0000 * (f * s) <= k * (g * s),
{
    assert(-(k * g) * s <= (0x20_0000_0000_0000 * f) * s && (0x20_0000_0000_0000 * f) * s <= (k * g)
        * s) by (nonlinear_arith)
        requires
            -(k * g) <= 0x20_0000_0000_0000 * f,
            0x20_0000_0000_0000 * f <= k * g,
            s >= 0,
    ;
    assert((k * g) * s == k * (g * s)) by (nonlinear_arith);
    assert(-(k * g) * s == -(k * (g * s))) by (nonlinear_arith);
    assert((0x20_0000_0000_0000 * f) * s == 0x20_0000_0000_0000 * (f * s)) by (nonlinear_arith);
}

/// Scaling keeps the relative difference.
pub proof fn lemma_close_scaled(n: int, d: int, m: int, e: int, k: int, s: int, t: int)
    requires
        is_close(n, d, m, e, k),
        s >= 0,
        t > 0,
    ensures
        is_close(n * s, d * t, m * s, e * t, k),
{
    let f: int = n * e - m * d;
    let g: int = m * d;
    let st: int = s * t;
    assert(st >= 0) by (nonlinear_arith)
        requires
            st == s * t,
            s >= 0,
            t > 0,
    ;
    assert(d * t > 0 && e * t > 0 && n * s >= 0 && m * s >= 0) by (nonlinear_arith)
        requires
            d > 0,
            e > 0,
            t > 0,
            n >= 0,
            m >= 0,
            s >= 0,
    ;
    assert((n * s) * (e * t) == (n * e) * st) by (nonlinear_arith)
        requires
            st == s * t,
    ;
    assert((m * s) * (d * t) == g * st) by (nonlinear_arith)
        requires
            g == m * d,
            st == s * t,
    ;
    assert((n * e) * st - g * st == f * st) by (nonlinear_arith)
        requires
            f == n * e - g,
    ;
    lemma_bound_scaled(f, g, k, st);
}

/// Relative differences add up, and a little more.
pub proof fn lemma_close_chain(a: int, b: int, c: int, d: int, e: int, f: int, k: int, l: int)
    requires
        is_close(a, b, c, d, k),
        is_close(c, d, e, f, l),
        0 <= k <= 100,
        0 <= l <= 100,
    ensures
        is_close(a, b, e, f, k + l + 1),
{
    let x: int = a * d * f;
    let y: int = c * b * f;
    let z: int = e * b * d;
    let w: int = 0x20_0000_0000_0000;
    let u: int = a * d - c * b;
    let v: int = c * f - e * d;
    assert(x - y == u * f && y == (c * b) * f) by (nonlinear_arith)
        requires
            u == a * d - c * b,
            x == a * d * f,
            y == c * b * f,
    ;
    assert(y - z == v * b && z == (e * d) * b) by (nonlinear_arith)
        requires
            v == c * f - e * d,
            y == c * b * f,
            z == e * b * d,
    ;
    lemma_bound_scaled(u, c * b, k, f);
    lemma_bound_scaled(v, e * d, l, b);
    assert(z >= 0) by (nonlinear_arith)
        requires
            z == e * b * d,
            e >= 0,
            b > 0,
            d > 0,
    ;
    assert(k * y <= (k + 1) * z) by (nonlinear_arith)
        requires
            w * (y - z) <= l * z,
            w == 0x20_0000_0000_0000,
            0 <= k <= 100,
            0 <= l <= 100,
            z >= 0,
    {
        assert(l * z <= 100 * z);
        assert(w * y <= w * z + 100 * z);
        assert(k * (w * y) <= k * (w * z + 100 * z));
        assert(k * (100 * z) <= 10000 * z);
        assert(k * (w * y) == w * (k * y));
        assert(k * (w * z) == w * (k * z));
        assert(w * (k * y) <= w * (k * z) + 10000 * z);
        assert(w * (k * y) <= w * (k * z + z));
    }
    let t: int = (k + l + 1) * z;
    assert(t == (k + 1) * z + l * z) by (nonlinear_arith)
        requires
            t == (k + l + 1) * z,
    ;
    assert(-t <= w * (x - z) && w * (x - z) <= t);
    let g: int = a * f - e * b;
    let h: int = e * b;
    let m: int = k + l + 1;
    assert(x - z == g * d && z == h * d) by (nonlinear_arith)
        requires
            x == a * d * f,
            z == e * b * d,
            g == a * f - e * b,
            h == e * b,
    ;
    assert(-(m * h) <= w * g && w * g <= m * h) by (nonlinear_arith)
        requires
            -(m * z) <= w * (x - z),
            w * (x - z) <= m * z,
            x - z == g * d,
            z == h * d,
            d > 0,
    {
        assert(m * z == (m * h) * d);
        assert(w * (x - z) == (w * g) * d);
        assert(-(m * h) * d <= (w * g) * d);
    }
}

/// A rational and the nearest double are close.
pub proof fn lemma_nearest_is_close(n: nat, d: nat)
    requires
        d > 0,
    ensures
        is_close(
            nearest(n, d).num() as int,
            nearest(n, d).den() as int,
            n as int,
            d as int,
            1,
        ),
{
    lemma_nearest_error(n, d);
    lemma_up_pos(-nearest(n, d).exp);
}

/// A wider bound holds too.
pub proof fn lemma_close_wider(n: int, d: int, m: int, e: int, k: int, l: int)
    requires
        is_close(n, d, m, e, k),
        k <= l,
    ensures
        is_close(n, d, m, e, l),
{
    let g: int = m * d;
    assert(g >= 0) by (nonlinear_arith)
        requires
            g == m * d,
            m >= 0,
            d > 0,
    ;
    assert(k * g <= l * g) by (nonlinear_arith)
        requires
            k <= l,
            g >= 0,
    ;
}

/// The reciprocals of numbers that are close are close.
pub proof fn lemma_close_inverse(a: int, b: int, c: int, d: int, k: int)
    requires
        is_close(a, b, c, d, k),
        a > 0,
        c > 0,
        0 <= k <= 100,
    ensures
        is_close(b, a, d, c, 2 * k),
{
    let w: int = 0x20_0000_0000_0000;
    let x: int = a * d;
    let y: int = c * b;
    assert(b * c == y && d * a == x) by (nonlinear_arith)
        requires
            x == a * d,
            y == c * b,
    ;
    assert(y >= 0) by (nonlinear_arith)
        requires
            y == c * b,
            c > 0,
            b > 0,
    ;
    assert(k * y <= 100 * y) by (nonlinear_arith)
        requires
            k <= 100,
            y >= 0,
    ;
    assert(y <= 2 * x);
    assert(k * y <= (2 * k) * x) by (nonlinear_arith)
        requires
            y <= 2 * x,
            k >= 0,
    ;
}

proof fn lemma_regrouped(a: int, b: int, c: int, d: int)
    ensures
        (a * b) * (c * d) == (a * c) * (b * d),
{
    assert((a * b) * (c * d) == a * (b * (c * d))) by (nonlinear_arith);
    assert(b * (c * d) == c * (b * d)) by (nonlinear_arith);
    assert((a * c) * (b * d) == a * (c * (b * d))) by (nonlinear_arith);
}

/// Sums of numbers that are close are close.
pub proof fn lemma_close_sum(
    a: int,
    b: int,
    c: int,
    d: int,
    e: int,
    f: int,
    g: int,
    h: int,
    k: int,
)
    requires
        is_close(a, b, c, d, k),
        is_close(e, f, g, h, k),
    ensures
        is_close(a * f + e * b, b * f, c * h + g * d, d * h, k),
{
    let fh: int = f * h;
    let bd: int = b * d;
    assert(fh > 0 && bd > 0 && b * f > 0 && d * h > 0) by (nonlinear_arith)
        requires
            fh == f * h,
            bd == b * d,
            b > 0,
            d > 0,
            f > 0,
            h > 0,
    ;
    assert(a * f + e * b >= 0 && c * h + g * d >= 0) by (nonlinear_arith)
        requires
            a >= 0,
            b > 0,
            c >= 0,
            d > 0,
            e >= 0,
            f > 0,
            g >= 0,
            h > 0,
    ;
    let u: int = a * d - c * b;
    let v: int = e * h - g * f;
    lemma_bound_scaled(u, c * b, k, fh);
    lemma_bound_scaled(v, g * f, k, bd);
    let x: int = (a * f + e * b) * (d * h);
    let y: int = (c * h + g * d) * (b * f);
    lemma_regrouped(a, f, d, h);
    lemma_regrouped(e, b, h, d);
    lemma_regrouped(c, h, b, f);
    lemma_regrouped(g, d, f, b);
    assert(h * d == d * h && f * b == b * f && h * f == fh && d * b == bd) by (nonlinear_arith)
        requires
            fh == f * h,
            bd == b * d,
    ;
    assert(x == (a * f) * (d * h) + (e * b) * (d * h)) by (nonlinear_arith)
        requires
            x == (a * f + e * b) * (d * h),
    ;
    assert(y == (c * h) * (b * f) + (g * d) * (b * f)) by (nonlinear_arith)
        requires
            y == (c * h + g * d) * (b * f),
    ;
    assert(u * fh == (a * d) * fh - (c * b) * fh) by (nonlinear_arith)
        requires
            u == a * d - c * b,
    ;
    assert(v * bd == (e * h) * bd - (g * f) * bd) by (nonlinear_arith)
        requires
            v == e * h - g * f,
    ;
    assert(k * y == k * ((c * b) * fh) + k * ((g * f) * bd)) by (nonlinear_arith)
        requires
            y == (c * b) * fh + (g * f) * bd,
    ;
}

/// The value of `x` is close to `n / d`.
pub open spec fn is_near(x: Dyadic, n: int, d: int, k: int) -> bool {
    is_close(x.num() as int, x.den() as int, n, d, k)
}

/// The double quotient of numbers that are close to `n / d` and to `m / e`.
pub proof fn lemma_quotient_near(
    x: Dyadic,
    y: Dyadic,
    n: int,
    d: int,
    m: int,
    e: int,
    k: int,
    l: int,
)
    requires
        is_near(x, n, d, k),
        is_near(y, m, e, l),
        y.mant > 0,
        m > 0,
        0 <= k <= 40,
        0 <= l <= 20,
    ensures
        is_near(quotient(x, y), n * e, d * m, k + 2 * l + 3),
{
    let (a, b): (int, int) = (x.num() as int, x.den() as int);
    let (p, q): (int, int) = (y.num() as int, y.den() as int);
    lemma_up_pos(y.exp);
    assert(p > 0) by (nonlinear_arith)
        requires
            p == y.mant * up(y.exp),
            y.mant > 0,
            up(y.exp) > 0,
    ;
    lemma_close_inverse(p, q, m, e, l);
    lemma_close_scaled(a, b, n, d, k, q, p);
    lemma_close_scaled(q, p, e, m, 2 * l, n, d);
    assert(q * n == n * q && p * d == d * p && e * n == n * e && m * d == d * m)
        by (nonlinear_arith);
    lemma_close_chain(a * q, b * p, n * q, d * p, n * e, d * m, k, 2 * l);
    lemma_nearest_is_close(x.num() * y.den(), x.den() * y.num());
    let r: Dyadic = quotient(x, y);
    lemma_close_chain(
        r.num() as int,
        r.den() as int,
        a * q,
        b * p,
        n * e,
        d * m,
        1,
        k + 2 * l + 1,
    );
}

/// The double sum of numbers that are close to `n / d` and to `m / e`.
pub proof fn lemma_sum_near(x: Dyadic, y: Dyadic, n: int, d: int, m: int, e: int, k: int)
    requires
        is_near(x, n, d, k),
        is_near(y, m, e, k),
        0 <= k <= 90,
    ensures
        is_near(sum(x, y), n * e + m * d, d * e, k + 2),
{
    let (a, b): (int, int) = (x.num() as int, x.den() as int);
    let (p, q): (int, int) = (y.num() as int, y.den() as int);
    lemma_close_sum(a, b, n, d, p, q, m, e, k);
    assert(b * q > 0) by (nonlinear_arith)
        requires
            b > 0,
            q > 0,
    ;
    lemma_nearest_is_close(x.num() * y.den() + y.num() * x.den(), x.den() * y.den());
    let r: Dyadic = sum(x, y);
    lemma_close_chain(
        r.num() as int,
        r.den() as int,
        a * q + p * b,
        b * q,
        n * e + m * d,
        d * e,
        1,
        k,
    );
}

/// What is close to a positive number is positive.
pub proof fn lemma_near_positive(x: Dyadic, n: int, d: int, k: int)
    requires
        is_near(x, n, d, k),
        n > 0,
        0 <= k <= 100,
    ensures
        x.mant > 0,
{
    if x.mant == 0 {
        let g: int = n * x.den();
        assert(0nat * up(x.exp) == 0) by (nonlinear_arith);
        assert(0 * d == 0);
        assert(g > 0) by (nonlinear_arith)
            requires
                g == n * x.den(),
                n > 0,
                x.den() > 0,
        ;
        assert(k * g <= 100 * g) by (nonlinear_arith)
            requires
                k <= 100,
                g > 0,
        ;
    }
}

/// Rounding to an integer what is close to `n / d` gives an integer that is off by a half, and
/// by a few parts in 2^53 more.
pub proof fn lemma_rounded_near(x: Dyadic, n: int, d: int, k: int)
    requires
        is_near(x, n, d, k),
    ensures
        ({
            let error: int = 2 * (round_half_up(x.num(), x.den()) * d - n);
            let bound: int = 0x20_0000_0000_0000 * d + 2 * (k * n);
            -bound <= 0x20_0000_0000_0000 * error <= bound
        }),
{
    let (c, e): (int, int) = (x.num() as int, x.den() as int);
    let r: int = round_half_up(x.num(), x.den()) as int;
    let q: int = 2 * e * r - 2 * c;
    assert(-e <= q && q <= e) by (nonlinear_arith)
        requires
            q == 2 * e * r - 2 * c,
            r == (2 * c + e) / (2 * e),
            e > 0,
    ;
    let w: int = 0x20_0000_0000_0000;
    let f: int = c * d - n * e;
    let h: int = 2 * (r * d - n);
    assert(h * e == d * q + 2 * f) by (nonlinear_arith)
        requires
            h == 2 * (r * d - n),
            q == 2 * e * r - 2 * c,
            f == c * d - n * e,
    ;
    assert(-(d * e) <= d * q && d * q <= d * e) by (nonlinear_arith)
        requires
            -e <= q,
            q <= e,
            d > 0,
    ;
    let b: int = w * d + 2 * (k * n);
    assert(w * (d * e) + 2 * (k * (n * e)) == b * e) by (nonlinear_arith)
        requires
            b == w * d + 2 * (k * n),
    ;
    assert(w * (h * e) <= b * e && -(b * e) <= w * (h * e));
    assert(w * h <= b && -b <= w * h) by (nonlinear_arith)
        requires
            w * (h * e) <= b * e,
            -(b * e) <= w * (h * e),
            e > 0,
    {
        assert(w * (h * e) == (w * h) * e);
        assert((-b) * e <= (w * h) * e);
    }
}

} // verus!
