//! Non-negative binary floating point numbers, in integer arithmetic.
//!
//! Rates, percentages and gigabyte figures go to the panel as the text of IEEE 754
//! double precision results. This module computes those results with integers: every
//! operation returns the double nearest to the exact rational result, ties to even, so
//! what it returns is what the floating point unit returns on the same operands.
use vstd::arithmetic::power2::{
    lemma_pow2_adds, lemma_pow2_pos, lemma_pow2_strictly_increases, pow2,
};
use vstd::prelude::*;

verus! {

/// The least significand of a normalised double, 2^52.
pub const MANT_MIN: u64 = 0x10_0000_0000_0000;

/// One more than the greatest significand of a normalised double, 2^53.
pub const MANT_END: u64 = 0x20_0000_0000_0000;

/// A non-negative dyadic rational, `mant * 2^exp`.
pub struct Dyadic {
    pub mant: nat,
    pub exp: int,
}

/// A finite, non-negative double, `mant * 2^exp`.
#[derive(Clone, Copy, Debug, PartialEq, Eq)]
pub struct Binary64 {
    pub mant: u64,
    pub exp: i32,
}

/// `max(e, 0)`.
pub open spec fn pos(e: int) -> nat {
    if e > 0 {
        e as nat
    } else {
        0
    }
}

/// `2^max(e, 0)`.
pub open spec fn up(e: int) -> nat {
    pow2(pos(e))
}

impl Dyadic {
    /// The numerator of the value as a fraction.
    pub open spec fn num(self) -> nat {
        self.mant * up(self.exp)
    }

    /// The denominator of the value as a fraction.
    pub open spec fn den(self) -> nat {
        up(-self.exp)
    }
}

impl View for Binary64 {
    type V = Dyadic;

    open spec fn view(&self) -> Dyadic {
        Dyadic { mant: self.mant as nat, exp: self.exp as int }
    }
}

impl Binary64 {
    /// Zero is `0 * 2^0`; any other number has a significand of exactly 53 bits. The range of
    /// the exponent is a little wider than that of doubles.
    pub open spec fn wf(self) -> bool {
        ||| self.mant == 0 && self.exp == 0
        ||| MANT_MIN <= self.mant < MANT_END && -1400 <= self.exp <= 1100
    }
}

/// The quotient `a / b` rounded to the nearest natural number, ties to even.
pub open spec fn round_half_even(a: nat, b: nat) -> nat {
    let q: nat = a / b;
    let r: nat = a % b;
    if 2 * r < b || (2 * r == b && q % 2 == 0) {
        q
    } else {
        q + 1
    }
}

/// The quotient `a / b` rounded to the nearest natural number, ties away from zero.
pub open spec fn round_half_up(a: nat, b: nat) -> nat {
    (2 * a + b) / (2 * b)
}

/// `n / 2^e` has the numerator `n * 2^max(-e, 0)`.
pub open spec fn scaled_num(n: nat, e: int) -> nat {
    n * up(-e)
}

/// `(n / d) / 2^e` has the denominator `d * 2^max(e, 0)`.
pub open spec fn scaled_den(d: nat, e: int) -> nat {
    d * up(e)
}

/// `n / d` lies in the interval in which doubles are multiples of `2^e`.
pub open spec fn in_binade(n: nat, d: nat, e: int) -> bool {
    MANT_MIN * scaled_den(d, e) <= scaled_num(n, e) < MANT_END * scaled_den(d, e)
}

/// Doubles near `n / d` are multiples of some power of two.
pub open spec fn has_binade(n: nat, d: nat) -> bool {
    exists|e: int| in_binade(n, d, e)
}

/// `q * 2^e`, normalised where rounding has carried into a 54th bit.
pub open spec fn normalised(q: nat, e: int) -> Dyadic {
    if q == MANT_END {
        Dyadic { mant: MANT_MIN as nat, exp: e + 1 }
    } else {
        Dyadic { mant: q, exp: e }
    }
}

/// The double nearest to `n / d`, ties to even. (Its exponent is not limited: whoever
/// needs a double keeps the operands in a range where none overflows or is subnormal.)
pub open spec fn nearest(n: nat, d: nat) -> Dyadic {
    if n == 0 {
        Dyadic { mant: 0, exp: 0 }
    } else {
        let e: int = choose|e: int| in_binade(n, d, e);
        normalised(round_half_even(scaled_num(n, e), scaled_den(d, e)), e)
    }
}

/// The double nearest to the natural number `n`.
pub open spec fn of_nat(n: nat) -> Dyadic {
    nearest(n, 1)
}

/// The double nearest to `x / y`.
pub open spec fn quotient(x: Dyadic, y: Dyadic) -> Dyadic {
    nearest(x.num() * y.den(), x.den() * y.num())
}

/// The double nearest to `x + y`.
pub open spec fn sum(x: Dyadic, y: Dyadic) -> Dyadic {
    nearest(x.num() * y.den() + y.num() * x.den(), x.den() * y.den())
}

/// The double nearest to `x - y`, where `x` is not less than `y`.
pub open spec fn difference(x: Dyadic, y: Dyadic) -> Dyadic {
    nearest((x.num() * y.den() - y.num() * x.den()) as nat, x.den() * y.den())
}

/// The double nearest to `x * k`.
pub open spec fn times(x: Dyadic, k: nat) -> Dyadic {
    nearest(x.num() * k, x.den())
}

/// `x / 2^k`, which is exact.
pub open spec fn halved(x: Dyadic, k: nat) -> Dyadic {
    if x.mant == 0 {
        x
    } else {
        Dyadic { mant: x.mant, exp: x.exp - k }
    }
}

pub proof fn lemma_up_pos(e: int)
    ensures
        up(e) > 0,
{
    lemma_pow2_pos(pos(e));
}

pub proof fn lemma_up_zero()
    ensures
        up(0) == 1,
        pow2(0) == 1,
        pow2(52) == MANT_MIN,
        pow2(53) == MANT_END,
{
    vstd::arithmetic::power2::lemma2_to64();
    vstd::arithmetic::power2::lemma2_to64_rest();
}

/// Rounding depends on the ratio alone.
proof fn lemma_round_half_even_ratio(a: nat, b: nat, c: nat, d: nat)
    requires
        b > 0,
        d > 0,
        a * d == c * b,
    ensures
        round_half_even(a, b) == round_half_even(c, d),
{
    let q: int = a as int / b as int;
    let r: int = a as int % b as int;
    let s: int = c - q * d;
    assert(a == q * b + r && 0 <= r < b) by (nonlinear_arith)
        requires
            q == a as int / b as int,
            r == a as int % b as int,
            b > 0,
    ;
    assert(b * s == r * d) by (nonlinear_arith)
        requires
            a == q * b + r,
            a * d == c * b,
            s == c - q * d,
    ;
    assert(0 <= s) by (nonlinear_arith)
        requires
            b * s == r * d,
            r >= 0,
            d > 0,
            b > 0,
    ;
    assert(s < d) by (nonlinear_arith)
        requires
            b * s == r * d,
            r < b,
            d > 0,
            b > 0,
    ;
    assert(q == c as int / d as int && s == c as int % d as int) by (nonlinear_arith)
        requires
            c == q * d + s,
            0 <= s < d,
    ;
    assert((2 * r < b) == (2 * s < d)) by (nonlinear_arith)
        requires
            b * s == r * d,
            d > 0,
            b > 0,
    ;
    assert((2 * r == b) == (2 * s == d)) by (nonlinear_arith)
        requires
            b * s == r * d,
            d > 0,
            b > 0,
    ;
}

proof fn lemma_binade_order(n: nat, d: nat, e: int, f: int)
    requires
        d > 0,
        in_binade(n, d, e),
        in_binade(n, d, f),
    ensures
        e >= f,
{
    if e < f {
        let a: nat = up(-e);
        let b: nat = up(e);
        let c: nat = up(-f);
        let g: nat = up(f);
        lemma_up_pos(e);
        lemma_up_pos(-e);
        lemma_up_pos(f);
        lemma_up_pos(-f);
        assert(a * g >= 2 * (b * c)) by {
            lemma_pow2_adds(pos(-e), pos(f));
            lemma_pow2_adds(pos(e), pos(-f));
            let k: nat = (pos(-e) + pos(f) - pos(e) - pos(-f)) as nat;
            lemma_pow2_adds(k, pos(e) + pos(-f));
            vstd::arithmetic::power2::lemma_pow2_unfold(k);
            lemma_pow2_pos((k - 1) as nat);
            assert(pow2(k) * (b * c) >= 2 * (b * c)) by (nonlinear_arith)
                requires
                    pow2(k) >= 2,
            ;
        }
        assert(false) by (nonlinear_arith)
            requires
                n * a < 0x20_0000_0000_0000 * (d * b),
                0x10_0000_0000_0000 * (d * g) <= n * c,
                a * g >= 2 * (b * c),
                d > 0,
                c > 0,
                a > 0,
                b > 0,
        {
            assert(0x10_0000_0000_0000 * (d * g) * a <= n * c * a);
            assert(n * a * c < 0x20_0000_0000_0000 * (d * b) * c);
            assert(n * c * a == n * a * c);
            assert(d * (a * g) >= d * (2 * (b * c)));
            assert(0x10_0000_0000_0000 * (d * g) * a == 0x10_0000_0000_0000 * (d * (a * g)));
            assert(0x20_0000_0000_0000 * (d * b) * c == 0x10_0000_0000_0000 * (d * (2 * (b * c))));
        }
    }
}

/// Where `a / b` is `(n / d) / 2^e` and has 53 bits, rounding it gives the nearest double.
pub proof fn lemma_nearest_at(n: nat, d: nat, e: int, a: nat, b: nat)
    requires
        d > 0,
        b > 0,
        scaled_num(n, e) * b == a * scaled_den(d, e),
        MANT_MIN * b <= a < MANT_END * b,
    ensures
        in_binade(n, d, e),
        n > 0,
        nearest(n, d) == normalised(round_half_even(a, b), e),
{
    let sn: nat = scaled_num(n, e);
    let sd: nat = scaled_den(d, e);
    lemma_up_pos(e);
    assert(sd > 0) by (nonlinear_arith)
        requires
            sd == d * up(e),
            d > 0,
            up(e) > 0,
    ;
    assert(0x10_0000_0000_0000 * sd <= sn && sn < 0x20_0000_0000_0000 * sd) by (nonlinear_arith)
        requires
            sn * b == a * sd,
            0x10_0000_0000_0000 * b <= a,
            a < 0x20_0000_0000_0000 * b,
            sd > 0,
            b > 0,
    ;
    assert(in_binade(n, d, e));
    assert(n > 0) by (nonlinear_arith)
        requires
            sn == n * up(-e),
            sn > 0,
    ;
    let f: int = choose|f: int| in_binade(n, d, f);
    lemma_binade_order(n, d, e, f);
    lemma_binade_order(n, d, f, e);
    lemma_round_half_even_ratio(sn, sd, a, b);
}

proof fn lemma_binade_above(n: nat, d: nat, e: int)
    requires
        d > 0,
        MANT_MIN * scaled_den(d, e) <= scaled_num(n, e),
    ensures
        has_binade(n, d),
    decreases scaled_num(n, e) / scaled_den(d, e),
{
    let a: nat = scaled_num(n, e);
    let b: nat = scaled_den(d, e);
    let a2: nat = scaled_num(n, e + 1);
    let b2: nat = scaled_den(d, e + 1);
    lemma_up_pos(e);
    lemma_up_pos(e + 1);
    assert(b > 0 && b2 > 0) by (nonlinear_arith)
        requires
            b == d * up(e),
            b2 == d * up(e + 1),
            d > 0,
            up(e) > 0,
            up(e + 1) > 0,
    ;
    if a < MANT_END * b {
        assert(in_binade(n, d, e));
    } else {
        if e < 0 {
            vstd::arithmetic::power2::lemma_pow2_unfold(pos(-e));
            assert(a == 2 * a2 && b == b2) by (nonlinear_arith)
                requires
                    a == n * up(-e),
                    a2 == n * up(-e - 1),
                    up(-e) == 2 * up(-e - 1),
                    b == b2,
            ;
        } else {
            vstd::arithmetic::power2::lemma_pow2_unfold(pos(e + 1));
            assert(b2 == 2 * b && a == a2) by (nonlinear_arith)
                requires
                    b == d * up(e),
                    b2 == d * up(e + 1),
                    up(e + 1) == 2 * up(e),
                    a == a2,
            ;
        }
        assert(a2 / b2 < a / b) by (nonlinear_arith)
            requires
                b > 0,
                b2 > 0,
                (a == 2 * a2 && b == b2) || (a == a2 && b2 == 2 * b),
                a >= 0x20_0000_0000_0000 * b,
        ;
        lemma_binade_above(n, d, e + 1);
    }
}

/// Every positive rational lies in some binade.
proof fn lemma_has_binade(n: nat, d: nat)
    requires
        n > 0,
        d > 0,
    ensures
        has_binade(n, d),
{
    let e: int = -(d + 52);
    lemma_up_zero();
    lemma_pow2_adds(d, 52);
    lemma_pow2_exceeds(d);
    assert(n * (pow2(d) * 0x10_0000_0000_0000) >= 0x10_0000_0000_0000 * (d * 1)) by (nonlinear_arith)
        requires
            n >= 1,
            pow2(d) >= d,
    ;
    lemma_binade_above(n, d, e);
}

proof fn lemma_pow2_exceeds(k: nat)
    ensures
        pow2(k) >= k + 1,
    decreases k,
{
    lemma_up_zero();
    if k > 0 {
        lemma_pow2_exceeds((k - 1) as nat);
        vstd::arithmetic::power2::lemma_pow2_unfold(k);
    }
}

/// The nearest double depends on the ratio alone.
pub proof fn lemma_nearest_ratio(n: nat, d: nat, n2: nat, d2: nat)
    requires
        d > 0,
        d2 > 0,
        n * d2 == n2 * d,
    ensures
        nearest(n, d) == nearest(n2, d2),
{
    if n2 == 0 {
        assert(n == 0) by (nonlinear_arith)
            requires
                n * d2 == 0,
                d2 > 0,
        ;
    } else {
        lemma_has_binade(n2, d2);
        let e: int = choose|e: int| in_binade(n2, d2, e);
        let a: nat = scaled_num(n2, e);
        let b: nat = scaled_den(d2, e);
        let u: nat = up(-e);
        let v: nat = up(e);
        lemma_up_pos(e);
        assert(b > 0) by (nonlinear_arith)
            requires
                b == d2 * v,
                d2 > 0,
                v > 0,
        ;
        assert((n * u) * (d2 * v) == (n2 * u) * (d * v)) by (nonlinear_arith)
            requires
                n * d2 == n2 * d,
        ;
        lemma_nearest_at(n, d, e, a, b);
    }
}

/// Powers of two whose exponents have the same sum have the same product.
proof fn lemma_up_triples(a: int, b: int, c: int, k: nat, d: int, f: int, g: int)
    requires
        pos(a) + pos(b) + pos(c) == k + pos(d) + pos(f) + pos(g),
    ensures
        up(a) * up(b) * up(c) == pow2(k) * (up(d) * up(f) * up(g)),
{
    lemma_pow2_adds(pos(a), pos(b));
    lemma_pow2_adds(pos(a) + pos(b), pos(c));
    lemma_pow2_adds(pos(d), pos(f));
    lemma_pow2_adds(pos(d) + pos(f), pos(g));
    lemma_pow2_adds(k, pos(d) + pos(f) + pos(g));
}

/// A double is the double nearest to itself.
pub proof fn lemma_nearest_exact(x: Binary64)
    requires
        x.wf(),
    ensures
        nearest(x@.num(), x@.den()) == x@,
        x.mant > 0 ==> in_binade(x@.num(), x@.den(), x.exp as int),
{
    lemma_up_zero();
    let e: int = x.exp as int;
    let u: nat = up(e);
    let v: nat = up(-e);
    let m: nat = x.mant as nat;
    lemma_up_pos(e);
    lemma_up_pos(-e);
    if x.mant == 0 {
        assert(x@.num() == 0) by (nonlinear_arith)
            requires
                x@.num() == 0 * u,
        ;
    } else {
        assert((m * u) * v * 1 == m * (v * u)) by (nonlinear_arith);
        lemma_nearest_at(m * u, v, e, m, 1);
        assert(round_half_even(m, 1) == m);
    }
}

/// `a / b`, of 53 bits before the point, rounded and scaled by `2^e`.
fn round_quotient(a: u128, b: u128, e: i32) -> (r: Binary64)
    requires
        0 < b < 0x1_0000_0000_0000_0000_0000_0000,
        MANT_MIN * b <= a < MANT_END * b,
        -1400 <= e <= 1099,
    ensures
        r.wf(),
        r@ == normalised(round_half_even(a as nat, b as nat), e as int),
        r.mant > 0,
        e <= r.exp <= e + 1,
{
    let q: u128 = a / b;
    let r: u128 = a % b;
    assert(MANT_MIN <= q < MANT_END) by (nonlinear_arith)
        requires
            MANT_MIN * b <= a < MANT_END * b,
            q == a / b,
            b > 0,
    ;
    let m: u64 = if 2 * r < b || (2 * r == b && q % 2 == 0) {
        q as u64
    } else {
        q as u64 + 1
    };
    assert(m == round_half_even(a as nat, b as nat));
    if m == MANT_END {
        Binary64 { mant: MANT_MIN, exp: e + 1 }
    } else {
        Binary64 { mant: m, exp: e }
    }
}

/// Doubles `n` until it has 53 bits: `n * 2^k`, and `k`.
fn widen(n: u128) -> (r: (u128, i32))
    requires
        0 < n < MANT_MIN,
    ensures
        0 <= r.1 <= 52,
        r.0 == n * pow2(r.1 as nat),
        MANT_MIN <= r.0 < MANT_END,
{
    let mut a: u128 = n;
    let mut k: i32 = 0;
    proof {
        lemma_up_zero();
        assert(n * pow2(0) == n) by (nonlinear_arith)
            requires
                pow2(0) == 1,
        ;
    }
    while a < MANT_MIN as u128
        invariant
            0 <= k <= 52,
            0 < n <= a < MANT_END,
            a == n * pow2(k as nat),
            pow2(52) == MANT_MIN,
            pow2(0) == 1,
        decreases MANT_END - a,
    {
        proof {
            let p: nat = pow2(k as nat);
            assert(p <= a) by (nonlinear_arith)
                requires
                    a == n * p,
                    n > 0,
            ;
            assert(k < 52) by {
                if k >= 52 && k > 52 {
                    lemma_pow2_strictly_increases(52, k as nat);
                }
            }
            vstd::arithmetic::power2::lemma_pow2_unfold((k + 1) as nat);
            assert(n * (2 * p) == 2 * (n * p)) by (nonlinear_arith);
        }
        a = a * 2;
        k = k + 1;
    }
    (a, k)
}

/// The power of two, and its exponent, by which `n` divides to 53 bits.
fn narrow(n: u128) -> (r: (u128, i32))
    requires
        n >= MANT_MIN,
    ensures
        0 <= r.1 <= 75,
        r.0 == pow2(r.1 as nat),
        0 < r.0 < 0x1_0000_0000_0000_0000_0000_0000,
        MANT_MIN * r.0 <= n < MANT_END * r.0,
        n <= u64::MAX ==> r.1 <= 11,
{
    let mut b: u128 = 1;
    let mut k: i32 = 0;
    proof {
        lemma_up_zero();
    }
    while n / b >= MANT_END as u128
        invariant
            0 < b,
            0 <= k <= 75,
            b == pow2(k as nat),
            MANT_MIN * b <= n,
            pow2(0) == 1,
        decreases n - b,
    {
        proof {
            assert(MANT_END * b <= n) by (nonlinear_arith)
                requires
                    n / b >= MANT_END,
                    b > 0,
            ;
            vstd::arithmetic::power2::lemma_pow2_unfold((k + 1) as nat);
            assert(k < 75) by {
                if k >= 75 {
                    vstd::arithmetic::power2::lemma2_to64();
                    lemma_pow2_adds(64, 11);
                    if k > 75 {
                        lemma_pow2_strictly_increases(75, k as nat);
                    }
                }
            }
        }
        b = b * 2;
        k = k + 1;
    }
    assert(n < MANT_END * b) by (nonlinear_arith)
        requires
            n / b < MANT_END,
            b > 0,
    ;
    proof {
        if n <= u64::MAX && k > 11 {
            vstd::arithmetic::power2::lemma2_to64();
            lemma_pow2_strictly_increases(11, k as nat);
            assert(pow2(12) <= pow2(k as nat)) by {
                if k > 12 {
                    lemma_pow2_strictly_increases(12, k as nat);
                }
            }
        }
    }
    (b, k)
}

/// `2^k`.
pub fn power_of_two(k: i32) -> (r: u128)
    requires
        0 <= k <= 127,
    ensures
        r == pow2(k as nat),
        r > 0,
{
    let mut r: u128 = 1;
    let mut i: i32 = 0;
    proof {
        lemma_up_zero();
    }
    while i < k
        invariant
            0 <= i <= k <= 127,
            r == pow2(i as nat),
        decreases k - i,
    {
        proof {
            vstd::arithmetic::power2::lemma_pow2_unfold((i + 1) as nat);
            vstd::arithmetic::power2::lemma2_to64();
            lemma_pow2_adds(64, 64);
            lemma_pow2_strictly_increases((i + 1) as nat, 128);
        }
        r = r * 2;
        i = i + 1;
    }
    proof {
        lemma_pow2_pos(k as nat);
    }
    r
}

/// `x + y` over a common power of two, `d` below the exponent of `x`.
proof fn lemma_sum_aligned(x: Dyadic, y: Dyadic, d: nat)
    requires
        x.exp == y.exp + d,
    ensures
        (x.num() * y.den() + y.num() * x.den()) * up(-y.exp) == ((x.mant * pow2(d) + y.mant) * up(
            y.exp,
        )) * (x.den() * y.den()),
        (x.num() * y.den() - y.num() * x.den()) * up(-y.exp) == ((x.mant * pow2(d) - y.mant) * up(
            y.exp,
        )) * (x.den() * y.den()),
        x.den() * y.den() > 0,
        x.num() * y.den() == x.mant * pow2(d) * (up(y.exp) * x.den()),
        y.num() * x.den() == y.mant * (up(y.exp) * x.den()),
        up(y.exp) * x.den() > 0,
{
    let m1: int = x.mant as int;
    let m2: int = y.mant as int;
    let u1: int = up(x.exp) as int;
    let v1: int = up(-x.exp) as int;
    let u2: int = up(y.exp) as int;
    let v2: int = up(-y.exp) as int;
    let p: int = pow2(d) as int;
    lemma_up_zero();
    lemma_up_pos(-x.exp);
    lemma_up_pos(-y.exp);
    lemma_up_pos(y.exp);
    lemma_up_triples(x.exp, -y.exp, 0, d, y.exp, -x.exp, 0);
    assert(u1 * v2 == p * (u2 * v1)) by (nonlinear_arith)
        requires
            u1 * v2 * 1 == p * (u2 * v1 * 1),
    ;
    assert(v1 * v2 > 0 && u2 * v1 > 0) by (nonlinear_arith)
        requires
            v1 > 0,
            v2 > 0,
            u2 > 0,
    ;
    assert((m1 * u1) * v2 == m1 * p * (u2 * v1)) by (nonlinear_arith)
        requires
            u1 * v2 == p * (u2 * v1),
    ;
    assert((m2 * u2) * v1 == m2 * (u2 * v1)) by (nonlinear_arith);
    assert((m1 * p * (u2 * v1) + m2 * (u2 * v1)) * v2 == ((m1 * p + m2) * u2) * (v1 * v2))
        by (nonlinear_arith);
    assert((m1 * p * (u2 * v1) - m2 * (u2 * v1)) * v2 == ((m1 * p - m2) * u2) * (v1 * v2))
        by (nonlinear_arith);
}

/// `x` is not less than `y`, both normalised.
pub open spec fn at_least(x: Dyadic, y: Dyadic) -> bool {
    ||| y.mant == 0
    ||| x.mant > 0 && (x.exp > y.exp || (x.exp == y.exp && x.mant >= y.mant))
}

proof fn lemma_round_half_even_mono(a: nat, c: nat, b: nat)
    requires
        b > 0,
        a >= c,
    ensures
        round_half_even(a, b) >= round_half_even(c, b),
{
    assert(a / b >= c / b) by (nonlinear_arith)
        requires
            a >= c,
            b > 0,
    ;
    assert(a / b == c / b ==> a % b >= c % b) by (nonlinear_arith)
        requires
            a >= c,
            b > 0,
    ;
}

/// Rounding to doubles keeps the order.
proof fn lemma_nearest_mono(n: nat, m: nat, d: nat)
    requires
        d > 0,
        n >= m,
    ensures
        at_least(nearest(n, d), nearest(m, d)),
{
    if m > 0 {
        lemma_has_binade(n, d);
        lemma_has_binade(m, d);
        let e: int = choose|e: int| in_binade(n, d, e);
        let f: int = choose|f: int| in_binade(m, d, f);
        let a: nat = scaled_num(n, e);
        let b: nat = scaled_den(d, e);
        lemma_up_pos(e);
        lemma_up_pos(f);
        lemma_up_pos(-e);
        lemma_up_pos(-f);
        assert(b > 0) by (nonlinear_arith)
            requires
                b == d * up(e),
                d > 0,
                up(e) > 0,
        ;
        let c: nat = scaled_num(m, f);
        let g: nat = scaled_den(d, f);
        assert(g > 0) by (nonlinear_arith)
            requires
                g == d * up(f),
                d > 0,
                up(f) > 0,
        ;
        lemma_round_bounds(a, b);
        lemma_round_bounds(c, g);
        if e < f {
            let u1: nat = up(-e);
            let v1: nat = up(e);
            let u2: nat = up(-f);
            let v2: nat = up(f);
            lemma_pow2_adds(pos(-e), pos(f));
            lemma_pow2_adds(pos(e), pos(-f));
            let k: nat = (pos(-e) + pos(f) - pos(e) - pos(-f)) as nat;
            lemma_pow2_adds(k, pos(e) + pos(-f));
            vstd::arithmetic::power2::lemma_pow2_unfold(k);
            lemma_pow2_pos((k - 1) as nat);
            assert(pow2(k) * (v1 * u2) >= 2 * (v1 * u2)) by (nonlinear_arith)
                requires
                    pow2(k) >= 2,
            ;
            assert(u1 * v2 >= 2 * (v1 * u2));
            assert(false) by (nonlinear_arith)
                requires
                    n * u1 < 0x20_0000_0000_0000 * (d * v1),
                    0x10_0000_0000_0000 * (d * v2) <= m * u2,
                    u1 * v2 >= 2 * (v1 * u2),
                    n >= m,
                    d > 0,
                    u1 > 0,
                    u2 > 0,
                    v1 > 0,
            {
                assert(m * u2 <= n * u2);
                assert(0x10_0000_0000_0000 * (d * v2) * u1 <= n * u2 * u1);
                assert(n * u1 * u2 < 0x20_0000_0000_0000 * (d * v1) * u2);
                assert(n * u2 * u1 == n * u1 * u2);
                assert(d * (u1 * v2) >= d * (2 * (v1 * u2)));
                assert(0x10_0000_0000_0000 * (d * v2) * u1 == 0x10_0000_0000_0000 * (d * (u1 * v2)));
                assert(0x20_0000_0000_0000 * (d * v1) * u2 == 0x10_0000_0000_0000 * (d * (2 * (v1
                    * u2))));
            }
        }
        if e == f {
            assert(a >= c) by (nonlinear_arith)
                requires
                    a == n * up(-e),
                    c == m * up(-e),
                    n >= m,
            ;
            lemma_round_half_even_mono(a, c, b);
        }
    }
}

/// Rounding to doubles keeps the order of rationals.
pub proof fn lemma_nearest_order(n: nat, d: nat, m: nat, c: nat)
    requires
        d > 0,
        c > 0,
        n * c >= m * d,
    ensures
        at_least(nearest(n, d), nearest(m, c)),
{
    assert(d * c > 0) by (nonlinear_arith)
        requires
            d > 0,
            c > 0,
    ;
    assert(n * (d * c) == (n * c) * d && m * (d * c) == (m * d) * c) by (nonlinear_arith);
    lemma_nearest_ratio(n, d, n * c, d * c);
    lemma_nearest_ratio(m, c, m * d, d * c);
    lemma_nearest_mono(n * c, m * d, d * c);
}

/// A ratio of 53 bits before the point rounds to 53 bits, or just above.
proof fn lemma_round_bounds(a: nat, b: nat)
    requires
        b > 0,
        MANT_MIN * b <= a < MANT_END * b,
    ensures
        MANT_MIN <= round_half_even(a, b) <= MANT_END,
{
    assert(MANT_MIN <= a / b && a / b < MANT_END) by (nonlinear_arith)
        requires
            b > 0,
            MANT_MIN * b <= a < MANT_END * b,
    ;
}

/// Adding less than half a unit in the last place changes nothing.
proof fn lemma_sum_absorbed(x: Dyadic, y: Dyadic, d: nat)
    requires
        x.exp == y.exp + d,
        d >= 54,
        MANT_MIN <= x.mant < MANT_END,
        0 < y.mant < MANT_END,
    ensures
        sum(x, y) == x,
{
    let m1: nat = x.mant;
    let m2: nat = y.mant;
    let p: nat = pow2(d);
    let n: nat = x.num() * y.den() + y.num() * x.den();
    let dd: nat = x.den() * y.den();
    let c: nat = up(y.exp) * x.den();
    let v1: nat = up(-x.exp);
    let u1: nat = up(x.exp);
    let v2: nat = up(-y.exp);
    let u2: nat = up(y.exp);
    lemma_up_zero();
    lemma_sum_aligned(x, y, d);
    lemma_pow2_pos(d);
    assert(p >= 2 * MANT_END) by {
        vstd::arithmetic::power2::lemma_pow2_unfold(54);
        if d > 54 {
            lemma_pow2_strictly_increases(54, d);
        }
    }
    let a: nat = m1 * p + m2;
    assert(n == a * c) by (nonlinear_arith)
        requires
            n == m1 * p * c + m2 * c,
            a == m1 * p + m2,
    ;
    lemma_up_triples(x.exp, -y.exp, 0, d, y.exp, -x.exp, 0);
    assert(u1 * v2 == p * (u2 * v1)) by (nonlinear_arith)
        requires
            u1 * v2 * 1 == p * (u2 * v1 * 1),
    ;
    assert((a * (u2 * v1)) * v1 * p == a * ((v1 * v2) * u1)) by (nonlinear_arith)
        requires
            u1 * v2 == p * (u2 * v1),
    ;
    assert(MANT_MIN * p <= a < MANT_END * p) by (nonlinear_arith)
        requires
            a == m1 * p + m2,
            m2 < p,
            MANT_MIN <= m1 < MANT_END,
    ;
    lemma_nearest_at(n, dd, x.exp, a, p);
    assert(a / p == m1 && a % p == m2) by (nonlinear_arith)
        requires
            a == m1 * p + m2,
            m2 < p,
    ;
}

impl Binary64 {
    /// The double nearest to `n * 2^e`.
    pub fn from_scaled(n: u128, e: i32) -> (r: Binary64)
        requires
            -1300 <= e <= 1024,
        ensures
            r.wf(),
            r@ == nearest(n as nat * up(e as int), up(-e)),
            n == 0 <==> r.mant == 0,
            n > 0 ==> -52 <= r.exp - e <= 76,
            n <= u64::MAX && n > 0 ==> r.exp - e <= 12,
    {
        let ghost u: nat = up(e as int);
        let ghost v: nat = up(-e);
        let ghost m: nat = n as nat;
        proof {
            lemma_up_pos(-e);
            lemma_up_zero();
        }
        if n == 0 {
            assert(m * u == 0) by (nonlinear_arith)
                requires
                    m == 0,
            ;
            return Binary64 { mant: 0, exp: 0 };
        }
        if n < MANT_MIN as u128 {
            let (a, k) = widen(n);
            proof {
                let f: int = e - k;
                let p: nat = pow2(k as nat);
                lemma_up_triples(e as int, -f, 0, k as nat, -e, f, 0);
                assert((m * u) * up(-f) * 1 == (m * p) * (v * up(f))) by (nonlinear_arith)
                    requires
                        u * up(-f) * 1 == p * (v * up(f) * 1),
                ;
                lemma_nearest_at(m * u, v, f, a as nat, 1);
                assert(round_half_even(a as nat, 1) == a);
            }
            Binary64 { mant: a as u64, exp: e - k }
        } else {
            let (b, k) = narrow(n);
            proof {
                let f: int = e + k;
                lemma_up_triples(-e, f, 0, k as nat, e as int, -f, 0);
                assert((m * u) * up(-f) * (b as nat) == m * (v * up(f))) by (nonlinear_arith)
                    requires
                        v * up(f) * 1 == (b as nat) * (u * up(-f) * 1),
                ;
                lemma_nearest_at(m * u, v, f, m, b as nat);
            }
            round_quotient(n, b, e + k)
        }
    }

    /// The double nearest to `n`.
    pub fn from_u64(n: u64) -> (r: Binary64)
        ensures
            r.wf(),
            r@ == of_nat(n as nat),
            n == 0 <==> r.mant == 0,
            -52 <= r.exp <= 12,
    {
        proof {
            lemma_up_zero();
        }
        Binary64::from_scaled(n as u128, 0)
    }

    /// The double nearest to `self / y`.
    pub fn div(self, y: Binary64) -> (r: Binary64)
        requires
            self.wf(),
            y.wf(),
            y.mant > 0,
            -1000 <= self.exp - y.exp <= 1000,
        ensures
            r.wf(),
            r@ == quotient(self@, y@),
            self.mant == 0 <==> r.mant == 0,
            self.mant > 0 ==> -53 <= r.exp - (self.exp - y.exp) <= -51,
    {
        let ghost u1: nat = up(self.exp as int);
        let ghost v1: nat = up(-self.exp);
        let ghost u2: nat = up(y.exp as int);
        let ghost v2: nat = up(-y.exp);
        let ghost m1: nat = self.mant as nat;
        let ghost m2: nat = y.mant as nat;
        proof {
            lemma_up_zero();
            lemma_up_pos(self.exp as int);
            lemma_up_pos(-self.exp);
            lemma_up_pos(y.exp as int);
            lemma_up_pos(-y.exp);
        }
        if self.mant == 0 {
            assert((m1 * u1) * v2 == 0) by (nonlinear_arith)
                requires
                    m1 == 0,
            ;
            return Binary64 { mant: 0, exp: 0 };
        }
        assert(self.mant * MANT_MIN < 0x1_0000_0000_0000_0000_0000_0000_0000 && self.mant * MANT_END
            < 0x1_0000_0000_0000_0000_0000_0000_0000) by (nonlinear_arith)
            requires
                self.mant < MANT_END,
                MANT_MIN < MANT_END == 0x20_0000_0000_0000,
        ;
        let (a, k): (u128, i32) = if self.mant >= y.mant {
            (self.mant as u128 * MANT_MIN as u128, 52)
        } else {
            (self.mant as u128 * MANT_END as u128, 53)
        };
        proof {
            let e: int = self.exp - y.exp - k;
            let p: nat = pow2(k as nat);
            lemma_up_triples(
                self.exp as int,
                -y.exp,
                -e,
                k as nat,
                -self.exp,
                y.exp as int,
                e,
            );
            assert(v1 * (m2 * u2) > 0) by (nonlinear_arith)
                requires
                    v1 > 0,
                    m2 > 0,
                    u2 > 0,
            ;
            let w: nat = up(-e);
            let t: nat = up(e);
            assert((m1 * u1) * v2 * w * m2 == (m1 * m2) * (u1 * v2 * w)) by (nonlinear_arith);
            assert((m1 * p) * (v1 * (m2 * u2) * t) == (m1 * m2) * (p * (v1 * u2 * t)))
                by (nonlinear_arith);
            assert(MANT_MIN * m2 <= a < MANT_END * m2) by (nonlinear_arith)
                requires
                    m1 == self.mant,
                    m2 == y.mant,
                    MANT_MIN <= m1 < MANT_END,
                    MANT_MIN <= m2 < MANT_END,
                    MANT_MIN * 2 == MANT_END,
                    m1 >= m2 ==> a == m1 * MANT_MIN,
                    m1 < m2 ==> a == m1 * MANT_END,
            ;
            lemma_nearest_at((m1 * u1) * v2, v1 * (m2 * u2), e, a as nat, m2);
        }
        round_quotient(a, y.mant as u128, self.exp - y.exp - k)
    }

    /// The double nearest to `self * k`.
    pub fn mul(self, k: u64) -> (r: Binary64)
        requires
            self.wf(),
            -1300 <= self.exp <= 1024,
        ensures
            r.wf(),
            r@ == times(self@, k as nat),
            self.mant == 0 || k == 0 <==> r.mant == 0,
    {
        assert(self.mant * k <= 0xffff_ffff_ffff_ffff * 0xffff_ffff_ffff_ffff) by (nonlinear_arith)
            requires
                self.mant <= 0xffff_ffff_ffff_ffff,
                k <= 0xffff_ffff_ffff_ffff,
        ;
        let n: u128 = self.mant as u128 * k as u128;
        proof {
            assert(n == 0 <==> self.mant == 0 || k == 0) by (nonlinear_arith)
                requires
                    n == self.mant * k,
            ;
            assert((self.mant as nat * k as nat) * up(self.exp as int) == self.mant as nat * up(
                self.exp as int,
            ) * k as nat) by (nonlinear_arith);
        }
        Binary64::from_scaled(n, self.exp)
    }

    /// `self / 2^k`, exactly.
    pub fn halve(self, k: i32) -> (r: Binary64)
        requires
            self.wf(),
            0 <= k <= 100,
        ensures
            self.exp >= -1300 ==> r.wf(),
            r.mant == self.mant,
            self.exp - k <= r.exp <= self.exp,
            r@ == halved(self@, k as nat),
    {
        if self.mant == 0 {
            self
        } else {
            Binary64 { mant: self.mant, exp: self.exp - k }
        }
    }

    /// The double nearest to `self + y`.
    pub fn add(self, y: Binary64) -> (r: Binary64)
        requires
            self.wf(),
            y.wf(),
            -1300 <= self.exp <= 1024,
            -1300 <= y.exp <= 1024,
        ensures
            r.wf(),
            r@ == sum(self@, y@),
            r.exp + 52 >= self.exp || r.exp + 52 >= y.exp,
            r.exp <= self.exp + 76 || r.exp <= y.exp + 76,
    {
        proof {
            lemma_up_zero();
        }
        if self.mant == 0 {
            proof {
                lemma_nearest_exact(y);
                assert(0 * up(0) * y@.den() + y@.num() * 1 == y@.num()) by (nonlinear_arith);
                assert(1 * y@.den() == y@.den()) by (nonlinear_arith);
            }
            return y;
        }
        if y.mant == 0 {
            proof {
                lemma_nearest_exact(self);
                assert(self@.num() * 1 + 0 * up(0) * self@.den() == self@.num()) by (nonlinear_arith);
                assert(self@.den() * 1 == self@.den()) by (nonlinear_arith);
            }
            return self;
        }
        let (a, b): (Binary64, Binary64) = if self.exp >= y.exp {
            (self, y)
        } else {
            (y, self)
        };
        assert(sum(a@, b@) == sum(self@, y@)) by {
            assert(a@.den() * b@.den() == b@.den() * a@.den()) by (nonlinear_arith);
        }
        let d: i32 = a.exp - b.exp;
        if d > 74 {
            proof {
                lemma_sum_absorbed(a@, b@, d as nat);
            }
            a
        } else {
            let p: u128 = power_of_two(d);
            proof {
                vstd::arithmetic::power2::lemma2_to64();
                lemma_pow2_adds(64, 10);
                if d < 74 {
                    lemma_pow2_strictly_increases(d as nat, 74);
                }
                assert(a.mant * p < 0x8000_0000_0000_0000_0000_0000_0000_0000) by (nonlinear_arith)
                    requires
                        a.mant < 0x20_0000_0000_0000,
                        p <= 0x400_0000_0000_0000_0000,
                ;
            }
            let n: u128 = a.mant as u128 * p + b.mant as u128;
            let r: Binary64 = Binary64::from_scaled(n, b.exp);
            proof {
                lemma_sum_aligned(a@, b@, d as nat);
                lemma_up_pos(-b.exp);
                lemma_up_pos(b.exp as int);
                lemma_nearest_ratio(
                    a@.num() * b@.den() + b@.num() * a@.den(),
                    a@.den() * b@.den(),
                    n as nat * up(b.exp as int),
                    up(-b.exp),
                );
            }
            r
        }
    }

    /// The double nearest to `self - y`.
    pub fn sub(self, y: Binary64) -> (r: Binary64)
        requires
            self.wf(),
            y.wf(),
            at_least(self@, y@),
            -1300 <= y.exp <= 1024,
            y.mant > 0 ==> self.exp - y.exp <= 74,
        ensures
            r.wf(),
            r@ == difference(self@, y@),
            r.mant < MANT_END,
    {
        proof {
            lemma_up_zero();
        }
        if y.mant == 0 {
            proof {
                lemma_nearest_exact(self);
                assert(self@.num() * 1 - 0 * up(0) * self@.den() == self@.num()) by (nonlinear_arith);
                assert(self@.den() * 1 == self@.den()) by (nonlinear_arith);
            }
            return self;
        }
        let d: i32 = self.exp - y.exp;
        let p: u128 = power_of_two(d);
        proof {
            vstd::arithmetic::power2::lemma2_to64();
            lemma_pow2_adds(64, 10);
            if d < 74 {
                lemma_pow2_strictly_increases(d as nat, 74);
            }
            assert(self.mant * p < 0x8000_0000_0000_0000_0000_0000_0000_0000) by (nonlinear_arith)
                requires
                    self.mant < 0x20_0000_0000_0000,
                    p <= 0x400_0000_0000_0000_0000,
            ;
            if d > 0 {
                vstd::arithmetic::power2::lemma_pow2_unfold(d as nat);
                lemma_pow2_pos((d - 1) as nat);
            }
            assert(self.mant * p >= y.mant) by (nonlinear_arith)
                requires
                    p >= 2 || (p == 1 && self.mant >= y.mant),
                    self.mant >= 0x10_0000_0000_0000,
                    y.mant < 0x20_0000_0000_0000,
            ;
        }
        let n: u128 = self.mant as u128 * p - y.mant as u128;
        let r: Binary64 = Binary64::from_scaled(n, y.exp);
        proof {
            lemma_sum_aligned(self@, y@, d as nat);
            lemma_up_pos(-y.exp);
            lemma_up_pos(y.exp as int);
            let c: nat = up(y.exp as int) * self@.den();
            assert(self.mant * p * c - y.mant * c >= 0) by (nonlinear_arith)
                requires
                    self.mant * p >= y.mant,
                    c > 0,
            ;
            lemma_nearest_ratio(
                (self@.num() * y@.den() - y@.num() * self@.den()) as nat,
                self@.den() * y@.den(),
                n as nat * up(y.exp as int),
                up(-y.exp),
            );
        }
        r
    }

    /// `self` rounded to the nearest integer, ties away from zero.
    pub fn round(self) -> (r: u64)
        requires
            self.wf(),
            self.exp <= 10,
        ensures
            r == round_half_up(self@.num(), self@.den()),
    {
        proof {
            lemma_up_zero();
        }
        if self.exp >= 0 {
            let p: u128 = power_of_two(self.exp);
            proof {
                vstd::arithmetic::power2::lemma2_to64();
                if self.exp < 10 {
                    lemma_pow2_strictly_increases(self.exp as nat, 10);
                }
                assert(self.mant * p < 0x8000_0000_0000_0000) by (nonlinear_arith)
                    requires
                        self.mant < 0x20_0000_0000_0000,
                        p <= 1024,
                ;
            }
            assert(self@.den() == 1 && self@.num() == self.mant * p);
            assert(round_half_up(self@.num(), 1) == self@.num()) by {
                let n: int = self@.num() as int;
                assert((2 * n + 1) / 2 == n) by (nonlinear_arith);
            }
            (self.mant as u128 * p) as u64
        } else if self.exp <= -64 {
            proof {
                vstd::arithmetic::power2::lemma2_to64();
                if self.exp < -64 {
                    lemma_pow2_strictly_increases(64, (-self.exp) as nat);
                }
                let m: nat = self.mant as nat;
                let d: nat = pow2((-self.exp) as nat);
                assert((2 * (m * up(self.exp as int)) + d) / (2 * d) == 0) by (nonlinear_arith)
                    requires
                        2 * m < d,
                        up(self.exp as int) == 1,
                ;
            }
            0
        } else {
            let p: u128 = power_of_two(-self.exp);
            proof {
                vstd::arithmetic::power2::lemma2_to64();
                lemma_pow2_strictly_increases((-self.exp) as nat, 64);
                let m: nat = self.mant as nat;
                let d: nat = p as nat;
                assert(self@.num() == m) by (nonlinear_arith)
                    requires
                        self@.num() == m * up(self.exp as int),
                        up(self.exp as int) == 1,
                ;
                assert((2 * m + d) / (2 * d) <= m + 1) by (nonlinear_arith)
                    requires
                        d >= 1,
                ;
            }
            ((2 * self.mant as u128 + p) / (2 * p)) as u64
        }
    }

    /// Whether `self` is less than `c`.
    pub fn is_below(self, c: u64) -> (r: bool)
        requires
            self.wf(),
            0 < c < MANT_MIN,
        ensures
            r == (self@.num() < c * self@.den()),
    {
        proof {
            lemma_up_zero();
            lemma_up_pos(self.exp as int);
            lemma_up_pos(-self.exp);
        }
        if self.mant == 0 {
            assert(0 * up(0) < c * up(0)) by (nonlinear_arith)
                requires
                    up(0) == 1,
                    c > 0,
            ;
            true
        } else if self.exp >= 0 {
            assert(self.mant * up(self.exp as int) >= c * 1) by (nonlinear_arith)
                requires
                    self.mant > c,
                    up(self.exp as int) >= 1,
            ;
            false
        } else if self.exp <= -53 {
            proof {
                if self.exp < -53 {
                    lemma_pow2_strictly_increases(53, (-self.exp) as nat);
                }
                assert(self.mant * 1 < c * up(-self.exp)) by (nonlinear_arith)
                    requires
                        self.mant < up(-self.exp),
                        c >= 1,
                ;
            }
            true
        } else {
            let p: u128 = power_of_two(-self.exp);
            proof {
                lemma_pow2_strictly_increases((-self.exp) as nat, 53);
                assert(c * p < 0x1_0000_0000_0000_0000_0000_0000_0000) by (nonlinear_arith)
                    requires
                        c < 0x10_0000_0000_0000,
                        p < 0x20_0000_0000_0000,
                ;
            }
            (self.mant as u128) < c as u128 * p
        }
    }
}

/// The normalised dyadic numbers.
pub open spec fn is_normal(x: Dyadic) -> bool {
    (x.mant == 0 && x.exp == 0) || MANT_MIN <= x.mant < MANT_END
}

/// A rational rounds to a normalised number.
pub proof fn lemma_nearest_normal(n: nat, d: nat)
    requires
        d > 0,
    ensures
        is_normal(nearest(n, d)),
        n > 0 ==> nearest(n, d).mant > 0,
{
    if n > 0 {
        lemma_has_binade(n, d);
        let e: int = choose|e: int| in_binade(n, d, e);
        lemma_up_pos(e);
        assert(d * up(e) > 0) by (nonlinear_arith)
            requires
                d > 0,
                up(e) > 0,
        ;
        lemma_round_bounds(scaled_num(n, e), scaled_den(d, e));
    }
}

/// `a / b` and its rounding differ by a half at most, and by a half only where the rounding
/// is even.
pub proof fn lemma_round_half_even_error(a: nat, b: nat)
    requires
        b > 0,
    ensures
        -(b as int) <= 2 * (round_half_even(a, b) * b - a) <= b,
        2 * (round_half_even(a, b) * b - a) == b || 2 * (round_half_even(a, b) * b - a) == -(
        b as int) ==> round_half_even(a, b) % 2 == 0,
{
    let q: int = a as int / b as int;
    let r: int = a as int % b as int;
    assert(a == q * b + r && 0 <= r < b) by (nonlinear_arith)
        requires
            q == a as int / b as int,
            r == a as int % b as int,
            b > 0,
    ;
    assert((q + 1) * b == q * b + b) by (nonlinear_arith);
}

/// The numerator and the denominator of a normalised number stand in the ratio of `q * 2^e`.
proof fn lemma_normalised_ratio(q: nat, e: int)
    requires
        q <= MANT_END,
    ensures
        normalised(q, e).num() * up(-e) == q * up(e) * normalised(q, e).den(),
{
    if q == MANT_END {
        let x: nat = up(e + 1);
        let y: nat = up(-e);
        let z: nat = up(e);
        let w: nat = up(-e - 1);
        lemma_up_zero();
        if e >= 0 {
            vstd::arithmetic::power2::lemma_pow2_unfold(pos(e + 1));
            assert(y == 1 && w == 1 && x == 2 * z);
        } else {
            vstd::arithmetic::power2::lemma_pow2_unfold(pos(-e));
            assert(x == 1 && z == 1 && y == 2 * w);
        }
        assert(0x10_0000_0000_0000 * x * y == 0x20_0000_0000_0000 * z * w) by (nonlinear_arith)
            requires
                (y == 1 && w == 1 && x == 2 * z) || (x == 1 && z == 1 && y == 2 * w),
        ;
    }
}

/// A rational `n / d` and the nearest double differ by one part in `2^53` at most.
pub proof fn lemma_nearest_error(n: nat, d: nat)
    requires
        d > 0,
    ensures
        ({
            let x: Dyadic = nearest(n, d);
            let bound: int = (n * x.den()) as int;
            -bound <= MANT_END * (x.num() * d - n * x.den()) <= bound
        }),
{
    let x: Dyadic = nearest(n, d);
    lemma_up_zero();
    if n == 0 {
        assert(0nat * up(0) == 0) by (nonlinear_arith);
        assert(x.num() * d == 0 && n * x.den() == 0) by (nonlinear_arith)
            requires
                x.num() == 0,
                n == 0,
        ;
    } else {
        lemma_has_binade(n, d);
        let e: int = choose|e: int| in_binade(n, d, e);
        let u: int = up(e) as int;
        let v: int = up(-e) as int;
        let a: int = scaled_num(n, e) as int;
        let b: int = scaled_den(d, e) as int;
        lemma_up_pos(e);
        lemma_up_pos(-e);
        assert(b > 0) by (nonlinear_arith)
            requires
                b == d * u,
                d > 0,
                u > 0,
        ;
        lemma_round_bounds(scaled_num(n, e), scaled_den(d, e));
        lemma_round_half_even_error(scaled_num(n, e), scaled_den(d, e));
        let q: int = round_half_even(scaled_num(n, e), scaled_den(d, e)) as int;
        lemma_normalised_ratio(q as nat, e);
        let num: int = x.num() as int;
        let den: int = x.den() as int;
        lemma_up_pos(-x.exp);
        assert(-a <= 0x20_0000_0000_0000 * (q * b - a) <= a);
        let f: int = num * d - n * den;
        // The value of `x` is `q * 2^e`.
        assert(f * v == den * (q * b - a) && n * den * v == den * a) by (nonlinear_arith)
            requires
                num * v == q * u * den,
                a == n * v,
                b == d * u,
                f == num * d - n * den,
        {
            assert(f * v == num * v * d - n * v * den);
            assert(q * u * den * d == den * (q * (d * u)));
        }
        let g: int = n * den;
        assert(-g <= 0x20_0000_0000_0000 * f && 0x20_0000_0000_0000 * f <= g) by (nonlinear_arith)
            requires
                -a <= 0x20_0000_0000_0000 * (q * b - a),
                0x20_0000_0000_0000 * (q * b - a) <= a,
                f * v == den * (q * b - a),
                g * v == den * a,
                v > 0,
                den > 0,
        {
            assert(-(den * a) <= den * (0x20_0000_0000_0000 * (q * b - a)));
            assert(den * (0x20_0000_0000_0000 * (q * b - a)) <= den * a);
            assert(den * (0x20_0000_0000_0000 * (q * b - a)) == (0x20_0000_0000_0000 * f) * v);
            assert(-g * v <= (0x20_0000_0000_0000 * f) * v);
            assert((0x20_0000_0000_0000 * f) * v <= g * v);
        }
    }
}

/// The order of normalised numbers is the order of their values.
pub proof fn lemma_at_least_value(x: Dyadic, y: Dyadic)
    requires
        is_normal(x),
        is_normal(y),
        at_least(x, y),
    ensures
        x.num() * y.den() >= y.num() * x.den(),
{
    if y.mant == 0 {
        assert((0 * up(y.exp)) * x.den() == 0) by (nonlinear_arith);
        assert(x.num() * y.den() >= 0) by (nonlinear_arith)
            requires
                x.num() >= 0,
                y.den() >= 0,
        ;
    } else {
        let d: nat = (x.exp - y.exp) as nat;
        let c: nat = up(y.exp) * x.den();
        lemma_up_zero();
        lemma_sum_aligned(x, y, d);
        lemma_pow2_pos(d);
        if d > 0 {
            vstd::arithmetic::power2::lemma_pow2_unfold(d);
            lemma_pow2_pos((d - 1) as nat);
        }
        assert(x.mant * pow2(d) >= y.mant) by (nonlinear_arith)
            requires
                pow2(d) >= 2 || (pow2(d) == 1 && x.mant >= y.mant),
                x.mant >= 0x10_0000_0000_0000,
                y.mant < 0x20_0000_0000_0000,
        ;
        assert(x.mant * pow2(d) * c >= y.mant * c) by (nonlinear_arith)
            requires
                x.mant * pow2(d) >= y.mant,
        ;
    }
}

/// The biased exponent in the bits of a double.
pub open spec fn exponent_field(bits: u64) -> int {
    (bits as int / 0x10_0000_0000_0000) % 2048
}

/// The fraction in the bits of a double.
pub open spec fn fraction_field(bits: u64) -> int {
    bits as int % 0x10_0000_0000_0000
}

/// The magnitude of the finite double that has the bits.
pub open spec fn magnitude(bits: u64) -> Dyadic {
    if exponent_field(bits) == 0 {
        nearest(fraction_field(bits) as nat, pow2(1074))
    } else {
        Dyadic {
            mant: (fraction_field(bits) + MANT_MIN) as nat,
            exp: exponent_field(bits) - 1075,
        }
    }
}

impl Binary64 {
    /// The magnitude of the double that has the bits, unless it is infinite or not a number.
    pub fn from_bits(bits: u64) -> (r: Option<Binary64>)
        ensures
            match r {
                Some(x) => x.wf() && -1126 <= x.exp <= 971 && exponent_field(bits) != 2047 && x@
                    == magnitude(bits),
                None => exponent_field(bits) == 2047,
            },
    {
        let field: u64 = (bits / MANT_MIN) % 2048;
        let fraction: u64 = bits % MANT_MIN;
        proof {
            lemma_up_zero();
        }
        if field == 2047 {
            None
        } else if field == 0 {
            assert(fraction as nat * up(-1074) == fraction) by (nonlinear_arith)
                requires
                    up(-1074) == 1,
            ;
            Some(Binary64::from_scaled(fraction as u128, -1074))
        } else {
            Some(Binary64 { mant: fraction + MANT_MIN, exp: field as i32 - 1075 })
        }
    }
}

proof fn lemma_of_nat_from(n: nat, k: nat)
    requires
        0 < n,
        n * pow2(k) < MANT_END,
    ensures
        of_nat(n).num() == n * of_nat(n).den(),
        -52 <= of_nat(n).exp <= 0,
        MANT_MIN <= of_nat(n).mant < MANT_END,
    decreases MANT_END - n * pow2(k),
{
    let p: nat = pow2(k);
    lemma_pow2_pos(k);
    lemma_up_zero();
    if n * p >= MANT_MIN {
        let a: nat = n * p;
        let e: int = -(k as int);
        assert(up(-e) == p);
        assert(up(e) == 1);
        assert(scaled_num(n, e) == a);
        assert(scaled_den(1, e) == 1);
        lemma_nearest_at(n, 1, e, a, 1);
        assert(a / 1 == a && a % 1 == 0) by (nonlinear_arith);
        assert(of_nat(n) == (Dyadic { mant: a, exp: e }));
        assert(a * 1 == a) by (nonlinear_arith);
        if k > 52 {
            lemma_pow2_strictly_increases(52, k);
            if k > 53 {
                lemma_pow2_strictly_increases(53, k);
            }
            assert(n * p >= p) by (nonlinear_arith)
                requires
                    n > 0,
            ;
        }
    } else {
        vstd::arithmetic::power2::lemma_pow2_unfold(k + 1);
        assert(n * (2 * p) == 2 * (n * p)) by (nonlinear_arith);
        assert(n * p > 0) by (nonlinear_arith)
            requires
                n > 0,
                p > 0,
        ;
        lemma_of_nat_from(n, k + 1);
    }
}

/// A natural number below 2^53 is a double.
pub proof fn lemma_of_nat_exact(n: nat)
    requires
        n < MANT_END,
    ensures
        of_nat(n).num() == n * of_nat(n).den(),
        n > 0 ==> -52 <= of_nat(n).exp <= 0,
        n > 0 ==> MANT_MIN <= of_nat(n).mant < MANT_END,
{
    lemma_up_zero();
    if n > 0 {
        assert(n * 1 == n) by (nonlinear_arith);
        lemma_of_nat_from(n, 0);
    } else {
        assert(0nat * up(0) == 0 && 0nat * up(-0) == 0) by (nonlinear_arith);
    }
}

} // verus!
