//! Fixed-point scalar helpers: truncating division, integer square roots,
//! and two-dimensional integer vectors.

use vstd::prelude::*;
use vstd::arithmetic::mul::{lemma_mul_inequality, lemma_mul_strict_inequality};
use vstd::arithmetic::div_mod::{lemma_fundamental_div_mod, lemma_div_multiples_vanish};

verus! {

/// Magnitude of an integer.
pub open spec fn mag(a: int) -> int {
    if a >= 0 {
        a
    } else {
        -a
    }
}

/// Sign of an integer: -1, 0 or 1.
pub open spec fn sgn(a: int) -> int {
    if a > 0 {
        1
    } else if a < 0 {
        -1
    } else {
        0
    }
}

/// Division truncated toward zero (the behaviour of hardware division on
/// signed integers), defined for a positive divisor.
pub open spec fn div_t(a: int, b: int) -> int
    recommends
        b > 0,
{
    if a >= 0 {
        a / b
    } else {
        -((-a) / b)
    }
}

/// A two-dimensional vector of fixed-point coordinates.
#[derive(Clone, Copy, PartialEq, Eq, Structural, Debug)]
pub struct Vec2 {
    pub x: i64,
    pub y: i64,
}

/// Largest `r` with `r * r <= n`, by downward search from `b`.
pub open spec fn sqrt_floor_from(n: int, b: int) -> int
    recommends
        n >= 0,
        b >= 0,
    decreases b,
{
    if b <= 0 {
        0
    } else if b * b <= n {
        b
    } else {
        sqrt_floor_from(n, b - 1)
    }
}

/// Integer square root, rounded down.
pub open spec fn sqrt_floor(n: int) -> int
    recommends
        n >= 0,
{
    sqrt_floor_from(n, n)
}

/// Integer square root, rounded up.
pub open spec fn sqrt_ceil(n: int) -> int
    recommends
        n >= 0,
{
    if sqrt_floor(n) * sqrt_floor(n) == n {
        sqrt_floor(n)
    } else {
        sqrt_floor(n) + 1
    }
}

/// The characteristic property of `sqrt_floor`.
pub proof fn lemma_sqrt_floor(n: int)
    requires
        n >= 0,
    ensures
        0 <= sqrt_floor(n),
        sqrt_floor(n) * sqrt_floor(n) <= n,
        (sqrt_floor(n) + 1) * (sqrt_floor(n) + 1) > n,
{
    assert((n + 1) * (n + 1) > n) by (nonlinear_arith)
        requires
            n >= 0,
    ;
    lemma_sqrt_from_full(n, n);
}

proof fn lemma_sqrt_from_full(n: int, b: int)
    requires
        n >= 0,
        0 <= b,
        (b + 1) * (b + 1) > n,
    ensures
        0 <= sqrt_floor_from(n, b),
        sqrt_floor_from(n, b) * sqrt_floor_from(n, b) <= n,
        (sqrt_floor_from(n, b) + 1) * (sqrt_floor_from(n, b) + 1) > n,
    decreases b,
{
    if b <= 0 {
    } else if b * b <= n {
    } else {
        lemma_sqrt_from_full(n, b - 1);
    }
}

/// `sqrt_floor` is the unique integer whose square brackets `n`.
pub proof fn lemma_sqrt_floor_unique(n: int, r: int)
    requires
        n >= 0,
        r >= 0,
        r * r <= n,
        (r + 1) * (r + 1) > n,
    ensures
        r == sqrt_floor(n),
{
    lemma_sqrt_floor(n);
    let s = sqrt_floor(n);
    if r < s {
        lemma_mul_inequality(r + 1, s, r + 1);
        lemma_mul_inequality(r + 1, s, s);
        assert((r + 1) * (r + 1) <= s * s) by (nonlinear_arith)
            requires
                0 <= r + 1 <= s,
        ;
    }
    if s < r {
        assert((s + 1) * (s + 1) <= r * r) by (nonlinear_arith)
            requires
                0 <= s + 1 <= r,
        ;
    }
}

/// Integer square root of a 128-bit value, rounded down.
pub fn isqrt(n: u128) -> (r: u64)
    ensures
        r == sqrt_floor(n as int),
{
    let mut lo: u128 = 0;
    let mut hi: u128 = 0xffff_ffff_ffff_ffff;
    proof {
        assert((hi + 1) * (hi + 1) > n) by (nonlinear_arith)
            requires
                hi == 0xffff_ffff_ffff_ffffu128 && n <= u128::MAX,
        ;
    }
    while lo < hi
        invariant
            0 <= lo <= hi <= 0xffff_ffff_ffff_ffff,
            lo * lo <= n,
            (hi + 1) * (hi + 1) > n,
        decreases hi - lo,
    {
        let mid: u128 = lo + (hi - lo + 1) / 2;
        proof {
            assert(mid * mid <= 0xffff_ffff_ffff_ffffu128 * 0xffff_ffff_ffff_ffffu128)
                by (nonlinear_arith)
                requires
                    0 <= mid <= 0xffff_ffff_ffff_ffffu128,
            ;
        }
        if mid * mid <= n {
            lo = mid;
        } else {
            hi = mid - 1;
        }
    }
    proof {
        lemma_sqrt_floor_unique(n as int, lo as int);
    }
    lo as u64
}

/// Integer square root of a 128-bit value, rounded up.
pub fn isqrt_up(n: u128) -> (r: u64)
    requires
        n < 0xffff_ffff_ffff_ffff * 0xffff_ffff_ffff_ffff,
    ensures
        r == sqrt_ceil(n as int),
{
    let r = isqrt(n);
    proof {
        lemma_sqrt_floor(n as int);
    }
    if (r as u128) * (r as u128) == n {
        r
    } else {
        proof {
            let s = sqrt_floor(n as int);
            assert(s < 0xffff_ffff_ffff_ffff) by {
                if s >= 0xffff_ffff_ffff_ffff {
                    assert(s * s >= 0xffff_ffff_ffff_ffff * 0xffff_ffff_ffff_ffff)
                        by (nonlinear_arith)
                        requires
                            s >= 0xffff_ffff_ffff_ffff,
                    ;
                }
            }
        }
        r + 1
    }
}

/// Division of 128-bit integers, truncated toward zero.
pub fn div_trunc(a: i128, b: i128) -> (r: i128)
    requires
        b > 0,
        a > i128::MIN,
    ensures
        r == div_t(a as int, b as int),
{
    if a >= 0 {
        let q = (a as u128) / (b as u128);
        proof {
            assert(q <= a) by (nonlinear_arith)
                requires
                    q == (a as u128) / (b as u128) && a >= 0 && b > 0,
            ;
        }
        q as i128
    } else {
        let m = (-a) as u128;
        let q = m / (b as u128);
        proof {
            assert(q <= m) by (nonlinear_arith)
                requires
                    q == m / (b as u128) && b > 0,
            ;
        }
        -(q as i128)
    }
}

/// Truncating division of an exact multiple recovers the factor:
/// `div_t(a * b, b) == a`.
pub proof fn lemma_div_t_multiple(a: int, b: int)
    requires
        b > 0,
    ensures
        div_t(a * b, b) == a,
{
    if a >= 0 {
        lemma_div_multiples_vanish(a, b);
        assert(a * b == b * a) by (nonlinear_arith);
    } else {
        lemma_div_multiples_vanish(-a, b);
        assert(-(a * b) == b * (-a)) by (nonlinear_arith);
        assert(a * b < 0) by (nonlinear_arith)
            requires
                a < 0,
                b > 0,
        ;
    }
}

/// Truncating division shrinks magnitudes: `|div_t(a, b) * b| <= |a|`, and
/// in particular `|div_t(a, b)| <= |a|`.
pub proof fn lemma_div_t_mag(a: int, b: int)
    requires
        b > 0,
    ensures
        mag(div_t(a, b)) * b <= mag(a),
        mag(div_t(a, b)) <= mag(a),
        a >= 0 ==> div_t(a, b) >= 0,
        a <= 0 ==> div_t(a, b) <= 0,
{
    let m = mag(a);
    let q = m / b;
    lemma_fundamental_div_mod(m, b);
    assert(q * b <= m);
    assert(q >= 0) by (nonlinear_arith)
        requires
            q == m / b && m >= 0 && b > 0,
    ;
    assert(q <= q * b) by (nonlinear_arith)
        requires
            q >= 0 && b >= 1,
    ;
}

/// If `|a| <= d` then `|div_t(a * k, d)| <= |k|`: scaling by `a / d` cannot
/// grow a value.
pub proof fn lemma_div_t_scale(a: int, k: int, d: int)
    requires
        d > 0,
        mag(a) <= d,
    ensures
        mag(div_t(a * k, d)) <= mag(k),
{
    lemma_div_t_mag(a * k, d);
    assert(mag(a * k) == mag(a) * mag(k)) by (nonlinear_arith);
    lemma_mul_inequality(mag(a), d, mag(k));
    let q = mag(div_t(a * k, d));
    assert(q * d <= d * mag(k));
    if q > mag(k) {
        lemma_mul_strict_inequality(mag(k), q, d);
    }
}

/// If `|a| <= d` then `|div_t(a * k, 2 * d)|` is at most half of `|k|`.
pub proof fn lemma_div_t_half_scale(a: int, k: int, d: int)
    requires
        d > 0,
        mag(a) <= d,
    ensures
        2 * mag(div_t(a * k, 2 * d)) <= mag(k),
{
    lemma_div_t_mag(a * k, 2 * d);
    lemma_mag_mul(a, k);
    let q = mag(div_t(a * k, 2 * d));
    assert(mag(a) * mag(k) <= d * mag(k)) by (nonlinear_arith)
        requires
            0 <= mag(a) <= d,
            0 <= mag(k),
    ;
    assert(2 * q <= mag(k)) by (nonlinear_arith)
        requires
            q * (2 * d) <= d * mag(k),
            d >= 1,
            q >= 0,
    ;
}

/// Scaling a vector by `m / d` with truncating division keeps its squared
/// length within `m * m`, provided the vector's squared length is within
/// `d * d`.
pub proof fn lemma_clamp_sound(vx: int, vy: int, m: int, d: int)
    requires
        d >= 1,
        m >= 0,
        vx * vx + vy * vy <= d * d,
    ensures
        div_t(vx * m, d) * div_t(vx * m, d) + div_t(vy * m, d) * div_t(vy * m, d) <= m * m,
{
    let tx = div_t(vx * m, d);
    let ty = div_t(vy * m, d);
    lemma_div_t_mag(vx * m, d);
    lemma_div_t_mag(vy * m, d);
    assert(mag(tx) * d <= mag(vx) * m && mag(ty) * d <= mag(vy) * m) by {
        assert(mag(vx * m) == mag(vx) * m && mag(vy * m) == mag(vy) * m) by (nonlinear_arith)
            requires
                m >= 0,
        ;
    }
    lemma_square_le(mag(tx) * d, mag(vx) * m);
    lemma_square_le(mag(ty) * d, mag(vy) * m);
    assert((tx * tx) * (d * d) <= (vx * vx) * (m * m)) by (nonlinear_arith)
        requires
            (mag(tx) * d) * (mag(tx) * d) <= (mag(vx) * m) * (mag(vx) * m),
            mag(tx) == if tx >= 0 { tx } else { -tx },
            mag(vx) == if vx >= 0 { vx } else { -vx },
    ;
    assert((ty * ty) * (d * d) <= (vy * vy) * (m * m)) by (nonlinear_arith)
        requires
            (mag(ty) * d) * (mag(ty) * d) <= (mag(vy) * m) * (mag(vy) * m),
            mag(ty) == if ty >= 0 { ty } else { -ty },
            mag(vy) == if vy >= 0 { vy } else { -vy },
    ;
    assert((tx * tx + ty * ty) * (d * d) <= (vx * vx + vy * vy) * (m * m)) by (nonlinear_arith)
        requires
            (tx * tx) * (d * d) <= (vx * vx) * (m * m),
            (ty * ty) * (d * d) <= (vy * vy) * (m * m),
    ;
    assert((vx * vx + vy * vy) * (m * m) <= (d * d) * (m * m)) by (nonlinear_arith)
        requires
            vx * vx + vy * vy <= d * d,
            m >= 0,
    ;
    assert(tx * tx + ty * ty <= m * m) by (nonlinear_arith)
        requires
            (tx * tx + ty * ty) * (d * d) <= (d * d) * (m * m),
            d >= 1,
            m >= 0,
    ;
}

/// Magnitudes multiply.
pub proof fn lemma_mag_mul(a: int, b: int)
    ensures
        mag(a * b) == mag(a) * mag(b),
{
    assert(mag(a * b) == mag(a) * mag(b)) by (nonlinear_arith)
        requires
            mag(a) == (if a >= 0 { a } else { -a }),
            mag(b) == (if b >= 0 { b } else { -b }),
            mag(a * b) == (if a * b >= 0 { a * b } else { -(a * b) }),
    ;
}

/// A bound on each factor bounds the magnitude of a product.
pub proof fn lemma_mag_mul_le(a: int, b: int, am: int, bm: int)
    requires
        mag(a) <= am,
        mag(b) <= bm,
    ensures
        mag(a * b) <= am * bm,
{
    lemma_mag_mul(a, b);
    assert(mag(a) * mag(b) <= am * bm) by (nonlinear_arith)
        requires
            0 <= mag(a) <= am,
            0 <= mag(b) <= bm,
    ;
}

/// A value whose square is within `y * y` has magnitude within `y`.
pub proof fn lemma_root_le(x: int, y: int)
    requires
        y >= 0,
        x * x <= y * y,
    ensures
        mag(x) <= y,
{
    if mag(x) > y {
        lemma_square_le(y + 1, mag(x));
        assert(mag(x) * mag(x) == x * x) by (nonlinear_arith);
        assert((y + 1) * (y + 1) > y * y) by (nonlinear_arith)
            requires
                y >= 0,
        ;
    }
}

/// A value whose square is within `n < (d + 1) * (d + 1)` has magnitude
/// within `d`.
pub proof fn lemma_root_floor(x: int, n: int, d: int)
    requires
        d >= 0,
        x * x <= n,
        n < (d + 1) * (d + 1),
    ensures
        mag(x) <= d,
{
    if mag(x) > d {
        lemma_square_le(d + 1, mag(x));
        assert(mag(x) * mag(x) == x * x) by (nonlinear_arith);
    }
}

/// Squaring preserves order on non-negative integers.
pub proof fn lemma_square_le(p: int, q: int)
    requires
        0 <= p <= q,
    ensures
        p * p <= q * q,
{
    lemma_mul_inequality(p, q, p);
    lemma_mul_inequality(p, q, q);
    assert(p * p <= q * q) by (nonlinear_arith)
        requires
            0 <= p <= q,
    ;
}

} // verus!
