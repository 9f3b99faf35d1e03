//! Fixed-point arithmetic shared by the grid and the generators.
//!
//! Every fractional quantity of the library (pixel-space lengths, noise
//! samples, climate attributes, sampling weights) is an integer count of
//! millionths. Lengths use the width of one hexagon as their unit, so a tile
//! that is one hexagon wide measures `ONE`.

use vstd::prelude::*;

verus! {

/// The fixed-point representation of `1.0`.
pub const ONE: i64 = 1_000_000;

/// Quotient of `a / 2` rounded toward zero.
pub open spec fn half(a: int) -> int {
    if a >= 0 {
        a / 2
    } else {
        -((-a) / 2)
    }
}

/// Absolute value of an integer.
pub open spec fn abs(a: int) -> int {
    if a >= 0 {
        a
    } else {
        -a
    }
}

/// Quotient of `a / d` rounded toward zero, for a positive divisor.
pub open spec fn div_toward_zero(a: int, d: int) -> int {
    if a >= 0 {
        a / d
    } else {
        -((-a) / d)
    }
}

/// The nearest value between 0 and 1, in millionths.
pub open spec fn clamp_unit(a: int) -> int {
    if a < 0 {
        0
    } else if a > ONE {
        ONE as int
    } else {
        a
    }
}

/// Square of the Euclidean distance between two points.
pub open spec fn dist_sq(ax: int, ay: int, bx: int, by: int) -> int {
    (ax - bx) * (ax - bx) + (ay - by) * (ay - by)
}

/// `r` is the integer square root of `n`: the largest integer whose square
/// does not exceed `n`.
pub open spec fn is_sqrt(n: int, r: int) -> bool {
    0 <= r && r * r <= n && n < (r + 1) * (r + 1)
}

/// Squaring keeps the order of non-negative numbers.
pub proof fn lemma_square_monotonic(a: int, b: int)
    requires
        0 <= a <= b,
    ensures
        a * a <= b * b,
{
    assert(a * a <= b * b) by (nonlinear_arith)
        requires
            0 <= a <= b,
    ;
}

/// The integer square root is unique.
pub proof fn lemma_sqrt_unique(n: int, r: int, s: int)
    requires
        is_sqrt(n, r),
        is_sqrt(n, s),
    ensures
        r == s,
{
    if r < s {
        lemma_square_monotonic(r + 1, s);
    } else if s < r {
        lemma_square_monotonic(s + 1, r);
    }
}

/// Integer square root.
pub open spec fn sqrt_floor(n: int) -> int {
    choose|r: int| is_sqrt(n, r)
}

/// An integer square root is `sqrt_floor`.
pub proof fn lemma_sqrt_floor(n: int, r: int)
    requires
        is_sqrt(n, r),
    ensures
        sqrt_floor(n) == r,
{
    lemma_sqrt_unique(n, r, sqrt_floor(n));
}

/// Component `v` of a vector of length `norm`, after the vector was
/// stretched to the length `length`; rounded toward zero. A vector without
/// length stays where it is.
pub open spec fn stretch(v: int, length: int, norm: int) -> int {
    if norm <= 0 {
        0
    } else {
        div_toward_zero(v * length, norm)
    }
}

/// Integer length of the vector `(vx, vy)`.
pub open spec fn norm(vx: int, vy: int) -> int {
    sqrt_floor(vx * vx + vy * vy)
}

/// Executable `norm`.
pub fn norm_of(vx: i64, vy: i64) -> (r: u64)
    requires
        abs(vx as int) <= 0x4000_0000_0000_0000,
        abs(vy as int) <= 0x4000_0000_0000_0000,
    ensures
        r == norm(vx as int, vy as int),
        abs(vx as int) <= r,
        abs(vy as int) <= r,
        r <= abs(vx as int) + abs(vy as int),
{
    let n: u128 = distance_squared(vx, vy, 0, 0);
    let r: u64 = isqrt(n);
    proof {
        lemma_sqrt_floor(n as int, r as int);
        let ax = abs(vx as int);
        let ay = abs(vy as int);
        assert(ax * ax == vx * vx && ay * ay == vy * vy) by (nonlinear_arith)
            requires
                ax == abs(vx as int),
                ay == abs(vy as int),
        ;
        if ax > r {
            lemma_square_monotonic(r + 1, ax);
            assert(ay * ay >= 0) by (nonlinear_arith);
        }
        if ay > r {
            lemma_square_monotonic(r + 1, ay);
            assert(ax * ax >= 0) by (nonlinear_arith);
        }
        if r > ax + ay {
            lemma_square_monotonic(ax + ay + 1, r as int);
            assert((ax + ay + 1) * (ax + ay + 1) > ax * ax + ay * ay) by (nonlinear_arith)
                requires
                    ax >= 0,
                    ay >= 0,
            ;
        }
    }
    r
}

/// Executable `stretch`.
pub fn stretch_of(v: i64, length: u64, norm: u64) -> (r: i64)
    requires
        abs(v as int) <= norm,
        length <= 0x4000_0000_0000_0000,
    ensures
        r == stretch(v as int, length as int, norm as int),
        abs(r as int) <= length,
{
    if norm == 0 {
        return 0;
    }
    let size: u64 = abs_diff(v, 0);
    let scaled: u128 = mul_div(size, length, norm);
    proof {
        assert((size * length) / (norm as int) <= length) by (nonlinear_arith)
            requires
                0 <= size <= norm,
                0 < norm,
                0 <= length,
        ;
        assert(v * length == size * length || v * length == -(size * length)) by (nonlinear_arith)
            requires
                size == abs(v as int),
        ;
        assert(v >= 0 ==> v * length >= 0) by (nonlinear_arith)
            requires
                length >= 0,
        ;
        assert(v < 0 ==> v * length <= 0) by (nonlinear_arith)
            requires
                length >= 0,
        ;
        assert(v < 0 ==> -(v * length) == size * length) by (nonlinear_arith)
            requires
                size == abs(v as int),
        ;
        assert(v >= 0 ==> v * length == size * length) by (nonlinear_arith)
            requires
                size == abs(v as int),
        ;
    }
    if v < 0 {
        -(scaled as i64)
    } else {
        scaled as i64
    }
}

/// Executable `half`.
pub fn half_of(a: i32) -> (r: i32)
    ensures
        r == half(a as int),
{
    a / 2
}

/// Absolute difference of two 64-bit integers.
pub fn abs_diff(a: i64, b: i64) -> (r: u64)
    ensures
        r == abs(a - b),
{
    if a >= b {
        (a as i128 - b as i128) as u64
    } else {
        (b as i128 - a as i128) as u64
    }
}

/// Square of the Euclidean distance between two points whose coordinates
/// differ by less than `9 * 2^60` on each axis.
pub fn distance_squared(ax: i64, ay: i64, bx: i64, by: i64) -> (r: u128)
    requires
        abs(ax - bx) <= 0x9000_0000_0000_0000,
        abs(ay - by) <= 0x9000_0000_0000_0000,
    ensures
        r == dist_sq(ax as int, ay as int, bx as int, by as int),
{
    let dx: u64 = abs_diff(ax, bx);
    let dy: u64 = abs_diff(ay, by);
    assert(dx * dx == (ax - bx) * (ax - bx)) by (nonlinear_arith)
        requires
            dx == abs(ax - bx),
    ;
    assert(dy * dy == (ay - by) * (ay - by)) by (nonlinear_arith)
        requires
            dy == abs(ay - by),
    ;
    assert(dx * dx <= 0x9000_0000_0000_0000 * 0x9000_0000_0000_0000) by (nonlinear_arith)
        requires
            0 <= dx <= 0x9000_0000_0000_0000,
    ;
    assert(dy * dy <= 0x9000_0000_0000_0000 * 0x9000_0000_0000_0000) by (nonlinear_arith)
        requires
            0 <= dy <= 0x9000_0000_0000_0000,
    ;
    (dx as u128) * (dx as u128) + (dy as u128) * (dy as u128)
}

/// Integer square root by bisection.
pub fn isqrt(n: u128) -> (r: u64)
    ensures
        is_sqrt(n as int, r as int),
{
    let mut lo: u128 = 0;
    let mut hi: u128 = 0x1_0000_0000_0000_0000;
    assert(n < hi * hi) by (nonlinear_arith)
        requires
            hi == 0x1_0000_0000_0000_0000,
            n <= u128::MAX,
    ;
    while hi - lo > 1
        invariant
            lo < hi <= 0x1_0000_0000_0000_0000,
            lo * lo <= n,
            n < hi * hi,
        decreases hi - lo,
    {
        let mid: u128 = lo + (hi - lo) / 2;
        assert(mid * mid <= 0xffff_ffff_ffff_ffff * 0xffff_ffff_ffff_ffff) by (nonlinear_arith)
            requires
                0 <= mid <= 0xffff_ffff_ffff_ffff,
        ;
        if mid * mid <= n {
            lo = mid;
        } else {
            hi = mid;
        }
    }
    lo as u64
}

/// `a * b / d`, rounded toward zero, for a non-negative `a` and a positive `d`.
pub fn mul_div(a: u64, b: u64, d: u64) -> (r: u128)
    requires
        d > 0,
    ensures
        r == (a * b) / (d as int),
{
    assert(a * b <= 0xffff_ffff_ffff_ffff * 0xffff_ffff_ffff_ffff) by (nonlinear_arith)
        requires
            0 <= a <= 0xffff_ffff_ffff_ffff,
            0 <= b <= 0xffff_ffff_ffff_ffff,
    ;
    (a as u128) * (b as u128) / (d as u128)
}

} // verus!
