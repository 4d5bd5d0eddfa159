//! Fixed-point 3-vectors and the integer arithmetic the distance field
//! rests on: an exact floor square root and truncating division by `SCALE`.

use vstd::prelude::*;

verus! {

use vstd::arithmetic::div_mod::{lemma_div_is_ordered, lemma_div_multiples_vanish};
use vstd::math::{max, max3};
use crate::{POINT_LIMIT, SCALE};

/// A point or vector in fixed-point world coordinates (`SCALE` steps per
/// world unit).
#[derive(Clone, Copy, PartialEq, Eq, Structural, Debug)]
pub struct Vec3i {
    pub x: i64,
    pub y: i64,
    pub z: i64,
}

/// The mathematical shadow of a `Vec3i`: unbounded integer components.
pub struct V3 {
    pub x: int,
    pub y: int,
    pub z: int,
}

impl View for Vec3i {
    type V = V3;

    open spec fn view(&self) -> V3 {
        V3 { x: self.x as int, y: self.y as int, z: self.z as int }
    }
}

impl Vec3i {
    pub fn new(x: i64, y: i64, z: i64) -> (v: Vec3i)
        ensures
            v@ == (V3 { x: x as int, y: y as int, z: z as int }),
    {
        Vec3i { x, y, z }
    }
}

/// All three components lie in `[-limit, limit]`.
pub open spec fn in_cube(v: V3, limit: int) -> bool {
    &&& -limit <= v.x <= limit
    &&& -limit <= v.y <= limit
    &&& -limit <= v.z <= limit
}

pub open spec fn sq(x: int) -> int {
    x * x
}

/// Squared Euclidean distance between two points.
pub open spec fn dist2(a: V3, b: V3) -> int {
    sq(a.x - b.x) + sq(a.y - b.y) + sq(a.z - b.z)
}

/// The floor of the square root of `n` (0 for negative `n`).
pub open spec fn sqrt_floor(n: int) -> int
    decreases n,
{
    if n <= 0 {
        0
    } else {
        let r = sqrt_floor(n - 1);
        if sq(r + 1) <= n {
            r + 1
        } else {
            r
        }
    }
}

/// Euclidean distance between two points, rounded down.
pub open spec fn dist(a: V3, b: V3) -> int {
    sqrt_floor(dist2(a, b))
}

/// Squaring keeps signs out: `x^2 == |x|^2 >= 0`.
pub proof fn lemma_sq_abs(x: int)
    ensures
        sq(abs_i(x)) == sq(x),
        sq(x) >= 0,
{
    assert(x * x == (-x) * (-x) && x * x >= 0) by (nonlinear_arith);
}

/// Squaring is monotone on magnitudes.
pub proof fn lemma_sq_le(x: int, b: int)
    requires
        abs_i(x) <= b,
    ensures
        0 <= sq(x) <= sq(b),
{
    lemma_sq_abs(x);
    assert(sq(abs_i(x)) <= sq(b)) by (nonlinear_arith)
        requires 0 <= abs_i(x) <= b;
}

pub proof fn lemma_sqrt_floor_bounds(n: int)
    requires
        n >= 0,
    ensures
        0 <= sqrt_floor(n),
        sq(sqrt_floor(n)) <= n,
        n < sq(sqrt_floor(n) + 1),
    decreases n,
{
    if n == 0 {
        assert(sq(1) == 1);
    } else {
        lemma_sqrt_floor_bounds(n - 1);
        let r = sqrt_floor(n - 1);
        if sq(r + 1) <= n {
            assert(sq(r + 2) > sq(r + 1)) by (nonlinear_arith)
                requires r >= 0;
        }
    }
}

/// The floor square root is the only `r >= 0` with `r^2 <= n < (r+1)^2`.
pub proof fn lemma_sqrt_floor_unique(n: int, r: int)
    requires
        n >= 0,
        r >= 0,
        sq(r) <= n,
        n < sq(r + 1),
    ensures
        r == sqrt_floor(n),
{
    let s = sqrt_floor(n);
    lemma_sqrt_floor_bounds(n);
    if r < s {
        assert(sq(r + 1) <= sq(s)) by (nonlinear_arith)
            requires 0 <= r + 1 <= s;
    }
    if s < r {
        assert(sq(s + 1) <= sq(r)) by (nonlinear_arith)
            requires 0 <= s + 1 <= r;
    }
}

pub proof fn lemma_sqrt_floor_monotone(a: int, b: int)
    requires
        0 <= a <= b,
    ensures
        sqrt_floor(a) <= sqrt_floor(b),
{
    lemma_sqrt_floor_bounds(a);
    lemma_sqrt_floor_bounds(b);
    let sa = sqrt_floor(a);
    let sb = sqrt_floor(b);
    if sb < sa {
        assert(sq(sb + 1) <= sq(sa)) by (nonlinear_arith)
            requires 0 <= sb + 1 <= sa;
    }
}

/// If `n` is below `b^2`, its root is below `b`.
pub proof fn lemma_sqrt_floor_below(n: int, b: int)
    requires
        0 <= n,
        0 <= b,
        n < sq(b),
    ensures
        sqrt_floor(n) < b,
{
    lemma_sqrt_floor_bounds(n);
    let s = sqrt_floor(n);
    if s >= b {
        assert(sq(b) <= sq(s)) by (nonlinear_arith)
            requires 0 <= b <= s;
    }
}

pub proof fn lemma_sqrt_floor_of_square(x: int)
    requires
        x >= 0,
    ensures
        sqrt_floor(sq(x)) == x,
{
    assert(sq(x) <= sq(x) < sq(x + 1)) by (nonlinear_arith)
        requires x >= 0;
    lemma_sqrt_floor_unique(sq(x), x);
}

/// Floor square root by binary search; exact per `sqrt_floor`.
pub fn isqrt(n: i128) -> (r: i64)
    requires
        0 <= n < sq(0x800_0000_0000int),
    ensures
        r == sqrt_floor(n as int),
        0 <= r < 0x800_0000_0000,
{
    let mut lo: i64 = 0;
    let mut hi: i64 = 0x800_0000_0000;
    proof {
        assert(sq(0x800_0000_0000int) == 0x40_0000_0000_0000_0000_0000int);
    }
    while lo + 1 < hi
        invariant
            0 <= lo < hi <= 0x800_0000_0000,
            sq(lo as int) <= n,
            (n as int) < sq(hi as int),
        decreases hi - lo,
    {
        let mid = lo + (hi - lo) / 2;
        proof {
            assert(lo < mid < hi);
            lemma_sq_le(mid as int, 0x800_0000_0000int);
        }
        if (mid as i128) * (mid as i128) <= n {
            lo = mid;
        } else {
            hi = mid;
        }
    }
    proof {
        lemma_sqrt_floor_unique(n as int, lo as int);
    }
    lo
}

/// Division that truncates toward zero, as the fixed-point scaling does.
pub open spec fn div_trunc(a: int, b: int) -> int {
    if a >= 0 {
        a / b
    } else {
        -((-a) / b)
    }
}

/// Divide a scaled product back down by `SCALE`, truncating toward zero.
pub fn div_by_scale(t: i64) -> (r: i64)
    requires
        i64::MIN < t,
    ensures
        r == div_trunc(t as int, SCALE as int),
{
    if t >= 0 {
        ((t as u64) / 1000) as i64
    } else {
        -((((-t) as u64) / 1000) as i64)
    }
}

/// A scaled product divided back down never exceeds the unscaled factor:
/// for `|a| <= SCALE * d`, `|a / SCALE| <= d` (truncating).
pub proof fn lemma_div_trunc_bound(a: int, d: int)
    requires
        0 <= d,
        abs_i(a) <= 1000 * d,
    ensures
        abs_i(div_trunc(a, 1000)) <= d,
{
    lemma_div_multiples_vanish(d, 1000);
    if a >= 0 {
        lemma_div_is_ordered(0, a, 1000);
        lemma_div_is_ordered(a, 1000 * d, 1000);
    } else {
        lemma_div_is_ordered(0, -a, 1000);
        lemma_div_is_ordered(-a, 1000 * d, 1000);
    }
}

/// Exact Euclidean distance (rounded down) between two in-range points.
pub fn dist3(a: &Vec3i, b: &Vec3i) -> (r: i64)
    requires
        in_cube(a@, POINT_LIMIT as int),
        in_cube(b@, POINT_LIMIT as int),
    ensures
        r == dist(a@, b@),
        0 <= r,
{
    let dx = (a.x - b.x) as i128;
    let dy = (a.y - b.y) as i128;
    let dz = (a.z - b.z) as i128;
    proof {
        lemma_sq_le(dx as int, 2 * POINT_LIMIT as int);
        lemma_sq_le(dy as int, 2 * POINT_LIMIT as int);
        lemma_sq_le(dz as int, 2 * POINT_LIMIT as int);
        assert(3 * sq(2 * POINT_LIMIT as int) < sq(0x800_0000_0000int)) by (nonlinear_arith);
    }
    let r = isqrt(dx * dx + dy * dy + dz * dz);
    proof {
        lemma_sqrt_floor_bounds(dist2(a@, b@));
    }
    r
}

/// A distance bounds each per-axis offset: the root of a sum of squares
/// is at least each `|difference|`.
pub proof fn lemma_dist_dominates_axes(a: V3, b: V3)
    ensures
        abs_i(a.x - b.x) <= dist(a, b),
        abs_i(a.y - b.y) <= dist(a, b),
        abs_i(a.z - b.z) <= dist(a, b),
{
    let dx = abs_i(a.x - b.x);
    let dy = abs_i(a.y - b.y);
    let dz = abs_i(a.z - b.z);
    lemma_sq_abs(a.x - b.x);
    lemma_sq_abs(a.y - b.y);
    lemma_sq_abs(a.z - b.z);
    lemma_sqrt_floor_of_square(dx);
    lemma_sqrt_floor_of_square(dy);
    lemma_sqrt_floor_of_square(dz);
    lemma_sqrt_floor_monotone(sq(dx), dist2(a, b));
    lemma_sqrt_floor_monotone(sq(dy), dist2(a, b));
    lemma_sqrt_floor_monotone(sq(dz), dist2(a, b));
}

/// Absolute value, as an `int` (vstd's `abs` yields a `nat`).
pub open spec fn abs_i(x: int) -> int {
    if x >= 0 {
        x
    } else {
        -x
    }
}

/// Largest component magnitude of a vector.
pub open spec fn norm_inf(v: V3) -> int {
    max3(abs_i(v.x), abs_i(v.y), abs_i(v.z))
}

/// Smaller of two `i64` values, pinned to vstd's spec-level `min`.
pub fn min_i64(a: i64, b: i64) -> (r: i64)
    ensures
        r == vstd::math::min(a as int, b as int),
{
    if a < b {
        a
    } else {
        b
    }
}

/// Larger of two `i64` values, pinned to vstd's spec-level `max`.
pub fn max_i64(a: i64, b: i64) -> (r: i64)
    ensures
        r == max(a as int, b as int),
{
    if a > b {
        a
    } else {
        b
    }
}

} // verus!
