//! Signed-distance primitives and their evaluation: exact integer distance
//! to a box or a sphere, and the composition of a chunk's primitives into
//! one scalar field (union by minimum, carving by maximum of negation).

use vstd::prelude::*;

verus! {

use vstd::math::{max, max3, min};
use crate::math::{
    abs_i, dist2, in_cube, isqrt, lemma_sq_le, lemma_sqrt_floor_below, lemma_sqrt_floor_bounds,
    norm_inf, sq, sqrt_floor, Vec3i, V3,
};
use crate::{POINT_LIMIT, WORLD_LIMIT};

/// An axis-aligned solid box; always additive.
#[derive(Clone, Copy, PartialEq, Eq, Structural, Debug)]
pub struct BoxSDF {
    pub center: Vec3i,
    pub half_extents: Vec3i,
}

/// A sphere; additive when `negate == 0`, subtractive (a carved void)
/// when `negate == 1`.
#[derive(Clone, Copy, PartialEq, Eq, Structural, Debug)]
pub struct SphereSDF {
    pub center: Vec3i,
    pub radius: i64,
    pub negate: i32,
}

/// Exact signed distance from `p` to the box `(c, h)`: the Euclidean
/// distance (rounded down) outside, the largest per-axis penetration
/// (negative) inside.
pub open spec fn spec_box_dist(p: V3, c: V3, h: V3) -> int {
    let qx = abs_i(p.x - c.x) - h.x;
    let qy = abs_i(p.y - c.y) - h.y;
    let qz = abs_i(p.z - c.z) - h.z;
    sqrt_floor(sq(max(qx, 0)) + sq(max(qy, 0)) + sq(max(qz, 0))) + min(max3(qx, qy, qz), 0)
}

/// Exact signed distance from `p` to the sphere `(c, r)`.
pub open spec fn spec_sphere_dist(p: V3, c: V3, r: int) -> int {
    sqrt_floor(dist2(p, c)) - r
}

pub open spec fn box_dist_of(p: V3, b: BoxSDF) -> int {
    spec_box_dist(p, b.center@, b.half_extents@)
}

pub open spec fn sphere_dist_of(p: V3, s: SphereSDF) -> int {
    spec_sphere_dist(p, s.center@, s.radius as int)
}

/// A box primitive the evaluators accept: in range, with positive extents.
pub open spec fn box_ok(b: BoxSDF) -> bool {
    &&& in_cube(b.center@, WORLD_LIMIT as int)
    &&& in_cube(b.half_extents@, WORLD_LIMIT as int)
    &&& b.half_extents@.x > 0
    &&& b.half_extents@.y > 0
    &&& b.half_extents@.z > 0
}

/// A sphere primitive the evaluators accept; carved centers may lie
/// anywhere a march can reach, hence the wider bound.
pub open spec fn sphere_ok(s: SphereSDF) -> bool {
    &&& in_cube(s.center@, POINT_LIMIT as int)
    &&& 0 < s.radius <= WORLD_LIMIT
    &&& s.negate == 0 || s.negate == 1
}

pub open spec fn boxes_ok(s: Seq<BoxSDF>) -> bool {
    forall|i: int| 0 <= i < s.len() ==> #[trigger] box_ok(s[i])
}

pub open spec fn spheres_ok(s: Seq<SphereSDF>) -> bool {
    forall|i: int| 0 <= i < s.len() ==> #[trigger] sphere_ok(s[i])
}

/// Exact Euclidean signed distance to an axis-aligned box; negative
/// strictly inside, positive strictly outside, zero on the surface.
pub fn distance_to_box(p: &Vec3i, center: &Vec3i, half_extents: &Vec3i) -> (d: i64)
    requires
        in_cube(p@, POINT_LIMIT as int),
        in_cube(center@, POINT_LIMIT as int),
        in_cube(half_extents@, POINT_LIMIT as int),
    ensures
        d == spec_box_dist(p@, center@, half_extents@),
{
    let ax = if p.x >= center.x { p.x - center.x } else { center.x - p.x };
    let ay = if p.y >= center.y { p.y - center.y } else { center.y - p.y };
    let az = if p.z >= center.z { p.z - center.z } else { center.z - p.z };
    let qx = ax - half_extents.x;
    let qy = ay - half_extents.y;
    let qz = az - half_extents.z;
    let ux = if qx > 0 { qx } else { 0 };
    let uy = if qy > 0 { qy } else { 0 };
    let uz = if qz > 0 { qz } else { 0 };
    proof {
        lemma_sq_le(ux as int, 3 * POINT_LIMIT as int);
        lemma_sq_le(uy as int, 3 * POINT_LIMIT as int);
        lemma_sq_le(uz as int, 3 * POINT_LIMIT as int);
        assert(3 * sq(3 * POINT_LIMIT as int) < sq(0x800_0000_0000int)) by (nonlinear_arith);
    }
    let len = isqrt(
        (ux as i128) * (ux as i128) + (uy as i128) * (uy as i128) + (uz as i128) * (uz as i128),
    );
    let m3 = if qx >= qy && qx >= qz {
        qx
    } else if qy >= qz {
        qy
    } else {
        qz
    };
    let md = if m3 < 0 { m3 } else { 0 };
    len + md
}

/// Exact signed distance to a sphere: `|p - c| - r`, with the Euclidean
/// length rounded down.
pub fn distance_to_sphere(p: &Vec3i, center: &Vec3i, radius: i64) -> (d: i64)
    requires
        in_cube(p@, POINT_LIMIT as int),
        in_cube(center@, POINT_LIMIT as int),
        0 < radius <= WORLD_LIMIT,
    ensures
        d == spec_sphere_dist(p@, center@, radius as int),
{
    let dx = (p.x - center.x) as i128;
    let dy = (p.y - center.y) as i128;
    let dz = (p.z - center.z) as i128;
    proof {
        lemma_sq_le(dx as int, 2 * POINT_LIMIT as int);
        lemma_sq_le(dy as int, 2 * POINT_LIMIT as int);
        lemma_sq_le(dz as int, 2 * POINT_LIMIT as int);
        assert(3 * sq(2 * POINT_LIMIT as int) < sq(0x800_0000_0000int)) by (nonlinear_arith);
        lemma_sqrt_floor_bounds(dist2(p@, center@));
    }
    let len = isqrt(dx * dx + dy * dy + dz * dz);
    len - radius
}

/// Union-fold: the running minimum of `acc` and each box's distance.
pub open spec fn fold_boxes(p: V3, s: Seq<BoxSDF>, acc: int) -> int
    decreases s.len(),
{
    if s.len() == 0 {
        acc
    } else {
        fold_boxes(p, s.drop_first(), min(acc, box_dist_of(p, s[0])))
    }
}

/// Union-fold over the additive spheres only; subtractive ones are skipped.
pub open spec fn fold_add_spheres(p: V3, s: Seq<SphereSDF>, acc: int) -> int
    decreases s.len(),
{
    if s.len() == 0 {
        acc
    } else {
        let acc2 = if s[0].negate == 1 {
            acc
        } else {
            min(acc, sphere_dist_of(p, s[0]))
        };
        fold_add_spheres(p, s.drop_first(), acc2)
    }
}

/// Carve-fold over the subtractive spheres only: the running maximum of
/// `acc` and each negated distance.
pub open spec fn fold_sub_spheres(p: V3, s: Seq<SphereSDF>, acc: int) -> int
    decreases s.len(),
{
    if s.len() == 0 {
        acc
    } else {
        let acc2 = if s[0].negate == 1 {
            max(acc, -sphere_dist_of(p, s[0]))
        } else {
            acc
        };
        fold_sub_spheres(p, s.drop_first(), acc2)
    }
}

/// Minimum distance over a non-empty sequence of boxes.
pub open spec fn boxes_min(p: V3, s: Seq<BoxSDF>) -> int {
    fold_boxes(p, s.drop_first(), box_dist_of(p, s[0]))
}

/// The combined signed-distance field of one primitive set at `p`: union
/// of all boxes and additive spheres, then every subtractive sphere
/// carved out (`max` with the negated distance), subtraction last.
pub open spec fn chunk_field(p: V3, boxes: Seq<BoxSDF>, spheres: Seq<SphereSDF>) -> int {
    fold_sub_spheres(p, spheres, fold_add_spheres(p, spheres, boxes_min(p, boxes)))
}

pub proof fn lemma_fold_boxes_push(p: V3, s: Seq<BoxSDF>, e: BoxSDF, acc: int)
    ensures
        fold_boxes(p, s.push(e), acc) == min(fold_boxes(p, s, acc), box_dist_of(p, e)),
    decreases s.len(),
{
    if s.len() == 0 {
        assert(s.push(e)[0] == e);
        assert(s.push(e).drop_first() =~= Seq::<BoxSDF>::empty());
        assert(s.push(e).len() == 1);
        assert(fold_boxes(p, s.push(e), acc) == fold_boxes(
            p,
            s.push(e).drop_first(),
            min(acc, box_dist_of(p, e)),
        ));
        assert(fold_boxes(p, Seq::<BoxSDF>::empty(), min(acc, box_dist_of(p, e))) == min(
            acc,
            box_dist_of(p, e),
        ));
        assert(fold_boxes(p, s, acc) == acc);
    } else {
        assert(s.push(e)[0] == s[0]);
        assert(s.push(e).drop_first() =~= s.drop_first().push(e));
        lemma_fold_boxes_push(p, s.drop_first(), e, min(acc, box_dist_of(p, s[0])));
    }
}

pub proof fn lemma_fold_boxes_append(p: V3, a: Seq<BoxSDF>, b: Seq<BoxSDF>, acc: int)
    ensures
        fold_boxes(p, a + b, acc) == fold_boxes(p, b, fold_boxes(p, a, acc)),
    decreases a.len(),
{
    if a.len() == 0 {
        assert(a + b =~= b);
    } else {
        assert((a + b)[0] == a[0]);
        assert((a + b).drop_first() =~= a.drop_first() + b);
        lemma_fold_boxes_append(p, a.drop_first(), b, min(acc, box_dist_of(p, a[0])));
    }
}

pub proof fn lemma_fold_add_push(p: V3, s: Seq<SphereSDF>, e: SphereSDF, acc: int)
    ensures
        e.negate == 1 ==> fold_add_spheres(p, s.push(e), acc) == fold_add_spheres(p, s, acc),
        e.negate != 1 ==> fold_add_spheres(p, s.push(e), acc) == min(
            fold_add_spheres(p, s, acc),
            sphere_dist_of(p, e),
        ),
    decreases s.len(),
{
    if s.len() == 0 {
        assert(s.push(e)[0] == e);
        assert(s.push(e).drop_first() =~= Seq::<SphereSDF>::empty());
        let acc2 = if e.negate == 1 {
            acc
        } else {
            min(acc, sphere_dist_of(p, e))
        };
        assert(fold_add_spheres(p, s.push(e), acc) == fold_add_spheres(
            p,
            s.push(e).drop_first(),
            acc2,
        ));
        assert(fold_add_spheres(p, Seq::<SphereSDF>::empty(), acc2) == acc2);
        assert(fold_add_spheres(p, s, acc) == acc);
    } else {
        assert(s.push(e)[0] == s[0]);
        assert(s.push(e).drop_first() =~= s.drop_first().push(e));
        let acc2 = if s[0].negate == 1 {
            acc
        } else {
            min(acc, sphere_dist_of(p, s[0]))
        };
        lemma_fold_add_push(p, s.drop_first(), e, acc2);
    }
}

pub proof fn lemma_fold_add_append(p: V3, a: Seq<SphereSDF>, b: Seq<SphereSDF>, acc: int)
    ensures
        fold_add_spheres(p, a + b, acc) == fold_add_spheres(p, b, fold_add_spheres(p, a, acc)),
    decreases a.len(),
{
    if a.len() == 0 {
        assert(a + b =~= b);
    } else {
        assert((a + b)[0] == a[0]);
        assert((a + b).drop_first() =~= a.drop_first() + b);
        let acc2 = if a[0].negate == 1 {
            acc
        } else {
            min(acc, sphere_dist_of(p, a[0]))
        };
        lemma_fold_add_append(p, a.drop_first(), b, acc2);
    }
}

pub proof fn lemma_fold_sub_push(p: V3, s: Seq<SphereSDF>, e: SphereSDF, acc: int)
    ensures
        e.negate == 1 ==> fold_sub_spheres(p, s.push(e), acc) == max(
            fold_sub_spheres(p, s, acc),
            -sphere_dist_of(p, e),
        ),
        e.negate != 1 ==> fold_sub_spheres(p, s.push(e), acc) == fold_sub_spheres(p, s, acc),
    decreases s.len(),
{
    if s.len() == 0 {
        assert(s.push(e)[0] == e);
        assert(s.push(e).drop_first() =~= Seq::<SphereSDF>::empty());
        let acc2 = if e.negate == 1 {
            max(acc, -sphere_dist_of(p, e))
        } else {
            acc
        };
        assert(fold_sub_spheres(p, s.push(e), acc) == fold_sub_spheres(
            p,
            s.push(e).drop_first(),
            acc2,
        ));
        assert(fold_sub_spheres(p, Seq::<SphereSDF>::empty(), acc2) == acc2);
        assert(fold_sub_spheres(p, s, acc) == acc);
    } else {
        assert(s.push(e)[0] == s[0]);
        assert(s.push(e).drop_first() =~= s.drop_first().push(e));
        let acc2 = if s[0].negate == 1 {
            max(acc, -sphere_dist_of(p, s[0]))
        } else {
            acc
        };
        lemma_fold_sub_push(p, s.drop_first(), e, acc2);
    }
}

pub proof fn lemma_fold_sub_append(p: V3, a: Seq<SphereSDF>, b: Seq<SphereSDF>, acc: int)
    ensures
        fold_sub_spheres(p, a + b, acc) == fold_sub_spheres(p, b, fold_sub_spheres(p, a, acc)),
    decreases a.len(),
{
    if a.len() == 0 {
        assert(a + b =~= b);
    } else {
        assert((a + b)[0] == a[0]);
        assert((a + b).drop_first() =~= a.drop_first() + b);
        let acc2 = if a[0].negate == 1 {
            max(acc, -sphere_dist_of(p, a[0]))
        } else {
            acc
        };
        lemma_fold_sub_append(p, a.drop_first(), b, acc2);
    }
}

/// `p` lies strictly inside the box `(c, h)`.
pub open spec fn strictly_inside_box(p: V3, c: V3, h: V3) -> bool {
    &&& abs_i(p.x - c.x) < h.x
    &&& abs_i(p.y - c.y) < h.y
    &&& abs_i(p.z - c.z) < h.z
}

/// `p` lies strictly outside the box `(c, h)`.
pub open spec fn strictly_outside_box(p: V3, c: V3, h: V3) -> bool {
    ||| abs_i(p.x - c.x) > h.x
    ||| abs_i(p.y - c.y) > h.y
    ||| abs_i(p.z - c.z) > h.z
}

/// `p` lies on the surface of the box `(c, h)`: within it on every axis
/// and exactly at the face on some axis.
pub open spec fn on_box_surface(p: V3, c: V3, h: V3) -> bool {
    &&& abs_i(p.x - c.x) <= h.x
    &&& abs_i(p.y - c.y) <= h.y
    &&& abs_i(p.z - c.z) <= h.z
    &&& {
        ||| abs_i(p.x - c.x) == h.x
        ||| abs_i(p.y - c.y) == h.y
        ||| abs_i(p.z - c.z) == h.z
    }
}

/// Sign law of the box distance: negative strictly inside, positive
/// strictly outside, exactly zero on the surface.
pub proof fn lemma_box_distance_sign(p: V3, c: V3, h: V3)
    requires
        h.x > 0,
        h.y > 0,
        h.z > 0,
    ensures
        strictly_inside_box(p, c, h) ==> spec_box_dist(p, c, h) < 0,
        strictly_outside_box(p, c, h) ==> spec_box_dist(p, c, h) > 0,
        on_box_surface(p, c, h) ==> spec_box_dist(p, c, h) == 0,
{
    let qx = abs_i(p.x - c.x) - h.x;
    let qy = abs_i(p.y - c.y) - h.y;
    let qz = abs_i(p.z - c.z) - h.z;
    let s = sq(max(qx, 0)) + sq(max(qy, 0)) + sq(max(qz, 0));
    assert(sq(0int) == 0);
    if strictly_inside_box(p, c, h) {
        assert(s == 0);
    } else if strictly_outside_box(p, c, h) {
        let m = max3(qx, qy, qz);
        assert(m >= 1);
        assert(sq(max(qx, 0)) >= 0 && sq(max(qy, 0)) >= 0 && sq(max(qz, 0)) >= 0) by {
            lemma_sq_le(0, max(qx, 0) as int);
            lemma_sq_le(0, max(qy, 0));
            lemma_sq_le(0, max(qz, 0));
        }
        assert(s >= 1) by {
            if qx >= 1 {
                lemma_sq_le(1, max(qx, 0));
            } else if qy >= 1 {
                lemma_sq_le(1, max(qy, 0));
            } else {
                lemma_sq_le(1, max(qz, 0));
            }
        }
        lemma_sqrt_floor_bounds(s);
        assert(sq(1int) == 1);
        assert(sqrt_floor(s) >= 1) by {
            if sqrt_floor(s) == 0 {
                assert(s < sq(0int + 1));
            }
        }
    } else if on_box_surface(p, c, h) {
        assert(s == 0);
        assert(max3(qx, qy, qz) == 0);
    }
}

/// Folds boxes `start..` into `acc` by running minimum.
fn min_boxes_from(p: &Vec3i, boxes: &Vec<BoxSDF>, start: usize, acc: i64) -> (r: i64)
    requires
        in_cube(p@, POINT_LIMIT as int),
        boxes_ok(boxes@),
        start <= boxes@.len(),
    ensures
        r == fold_boxes(p@, boxes@.skip(start as int), acc as int),
{
    let ghost acc0 = acc as int;
    let mut acc = acc;
    let mut i = start;
    proof {
        assert(boxes@.subrange(start as int, start as int) =~= Seq::<BoxSDF>::empty());
    }
    while i < boxes.len()
        invariant
            start <= i <= boxes@.len(),
            in_cube(p@, POINT_LIMIT as int),
            boxes_ok(boxes@),
            acc as int == fold_boxes(p@, boxes@.subrange(start as int, i as int), acc0),
        decreases boxes@.len() - i,
    {
        proof {
            assert(box_ok(boxes@[i as int]));
        }
        let d = distance_to_box(p, &boxes[i].center, &boxes[i].half_extents);
        proof {
            assert(boxes@.subrange(start as int, i as int + 1) =~= boxes@.subrange(
                start as int,
                i as int,
            ).push(boxes@[i as int]));
            lemma_fold_boxes_push(p@, boxes@.subrange(start as int, i as int), boxes@[i as int], acc0);
        }
        acc = crate::math::min_i64(acc, d);
        i = i + 1;
    }
    proof {
        assert(boxes@.subrange(start as int, boxes@.len() as int) =~= boxes@.skip(start as int));
    }
    acc
}

/// Folds the additive spheres `start..` into `acc` by running minimum.
fn min_add_spheres_from(p: &Vec3i, spheres: &Vec<SphereSDF>, start: usize, acc: i64) -> (r: i64)
    requires
        in_cube(p@, POINT_LIMIT as int),
        spheres_ok(spheres@),
        start <= spheres@.len(),
    ensures
        r == fold_add_spheres(p@, spheres@.skip(start as int), acc as int),
{
    let ghost acc0 = acc as int;
    let mut acc = acc;
    let mut i = start;
    proof {
        assert(spheres@.subrange(start as int, start as int) =~= Seq::<SphereSDF>::empty());
    }
    while i < spheres.len()
        invariant
            start <= i <= spheres@.len(),
            in_cube(p@, POINT_LIMIT as int),
            spheres_ok(spheres@),
            acc as int == fold_add_spheres(p@, spheres@.subrange(start as int, i as int), acc0),
        decreases spheres@.len() - i,
    {
        proof {
            assert(sphere_ok(spheres@[i as int]));
            assert(spheres@.subrange(start as int, i as int + 1) =~= spheres@.subrange(
                start as int,
                i as int,
            ).push(spheres@[i as int]));
            lemma_fold_add_push(
                p@,
                spheres@.subrange(start as int, i as int),
                spheres@[i as int],
                acc0,
            );
        }
        if spheres[i].negate != 1 {
            let d = distance_to_sphere(p, &spheres[i].center, spheres[i].radius);
            acc = crate::math::min_i64(acc, d);
        }
        i = i + 1;
    }
    proof {
        assert(spheres@.subrange(start as int, spheres@.len() as int) =~= spheres@.skip(
            start as int,
        ));
    }
    acc
}

/// Folds the subtractive spheres `start..` into `acc` by running maximum
/// of the negated distances.
fn max_sub_spheres_from(p: &Vec3i, spheres: &Vec<SphereSDF>, start: usize, acc: i64) -> (r: i64)
    requires
        in_cube(p@, POINT_LIMIT as int),
        spheres_ok(spheres@),
        start <= spheres@.len(),
    ensures
        r == fold_sub_spheres(p@, spheres@.skip(start as int), acc as int),
{
    let ghost acc0 = acc as int;
    let mut acc = acc;
    let mut i = start;
    proof {
        assert(spheres@.subrange(start as int, start as int) =~= Seq::<SphereSDF>::empty());
    }
    while i < spheres.len()
        invariant
            start <= i <= spheres@.len(),
            in_cube(p@, POINT_LIMIT as int),
            spheres_ok(spheres@),
            acc as int == fold_sub_spheres(p@, spheres@.subrange(start as int, i as int), acc0),
        decreases spheres@.len() - i,
    {
        proof {
            assert(sphere_ok(spheres@[i as int]));
            assert(spheres@.subrange(start as int, i as int + 1) =~= spheres@.subrange(
                start as int,
                i as int,
            ).push(spheres@[i as int]));
            lemma_fold_sub_push(
                p@,
                spheres@.subrange(start as int, i as int),
                spheres@[i as int],
                acc0,
            );
        }
        if spheres[i].negate == 1 {
            let d = distance_to_sphere(p, &spheres[i].center, spheres[i].radius);
            proof {
                lemma_sphere_dist_range(p@, spheres@[i as int]);
            }
            acc = crate::math::max_i64(acc, -d);
        }
        i = i + 1;
    }
    proof {
        assert(spheres@.subrange(start as int, spheres@.len() as int) =~= spheres@.skip(
            start as int,
        ));
    }
    acc
}

/// The signed-distance field of one chunk's primitives at `p`. A chunk
/// holds at least one box by construction; evaluating an empty box list
/// is a programming error, excluded here by precondition.
pub fn chunk_sdf(p: &Vec3i, box_sdfs: &Vec<BoxSDF>, sphere_sdfs: &Vec<SphereSDF>) -> (d: i64)
    requires
        in_cube(p@, POINT_LIMIT as int),
        box_sdfs@.len() >= 1,
        boxes_ok(box_sdfs@),
        spheres_ok(sphere_sdfs@),
    ensures
        d == chunk_field(p@, box_sdfs@, sphere_sdfs@),
{
    proof {
        assert(box_ok(box_sdfs@[0]));
    }
    let d0 = distance_to_box(p, &box_sdfs[0].center, &box_sdfs[0].half_extents);
    let bmin = min_boxes_from(p, box_sdfs, 1, d0);
    proof {
        assert(box_sdfs@.skip(1) =~= box_sdfs@.drop_first());
        assert(sphere_sdfs@.skip(0) =~= sphere_sdfs@);
    }
    let amin = min_add_spheres_from(p, sphere_sdfs, 0, bmin);
    max_sub_spheres_from(p, sphere_sdfs, 0, amin)
}

/// The signed-distance field of two chunks' primitives merged into one
/// local field at `p`; all subtractive spheres are applied after all
/// additive primitives of both chunks.
pub fn two_chunk_sdf(
    p: &Vec3i,
    box_sdfs_1: &Vec<BoxSDF>,
    sphere_sdfs_1: &Vec<SphereSDF>,
    box_sdfs_2: &Vec<BoxSDF>,
    sphere_sdfs_2: &Vec<SphereSDF>,
) -> (d: i64)
    requires
        in_cube(p@, POINT_LIMIT as int),
        box_sdfs_1@.len() >= 1,
        boxes_ok(box_sdfs_1@),
        spheres_ok(sphere_sdfs_1@),
        boxes_ok(box_sdfs_2@),
        spheres_ok(sphere_sdfs_2@),
    ensures
        d == chunk_field(
            p@,
            box_sdfs_1@ + box_sdfs_2@,
            sphere_sdfs_1@ + sphere_sdfs_2@,
        ),
{
    let ghost all_boxes = box_sdfs_1@ + box_sdfs_2@;
    let ghost all_spheres = sphere_sdfs_1@ + sphere_sdfs_2@;
    proof {
        assert(box_ok(box_sdfs_1@[0]));
    }
    let d0 = distance_to_box(p, &box_sdfs_1[0].center, &box_sdfs_1[0].half_extents);
    let b1 = min_boxes_from(p, box_sdfs_1, 1, d0);
    let b12 = min_boxes_from(p, box_sdfs_2, 0, b1);
    proof {
        assert(box_sdfs_1@.skip(1) =~= box_sdfs_1@.drop_first());
        assert(box_sdfs_2@.skip(0) =~= box_sdfs_2@);
        assert(all_boxes.drop_first() =~= box_sdfs_1@.drop_first() + box_sdfs_2@);
        lemma_fold_boxes_append(
            p@,
            box_sdfs_1@.drop_first(),
            box_sdfs_2@,
            box_dist_of(p@, box_sdfs_1@[0]),
        );
        assert(b12 as int == boxes_min(p@, all_boxes));
        assert(sphere_sdfs_1@.skip(0) =~= sphere_sdfs_1@);
        assert(sphere_sdfs_2@.skip(0) =~= sphere_sdfs_2@);
    }
    let a1 = min_add_spheres_from(p, sphere_sdfs_1, 0, b12);
    let a12 = min_add_spheres_from(p, sphere_sdfs_2, 0, a1);
    proof {
        lemma_fold_add_append(p@, sphere_sdfs_1@, sphere_sdfs_2@, boxes_min(p@, all_boxes));
    }
    let f1 = max_sub_spheres_from(p, sphere_sdfs_1, 0, a12);
    let f = max_sub_spheres_from(p, sphere_sdfs_2, 0, f1);
    proof {
        lemma_fold_sub_append(
            p@,
            sphere_sdfs_1@,
            sphere_sdfs_2@,
            fold_add_spheres(p@, all_spheres, boxes_min(p@, all_boxes)),
        );
    }
    f
}

pub proof fn lemma_boxes_ok_concat(a: Seq<BoxSDF>, b: Seq<BoxSDF>)
    requires
        boxes_ok(a),
        boxes_ok(b),
    ensures
        boxes_ok(a + b),
{
    assert forall|i: int| 0 <= i < (a + b).len() implies #[trigger] box_ok((a + b)[i]) by {
        if i < a.len() {
            assert((a + b)[i] == a[i]);
            assert(box_ok(a[i]));
        } else {
            assert((a + b)[i] == b[i - a.len()]);
            assert(box_ok(b[i - a.len()]));
        }
    }
}

pub proof fn lemma_spheres_ok_concat(a: Seq<SphereSDF>, b: Seq<SphereSDF>)
    requires
        spheres_ok(a),
        spheres_ok(b),
    ensures
        spheres_ok(a + b),
{
    assert forall|i: int| 0 <= i < (a + b).len() implies #[trigger] sphere_ok((a + b)[i]) by {
        if i < a.len() {
            assert((a + b)[i] == a[i]);
            assert(sphere_ok(a[i]));
        } else {
            assert((a + b)[i] == b[i - a.len()]);
            assert(sphere_ok(b[i - a.len()]));
        }
    }
}

/// Carve correctness: appending a subtractive sphere of radius `r`
/// centered at `p` makes the field at `p` exactly `max(old field, r)`,
/// hence at least `r > 0` — the carve opens a void.
pub proof fn lemma_carve_opens_void(
    p: V3,
    boxes: Seq<BoxSDF>,
    spheres: Seq<SphereSDF>,
    s: SphereSDF,
)
    requires
        s.negate == 1,
        s.center@ == p,
        s.radius > 0,
    ensures
        chunk_field(p, boxes, spheres.push(s)) == max(
            chunk_field(p, boxes, spheres),
            s.radius as int,
        ),
        chunk_field(p, boxes, spheres.push(s)) >= s.radius > 0,
{
    assert(sq(0int) == 0);
    assert(dist2(p, s.center@) == 0);
    assert(sphere_dist_of(p, s) == -(s.radius as int));
    lemma_fold_add_push(p, spheres, s, boxes_min(p, boxes));
    lemma_fold_sub_push(p, spheres, s, fold_add_spheres(p, spheres, boxes_min(p, boxes)));
}

/// Range of a single box distance: never deeper than the box's extents,
/// never farther than twice the reach of point and world bound together.
pub proof fn lemma_box_dist_range(p: V3, b: BoxSDF)
    requires
        box_ok(b),
    ensures
        -(WORLD_LIMIT as int) <= box_dist_of(p, b) <= 2 * (norm_inf(p) + WORLD_LIMIT),
{
    let c = b.center@;
    let h = b.half_extents@;
    let qx = abs_i(p.x - c.x) - h.x;
    let qy = abs_i(p.y - c.y) - h.y;
    let qz = abs_i(p.z - c.z) - h.z;
    let m = norm_inf(p) + WORLD_LIMIT as int;
    let s = sq(max(qx, 0)) + sq(max(qy, 0)) + sq(max(qz, 0));
    lemma_sq_le(max(qx, 0), m);
    lemma_sq_le(max(qy, 0), m);
    lemma_sq_le(max(qz, 0), m);
    assert(3 * sq(m) < sq(2 * m + 1)) by (nonlinear_arith)
        requires m >= 0;
    lemma_sqrt_floor_below(s, 2 * m + 1);
    lemma_sqrt_floor_bounds(s);
}

/// A sphere's distance is never deeper than its radius.
pub proof fn lemma_sphere_dist_range(p: V3, s: SphereSDF)
    requires
        sphere_ok(s),
    ensures
        -(WORLD_LIMIT as int) <= -s.radius <= sphere_dist_of(p, s),
{
    crate::math::lemma_sq_abs(p.x - s.center@.x);
    crate::math::lemma_sq_abs(p.y - s.center@.y);
    crate::math::lemma_sq_abs(p.z - s.center@.z);
    lemma_sqrt_floor_bounds(dist2(p, s.center@));
}

proof fn lemma_fold_boxes_le_acc(p: V3, s: Seq<BoxSDF>, acc: int)
    ensures
        fold_boxes(p, s, acc) <= acc,
    decreases s.len(),
{
    if s.len() > 0 {
        lemma_fold_boxes_le_acc(p, s.drop_first(), min(acc, box_dist_of(p, s[0])));
    }
}

proof fn lemma_fold_boxes_ge(p: V3, s: Seq<BoxSDF>, acc: int, lo: int)
    requires
        lo <= acc,
        forall|i: int| 0 <= i < s.len() ==> lo <= #[trigger] box_dist_of(p, s[i]),
    ensures
        lo <= fold_boxes(p, s, acc),
    decreases s.len(),
{
    if s.len() > 0 {
        assert forall|i: int| 0 <= i < s.drop_first().len() implies lo <= #[trigger] box_dist_of(
            p,
            s.drop_first()[i],
        ) by {
            assert(s.drop_first()[i] == s[i + 1]);
        }
        lemma_fold_boxes_ge(p, s.drop_first(), min(acc, box_dist_of(p, s[0])), lo);
    }
}

proof fn lemma_fold_add_le_acc(p: V3, s: Seq<SphereSDF>, acc: int)
    ensures
        fold_add_spheres(p, s, acc) <= acc,
    decreases s.len(),
{
    if s.len() > 0 {
        let acc2 = if s[0].negate == 1 {
            acc
        } else {
            min(acc, sphere_dist_of(p, s[0]))
        };
        lemma_fold_add_le_acc(p, s.drop_first(), acc2);
    }
}

proof fn lemma_fold_add_ge(p: V3, s: Seq<SphereSDF>, acc: int, lo: int)
    requires
        lo <= acc,
        forall|i: int| 0 <= i < s.len() ==> lo <= #[trigger] sphere_dist_of(p, s[i]),
    ensures
        lo <= fold_add_spheres(p, s, acc),
    decreases s.len(),
{
    if s.len() > 0 {
        assert forall|i: int| 0 <= i < s.drop_first().len() implies lo
            <= #[trigger] sphere_dist_of(p, s.drop_first()[i]) by {
            assert(s.drop_first()[i] == s[i + 1]);
        }
        let acc2 = if s[0].negate == 1 {
            acc
        } else {
            min(acc, sphere_dist_of(p, s[0]))
        };
        lemma_fold_add_ge(p, s.drop_first(), acc2, lo);
    }
}

proof fn lemma_fold_sub_ge_acc(p: V3, s: Seq<SphereSDF>, acc: int)
    ensures
        acc <= fold_sub_spheres(p, s, acc),
    decreases s.len(),
{
    if s.len() > 0 {
        let acc2 = if s[0].negate == 1 {
            max(acc, -sphere_dist_of(p, s[0]))
        } else {
            acc
        };
        lemma_fold_sub_ge_acc(p, s.drop_first(), acc2);
    }
}

proof fn lemma_fold_sub_le(p: V3, s: Seq<SphereSDF>, acc: int, hi: int)
    requires
        acc <= hi,
        forall|i: int| 0 <= i < s.len() ==> -#[trigger] sphere_dist_of(p, s[i]) <= hi,
    ensures
        fold_sub_spheres(p, s, acc) <= hi,
    decreases s.len(),
{
    if s.len() > 0 {
        assert forall|i: int| 0 <= i < s.drop_first().len() implies -#[trigger] sphere_dist_of(
            p,
            s.drop_first()[i],
        ) <= hi by {
            assert(s.drop_first()[i] == s[i + 1]);
        }
        let acc2 = if s[0].negate == 1 {
            max(acc, -sphere_dist_of(p, s[0]))
        } else {
            acc
        };
        lemma_fold_sub_le(p, s.drop_first(), acc2, hi);
    }
}

/// The combined field stays within a band fixed by the world bound and
/// the point's own magnitude: it is what the march's step sizes obey.
pub proof fn lemma_chunk_field_bounds(p: V3, boxes: Seq<BoxSDF>, spheres: Seq<SphereSDF>)
    requires
        boxes.len() >= 1,
        boxes_ok(boxes),
        spheres_ok(spheres),
    ensures
        -(WORLD_LIMIT as int) <= chunk_field(p, boxes, spheres) <= 2 * (norm_inf(p)
            + WORLD_LIMIT),
{
    let w = WORLD_LIMIT as int;
    let hi = 2 * (norm_inf(p) + w);
    assert(box_ok(boxes[0]));
    lemma_box_dist_range(p, boxes[0]);
    assert forall|i: int| 0 <= i < boxes.drop_first().len() implies -w <= #[trigger] box_dist_of(
        p,
        boxes.drop_first()[i],
    ) by {
        assert(boxes.drop_first()[i] == boxes[i + 1]);
        assert(box_ok(boxes[i + 1]));
        lemma_box_dist_range(p, boxes[i + 1]);
    }
    lemma_fold_boxes_le_acc(p, boxes.drop_first(), box_dist_of(p, boxes[0]));
    lemma_fold_boxes_ge(p, boxes.drop_first(), box_dist_of(p, boxes[0]), -w);
    let bm = boxes_min(p, boxes);
    assert forall|i: int| 0 <= i < spheres.len() implies -w <= #[trigger] sphere_dist_of(
        p,
        spheres[i],
    ) && -sphere_dist_of(p, spheres[i]) <= w by {
        assert(sphere_ok(spheres[i]));
        lemma_sphere_dist_range(p, spheres[i]);
    }
    lemma_fold_add_le_acc(p, spheres, bm);
    lemma_fold_add_ge(p, spheres, bm, -w);
    let am = fold_add_spheres(p, spheres, bm);
    lemma_fold_sub_ge_acc(p, spheres, am);
    lemma_fold_sub_le(p, spheres, am, hi);
}

} // verus!
