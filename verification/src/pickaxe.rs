//! The carving controller: resolves the anchor chunks of a ray, walks it
//! by sphere tracing through the merged field of the current and one
//! neighboring chunk, and on a hit commits a subtractive sphere edit and
//! re-flattens the viewpoint's window.

use vstd::prelude::*;

verus! {

use crate::chunk::{wf_chunk, Chunk, ChunkMap, ChunkV, MissingChunkError};
use crate::math::{
    abs_i, dist, dist3, div_by_scale, div_trunc, in_cube, lemma_dist_dominates_axes,
    lemma_div_trunc_bound, norm_inf, Vec3i, V3,
};
use crate::sdf::{
    boxes_ok, chunk_field, lemma_boxes_ok_concat, lemma_chunk_field_bounds,
    lemma_spheres_ok_concat, spheres_ok, two_chunk_sdf, BoxSDF, SphereSDF,
};
use crate::stream::{
    chunk_coord_of, ensure_window, flatten_boxes, flatten_spheres, get_buffer_data,
    window_center_ok, window_coords, world_to_chunk,
};
use crate::{
    BASE_PICKAXE_INTERSECT_RADIUS, COLLISION_EPSILON, MAX_MARCH_STEPS, MAX_PICKAXE_DISTANCE,
    POINT_LIMIT, SCALE, WORLD_LIMIT,
};

pub open spec fn sign(x: int) -> int {
    if x > 0 {
        1
    } else if x < 0 {
        -1
    } else {
        0
    }
}

/// The neighbor chunk a heading selects: no step for a direction without
/// a horizontal component, a step along the horizontally dominant axis,
/// and a diagonal step when both components have equal magnitude.
pub open spec fn spec_next_chunk(c: (int, int), d: V3) -> (int, int) {
    if d.x == 0 && d.y == 0 && d.z == 0 {
        c
    } else {
        let sx = sign(d.x);
        let sz = sign(d.z);
        if sx == 0 && sz == 0 {
            c
        } else if sx == 0 {
            (c.0, c.1 + sz)
        } else if sz == 0 {
            (c.0 + sx, c.1)
        } else if abs_i(d.x) == abs_i(d.z) {
            (c.0 + sx, c.1 + sz)
        } else if abs_i(d.x) > abs_i(d.z) {
            (c.0 + sx, c.1)
        } else {
            (c.0, c.1 + sz)
        }
    }
}

/// The candidate chunk the ray from `current_chunk` is heading into.
pub fn get_next_chunk(current_chunk: &(i32, i32), direction: &Vec3i) -> (r: (i32, i32))
    requires
        i32::MIN < current_chunk.0 < i32::MAX,
        i32::MIN < current_chunk.1 < i32::MAX,
        in_cube(direction@, POINT_LIMIT as int),
    ensures
        (r.0 as int, r.1 as int) == spec_next_chunk(
            (current_chunk.0 as int, current_chunk.1 as int),
            direction@,
        ),
{
    if direction.x == 0 && direction.y == 0 && direction.z == 0 {
        return *current_chunk;
    }
    let step_x: i32 = if direction.x > 0 {
        1
    } else if direction.x < 0 {
        -1
    } else {
        0
    };
    let step_z: i32 = if direction.z > 0 {
        1
    } else if direction.z < 0 {
        -1
    } else {
        0
    };
    if step_x == 0 && step_z == 0 {
        return *current_chunk;
    }
    if step_x == 0 {
        return (current_chunk.0, current_chunk.1 + step_z);
    }
    if step_z == 0 {
        return (current_chunk.0 + step_x, current_chunk.1);
    }
    let ax = if direction.x >= 0 {
        direction.x
    } else {
        -direction.x
    };
    let az = if direction.z >= 0 {
        direction.z
    } else {
        -direction.z
    };
    if ax == az {
        (current_chunk.0 + step_x, current_chunk.1 + step_z)
    } else if ax > az {
        (current_chunk.0 + step_x, current_chunk.1)
    } else {
        (current_chunk.0, current_chunk.1 + step_z)
    }
}

/// What one sphere-traced march ends in.
pub enum MarchV {
    Hit(V3),
    NoSurface,
}

/// One march step: advance by the field value, scaled along the
/// direction, each axis truncating toward zero.
pub open spec fn march_step(pos: V3, d: V3, step: int) -> V3 {
    V3 {
        x: pos.x + div_trunc(d.x * step, SCALE as int),
        y: pos.y + div_trunc(d.y * step, SCALE as int),
        z: pos.z + div_trunc(d.z * step, SCALE as int),
    }
}

/// The sphere-traced march over a merged primitive set, from `pos` with
/// `fuel` steps left: a hit where the field drops under
/// `COLLISION_EPSILON`, checked before the distance bound; no surface
/// once the distance from the origin exceeds `MAX_PICKAXE_DISTANCE`, the
/// step no longer moves, or the budget runs out.
pub open spec fn march_from(
    boxes: Seq<BoxSDF>,
    spheres: Seq<SphereSDF>,
    origin: V3,
    d: V3,
    pos: V3,
    fuel: nat,
) -> MarchV
    decreases fuel,
{
    let step = chunk_field(pos, boxes, spheres);
    if step < COLLISION_EPSILON {
        MarchV::Hit(pos)
    } else if dist(pos, origin) > MAX_PICKAXE_DISTANCE {
        MarchV::NoSurface
    } else if fuel == 0 {
        MarchV::NoSurface
    } else {
        let next = march_step(pos, d, step);
        if next == pos {
            MarchV::NoSurface
        } else {
            march_from(boxes, spheres, origin, d, next, (fuel - 1) as nat)
        }
    }
}

/// Wherever a march reports a hit, the merged field there is under
/// `COLLISION_EPSILON`: the march stops at the first surface crossing.
pub proof fn lemma_march_hit_field(
    boxes: Seq<BoxSDF>,
    spheres: Seq<SphereSDF>,
    origin: V3,
    d: V3,
    pos: V3,
    fuel: nat,
)
    ensures
        march_from(boxes, spheres, origin, d, pos, fuel) matches MarchV::Hit(h) ==> chunk_field(
            h,
            boxes,
            spheres,
        ) < COLLISION_EPSILON,
    decreases fuel,
{
    let step = chunk_field(pos, boxes, spheres);
    if step >= COLLISION_EPSILON && dist(pos, origin) <= MAX_PICKAXE_DISTANCE && fuel > 0 {
        let next = march_step(pos, d, step);
        if next != pos {
            lemma_march_hit_field(boxes, spheres, origin, d, next, (fuel - 1) as nat);
        }
    }
}

/// Sphere tracing against the merged field of two chunks, mirroring
/// `march_from` exactly.
fn march(cur: &Chunk, ov: &Chunk, origin: &Vec3i, direction: &Vec3i, pos: Vec3i, fuel: u64) -> (r:
    Option<Vec3i>)
    requires
        wf_chunk(cur@),
        wf_chunk(ov@),
        in_cube(origin@, WORLD_LIMIT as int),
        in_cube(direction@, SCALE as int),
        in_cube(pos@, POINT_LIMIT as int),
    ensures
        match r {
            Some(h) => march_from(
                cur@.boxes + ov@.boxes,
                cur@.spheres + ov@.spheres,
                origin@,
                direction@,
                pos@,
                fuel as nat,
            ) == MarchV::Hit(h@) && in_cube(h@, POINT_LIMIT as int),
            None => march_from(
                cur@.boxes + ov@.boxes,
                cur@.spheres + ov@.spheres,
                origin@,
                direction@,
                pos@,
                fuel as nat,
            ) == MarchV::NoSurface,
        },
    decreases fuel,
{
    let ghost mb = cur@.boxes + ov@.boxes;
    let ghost ms = cur@.spheres + ov@.spheres;
    proof {
        lemma_boxes_ok_concat(cur@.boxes, ov@.boxes);
        lemma_spheres_ok_concat(cur@.spheres, ov@.spheres);
        assert(mb.len() >= 1);
    }
    let d = two_chunk_sdf(&pos, &cur.box_sdfs, &cur.sphere_sdfs, &ov.box_sdfs, &ov.sphere_sdfs);
    if d < COLLISION_EPSILON {
        return Some(pos);
    }
    let t = dist3(&pos, origin);
    if t > MAX_PICKAXE_DISTANCE {
        return None;
    }
    if fuel == 0 {
        return None;
    }
    proof {
        lemma_chunk_field_bounds(pos@, mb, ms);
        lemma_dist_dominates_axes(pos@, origin@);
        assert(norm_inf(pos@) <= WORLD_LIMIT + MAX_PICKAXE_DISTANCE);
        assert(0 <= d as int <= 2 * (2 * WORLD_LIMIT as int + MAX_PICKAXE_DISTANCE as int));
        assert(abs_i(direction@.x * d) <= 1000 * d) by (nonlinear_arith)
            requires -1000 <= direction@.x <= 1000, d as int >= 0;
        assert(abs_i(direction@.y * d) <= 1000 * d) by (nonlinear_arith)
            requires -1000 <= direction@.y <= 1000, d as int >= 0;
        assert(abs_i(direction@.z * d) <= 1000 * d) by (nonlinear_arith)
            requires -1000 <= direction@.z <= 1000, d as int >= 0;
        lemma_div_trunc_bound(direction@.x * d, d as int);
        lemma_div_trunc_bound(direction@.y * d, d as int);
        lemma_div_trunc_bound(direction@.z * d, d as int);
    }
    let mx = div_by_scale(direction.x * d);
    let my = div_by_scale(direction.y * d);
    let mz = div_by_scale(direction.z * d);
    let next = Vec3i { x: pos.x + mx, y: pos.y + my, z: pos.z + mz };
    proof {
        assert(next@ == march_step(pos@, direction@, d as int));
    }
    if next.x == pos.x && next.y == pos.y && next.z == pos.z {
        proof {
            assert(next@ == pos@);
        }
        return None;
    }
    proof {
        assert(next@ != pos@);
    }
    march(cur, ov, origin, direction, next, fuel - 1)
}

/// The sphere a committed carve appends: subtractive, fixed radius,
/// centered on the hit position.
pub open spec fn carve_sphere_at(h: V3) -> SphereSDF {
    SphereSDF {
        center: Vec3i { x: h.x as i64, y: h.y as i64, z: h.z as i64 },
        radius: BASE_PICKAXE_INTERSECT_RADIUS,
        negate: 1,
    }
}

/// The march a strike performs: anchored at the ray origin's chunk,
/// merged with the neighbor the heading selects, falling back to the
/// origin chunk when that neighbor was never created.
pub open spec fn strike_march(m: Map<(int, int), ChunkV>, origin: V3, d: V3) -> MarchV {
    let cc = (chunk_coord_of(origin.x), chunk_coord_of(origin.z));
    let oc = spec_next_chunk(cc, d);
    let cur = m[cc];
    let ov = if m.dom().contains(oc) {
        m[oc]
    } else {
        cur
    };
    march_from(
        cur.boxes + ov.boxes,
        cur.spheres + ov.spheres,
        origin,
        d,
        origin,
        MAX_MARCH_STEPS as nat,
    )
}

/// What one carving attempt produced: either no surface within range
/// (the expected quiet outcome), or a committed carve with the
/// re-flattened window buffers.
pub enum StrikeResult {
    NoSurface,
    Carved(Vec<BoxSDF>, Vec<SphereSDF>),
}

/// One carving attempt: march the ray, and on a hit append a subtractive
/// sphere in the chunk owning the hit position, then re-flatten the
/// window around the viewpoint's own chunk. The attempt is abandoned
/// with `MissingChunkError`, and nothing is edited, if the hit lands in
/// a chunk that was never created.
pub fn pickaxe_strike(chunk_map: &mut ChunkMap, origin: &Vec3i, direction: &Vec3i) -> (r: Result<
    StrikeResult,
    MissingChunkError,
>)
    requires
        old(chunk_map).wf(),
        in_cube(origin@, WORLD_LIMIT as int),
        in_cube(direction@, SCALE as int),
        window_center_ok(chunk_coord_of(origin@.x), chunk_coord_of(origin@.z)),
        old(chunk_map)@.dom().contains(
            (chunk_coord_of(origin@.x), chunk_coord_of(origin@.z)),
        ),
    ensures
        final(chunk_map).wf(),
        old(chunk_map)@.dom().subset_of(final(chunk_map)@.dom()),
        ({
            let m0 = old(chunk_map)@;
            let cc = (chunk_coord_of(origin@.x), chunk_coord_of(origin@.z));
            match r {
                Ok(StrikeResult::NoSurface) => strike_march(m0, origin@, direction@)
                    == MarchV::NoSurface && final(chunk_map)@ == m0,
                Ok(StrikeResult::Carved(bs, ss)) => strike_march(m0, origin@, direction@) matches
                    MarchV::Hit(h) && {
                    let hc = (chunk_coord_of(h.x), chunk_coord_of(h.z));
                    let edited = m0.insert(
                        hc,
                        (ChunkV {
                            boxes: m0[hc].boxes,
                            spheres: m0[hc].spheres.push(carve_sphere_at(h)),
                        }),
                    );
                    &&& m0.dom().contains(hc)
                    &&& final(chunk_map)@ == ensure_window(edited, cc.0, cc.1)
                    &&& bs@ == flatten_boxes(final(chunk_map)@, window_coords(cc.0, cc.1))
                    &&& ss@ == flatten_spheres(final(chunk_map)@, window_coords(cc.0, cc.1))
                },
                Err(_) => strike_march(m0, origin@, direction@) matches MarchV::Hit(h)
                    && !m0.dom().contains((chunk_coord_of(h.x), chunk_coord_of(h.z)))
                    && final(chunk_map)@ == m0,
            }
        }),
{
    let ghost m0 = chunk_map@;
    let current_chunk_index = world_to_chunk(origin);
    let cur = match chunk_map.get_chunk(current_chunk_index.0, current_chunk_index.1) {
        Some(c) => c,
        None => vstd::pervasive::unreached(),
    };
    let possible_overflow_chunk_index = get_next_chunk(&current_chunk_index, direction);
    let ov = match chunk_map.get_chunk(
        possible_overflow_chunk_index.0,
        possible_overflow_chunk_index.1,
    ) {
        Some(c) => c,
        None => cur,
    };
    let hit = march(cur, ov, origin, direction, *origin, MAX_MARCH_STEPS);
    proof {
        assert(strike_march(m0, origin@, direction@) == march_from(
            cur@.boxes + ov@.boxes,
            cur@.spheres + ov@.spheres,
            origin@,
            direction@,
            origin@,
            MAX_MARCH_STEPS as nat,
        ));
    }
    match hit {
        None => Ok(StrikeResult::NoSurface),
        Some(h) => {
            let final_chunk_index = world_to_chunk(&h);
            let sphere = SphereSDF {
                center: h,
                radius: BASE_PICKAXE_INTERSECT_RADIUS,
                negate: 1,
            };
            proof {
                assert(sphere == carve_sphere_at(strike_march(m0, origin@, direction@)->Hit_0));
            }
            match chunk_map.apply_edit(final_chunk_index.0, final_chunk_index.1, sphere) {
                Ok(()) => {
                    let (box_sdfs, sphere_sdfs) = get_buffer_data(current_chunk_index, chunk_map);
                    Ok(StrikeResult::Carved(box_sdfs, sphere_sdfs))
                },
                Err(e) => Err(e),
            }
        },
    }
}

} // verus!
