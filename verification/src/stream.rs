//! The streaming controller: derives chunk coordinates from world
//! positions, keeps a square window of chunks resident around the
//! viewpoint, and flattens the resident primitives for the rendering
//! boundary.

use vstd::prelude::*;

verus! {

use vstd::arithmetic::div_mod::{
    lemma_div_is_ordered, lemma_fundamental_div_mod, lemma_fundamental_div_mod_converse,
    lemma_mod_bound,
};
use crate::chunk::{ground_chunk, ChunkMap, ChunkV};
use crate::math::{in_cube, Vec3i};
use crate::sdf::{BoxSDF, SphereSDF};
use crate::{CHUNK_COORD_LIMIT, CHUNK_LOAD_SQUARE_RADIUS, CHUNK_SIZE, HALF_CHUNK, POINT_LIMIT};

/// Round-to-nearest division of a world ordinate by `CHUNK_SIZE`, ties
/// away from zero: the chunk coordinate that owns the position.
pub open spec fn chunk_coord_of(x: int) -> int {
    if x >= 0 {
        (x + HALF_CHUNK as int) / (CHUNK_SIZE as int)
    } else {
        -((-x + HALF_CHUNK as int) / (CHUNK_SIZE as int))
    }
}

/// One side of the streaming window, in chunks.
pub open spec fn window_side() -> int {
    2 * CHUNK_LOAD_SQUARE_RADIUS + 1
}

/// `k` lies in the square window of Chebyshev radius
/// `CHUNK_LOAD_SQUARE_RADIUS` around `(ccx, ccz)`.
pub open spec fn in_window(ccx: int, ccz: int, k: (int, int)) -> bool {
    &&& ccx - CHUNK_LOAD_SQUARE_RADIUS <= k.0 <= ccx + CHUNK_LOAD_SQUARE_RADIUS
    &&& ccz - CHUNK_LOAD_SQUARE_RADIUS <= k.1 <= ccz + CHUNK_LOAD_SQUARE_RADIUS
}

/// The window's coordinates in scan order: outer axis x, inner axis z.
pub open spec fn window_coords(ccx: int, ccz: int) -> Seq<(int, int)> {
    Seq::new(
        (window_side() * window_side()) as nat,
        |k: int|
            (
                ccx - CHUNK_LOAD_SQUARE_RADIUS + k / window_side(),
                ccz - CHUNK_LOAD_SQUARE_RADIUS + k % window_side(),
            ),
    )
}

proof fn lemma_window_dims()
    ensures
        window_side() == 7,
        window_coords(0, 0).len() == 49,
        forall|a: int, b: int| #[trigger] window_coords(a, b).len() == 49,
{
    assert(window_side() * window_side() == 49) by (nonlinear_arith)
        requires window_side() == 7;
}

/// A window center far enough from the coordinate limit that every
/// window chunk is acceptable.
pub open spec fn window_center_ok(ccx: int, ccz: int) -> bool {
    &&& -CHUNK_COORD_LIMIT + CHUNK_LOAD_SQUARE_RADIUS <= ccx <= CHUNK_COORD_LIMIT
        - CHUNK_LOAD_SQUARE_RADIUS
    &&& -CHUNK_COORD_LIMIT + CHUNK_LOAD_SQUARE_RADIUS <= ccz <= CHUNK_COORD_LIMIT
        - CHUNK_LOAD_SQUARE_RADIUS
}

/// The registry after making the whole window around `(ccx, ccz)`
/// resident: existing chunks are kept as they are, missing window chunks
/// come into being as ground chunks.
pub open spec fn ensure_window(
    m: Map<(int, int), ChunkV>,
    ccx: int,
    ccz: int,
) -> Map<(int, int), ChunkV> {
    Map::new(
        |k: (int, int)| m.dom().contains(k) || in_window(ccx, ccz, k),
        |k: (int, int)|
            if m.dom().contains(k) {
                m[k]
            } else {
                ground_chunk(k.0, k.1)
            },
    )
}

/// The box primitives of the chunks at `coords`, concatenated in order.
pub open spec fn flatten_boxes(m: Map<(int, int), ChunkV>, coords: Seq<(int, int)>) -> Seq<BoxSDF>
    decreases coords.len(),
{
    if coords.len() == 0 {
        Seq::empty()
    } else {
        m[coords[0]].boxes + flatten_boxes(m, coords.drop_first())
    }
}

/// The sphere primitives of the chunks at `coords`, concatenated in order.
pub open spec fn flatten_spheres(
    m: Map<(int, int), ChunkV>,
    coords: Seq<(int, int)>,
) -> Seq<SphereSDF>
    decreases coords.len(),
{
    if coords.len() == 0 {
        Seq::empty()
    } else {
        m[coords[0]].spheres + flatten_spheres(m, coords.drop_first())
    }
}

proof fn lemma_flatten_boxes_push(m: Map<(int, int), ChunkV>, s: Seq<(int, int)>, c: (int, int))
    ensures
        flatten_boxes(m, s.push(c)) =~= flatten_boxes(m, s) + m[c].boxes,
    decreases s.len(),
{
    if s.len() == 0 {
        assert(s.push(c)[0] == c);
        assert(s.push(c).drop_first() =~= Seq::<(int, int)>::empty());
        assert(flatten_boxes(m, s.push(c)) == m[c].boxes + flatten_boxes(
            m,
            Seq::<(int, int)>::empty(),
        ));
        assert(flatten_boxes(m, Seq::<(int, int)>::empty()) == Seq::<BoxSDF>::empty());
        assert(flatten_boxes(m, s) == Seq::<BoxSDF>::empty());
        assert(m[c].boxes + Seq::<BoxSDF>::empty() =~= m[c].boxes);
        assert(Seq::<BoxSDF>::empty() + m[c].boxes =~= m[c].boxes);
    } else {
        assert(s.push(c)[0] == s[0]);
        assert(s.push(c).drop_first() =~= s.drop_first().push(c));
        lemma_flatten_boxes_push(m, s.drop_first(), c);
        assert(m[s[0]].boxes + (flatten_boxes(m, s.drop_first()) + m[c].boxes) =~= (m[s[0]].boxes
            + flatten_boxes(m, s.drop_first())) + m[c].boxes);
    }
}

proof fn lemma_flatten_spheres_push(m: Map<(int, int), ChunkV>, s: Seq<(int, int)>, c: (int, int))
    ensures
        flatten_spheres(m, s.push(c)) =~= flatten_spheres(m, s) + m[c].spheres,
    decreases s.len(),
{
    if s.len() == 0 {
        assert(s.push(c)[0] == c);
        assert(s.push(c).drop_first() =~= Seq::<(int, int)>::empty());
        assert(flatten_spheres(m, s.push(c)) == m[c].spheres + flatten_spheres(
            m,
            Seq::<(int, int)>::empty(),
        ));
        assert(flatten_spheres(m, Seq::<(int, int)>::empty()) == Seq::<SphereSDF>::empty());
        assert(flatten_spheres(m, s) == Seq::<SphereSDF>::empty());
        assert(m[c].spheres + Seq::<SphereSDF>::empty() =~= m[c].spheres);
        assert(Seq::<SphereSDF>::empty() + m[c].spheres =~= m[c].spheres);
    } else {
        assert(s.push(c)[0] == s[0]);
        assert(s.push(c).drop_first() =~= s.drop_first().push(c));
        lemma_flatten_spheres_push(m, s.drop_first(), c);
        assert(m[s[0]].spheres + (flatten_spheres(m, s.drop_first()) + m[c].spheres) =~= (
        m[s[0]].spheres + flatten_spheres(m, s.drop_first())) + m[c].spheres);
    }
}

/// Streaming is idempotent on the registry: making a window resident
/// twice is the same as making it resident once, so a second
/// `get_buffer_data` with the same center and no intervening edits
/// returns the same flattened sequences.
pub proof fn lemma_resident_window_idempotent(m: Map<(int, int), ChunkV>, ccx: int, ccz: int)
    ensures
        ensure_window(ensure_window(m, ccx, ccz), ccx, ccz) == ensure_window(m, ccx, ccz),
        flatten_boxes(ensure_window(ensure_window(m, ccx, ccz), ccx, ccz), window_coords(ccx, ccz))
            == flatten_boxes(ensure_window(m, ccx, ccz), window_coords(ccx, ccz)),
        flatten_spheres(
            ensure_window(ensure_window(m, ccx, ccz), ccx, ccz),
            window_coords(ccx, ccz),
        ) == flatten_spheres(ensure_window(m, ccx, ccz), window_coords(ccx, ccz)),
{
    let e1 = ensure_window(m, ccx, ccz);
    assert(ensure_window(e1, ccx, ccz) =~= e1);
}

/// Derives the chunk coordinate pair owning a world position (nearest
/// chunk center; the x and z ordinates decide, y is ignored).
pub fn world_to_chunk(p: &Vec3i) -> (c: (i32, i32))
    requires
        in_cube(p@, POINT_LIMIT as int),
    ensures
        c.0 == chunk_coord_of(p@.x),
        c.1 == chunk_coord_of(p@.z),
        -540_000 < c.0 < 540_000,
        -540_000 < c.1 < 540_000,
{
    (round_div_chunk(p.x), round_div_chunk(p.z))
}

/// Round-to-nearest division of one ordinate by `CHUNK_SIZE`.
fn round_div_chunk(x: i64) -> (c: i32)
    requires
        -POINT_LIMIT <= x <= POINT_LIMIT,
    ensures
        c == chunk_coord_of(x as int),
        -540_000 < c < 540_000,
{
    proof {
        lemma_fundamental_div_mod_converse(34_359_770_368, 64000, 536_871, 26_368);
        assert((POINT_LIMIT + HALF_CHUNK as int) / (CHUNK_SIZE as int) < 540_000);
    }
    if x >= 0 {
        proof {
            lemma_div_is_ordered(0, x + HALF_CHUNK, CHUNK_SIZE as int);
            lemma_div_is_ordered(x + HALF_CHUNK, POINT_LIMIT + HALF_CHUNK, CHUNK_SIZE as int);
        }
        (((x as u64) + 32000) / 64000) as i32
    } else {
        proof {
            lemma_div_is_ordered(0, -x + HALF_CHUNK, CHUNK_SIZE as int);
            lemma_div_is_ordered(-x + HALF_CHUNK, POINT_LIMIT + HALF_CHUNK, CHUNK_SIZE as int);
        }
        -((((-x) as u64 + 32000) / 64000) as i32)
    }
}

/// Makes every chunk of the window around `center` resident, creating
/// missing ones as ground chunks.
fn ensure_window_resident(chunk_map: &mut ChunkMap, center: (i32, i32))
    requires
        old(chunk_map).wf(),
        window_center_ok(center.0 as int, center.1 as int),
    ensures
        final(chunk_map).wf(),
        final(chunk_map)@ == ensure_window(old(chunk_map)@, center.0 as int, center.1 as int),
        old(chunk_map)@.dom().subset_of(final(chunk_map)@.dom()),
        forall|t: int|
            0 <= t < window_coords(center.0 as int, center.1 as int).len() ==> final(
                chunk_map
            )@.dom().contains(#[trigger] window_coords(center.0 as int, center.1 as int)[t]),
{
    let ghost m0 = chunk_map@;
    let ghost ccx = center.0 as int;
    let ghost ccz = center.1 as int;
    let ghost wc = window_coords(ccx, ccz);
    let mut t: usize = 0;
    while t < 49
        invariant
            t <= 49,
            chunk_map.wf(),
            window_center_ok(ccx, ccz),
            center.0 as int == ccx && center.1 as int == ccz,
            wc == window_coords(ccx, ccz),
            forall|k: (int, int)|
                m0.dom().contains(k) ==> #[trigger] chunk_map@.dom().contains(k)
                    && chunk_map@[k] == m0[k],
            forall|k: (int, int)|
                #[trigger] chunk_map@.dom().contains(k) ==> m0.dom().contains(k) || in_window(
                    ccx,
                    ccz,
                    k,
                ),
            forall|k: (int, int)|
                #[trigger] chunk_map@.dom().contains(k) && !m0.dom().contains(k)
                    ==> chunk_map@[k] == ground_chunk(k.0, k.1),
            forall|s: int| 0 <= s < t ==> chunk_map@.dom().contains(#[trigger] wc[s]),
        decreases 49 - t,
    {
        let di = t / 7;
        let dj = t % 7;
        proof {
            lemma_fundamental_div_mod(t as int, 7);
            lemma_div_is_ordered(t as int, 48, 7);
            lemma_mod_bound(t as int, 7);
        }
        let cx = center.0 + (di as i32) - 3;
        let cz = center.1 + (dj as i32) - 3;
        proof {
            lemma_window_dims();
            assert(window_side() == 7);
            assert(wc.len() == 49);
            assert(di as int == t as int / 7 && dj as int == t as int % 7);
            assert(wc[t as int].0 == ccx - 3 + t as int / 7);
            assert(wc[t as int].1 == ccz - 3 + t as int % 7);
            assert(cx as int == ccx + di as int - 3);
            assert(cz as int == ccz + dj as int - 3);
            assert(wc[t as int] == (cx as int, cz as int));
        }
        let ghost m_before = chunk_map@;
        chunk_map.get_or_create(cx, cz);
        proof {
            let kn = (cx as int, cz as int);
            assert forall|k: (int, int)| m0.dom().contains(k) implies #[trigger]
                chunk_map@.dom().contains(k) && chunk_map@[k] == m0[k] by {
                assert(m_before.dom().contains(k) && m_before[k] == m0[k]);
                if !m_before.dom().contains(kn) {
                    assert(k != kn);
                }
            }
            assert forall|k: (int, int)| #[trigger]
                chunk_map@.dom().contains(k) implies m0.dom().contains(k) || in_window(
                ccx,
                ccz,
                k,
            ) by {
                if !m_before.dom().contains(k) {
                    assert(k == kn);
                    assert(in_window(ccx, ccz, kn));
                }
            }
            assert forall|k: (int, int)| #[trigger] chunk_map@.dom().contains(k)
                && !m0.dom().contains(k) implies chunk_map@[k] == ground_chunk(k.0, k.1) by {
                if m_before.dom().contains(k) {
                    assert(chunk_map@[k] == m_before[k]);
                } else {
                    assert(k == kn);
                }
            }
            assert forall|s: int| 0 <= s < t + 1 implies chunk_map@.dom().contains(
                #[trigger] wc[s],
            ) by {
                if s < t {
                    assert(m_before.dom().contains(wc[s]));
                }
            }
        }
        t = t + 1;
    }
    proof {
        lemma_window_dims();
        assert forall|k: (int, int)| in_window(ccx, ccz, k) implies chunk_map@.dom().contains(
            k,
        ) by {
            let a = k.0 - (ccx - 3);
            let b = k.1 - (ccz - 3);
            let s = a * 7 + b;
            assert(0 <= a <= 6 && 0 <= b <= 6);
            assert(0 <= s < 49);
            lemma_fundamental_div_mod_converse(s, 7, a, b);
            assert(wc[s] == (k.0, k.1));
            assert(k == (k.0, k.1));
            assert(chunk_map@.dom().contains(wc[s]));
        }
        assert(chunk_map@ =~= ensure_window(m0, ccx, ccz));
        assert forall|t2: int| 0 <= t2 < wc.len() implies chunk_map@.dom().contains(
            #[trigger] wc[t2],
        ) by {
            assert(chunk_map@.dom().contains(wc[t2]));
        }
    }
}

/// Ensures the window around `current_camera_chunk` is resident, then
/// returns every resident window chunk's boxes and spheres, flattened in
/// scan order, for handoff to the rendering boundary.
pub fn get_buffer_data(current_camera_chunk: (i32, i32), chunk_map: &mut ChunkMap) -> (r: (
    Vec<BoxSDF>,
    Vec<SphereSDF>,
))
    requires
        old(chunk_map).wf(),
        window_center_ok(current_camera_chunk.0 as int, current_camera_chunk.1 as int),
    ensures
        final(chunk_map).wf(),
        final(chunk_map)@ == ensure_window(
            old(chunk_map)@,
            current_camera_chunk.0 as int,
            current_camera_chunk.1 as int,
        ),
        old(chunk_map)@.dom().subset_of(final(chunk_map)@.dom()),
        r.0@ == flatten_boxes(
            final(chunk_map)@,
            window_coords(current_camera_chunk.0 as int, current_camera_chunk.1 as int),
        ),
        r.1@ == flatten_spheres(
            final(chunk_map)@,
            window_coords(current_camera_chunk.0 as int, current_camera_chunk.1 as int),
        ),
{
    let ghost ccx = current_camera_chunk.0 as int;
    let ghost ccz = current_camera_chunk.1 as int;
    let ghost wc = window_coords(ccx, ccz);
    ensure_window_resident(chunk_map, current_camera_chunk);
    let ghost m = chunk_map@;
    let mut box_sdfs: Vec<BoxSDF> = Vec::new();
    let mut sphere_sdfs: Vec<SphereSDF> = Vec::new();
    let mut t: usize = 0;
    proof {
        assert(wc.take(0) =~= Seq::<(int, int)>::empty());
    }
    while t < 49
        invariant
            t <= 49,
            chunk_map.wf(),
            chunk_map@ == m,
            window_center_ok(ccx, ccz),
            current_camera_chunk.0 as int == ccx && current_camera_chunk.1 as int == ccz,
            wc == window_coords(ccx, ccz),
            forall|t2: int| 0 <= t2 < wc.len() ==> m.dom().contains(#[trigger] wc[t2]),
            box_sdfs@ == flatten_boxes(m, wc.take(t as int)),
            sphere_sdfs@ == flatten_spheres(m, wc.take(t as int)),
        decreases 49 - t,
    {
        let di = t / 7;
        let dj = t % 7;
        proof {
            lemma_fundamental_div_mod(t as int, 7);
            lemma_div_is_ordered(t as int, 48, 7);
            lemma_mod_bound(t as int, 7);
        }
        let cx = current_camera_chunk.0 + (di as i32) - 3;
        let cz = current_camera_chunk.1 + (dj as i32) - 3;
        proof {
            lemma_window_dims();
            assert(wc.len() == 49);
            assert(wc[t as int] == (cx as int, cz as int));
            assert(m.dom().contains(wc[t as int]));
        }
        let chunk = match chunk_map.get_chunk(cx, cz) {
            Some(c) => c,
            None => vstd::pervasive::unreached(),
        };
        let ghost boxes_before = box_sdfs@;
        let mut u: usize = 0;
        while u < chunk.box_sdfs.len()
            invariant
                u <= chunk.box_sdfs@.len(),
                box_sdfs@ == boxes_before + chunk.box_sdfs@.take(u as int),
            decreases chunk.box_sdfs@.len() - u,
        {
            box_sdfs.push(chunk.box_sdfs[u]);
            proof {
                assert(boxes_before + chunk.box_sdfs@.take(u as int + 1) =~= (boxes_before
                    + chunk.box_sdfs@.take(u as int)).push(chunk.box_sdfs@[u as int]));
            }
            u = u + 1;
        }
        let ghost spheres_before = sphere_sdfs@;
        let mut v: usize = 0;
        while v < chunk.sphere_sdfs.len()
            invariant
                v <= chunk.sphere_sdfs@.len(),
                sphere_sdfs@ == spheres_before + chunk.sphere_sdfs@.take(v as int),
            decreases chunk.sphere_sdfs@.len() - v,
        {
            sphere_sdfs.push(chunk.sphere_sdfs[v]);
            proof {
                assert(spheres_before + chunk.sphere_sdfs@.take(v as int + 1) =~= (spheres_before
                    + chunk.sphere_sdfs@.take(v as int)).push(chunk.sphere_sdfs@[v as int]));
            }
            v = v + 1;
        }
        proof {
            assert(chunk.box_sdfs@.take(chunk.box_sdfs@.len() as int) =~= chunk.box_sdfs@);
            assert(chunk.sphere_sdfs@.take(chunk.sphere_sdfs@.len() as int) =~= chunk.sphere_sdfs@);
            assert(wc.take(t as int + 1) =~= wc.take(t as int).push(wc[t as int]));
            lemma_flatten_boxes_push(m, wc.take(t as int), wc[t as int]);
            lemma_flatten_spheres_push(m, wc.take(t as int), wc[t as int]);
            assert(chunk@ == m[wc[t as int]]);
        }
        t = t + 1;
    }
    proof {
        lemma_window_dims();
        assert(wc.take(49) =~= wc);
    }
    (box_sdfs, sphere_sdfs)
}

/// The world at startup: an empty registry with the window around the
/// origin chunk made resident.
pub fn build_world() -> (m: ChunkMap)
    ensures
        m.wf(),
        m@ == ensure_window(Map::<(int, int), ChunkV>::empty(), 0, 0),
{
    let mut m = ChunkMap::new();
    ensure_window_resident(&mut m, (0, 0));
    m
}

} // verus!
