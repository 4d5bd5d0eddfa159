//! Tests of the chunk registry, window streaming, and carving.

use sdf_terrain::chunk::{Chunk, ChunkMap, MissingChunkError};
use sdf_terrain::math::Vec3i;
use sdf_terrain::pickaxe::{pickaxe_strike, StrikeResult};
use sdf_terrain::sdf::{chunk_sdf, two_chunk_sdf, SphereSDF};
use sdf_terrain::stream::{build_world, get_buffer_data};

fn v(x: i64, y: i64, z: i64) -> Vec3i {
    Vec3i { x, y, z }
}

#[test]
fn fresh_chunk_has_one_ground_slab_and_no_spheres() {
    let mut m = ChunkMap::new();
    let created = m.get_or_create(0, 0);
    assert!(created);
    let c: &Chunk = m.get_chunk(0, 0).unwrap();
    assert_eq!(c.box_sdfs.len(), 1);
    assert_eq!(c.box_sdfs[0].center, v(0, -20000, 0));
    assert_eq!(c.box_sdfs[0].half_extents, v(32000, 20000, 32000));
    assert_eq!(c.sphere_sdfs.len(), 0);
}

#[test]
fn get_or_create_reports_creation_once() {
    let mut m = ChunkMap::new();
    assert!(m.get_or_create(7, -2));
    assert!(!m.get_or_create(7, -2));
    assert_eq!(m.num_chunks(), 1);
    // The slab of a non-origin chunk sits at its own center.
    let c = m.get_chunk(7, -2).unwrap();
    assert_eq!(c.box_sdfs[0].center, v(7 * 64000, -20000, -2 * 64000));
}

#[test]
fn apply_edit_fails_on_missing_chunk() {
    let mut m = ChunkMap::new();
    let s = SphereSDF { center: v(0, 0, 0), radius: 500, negate: 1 };
    assert_eq!(m.apply_edit(1, 1, s), Err(MissingChunkError));
    m.get_or_create(1, 1);
    assert_eq!(m.apply_edit(1, 1, s), Ok(()));
    assert_eq!(m.get_chunk(1, 1).unwrap().sphere_sdfs.len(), 1);
}

#[test]
fn build_world_covers_the_startup_window() {
    let m = build_world();
    // A 7x7 window around the origin chunk.
    assert_eq!(m.num_chunks(), 49);
    assert!(m.get_chunk(-3, -3).is_some());
    assert!(m.get_chunk(3, 3).is_some());
    assert!(m.get_chunk(4, 0).is_none());
}

#[test]
fn buffer_data_flattens_in_scan_order() {
    let mut m = ChunkMap::new();
    let (boxes, spheres) = get_buffer_data((0, 0), &mut m);
    assert_eq!(boxes.len(), 49);
    assert_eq!(spheres.len(), 0);
    // Scan order: outer axis x from -3, inner axis z from -3.
    assert_eq!(boxes[0].center, v(-3 * 64000, -20000, -3 * 64000));
    assert_eq!(boxes[1].center, v(-3 * 64000, -20000, -2 * 64000));
    assert_eq!(boxes[48].center, v(3 * 64000, -20000, 3 * 64000));
}

#[test]
fn resident_window_is_idempotent() {
    let mut m = ChunkMap::new();
    let (b1, s1) = get_buffer_data((2, -1), &mut m);
    let n = m.num_chunks();
    let (b2, s2) = get_buffer_data((2, -1), &mut m);
    assert_eq!(b1, b2);
    assert_eq!(s1, s2);
    assert_eq!(m.num_chunks(), n);
}

#[test]
fn registry_growth_is_monotonic() {
    let mut m = build_world();
    let mut last = m.num_chunks();
    let (_, _) = get_buffer_data((1, 0), &mut m);
    assert!(m.num_chunks() >= last);
    last = m.num_chunks();
    let r = pickaxe_strike(&mut m, &v(0, 50000, 0), &v(0, -1000, 0));
    assert!(r.is_ok());
    assert!(m.num_chunks() >= last);
    last = m.num_chunks();
    let (_, _) = get_buffer_data((-4, -4), &mut m);
    assert!(m.num_chunks() >= last);
}

#[test]
fn boundary_point_agrees_between_adjacent_chunks() {
    let mut m = ChunkMap::new();
    m.get_or_create(0, 0);
    m.get_or_create(1, 0);
    let a = m.get_chunk(0, 0).unwrap();
    let b = m.get_chunk(1, 0).unwrap();
    // Points exactly on the shared face x == 32000.
    for p in [v(32000, 0, 0), v(32000, -15000, 9000), v(32000, 4000, -31000)] {
        let da = chunk_sdf(&p, &a.box_sdfs, &a.sphere_sdfs);
        let db = chunk_sdf(&p, &b.box_sdfs, &b.sphere_sdfs);
        assert_eq!(da, db);
    }
}

#[test]
fn trace_straight_down_hits_the_slab_top() {
    let mut m = build_world();
    let r = pickaxe_strike(&mut m, &v(0, 50000, 0), &v(0, -1000, 0));
    match r {
        Ok(StrikeResult::Carved(_, spheres)) => {
            // One carve, committed at the hit point on the slab top.
            assert_eq!(spheres.len(), 1);
            assert_eq!(spheres[0].center, v(0, 0, 0));
            assert_eq!(spheres[0].radius, 500);
            assert_eq!(spheres[0].negate, 1);
        },
        _ => panic!("expected a committed carve"),
    }
    let c = m.get_chunk(0, 0).unwrap();
    assert_eq!(c.sphere_sdfs.len(), 1);
    assert_eq!(c.sphere_sdfs[0].center, v(0, 0, 0));
}

#[test]
fn carve_opens_a_void_at_the_hit_point() {
    let mut m = build_world();
    let hit = v(0, 0, 0);
    let before = {
        let c = m.get_chunk(0, 0).unwrap();
        chunk_sdf(&hit, &c.box_sdfs, &c.sphere_sdfs)
    };
    assert!(before <= 1);
    let r = pickaxe_strike(&mut m, &v(0, 50000, 0), &v(0, -1000, 0));
    assert!(r.is_ok());
    let c = m.get_chunk(0, 0).unwrap();
    let after = chunk_sdf(&hit, &c.box_sdfs, &c.sphere_sdfs);
    // The void is the carved sphere's radius deep at its center.
    assert!(after >= 0);
    assert_eq!(after, 500);
}

#[test]
fn march_out_of_range_reports_no_surface() {
    let mut m = build_world();
    // Horizontal ray high above the ground: nothing within range.
    let r = pickaxe_strike(&mut m, &v(0, 50000, 0), &v(1000, 0, 0));
    match r {
        Ok(StrikeResult::NoSurface) => {},
        _ => panic!("expected no surface within pickaxe range"),
    }
}

#[test]
fn neighbor_chunk_carve_applies_across_the_merge() {
    let mut m = ChunkMap::new();
    m.get_or_create(0, 0);
    m.get_or_create(1, 0);
    // A void recorded in the neighbor chunk, just inside the first
    // chunk's slab.
    let void = SphereSDF { center: v(31000, -500, 0), radius: 800, negate: 1 };
    assert_eq!(m.apply_edit(1, 0, void), Ok(()));
    let a = m.get_chunk(0, 0).unwrap();
    let b = m.get_chunk(1, 0).unwrap();
    let p = v(31000, -500, 0);
    // Alone, the first chunk still reads solid there.
    assert_eq!(chunk_sdf(&p, &a.box_sdfs, &a.sphere_sdfs), -500);
    // Merged, the neighbor's subtractive sphere carves it out:
    // max(-500, -(0 - 800)) == 800.
    let merged = two_chunk_sdf(&p, &a.box_sdfs, &a.sphere_sdfs, &b.box_sdfs, &b.sphere_sdfs);
    assert_eq!(merged, 800);
}

#[test]
fn merged_field_spans_the_boundary() {
    let mut m = ChunkMap::new();
    m.get_or_create(0, 0);
    m.get_or_create(1, 0);
    let a = m.get_chunk(0, 0).unwrap();
    let b = m.get_chunk(1, 0).unwrap();
    // A point above the neighboring chunk: its own slab is the nearest.
    let p = v(64000, 3000, 0);
    let merged = two_chunk_sdf(&p, &a.box_sdfs, &a.sphere_sdfs, &b.box_sdfs, &b.sphere_sdfs);
    assert_eq!(merged, 3000);
    // Alone, the first chunk's slab is farther away than the merged field.
    let alone = chunk_sdf(&p, &a.box_sdfs, &a.sphere_sdfs);
    assert!(alone > merged);
}
