//! Tests of the primitive distance functions and chunk-coordinate logic.
//! All lengths are in fixed-point steps: 1000 steps per world unit.

use sdf_terrain::math::Vec3i;
use sdf_terrain::pickaxe::get_next_chunk;
use sdf_terrain::sdf::{chunk_sdf, distance_to_box, distance_to_sphere, BoxSDF, SphereSDF};
use sdf_terrain::stream::world_to_chunk;

fn v(x: i64, y: i64, z: i64) -> Vec3i {
    Vec3i { x, y, z }
}

#[test]
fn sphere_distance_is_length_minus_radius() {
    // |(3000, 4000, 0)| == 5000 exactly.
    let d = distance_to_sphere(&v(3000, 4000, 0), &v(0, 0, 0), 1000);
    assert_eq!(d, 4000);
    // At the center, the distance is minus the radius.
    let d = distance_to_sphere(&v(7, -9, 2), &v(7, -9, 2), 250);
    assert_eq!(d, -250);
    // On the surface, exactly zero.
    let d = distance_to_sphere(&v(0, 0, 600), &v(0, 0, 0), 600);
    assert_eq!(d, 0);
}

#[test]
fn sphere_distance_rounds_the_length_down() {
    // |(1, 1, 0)| == sqrt(2), floored to 1.
    let d = distance_to_sphere(&v(1, 1, 0), &v(0, 0, 0), 1);
    assert_eq!(d, 0);
    // |(10, 10, 10)| == sqrt(300) ~= 17.32, floored to 17.
    let d = distance_to_sphere(&v(10, 10, 10), &v(0, 0, 0), 5);
    assert_eq!(d, 12);
}

#[test]
fn box_distance_signs() {
    let c = v(0, 0, 0);
    let h = v(5000, 5000, 5000);
    // Strictly inside: negative.
    assert!(distance_to_box(&v(1000, -2000, 0), &c, &h) < 0);
    // Strictly outside: positive.
    assert!(distance_to_box(&v(9000, 0, 0), &c, &h) > 0);
    // Exactly on a face: zero.
    assert_eq!(distance_to_box(&v(5000, 0, 0), &c, &h), 0);
    // On an edge: zero.
    assert_eq!(distance_to_box(&v(5000, 5000, 0), &c, &h), 0);
}

#[test]
fn box_distance_exact_values() {
    let c = v(0, 0, 0);
    let h = v(5000, 5000, 5000);
    // Face distance along one axis.
    assert_eq!(distance_to_box(&v(9000, 0, 0), &c, &h), 4000);
    // Inside: largest per-axis penetration (closest face is 1000 away).
    assert_eq!(distance_to_box(&v(4000, 0, 0), &c, &h), -1000);
    // Outside past a corner: Euclidean distance to it, rounded down.
    // Offsets beyond the corner are (3000, 4000, 0): length 5000.
    assert_eq!(distance_to_box(&v(8000, 9000, 0), &c, &h), 5000);
}

#[test]
fn chunk_field_respects_sphere_polarity() {
    let boxes = vec![BoxSDF { center: v(0, -20000, 0), half_extents: v(32000, 20000, 32000) }];
    // An additive sphere pulls the field down (union).
    let add = vec![SphereSDF { center: v(0, 10000, 0), radius: 2000, negate: 0 }];
    let p = v(0, 7000, 0);
    // Distance to slab top: 7000; to the sphere: 3000 - 2000 = 1000.
    assert_eq!(chunk_sdf(&p, &boxes, &vec![]), 7000);
    assert_eq!(chunk_sdf(&p, &boxes, &add), 1000);
    // A subtractive sphere carves: max(field, -sphere distance).
    let sub = vec![SphereSDF { center: v(0, 0, 0), radius: 1500, negate: 1 }];
    let q = v(0, -500, 0);
    // Inside the slab (field -500), inside the carved void: -(500 - 1500) = 1000.
    assert_eq!(chunk_sdf(&q, &boxes, &vec![]), -500);
    assert_eq!(chunk_sdf(&q, &boxes, &sub), 1000);
}

#[test]
fn next_chunk_straight_x() {
    let r = get_next_chunk(&(0, 0), &v(1, 0, 0));
    assert_eq!(r, (1, 0));
}

#[test]
fn next_chunk_degenerate_direction() {
    let r = get_next_chunk(&(0, 0), &v(0, 0, 0));
    assert_eq!(r, (0, 0));
}

#[test]
fn next_chunk_diagonal_equal_components() {
    let r = get_next_chunk(&(2, -1), &v(1, 0, 1));
    assert_eq!(r, (3, 0));
}

#[test]
fn next_chunk_dominant_axis_and_vertical() {
    // z dominates: step in z only.
    assert_eq!(get_next_chunk(&(0, 0), &v(300, 0, -900)), (0, -1));
    // x dominates: step in x only.
    assert_eq!(get_next_chunk(&(5, 5), &v(-900, 100, 300)), (4, 5));
    // Purely vertical: no horizontal component, no step.
    assert_eq!(get_next_chunk(&(3, 4), &v(0, -1000, 0)), (3, 4));
}

#[test]
fn world_to_chunk_rounds_to_nearest() {
    // Below the half-chunk boundary: still chunk 0.
    assert_eq!(world_to_chunk(&v(31999, 0, 0)), (0, 0));
    // Exactly on it: ties round away from zero.
    assert_eq!(world_to_chunk(&v(32000, 0, 0)), (1, 0));
    assert_eq!(world_to_chunk(&v(-32000, 0, -32001)), (-1, -1));
    // A chunk center maps to its own coordinate.
    assert_eq!(world_to_chunk(&v(128000, 500, -64000)), (2, -1));
}
