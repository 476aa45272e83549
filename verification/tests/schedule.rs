use std::collections::VecDeque;

use bampy::aabb::{aabb_from_points, Aabb};
use bampy::axis::Axis;
use bampy::bvh::BvhNode;
use bampy::mesh::Mesh;
use bampy::point::Point3;
use bampy::schedule::{order_surfaces, schedule, Surface};
use bampy::slice_path::{SlicePath, SurfacePath};
use bampy::trace_surface::trace_surface;
use bampy::triangle::Triangle;

fn p(x: i64, y: i64, z: i64) -> Point3 {
    Point3::new(x, y, z)
}

/// A flat quad of side 10 at height `z`, with its lower corner at `x`.
fn quad_mesh(x: i64, z: i64) -> Mesh {
    let triangles = vec![
        Triangle::new(p(x, 0, z), p(x + 10, 0, z), p(x + 10, 10, z)),
        Triangle::new(p(x, 0, z), p(x + 10, 10, z), p(x, 10, z)),
    ];
    let nodes = vec![
        BvhNode::Node {
            child_l_index: 1,
            child_l_aabb: triangles[0].aabb,
            child_r_index: 2,
            child_r_aabb: triangles[1].aabb,
        },
        BvhNode::Leaf { shape_index: 0 },
        BvhNode::Leaf { shape_index: 1 },
    ];
    Mesh::build(triangles, nodes).unwrap()
}

fn wall(i: usize, points: Vec<Point3>) -> SlicePath {
    let aabb = aabb_from_points(&points);
    SlicePath { i, d: i as i64, axis: Axis::Z, points, closed: true, aabb }
}

fn surface(x: i64, z: i64) -> Surface {
    let outline = vec![p(x, 0, z), p(x, 10, z), p(x + 10, 10, z), p(x + 10, 0, z), p(x, 0, z)];
    let lane = vec![p(x + 1, 0, z), p(x + 1, 10, z)];
    Surface {
        mesh: quad_mesh(x, z),
        outlines: vec![SlicePath {
            i: 0,
            d: 0,
            axis: Axis::Z,
            aabb: aabb_from_points(&outline),
            points: outline,
            closed: true,
        }],
        paths: vec![SurfacePath {
            i_start: 0,
            i_end: 0,
            d_start: 0,
            d_end: 0,
            axis: Axis::X,
            aabb: aabb_from_points(&lane),
            path: lane,
        }],
    }
}

/// A box can reach a point that is not below it and that lies over it,
/// widened by the height of the point above its floor and by the width of
/// a shadow at its apex.
fn reaches(b: Aabb, q: Point3) -> bool {
    if q.z < b.min.z {
        return false;
    }
    let spread = q.z - b.min.z + 2;
    b.min.x - spread <= q.x && q.x <= b.max.x + spread && b.min.y - spread <= q.y
        && q.y <= b.max.y + spread
}

/// The shadow of a corner: a cone of slope one that opens upwards.
fn shadows(apex: Point3, q: Point3) -> bool {
    let rise = q.z - apex.z;
    rise >= 0 && (q.x - apex.x).abs() <= rise + 2 && (q.y - apex.y).abs() <= rise + 2
}

fn everywhere(_b: Aabb, _q: Point3) -> bool {
    true
}

#[test]
fn point_is_free_away_from_the_surface() {
    let mesh = quad_mesh(0, 5);
    assert!(trace_surface(&p(50, 50, 5), &mesh, &reaches, &shadows));
    assert!(trace_surface(&p(50, 50, 5), &mesh, &everywhere, &shadows));
    assert!(trace_surface(&p(13, 13, 5), &mesh, &reaches, &shadows));
}

#[test]
fn point_is_held_in_the_shadow_of_a_corner() {
    let mesh = quad_mesh(0, 5);
    assert!(!trace_surface(&p(10, 10, 5), &mesh, &reaches, &shadows));
    assert!(!trace_surface(&p(12, 1, 5), &mesh, &reaches, &shadows));
    assert!(!trace_surface(&p(0, 13, 6), &mesh, &reaches, &shadows));
}

#[test]
fn point_below_the_surface_is_free() {
    let mesh = quad_mesh(0, 5);
    assert!(trace_surface(&p(10, 10, 4), &mesh, &reaches, &shadows));
    assert!(trace_surface(&p(10, 10, 4), &mesh, &everywhere, &shadows));
}

#[test]
fn shadows_are_looked_for_only_where_the_boxes_reach() {
    let mesh = quad_mesh(0, 5);
    let nowhere = |_b: Aabb, _q: Point3| false;
    assert!(trace_surface(&p(10, 10, 5), &mesh, &nowhere, &shadows));
}

#[test]
fn walls_without_surfaces_are_printed_in_order() {
    let walls: VecDeque<SlicePath> = (0..4)
        .map(|z| wall(z, vec![p(0, 0, z as i64), p(10, 0, z as i64)]))
        .collect();
    let out = schedule(Vec::new(), walls, &reaches, &shadows);
    assert_eq!(out.len(), 4);
    for z in 0..4 {
        assert_eq!(out[z], vec![p(0, 0, z as i64), p(10, 0, z as i64)]);
    }
}

#[test]
fn held_points_are_printed_after_the_surface() {
    // A surface at height 2 over x in 100..110. One point of the wall at
    // height 2 lies beside it and is free; the other lies on its corner.
    // The wall at height 3 leaves the surface behind: the surface is
    // printed, that wall is placed, and the held point follows.
    let walls: VecDeque<SlicePath> = (0..4)
        .map(|z| wall(z, vec![p(0, 0, z as i64), p(100, 0, z as i64)]))
        .collect();
    let out = schedule(vec![surface(100, 2)], walls, &reaches, &shadows);
    assert_eq!(
        out,
        vec![
            vec![p(0, 0, 0), p(100, 0, 0)],
            vec![p(0, 0, 1), p(100, 0, 1)],
            vec![p(0, 0, 2)],
            vec![p(100, 0, 2), p(100, 10, 2), p(110, 10, 2), p(110, 0, 2), p(100, 0, 2)],
            vec![p(101, 0, 2), p(101, 10, 2)],
            vec![p(0, 0, 3), p(100, 0, 3)],
            vec![p(100, 0, 2)],
        ]
    );
}

#[test]
fn a_surface_that_no_wall_passes_is_printed_at_the_end() {
    let walls: VecDeque<SlicePath> = (0..3)
        .map(|z| wall(z, vec![p(0, 0, z as i64), p(100, 0, z as i64)]))
        .collect();
    let out = schedule(vec![surface(100, 2)], walls, &reaches, &shadows);
    assert_eq!(
        out,
        vec![
            vec![p(0, 0, 0), p(100, 0, 0)],
            vec![p(0, 0, 1), p(100, 0, 1)],
            vec![p(0, 0, 2)],
            vec![p(100, 0, 2), p(100, 10, 2), p(110, 10, 2), p(110, 0, 2), p(100, 0, 2)],
            vec![p(101, 0, 2), p(101, 10, 2)],
            vec![p(100, 0, 2)],
        ]
    );
}

#[test]
fn a_wall_that_is_held_whole_is_printed_once() {
    let walls: VecDeque<SlicePath> =
        vec![wall(2, vec![p(100, 0, 2), p(110, 0, 2)]), wall(3, vec![p(0, 0, 3)])].into();
    let out = schedule(vec![surface(100, 2)], walls, &reaches, &shadows);
    assert_eq!(
        out,
        vec![
            vec![p(100, 0, 2), p(100, 10, 2), p(110, 10, 2), p(110, 0, 2), p(100, 0, 2)],
            vec![p(101, 0, 2), p(101, 10, 2)],
            vec![p(0, 0, 3)],
            vec![p(100, 0, 2), p(110, 0, 2)],
        ]
    );
}

#[test]
fn a_surface_above_every_wall_is_never_printed() {
    let walls: VecDeque<SlicePath> = vec![wall(0, vec![p(0, 0, 0)])].into();
    let out = schedule(vec![surface(0, 9)], walls, &reaches, &shadows);
    assert_eq!(out, vec![vec![p(0, 0, 0)]]);
}

#[test]
fn surfaces_without_walls_print_nothing() {
    let out = schedule(vec![surface(0, 2)], VecDeque::new(), &reaches, &shadows);
    assert!(out.is_empty());
}

#[test]
fn output_counts_walls_with_points_and_surface_polylines() {
    let walls: VecDeque<SlicePath> = (0..6)
        .map(|z| wall(z, vec![p(0, 0, z as i64), p(100, 0, z as i64), p(200, 0, z as i64)]))
        .collect();
    let out = schedule(vec![surface(100, 2), surface(200, 4)], walls, &reaches, &shadows);
    // Six walls, two of which come back once with their held points, and
    // two polylines for each of the two surfaces.
    assert_eq!(out.len(), 6 + 2 + 2 * 2);
    for z in 0..6 {
        for x in [0, 100, 200] {
            let hits: usize =
                out.iter().map(|line| line.iter().filter(|q| **q == p(x, 0, z)).count()).sum();
            let on_outline = (x == 100 && z == 2) || (x == 200 && z == 4);
            assert_eq!(hits, if on_outline { 3 } else { 1 });
        }
    }
}

#[test]
fn two_surfaces_do_not_hold_each_others_walls() {
    let walls: VecDeque<SlicePath> = (0..4)
        .map(|z| wall(z, vec![p(0, 0, z as i64), p(300, 0, z as i64)]))
        .collect();
    let out = schedule(vec![surface(0, 1), surface(300, 2)], walls, &reaches, &shadows);
    let place = |line: &Vec<Point3>| out.iter().position(|l| l == line).unwrap();
    let first_outline = place(&vec![p(0, 0, 1), p(0, 10, 1), p(10, 10, 1), p(10, 0, 1), p(0, 0, 1)]);
    let second_outline =
        place(&vec![p(300, 0, 2), p(300, 10, 2), p(310, 10, 2), p(310, 0, 2), p(300, 0, 2)]);
    assert!(place(&vec![p(300, 0, 1)]) < first_outline);
    assert!(first_outline < place(&vec![p(0, 0, 1)]));
    assert!(place(&vec![p(0, 0, 2)]) < second_outline);
    assert!(second_outline < place(&vec![p(300, 0, 2)]));
}

#[test]
fn scheduling_twice_gives_the_same_order() {
    let make = || -> VecDeque<SlicePath> {
        (0..5).map(|z| wall(z, vec![p(0, 0, z as i64), p(100, 0, z as i64)])).collect()
    };
    let one = schedule(vec![surface(100, 2)], make(), &reaches, &shadows);
    let two = schedule(vec![surface(100, 2)], make(), &reaches, &shadows);
    assert_eq!(one, two);
}

#[test]
fn surfaces_are_ordered_by_the_height_at_which_they_start() {
    let ordered = order_surfaces(vec![surface(0, 7), surface(10, 2), surface(20, 7), surface(30, 1)]);
    let floors: Vec<(i64, i64)> =
        ordered.iter().map(|s| (s.mesh.aabb().min.z, s.mesh.aabb().min.x)).collect();
    assert_eq!(floors, vec![(1, 30), (2, 10), (7, 0), (7, 20)]);
}
