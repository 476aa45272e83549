use bampy::aabb::Aabb;
use bampy::line::Line3;
use bampy::point::Point3;
use bampy::triangle::Triangle;

fn p(x: i64, y: i64, z: i64) -> Point3 {
    Point3::new(x, y, z)
}

fn same(a: Point3, b: Point3) -> bool {
    a == b
}

fn within_one(a: Point3, b: Point3) -> bool {
    (a.x - b.x).abs() <= 1 && (a.y - b.y).abs() <= 1 && (a.z - b.z).abs() <= 1
}

fn same_coord(a: i64, b: i64) -> bool {
    a == b
}

fn lerp(lo: Point3, hi: Point3, d: i64, axis: usize) -> Point3 {
    let num = d - lo.coord(axis);
    let den = hi.coord(axis) - lo.coord(axis);
    Point3::new(
        lo.x + (hi.x - lo.x) * num / den,
        lo.y + (hi.y - lo.y) * num / den,
        lo.z + (hi.z - lo.z) * num / den,
    )
}

#[test]
fn triangle_box_encloses_its_corners() {
    let t = Triangle::new(p(3, 0, -2), p(-1, 7, 0), p(2, 2, 9));
    assert_eq!(t.aabb.min, p(-1, 0, -2));
    assert_eq!(t.aabb.max, p(3, 7, 9));
    assert!(t.aabb.contains(&t.a));
    assert!(t.aabb.contains(&t.b));
    assert!(t.aabb.contains(&t.c));
    assert_eq!(t.aabb(), t.aabb);
}

#[test]
fn node_index_is_the_only_thing_that_changes() {
    let mut t = Triangle::new(p(0, 0, 0), p(1, 0, 0), p(0, 1, 0));
    assert_eq!(t.bh_node_index(), 0);
    t.set_bh_node_index(7);
    assert_eq!(t.bh_node_index(), 7);
    assert_eq!(t.a, p(0, 0, 0));
    assert_eq!(t.b, p(1, 0, 0));
    assert_eq!(t.c, p(0, 1, 0));
    assert_eq!(t.aabb.max, p(1, 1, 0));
}

#[test]
fn has_point_asks_about_each_corner() {
    let t = Triangle::new(p(0, 0, 0), p(10, 0, 0), p(0, 10, 0));
    assert!(t.has_point(p(10, 0, 0), &same));
    assert!(!t.has_point(p(10, 1, 0), &same));
    assert!(t.has_point(p(10, 1, 0), &within_one));
    assert!(!t.has_point(p(10, 2, 0), &within_one));
}

#[test]
fn has_point_in_aabb_is_exact() {
    let t = Triangle::new(p(0, 0, 0), p(10, 0, 0), p(0, 10, 0));
    let near_corner = Aabb { min: p(9, -1, -1), max: p(11, 1, 1) };
    let elsewhere = Aabb { min: p(3, 3, -1), max: p(4, 4, 1) };
    assert!(t.has_point_in_aabb(&near_corner));
    assert!(!t.has_point_in_aabb(&elsewhere));
}

#[test]
fn shares_point_and_edge() {
    let t = Triangle::new(p(0, 0, 0), p(10, 0, 0), p(10, 10, 0));
    let edge = Triangle::new(p(0, 0, 0), p(10, 10, 0), p(0, 10, 0));
    let corner = Triangle::new(p(10, 10, 0), p(20, 10, 0), p(20, 20, 0));
    let apart = Triangle::new(p(50, 50, 0), p(60, 50, 0), p(60, 60, 0));
    assert!(t.shares_point_with_triangle(edge, &same));
    assert!(t.shares_edge_with_triangle(edge, &same));
    assert!(t.shares_point_with_triangle(corner, &same));
    assert!(!t.shares_edge_with_triangle(corner, &same));
    assert!(!t.shares_point_with_triangle(apart, &same));
    assert!(!t.shares_edge_with_triangle(apart, &same));
}

#[test]
fn intersect_two_crossing_edges() {
    let t = Triangle::new(p(0, 0, 0), p(10, 0, 10), p(0, 10, 10));
    let cut = t.intersect(5, 2, &same_coord, &lerp);
    assert_eq!(cut, Some(Line3::new(p(0, 5, 5), p(5, 0, 5))));
}

#[test]
fn intersect_ends_lie_on_the_plane_exactly() {
    let t = Triangle::new(p(0, 0, 0), p(10, 0, 9), p(0, 10, 7));
    let off_plane = |lo: Point3, hi: Point3, d: i64, axis: usize| {
        let q = lerp(lo, hi, d, axis);
        Point3::new(q.x + 1, q.y + 1, q.z + 1)
    };
    for d in 1..7 {
        let line = t.intersect(d, 2, &same_coord, &off_plane).unwrap();
        assert_eq!(line.start.z, d);
        assert_eq!(line.end.z, d);
    }
}

#[test]
fn intersect_coplanar_triangle_has_no_cut() {
    let t = Triangle::new(p(0, 0, 5), p(10, 0, 5), p(0, 10, 5));
    assert_eq!(t.intersect(5, 2, &same_coord, &lerp), None);
}

#[test]
fn intersect_touching_in_one_corner_has_no_cut() {
    let t = Triangle::new(p(0, 0, 5), p(10, 0, 10), p(0, 10, 10));
    assert_eq!(t.intersect(5, 2, &same_coord, &lerp), None);
}

#[test]
fn intersect_missing_the_plane_has_no_cut() {
    let t = Triangle::new(p(0, 0, 6), p(10, 0, 10), p(0, 10, 10));
    assert_eq!(t.intersect(5, 2, &same_coord, &lerp), None);
}

#[test]
fn intersect_edge_on_the_plane_is_the_cut() {
    let t = Triangle::new(p(0, 0, 5), p(10, 0, 5), p(0, 10, 10));
    let cut = t.intersect(5, 2, &same_coord, &lerp);
    assert_eq!(cut, Some(Line3::new(p(0, 0, 5), p(10, 0, 5))));
}

#[test]
fn intersect_snaps_a_close_corner_onto_the_plane() {
    let t = Triangle::new(p(0, 0, 4), p(10, 0, 6), p(0, 10, 20));
    let near = |a: i64, b: i64| (a - b).abs() <= 1;
    let cut = t.intersect(5, 2, &near, &lerp);
    assert_eq!(cut, Some(Line3::new(p(0, 0, 5), p(10, 0, 5))));
}

#[test]
fn intersect_along_another_axis() {
    let t = Triangle::new(p(0, 0, 0), p(10, 0, 10), p(10, 10, 0));
    let cut = t.intersect(5, 0, &same_coord, &lerp);
    assert_eq!(cut, Some(Line3::new(p(5, 5, 0), p(5, 0, 5))));
}
