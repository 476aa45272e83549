use bampy::axis::Axis;
use bampy::base_slices::BaseSlice;
use bampy::line::Line3;
use bampy::point::Point3;

fn p(x: i64, y: i64) -> Point3 {
    Point3::new(x, y, 0)
}

fn l(a: Point3, b: Point3) -> Line3 {
    Line3::new(a, b)
}

fn same(a: Point3, b: Point3) -> bool {
    a == b
}

fn shoelace(points: &Vec<Point3>, a: Axis, b: Axis) -> i64 {
    let mut sum = 0;
    for pair in points.windows(2) {
        sum += (pair[1].along(a) - pair[0].along(a)) * (pair[1].along(b) + pair[0].along(b));
    }
    sum
}

fn negative(points: &Vec<Point3>, a: Axis, b: Axis) -> bool {
    shoelace(points, a, b) < 0
}

fn slice_of(lines: Vec<Line3>) -> BaseSlice {
    BaseSlice { i: 3, d: 0, axis: Axis::Z, lines }
}

fn square() -> Vec<Line3> {
    vec![
        l(p(0, 0), p(10, 0)),
        l(p(10, 0), p(10, 10)),
        l(p(10, 10), p(0, 10)),
        l(p(0, 10), p(0, 0)),
    ]
}

#[test]
fn square_closes_into_one_ring() {
    let rings = slice_of(square()).find_paths(&same, &negative);
    assert_eq!(rings.len(), 1);
    let ring = &rings[0];
    assert!(ring.closed);
    assert_eq!(ring.i, 3);
    assert_eq!(ring.d, 0);
    assert_eq!(ring.axis, Axis::Z);
    assert_eq!(ring.points, vec![p(10, 10), p(10, 0), p(0, 0), p(0, 10), p(10, 10)]);
}

#[test]
fn closed_ring_ends_where_it_starts_and_winds_clockwise() {
    let rings = slice_of(square()).find_paths(&same, &negative);
    for ring in &rings {
        assert!(ring.closed);
        assert!(same(ring.points[0], ring.points[ring.points.len() - 1]));
        assert!(shoelace(&ring.points, Axis::X, Axis::Y) >= 0);
    }
    assert_eq!(shoelace(&rings[0].points, Axis::X, Axis::Y), 200);
}

#[test]
fn ring_box_encloses_its_points() {
    let rings = slice_of(square()).find_paths(&same, &negative);
    let ring = &rings[0];
    assert_eq!(ring.aabb.min, Point3::new(0, 0, 0));
    assert_eq!(ring.aabb.max, Point3::new(10, 10, 0));
    for q in &ring.points {
        assert!(ring.aabb.contains(q));
    }
}

#[test]
fn ring_that_winds_clockwise_is_left_as_it_is() {
    let lines = vec![
        l(p(0, 0), p(0, 10)),
        l(p(0, 10), p(10, 10)),
        l(p(10, 10), p(10, 0)),
        l(p(10, 0), p(0, 0)),
    ];
    let rings = slice_of(lines).find_paths(&same, &negative);
    assert_eq!(rings.len(), 1);
    assert!(rings[0].closed);
    assert_eq!(rings[0].points, vec![p(10, 10), p(10, 0), p(0, 0), p(0, 10), p(10, 10)]);
}

#[test]
fn degenerate_segment_is_skipped() {
    let mut lines = square();
    lines.push(l(p(5, 5), p(5, 5)));
    let with = slice_of(lines).find_paths(&same, &negative);
    let without = slice_of(square()).find_paths(&same, &negative);
    assert_eq!(with.len(), without.len());
    assert_eq!(with[0].points, without[0].points);
}

#[test]
fn degenerate_segment_in_the_middle_blocks_nothing() {
    let mut lines = square();
    lines.insert(1, l(p(7, 7), p(7, 7)));
    let rings = slice_of(lines).find_paths(&same, &negative);
    assert_eq!(rings.len(), 1);
    assert!(rings[0].closed);
    assert_eq!(rings[0].points.len(), 5);
}

#[test]
fn chain_that_cannot_close_is_an_open_path() {
    let lines = vec![l(p(0, 0), p(10, 0)), l(p(10, 0), p(10, 10))];
    let rings = slice_of(lines).find_paths(&same, &negative);
    assert_eq!(rings.len(), 1);
    assert!(!rings[0].closed);
    assert_eq!(rings[0].points, vec![p(0, 0), p(10, 0), p(10, 10)]);
}

#[test]
fn one_plane_may_hold_several_rings() {
    let mut lines = square();
    lines.push(l(p(20, 0), p(30, 0)));
    lines.push(l(p(30, 0), p(30, 10)));
    lines.push(l(p(30, 10), p(20, 0)));
    let rings = slice_of(lines).find_paths(&same, &negative);
    assert_eq!(rings.len(), 2);
    assert!(rings[0].closed);
    assert!(rings[1].closed);
    assert_eq!(rings[0].points.len(), 4);
    assert_eq!(rings[1].points.len(), 5);
    assert_eq!(rings[0].points[0].x >= 20, true);
    assert_eq!(rings[1].points, vec![p(10, 10), p(10, 0), p(0, 0), p(0, 10), p(10, 10)]);
}

#[test]
fn segments_may_come_in_either_direction() {
    let lines = vec![
        l(p(10, 0), p(0, 0)),
        l(p(10, 0), p(10, 10)),
        l(p(0, 10), p(10, 10)),
        l(p(0, 10), p(0, 0)),
    ];
    let rings = slice_of(lines).find_paths(&same, &negative);
    assert_eq!(rings.len(), 1);
    assert!(rings[0].closed);
    assert_eq!(rings[0].points.len(), 5);
    assert!(shoelace(&rings[0].points, Axis::X, Axis::Y) >= 0);
}

#[test]
fn no_segments_no_rings() {
    assert!(slice_of(Vec::new()).find_paths(&same, &negative).is_empty());
}

#[test]
fn single_segment_is_an_open_path_of_two_points() {
    let rings = slice_of(vec![l(p(1, 1), p(2, 2))]).find_paths(&same, &negative);
    assert_eq!(rings.len(), 1);
    assert!(!rings[0].closed);
    assert_eq!(rings[0].points, vec![p(1, 1), p(2, 2)]);
}

#[test]
fn ring_assembly_gives_the_same_rings_each_time() {
    let one = slice_of(square()).find_paths(&same, &negative);
    let two = slice_of(square()).find_paths(&same, &negative);
    assert_eq!(one.len(), two.len());
    for k in 0..one.len() {
        assert_eq!(one[k].points, two[k].points);
        assert_eq!(one[k].closed, two[k].closed);
        assert_eq!(one[k].aabb, two[k].aabb);
    }
}

#[test]
fn moving_every_segment_moves_every_ring_point() {
    let moved: Vec<Line3> = square()
        .into_iter()
        .map(|s| {
            l(
                Point3::new(s.start.x + 7, s.start.y - 3, s.start.z + 2),
                Point3::new(s.end.x + 7, s.end.y - 3, s.end.z + 2),
            )
        })
        .collect();
    let base = slice_of(square()).find_paths(&same, &negative);
    let rings = BaseSlice { i: 3, d: 2, axis: Axis::Z, lines: moved }.find_paths(&same, &negative);
    assert_eq!(rings.len(), base.len());
    for k in 0..rings.len() {
        assert_eq!(rings[k].points.len(), base[k].points.len());
        for j in 0..rings[k].points.len() {
            let q = base[k].points[j];
            assert_eq!(rings[k].points[j], Point3::new(q.x + 7, q.y - 3, q.z + 2));
        }
    }
}
