use bampy::aabb::aabb_from_points;
use bampy::axis::Axis;
use bampy::point::Point3;
use bampy::slice_path::{closed_paths, wall_queue, SlicePath, SurfacePathIterator};

fn p(x: i64, y: i64, z: i64) -> Point3 {
    Point3::new(x, y, z)
}

fn same(a: Point3, b: Point3) -> bool {
    a == b
}

fn never(_a: Point3, _b: Point3) -> bool {
    false
}

fn no_gap(_a: i64, _b: i64) -> bool {
    false
}

fn square_dist(a: Point3, b: Point3) -> i64 {
    (a.x - b.x).pow(2) + (a.y - b.y).pow(2) + (a.z - b.z).pow(2)
}

fn path(i: usize, points: Vec<Point3>, closed: bool) -> SlicePath {
    let aabb = aabb_from_points(&points);
    SlicePath { i, d: 10 * i as i64, axis: Axis::X, points, closed, aabb }
}

#[test]
fn paths_are_chained_across_neighbouring_strides() {
    let strides = vec![
        vec![path(0, vec![p(0, 5, 0), p(0, 0, 0)], false)],
        vec![path(1, vec![p(1, 0, 1), p(1, 6, 1)], false)],
        vec![path(2, vec![p(2, 1, 0), p(2, 7, 0)], false)],
    ];
    let mut it = SurfacePathIterator::new(strides, Axis::X, &never);
    let item = it.next(&no_gap, &square_dist).unwrap();
    assert_eq!(
        item.path,
        vec![p(0, 0, 0), p(0, 5, 0), p(1, 6, 1), p(1, 0, 1), p(2, 1, 0), p(2, 7, 0)]
    );
    assert_eq!(item.i_start, 0);
    assert_eq!(item.i_end, 2);
    assert_eq!(item.d_start, 0);
    assert_eq!(item.d_end, 20);
    assert_eq!(item.axis, Axis::X);
    assert_eq!(item.aabb.min, p(0, 0, 0));
    assert_eq!(item.aabb.max, p(2, 7, 1));
    assert!(it.next(&no_gap, &square_dist).is_none());
    assert!(it.next(&no_gap, &square_dist).is_none());
}

#[test]
fn chain_stops_where_a_stride_is_missing() {
    let strides = vec![
        vec![path(0, vec![p(0, 0, 0), p(0, 5, 0)], false)],
        vec![path(2, vec![p(2, 0, 0), p(2, 5, 0)], false)],
    ];
    let mut it = SurfacePathIterator::new(strides, Axis::X, &never);
    let first = it.next(&no_gap, &square_dist).unwrap();
    assert_eq!(first.path, vec![p(0, 0, 0), p(0, 5, 0)]);
    assert_eq!((first.i_start, first.i_end), (0, 0));
    let second = it.next(&no_gap, &square_dist).unwrap();
    assert_eq!(second.path, vec![p(2, 0, 0), p(2, 5, 0)]);
    assert_eq!((second.i_start, second.i_end), (2, 2));
    assert!(it.next(&no_gap, &square_dist).is_none());
}

#[test]
fn closed_paths_are_not_chained() {
    let strides = vec![vec![
        path(0, vec![p(0, 0, 0), p(0, 5, 0), p(0, 0, 0)], true),
        path(0, vec![p(0, 7, 0), p(0, 9, 0)], false),
    ]];
    let mut it = SurfacePathIterator::new(strides, Axis::X, &never);
    let item = it.next(&no_gap, &square_dist).unwrap();
    assert_eq!(item.path, vec![p(0, 7, 0), p(0, 9, 0)]);
    assert!(it.next(&no_gap, &square_dist).is_none());
}

#[test]
fn points_and_paths_are_put_in_order_along_the_stride() {
    let strides = vec![vec![
        path(0, vec![p(0, 9, 0), p(0, 7, 0), p(0, 8, 0)], false),
        path(0, vec![p(0, 3, 0), p(0, 1, 0)], false),
    ]];
    let mut it = SurfacePathIterator::new(strides, Axis::X, &never);
    let last = it.next(&no_gap, &square_dist).unwrap();
    assert_eq!(last.path, vec![p(0, 7, 0), p(0, 8, 0), p(0, 9, 0)]);
    let first = it.next(&no_gap, &square_dist).unwrap();
    assert_eq!(first.path, vec![p(0, 1, 0), p(0, 3, 0)]);
    assert!(it.next(&no_gap, &square_dist).is_none());
}

#[test]
fn neighbours_that_join_are_fused() {
    let strides = vec![vec![
        path(0, vec![p(0, 2, 0), p(0, 4, 0)], false),
        path(0, vec![p(0, 0, 0), p(0, 2, 0)], false),
        path(0, vec![p(0, 6, 1), p(0, 8, 1)], false),
    ]];
    let mut it = SurfacePathIterator::new(strides, Axis::X, &same);
    let apart = it.next(&no_gap, &square_dist).unwrap();
    assert_eq!(apart.path, vec![p(0, 6, 1), p(0, 8, 1)]);
    let fused = it.next(&no_gap, &square_dist).unwrap();
    assert_eq!(fused.path, vec![p(0, 0, 0), p(0, 2, 0), p(0, 2, 0), p(0, 4, 0)]);
    assert_eq!(fused.aabb.min, p(0, 0, 0));
    assert_eq!(fused.aabb.max, p(0, 4, 0));
    assert!(it.next(&no_gap, &square_dist).is_none());
}

#[test]
fn the_nearest_reachable_path_is_taken() {
    let strides = vec![
        vec![path(0, vec![p(0, 0, 0), p(0, 10, 0)], false)],
        vec![
            path(1, vec![p(1, 0, 0), p(1, 4, 0)], false),
            path(1, vec![p(1, 6, 0), p(1, 9, 0)], false),
            path(1, vec![p(1, 20, 0), p(1, 30, 0)], false),
        ],
    ];
    let mut it = SurfacePathIterator::new(strides, Axis::X, &never);
    let item = it.next(&no_gap, &square_dist).unwrap();
    assert_eq!(item.path, vec![p(0, 0, 0), p(0, 10, 0), p(1, 9, 0), p(1, 6, 0)]);
    assert_eq!((item.i_start, item.i_end), (0, 1));
    let next = it.next(&no_gap, &square_dist).unwrap();
    assert_eq!(next.path, vec![p(1, 20, 0), p(1, 30, 0)]);
    let last = it.next(&no_gap, &square_dist).unwrap();
    assert_eq!(last.path, vec![p(1, 0, 0), p(1, 4, 0)]);
    assert!(it.next(&no_gap, &square_dist).is_none());
}

#[test]
fn extents_that_only_touch_count_where_the_gap_is_allowed() {
    let make = || {
        vec![
            vec![path(0, vec![p(0, 0, 0), p(0, 10, 0)], false)],
            vec![path(1, vec![p(1, 10, 0), p(1, 20, 0)], false)],
        ]
    };
    let mut strict = SurfacePathIterator::new(make(), Axis::X, &never);
    let alone = strict.next(&no_gap, &square_dist).unwrap();
    assert_eq!(alone.path, vec![p(0, 0, 0), p(0, 10, 0)]);
    let mut lenient = SurfacePathIterator::new(make(), Axis::X, &never);
    let touch = |a: i64, b: i64| (a - b).abs() <= 1;
    let joined = lenient.next(&touch, &square_dist).unwrap();
    assert_eq!(joined.path, vec![p(0, 0, 0), p(0, 10, 0), p(1, 10, 0), p(1, 20, 0)]);
}

#[test]
fn no_strides_no_paths() {
    let mut it = SurfacePathIterator::new(Vec::new(), Axis::X, &never);
    assert!(it.next(&no_gap, &square_dist).is_none());
    let mut it = SurfacePathIterator::new(vec![Vec::new(), Vec::new()], Axis::X, &never);
    assert!(it.next(&no_gap, &square_dist).is_none());
}

#[test]
fn paths_without_points_are_not_chained() {
    let strides = vec![vec![
        path(0, Vec::new(), false),
        path(0, vec![p(0, 1, 0), p(0, 2, 0)], false),
    ]];
    let mut it = SurfacePathIterator::new(strides, Axis::X, &never);
    let item = it.next(&no_gap, &square_dist).unwrap();
    assert_eq!(item.path, vec![p(0, 1, 0), p(0, 2, 0)]);
    assert!(it.next(&no_gap, &square_dist).is_none());
}

#[test]
fn collect_chains_every_path_in_the_order_of_next() {
    let make = || {
        vec![
            vec![path(0, vec![p(0, 0, 0), p(0, 10, 0)], false)],
            vec![
                path(1, vec![p(1, 0, 0), p(1, 4, 0)], false),
                path(1, vec![p(1, 6, 0), p(1, 9, 0)], false),
                path(1, vec![p(1, 20, 0), p(1, 30, 0)], false),
            ],
        ]
    };
    let mut one_by_one = SurfacePathIterator::new(make(), Axis::X, &never);
    let mut expected = Vec::new();
    while let Some(item) = one_by_one.next(&no_gap, &square_dist) {
        expected.push(item.path);
    }
    let mut at_once = SurfacePathIterator::new(make(), Axis::X, &never);
    let got: Vec<Vec<Point3>> =
        at_once.collect(&no_gap, &square_dist).into_iter().map(|item| item.path).collect();
    assert_eq!(got, expected);
    assert_eq!(got.len(), 3);
    assert!(at_once.next(&no_gap, &square_dist).is_none());
    assert!(at_once.collect(&no_gap, &square_dist).is_empty());
}

#[test]
fn closed_paths_keeps_the_closed_ones_in_order() {
    let paths = vec![
        path(0, vec![p(0, 0, 0)], true),
        path(1, vec![p(1, 0, 0)], false),
        path(2, vec![p(2, 0, 0)], true),
    ];
    let closed = closed_paths(paths);
    let indices: Vec<usize> = closed.iter().map(|q| q.i).collect();
    assert_eq!(indices, vec![0, 2]);
    assert!(closed_paths(Vec::new()).is_empty());
}

#[test]
fn wall_queue_holds_the_closed_paths_stride_after_stride() {
    let strides = vec![
        vec![path(0, vec![p(0, 0, 0)], true), path(1, vec![p(1, 0, 0)], false)],
        Vec::new(),
        vec![path(2, vec![p(2, 0, 0)], true), path(3, vec![p(3, 0, 0)], true)],
    ];
    let walls = wall_queue(strides);
    let indices: Vec<usize> = walls.iter().map(|q| q.i).collect();
    assert_eq!(indices, vec![0, 2, 3]);
    assert!(wall_queue(Vec::new()).is_empty());
}
