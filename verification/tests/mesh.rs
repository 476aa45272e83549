use bampy::aabb::Aabb;
use bampy::axis::Axis;
use bampy::bvh::{check_nodes, descend, BvhNode};
use bampy::line::Line3;
use bampy::mesh::Mesh;
use bampy::point::Point3;
use bampy::triangle::Triangle;

fn p(x: i64, y: i64, z: i64) -> Point3 {
    Point3::new(x, y, z)
}

fn same(a: Point3, b: Point3) -> bool {
    a == b
}

fn same_coord(a: i64, b: i64) -> bool {
    a == b
}

fn lerp(lo: Point3, hi: Point3, d: i64, axis: usize) -> Point3 {
    let num = d - lo.coord(axis);
    let den = hi.coord(axis) - lo.coord(axis);
    Point3::new(
        lo.x + (hi.x - lo.x) * num / den,
        lo.y + (hi.y - lo.y) * num / den,
        lo.z + (hi.z - lo.z) * num / den,
    )
}

fn negative(points: &Vec<Point3>, a: Axis, b: Axis) -> bool {
    let mut sum = 0;
    for pair in points.windows(2) {
        sum += (pair[1].along(a) - pair[0].along(a)) * (pair[1].along(b) + pair[0].along(b));
    }
    sum < 0
}

fn inside(b: Aabb, q: Point3) -> bool {
    b.contains(&q)
}

/// A hierarchy that is a chain: each inner node has a leaf to the left and
/// the rest to the right.
fn chain_over(triangles: &Vec<Triangle>) -> Vec<BvhNode> {
    let n = triangles.len();
    let mut nodes = Vec::new();
    if n == 0 {
        return nodes;
    }
    for k in 0..n - 1 {
        let mut rest = triangles[k + 1].aabb;
        for t in &triangles[k + 2..] {
            rest = rest.join(&t.aabb);
        }
        nodes.push(BvhNode::Node {
            child_l_index: 2 * k + 1,
            child_l_aabb: triangles[k].aabb,
            child_r_index: 2 * k + 2,
            child_r_aabb: rest,
        });
        nodes.push(BvhNode::Leaf { shape_index: k });
    }
    nodes.push(BvhNode::Leaf { shape_index: n - 1 });
    nodes
}

fn mesh_of(triangles: Vec<Triangle>) -> Mesh {
    let nodes = chain_over(&triangles);
    Mesh::build(triangles, nodes).unwrap()
}

fn wall() -> Vec<Triangle> {
    vec![
        Triangle::new(p(0, 0, 0), p(10, 0, 0), p(10, 0, 10)),
        Triangle::new(p(0, 0, 0), p(10, 0, 10), p(0, 0, 10)),
    ]
}

fn quad() -> Vec<Triangle> {
    vec![
        Triangle::new(p(0, 0, 0), p(10, 0, 0), p(10, 10, 0)),
        Triangle::new(p(0, 0, 0), p(10, 10, 0), p(0, 10, 0)),
    ]
}

/// A cube of side 10 with a corner at the origin: twelve triangles.
fn cube(at: Point3) -> Vec<Triangle> {
    let v = |x: i64, y: i64, z: i64| p(at.x + x, at.y + y, at.z + z);
    vec![
        Triangle::new(v(0, 0, 0), v(10, 10, 0), v(10, 0, 0)),
        Triangle::new(v(0, 0, 0), v(0, 10, 0), v(10, 10, 0)),
        Triangle::new(v(0, 0, 10), v(10, 0, 10), v(10, 10, 10)),
        Triangle::new(v(0, 0, 10), v(10, 10, 10), v(0, 10, 10)),
        Triangle::new(v(0, 0, 0), v(10, 0, 0), v(10, 0, 10)),
        Triangle::new(v(0, 0, 0), v(10, 0, 10), v(0, 0, 10)),
        Triangle::new(v(10, 0, 0), v(10, 10, 0), v(10, 10, 10)),
        Triangle::new(v(10, 0, 0), v(10, 10, 10), v(10, 0, 10)),
        Triangle::new(v(10, 10, 0), v(0, 10, 0), v(0, 10, 10)),
        Triangle::new(v(10, 10, 0), v(0, 10, 10), v(10, 10, 10)),
        Triangle::new(v(0, 10, 0), v(0, 0, 0), v(0, 0, 10)),
        Triangle::new(v(0, 10, 0), v(0, 0, 10), v(0, 10, 10)),
    ]
}

#[test]
fn nodes_are_checked_against_the_shapes() {
    let good = chain_over(&wall());
    assert!(check_nodes(&good, 2));
    assert!(!check_nodes(&good, 1));
    let loops = vec![BvhNode::Node {
        child_l_index: 0,
        child_l_aabb: Aabb::empty(),
        child_r_index: 1,
        child_r_aabb: Aabb::empty(),
    }, BvhNode::Leaf { shape_index: 0 }];
    assert!(!check_nodes(&loops, 1));
    let dangling = vec![BvhNode::Node {
        child_l_index: 1,
        child_l_aabb: Aabb::empty(),
        child_r_index: 2,
        child_r_aabb: Aabb::empty(),
    }, BvhNode::Leaf { shape_index: 0 }];
    assert!(!check_nodes(&dangling, 1));
    assert!(check_nodes(&Vec::new(), 0));
}

#[test]
fn mesh_is_built_only_over_a_sound_hierarchy() {
    assert!(Mesh::build(wall(), chain_over(&wall())).is_some());
    assert!(Mesh::build(wall(), vec![BvhNode::Leaf { shape_index: 2 }]).is_none());
    assert!(Mesh::build(Vec::new(), Vec::new()).is_some());
}

#[test]
fn mesh_is_not_built_where_a_triangle_is_out_of_reach() {
    assert!(Mesh::build(wall(), vec![BvhNode::Leaf { shape_index: 0 }]).is_none());
    assert!(Mesh::build(wall(), Vec::new()).is_none());
    let twice = vec![
        BvhNode::Node {
            child_l_index: 1,
            child_l_aabb: wall()[0].aabb,
            child_r_index: 2,
            child_r_aabb: wall()[0].aabb,
        },
        BvhNode::Leaf { shape_index: 0 },
        BvhNode::Leaf { shape_index: 0 },
    ];
    assert!(Mesh::build(wall(), twice).is_none());
}

#[test]
fn mesh_is_not_built_where_a_box_is_too_small() {
    let triangles = vec![
        Triangle::new(p(0, 0, 0), p(10, 0, 0), p(10, 0, 10)),
        Triangle::new(p(0, 0, 20), p(10, 0, 30), p(0, 0, 30)),
    ];
    let mut nodes = chain_over(&triangles);
    assert!(Mesh::build(triangles.clone(), nodes.clone()).is_some());
    nodes[0] = BvhNode::Node {
        child_l_index: 1,
        child_l_aabb: triangles[0].aabb,
        child_r_index: 2,
        child_r_aabb: Aabb { min: p(0, 0, 21), max: p(10, 0, 30) },
    };
    assert!(Mesh::build(triangles, nodes).is_none());
}

#[test]
fn cut_meets_every_triangle_whose_box_reaches_across_the_plane() {
    let triangles = cube(p(0, 0, 0));
    let mesh = mesh_of(triangles.clone());
    for d in -1..12 {
        let met = descend(mesh.nodes(), &|b: Aabb| b.min.z <= d && d <= b.max.z);
        for (t, triangle) in triangles.iter().enumerate() {
            if triangle.aabb.min.z <= d && d <= triangle.aabb.max.z {
                assert!(met.contains(&t));
            }
        }
    }
}

#[test]
fn mesh_box_is_the_box_around_all_triangles() {
    let mesh = mesh_of(cube(p(5, 6, 7)));
    assert_eq!(mesh.aabb().min, p(5, 6, 7));
    assert_eq!(mesh.aabb().max, p(15, 16, 17));
    assert_eq!(mesh.triangles().len(), 12);
    assert_eq!(mesh.nodes().len(), 23);
    assert_eq!(mesh_of(Vec::new()).aabb(), Aabb::empty());
}

#[test]
fn descent_meets_the_right_child_first() {
    let nodes = chain_over(&cube(p(0, 0, 0)));
    let all = descend(&nodes, &|_b: Aabb| true);
    assert_eq!(all, vec![11, 10, 9, 8, 7, 6, 5, 4, 3, 2, 1, 0]);
    let none = descend(&nodes, &|_b: Aabb| false);
    assert!(none.is_empty());
    assert!(descend(&Vec::new(), &|_b: Aabb| true).is_empty());
    assert_eq!(descend(&vec![BvhNode::Leaf { shape_index: 4 }], &|_b: Aabb| false), vec![4]);
}

#[test]
fn descent_goes_only_where_the_box_is_accepted() {
    let nodes = chain_over(&cube(p(0, 0, 0)));
    let bottom_only = descend(&nodes, &|b: Aabb| b.max.z == 0);
    assert_eq!(bottom_only, vec![0]);
}

#[test]
fn wall_is_cut_into_one_segment_for_each_triangle() {
    let mesh = mesh_of(wall());
    let slices = mesh.slice_base_slices(Axis::Z, &vec![5], &same_coord, &lerp);
    assert_eq!(slices.len(), 1);
    assert_eq!(slices[0].i, 0);
    assert_eq!(slices[0].d, 5);
    assert_eq!(slices[0].axis, Axis::Z);
    assert_eq!(
        slices[0].lines,
        vec![Line3::new(p(0, 0, 5), p(5, 0, 5)), Line3::new(p(5, 0, 5), p(10, 0, 5))]
    );
}

#[test]
fn every_layer_gets_its_slice_and_its_index() {
    let mesh = mesh_of(wall());
    let layers = vec![-1, 2, 4, 11];
    let slices = mesh.slice_base_slices(Axis::Z, &layers, &same_coord, &lerp);
    assert_eq!(slices.len(), 4);
    for (i, slice) in slices.iter().enumerate() {
        assert_eq!(slice.i, i);
        assert_eq!(slice.d, layers[i]);
        for line in &slice.lines {
            assert_eq!(line.start.z, layers[i]);
            assert_eq!(line.end.z, layers[i]);
        }
    }
    assert!(slices[0].lines.is_empty());
    assert_eq!(slices[1].lines.len(), 2);
    assert_eq!(slices[2].lines.len(), 2);
    assert!(slices[3].lines.is_empty());
}

#[test]
fn wall_paths_leave_out_empty_planes() {
    let mesh = mesh_of(wall());
    let strides = mesh.slice_paths(Axis::Z, &vec![-1, 5, 11], &same_coord, &lerp, &same, &negative);
    assert_eq!(strides.len(), 1);
    assert_eq!(strides[0].len(), 1);
    let path = &strides[0][0];
    assert_eq!(path.i, 1);
    assert_eq!(path.d, 5);
    assert!(!path.closed);
    assert_eq!(path.points, vec![p(0, 0, 5), p(5, 0, 5), p(10, 0, 5)]);
}

#[test]
fn cube_is_cut_into_closed_square_rings() {
    let mesh = mesh_of(cube(p(0, 0, 0)));
    let layers: Vec<i64> = (1..10).collect();
    let strides = mesh.slice_paths(Axis::Z, &layers, &same_coord, &lerp, &same, &negative);
    assert_eq!(strides.len(), 9);
    for (k, rings) in strides.iter().enumerate() {
        assert_eq!(rings.len(), 1);
        let ring = &rings[0];
        assert!(ring.closed);
        assert_eq!(ring.i, k);
        assert_eq!(ring.d, layers[k]);
        assert_eq!(ring.points.len(), 9);
        assert_eq!(ring.points[0], ring.points[8]);
        assert_eq!(ring.aabb.min, p(0, 0, layers[k]));
        assert_eq!(ring.aabb.max, p(10, 10, layers[k]));
        for corner in [p(0, 0, layers[k]), p(10, 0, layers[k]), p(10, 10, layers[k]), p(0, 10, layers[k])] {
            assert!(ring.points.contains(&corner));
        }
        assert!(!negative(&ring.points, Axis::X, Axis::Y));
    }
}

#[test]
fn moving_the_cube_moves_its_rings() {
    let base = mesh_of(cube(p(0, 0, 0)));
    let moved = mesh_of(cube(p(3, -4, 20)));
    let a = base.slice_paths(Axis::Z, &vec![2, 4], &same_coord, &lerp, &same, &negative);
    let b = moved.slice_paths(Axis::Z, &vec![22, 24], &same_coord, &lerp, &same, &negative);
    assert_eq!(a.len(), b.len());
    for s in 0..a.len() {
        assert_eq!(a[s].len(), b[s].len());
        for k in 0..a[s].len() {
            let shifted: Vec<Point3> =
                a[s][k].points.iter().map(|q| p(q.x + 3, q.y - 4, q.z + 20)).collect();
            assert_eq!(b[s][k].points, shifted);
        }
    }
}

#[test]
fn outline_of_a_quad_is_its_four_outer_edges() {
    let mesh = mesh_of(quad());
    let outline = mesh.outline_base_slice(Axis::Z, &inside, &same);
    assert_eq!(outline.i, 0);
    assert_eq!(outline.d, 0);
    assert_eq!(outline.axis, Axis::Z);
    assert_eq!(
        outline.lines,
        vec![
            Line3::new(p(0, 0, 0), p(10, 0, 0)),
            Line3::new(p(10, 0, 0), p(10, 10, 0)),
            Line3::new(p(0, 0, 0), p(0, 10, 0)),
            Line3::new(p(10, 10, 0), p(0, 10, 0)),
        ]
    );
    let rings = outline.find_paths(&same, &negative);
    assert_eq!(rings.len(), 1);
    assert!(rings[0].closed);
    assert_eq!(
        rings[0].points,
        vec![p(0, 0, 0), p(0, 10, 0), p(10, 10, 0), p(10, 0, 0), p(0, 0, 0)]
    );
}

#[test]
fn outline_of_a_single_triangle_is_the_triangle() {
    let mesh = mesh_of(vec![Triangle::new(p(0, 0, 0), p(10, 0, 0), p(0, 10, 0))]);
    let outline = mesh.outline_base_slice(Axis::Z, &inside, &same);
    assert_eq!(
        outline.lines,
        vec![
            Line3::new(p(0, 0, 0), p(10, 0, 0)),
            Line3::new(p(0, 0, 0), p(0, 10, 0)),
            Line3::new(p(10, 0, 0), p(0, 10, 0)),
        ]
    );
}

#[test]
fn closed_surface_has_no_outline() {
    let mesh = mesh_of(cube(p(0, 0, 0)));
    let outline = mesh.outline_base_slice(Axis::Z, &inside, &same);
    assert!(outline.lines.is_empty());
}

#[test]
fn outline_looks_only_where_the_boxes_hold_two_corners() {
    let mesh = mesh_of(quad());
    let nowhere = |_b: Aabb, _q: Point3| false;
    let outline = mesh.outline_base_slice(Axis::Z, &nowhere, &same);
    assert_eq!(outline.lines.len(), 6);
}
