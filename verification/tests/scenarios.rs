use std::collections::VecDeque;

use approx::Relative;
use bampy::aabb::Aabb as KeyBox;
use bampy::axis::Axis;
use bampy::bvh::BvhNode as KeyNode;
use bampy::mesh::Mesh;
use bampy::point::Point3 as Key3;
use bampy::schedule::{order_surfaces, schedule, Surface};
use bampy::slice_path::{closed_paths, SlicePath};
use bampy::split_surface::split_surface;
use bampy::triangle::Triangle as KeyTriangle;
use bvh::aabb::{Aabb, Bounded};
use bvh::bounding_hierarchy::BHShape;
use bvh::bvh::{Bvh, BvhNode};
use nalgebra::{Point2, Point3, Vector3};

fn key(value: f64) -> i64 {
    let bits = value.to_bits() as i64;
    if bits >= 0 {
        bits
    } else {
        i64::MIN - bits
    }
}

fn value(key: i64) -> f64 {
    if key == i64::MAX {
        f64::INFINITY
    } else if key == i64::MIN {
        f64::NEG_INFINITY
    } else if key >= 0 {
        f64::from_bits(key as u64)
    } else {
        f64::from_bits((-key) as u64 | 1 << 63)
    }
}

fn point_key(p: &Point3<f64>) -> Key3 {
    Key3::new(key(p.x), key(p.y), key(p.z))
}

fn point_value(p: Key3) -> Point3<f64> {
    Point3::new(value(p.x), value(p.y), value(p.z))
}

fn aabb_key(b: &Aabb<f64, 3>) -> KeyBox {
    KeyBox { min: point_key(&b.min), max: point_key(&b.max) }
}

fn aabb_value(b: KeyBox) -> Aabb<f64, 3> {
    Aabb { min: point_value(b.min), max: point_value(b.max) }
}

#[derive(Debug, Clone, Copy)]
struct Shape {
    a: Point3<f64>,
    b: Point3<f64>,
    c: Point3<f64>,
    node_index: usize,
}

impl Shape {
    fn new(a: [f64; 3], b: [f64; 3], c: [f64; 3]) -> Shape {
        Shape { a: Point3::from(a), b: Point3::from(b), c: Point3::from(c), node_index: 0 }
    }

    fn normal(&self) -> Vector3<f64> {
        (self.b - self.a).cross(&(self.c - self.a))
    }

    fn area(&self) -> f64 {
        0.5 * self.normal().norm()
    }

    fn keys(&self) -> KeyTriangle {
        KeyTriangle::new(point_key(&self.a), point_key(&self.b), point_key(&self.c))
    }

    fn of(t: &KeyTriangle) -> Shape {
        Shape { a: point_value(t.a), b: point_value(t.b), c: point_value(t.c), node_index: 0 }
    }
}

impl Bounded<f64, 3> for Shape {
    fn aabb(&self) -> Aabb<f64, 3> {
        let mut aabb = self.a.aabb();
        aabb.grow_mut(&self.b);
        aabb.grow_mut(&self.c);
        aabb
    }
}

impl BHShape<f64, 3> for Shape {
    fn set_bh_node_index(&mut self, node_index: usize) {
        self.node_index = node_index;
    }

    fn bh_node_index(&self) -> usize {
        self.node_index
    }
}

fn lay_out(nodes: &[BvhNode<f64, 3>], at: usize, out: &mut Vec<KeyNode>) -> usize {
    let start = out.len();
    match nodes[at] {
        BvhNode::Leaf { shape_index, .. } => out.push(KeyNode::Leaf { shape_index }),
        BvhNode::Node { child_l_index, child_l_aabb, child_r_index, child_r_aabb, .. } => {
            out.push(KeyNode::Leaf { shape_index: 0 });
            let left = lay_out(nodes, child_l_index, out);
            let right = lay_out(nodes, child_r_index, out);
            out[start] = KeyNode::Node {
                child_l_index: left,
                child_l_aabb: aabb_key(&child_l_aabb),
                child_r_index: right,
                child_r_aabb: aabb_key(&child_r_aabb),
            };
        }
    }
    start
}

fn index(mut shapes: Vec<Shape>) -> Mesh {
    let bvh = Bvh::build(&mut shapes);
    let mut nodes = Vec::new();
    if !bvh.nodes.is_empty() {
        lay_out(&bvh.nodes, 0, &mut nodes);
    }
    Mesh::build(shapes.iter().map(Shape::keys).collect(), nodes).unwrap()
}

fn near(p: Key3, q: Key3) -> bool {
    Relative::default().eq(&point_value(p), &point_value(q))
}

fn near_coord(a: i64, b: i64) -> bool {
    Relative::default().eq(&value(a), &value(b))
}

fn cross(low: Key3, high: Key3, d: i64, axis: usize) -> Key3 {
    let low = point_value(low);
    let high = point_value(high);
    let ratio = (value(d) - low[axis]) / (high[axis] - low[axis]);
    point_key(&(low + (high - low) * ratio))
}

fn shoelace(points: &Vec<Key3>, a: Axis, b: Axis) -> f64 {
    let (a, b) = (a.index(), b.index());
    points.windows(2).fold(0.0, |acc, pair| {
        let (from, to) = (point_value(pair[0]), point_value(pair[1]));
        acc + (to[a] - from[a]) * (to[b] + from[b])
    })
}

fn negative(points: &Vec<Key3>, a: Axis, b: Axis) -> bool {
    shoelace(points, a, b) < 0.0
}

fn overlaps(a: i64, b: i64) -> bool {
    Relative::default().epsilon(0.1).eq(&value(a), &value(b))
}

fn dist(p: Key3, q: Key3) -> i64 {
    key(point_value(p).coords.metric_distance(&point_value(q).coords))
}

fn holds(b: KeyBox, p: Key3) -> bool {
    aabb_value(b).approx_contains_eps(&point_value(p), f64::EPSILON)
}

fn box_reaches(b: KeyBox, p: Key3, tangent: f64) -> bool {
    let b = aabb_value(b);
    let p = point_value(p);
    if p.z < b.min.z {
        return false;
    }
    let delta = tangent * ((p.z - b.min.z) / (b.max.z - b.min.z));
    let dx = (b.max.x - b.min.x) * delta;
    let dy = (b.max.y - b.min.y) * delta;
    let wide = Aabb {
        min: Point2::new(b.min.x - dx, b.min.y - dy),
        max: Point2::new(b.max.x + dx, b.max.y + dy),
    };
    wide.approx_contains_eps(&Point2::new(p.x, p.y), f64::EPSILON)
}

fn cone_shadows(apex: Key3, p: Key3, angle: f64) -> bool {
    let rel = point_value(p) - point_value(apex);
    let (s, c) = (angle.sin(), angle.cos());
    let q = (rel.x.hypot(rel.y), rel.z);
    let along = (q.0 * s + q.1 * c).max(0.0);
    let d = (q.0 - s * along).hypot(q.1 - c * along);
    let signed = if q.0 * c - q.1 * s > 0.0 { d } else { -d };
    signed < 0.0
}

fn layers(mesh: &Mesh, axis: Axis, height: f64) -> Vec<i64> {
    let aabb = aabb_value(mesh.aabb());
    let low = aabb.min[axis.index()];
    let high = aabb.max[axis.index()];
    let count = ((high - low) / height).floor() as usize;
    (0..=count).map(|i| key(i as f64 * height + low)).collect()
}

fn faces_up(shape: &Shape, max_angle: f64) -> bool {
    let angle = shape.normal().angle(&Vector3::z());
    angle <= max_angle || Relative::default().eq(&angle, &max_angle)
}

struct Settings {
    layer_height: f64,
    max_angle: f64,
    nozzle_diameter: f64,
    min_surface_path_length: f64,
}

struct Sliced {
    surface_triangles: usize,
    /// For each surface: triangles, outlines, paths.
    surfaces: Vec<(usize, usize, usize)>,
    surface_paths: Vec<Vec<Point3<f64>>>,
    walls: Vec<(bool, Vec<Point3<f64>>)>,
    out: Vec<Vec<Point3<f64>>>,
}

fn walls_of(shapes: &Vec<Shape>, layer_height: f64) -> Vec<SlicePath> {
    let mesh = index(shapes.clone());
    mesh.slice_paths(Axis::Z, &layers(&mesh, Axis::Z, layer_height), &near_coord, &cross, &near, &negative)
        .into_iter()
        .flatten()
        .collect()
}

fn run(shapes: Vec<Shape>, settings: &Settings) -> Sliced {
    let nozzle = settings.nozzle_diameter;
    let joins = move |p: Key3, q: Key3| Relative::default().epsilon(nozzle).eq(&point_value(p), &point_value(q));
    let tangent = settings.max_angle.tan();
    let angle = settings.max_angle;
    let reaches = move |b: KeyBox, p: Key3| box_reaches(b, p, tangent);
    let shadows = move |apex: Key3, p: Key3| cone_shadows(apex, p, angle);

    let facing: Vec<Shape> =
        shapes.iter().filter(|s| faces_up(s, settings.max_angle)).cloned().collect();
    let surface_triangles = facing.len();
    let min_area = std::f64::consts::PI * (nozzle / 2.0).powi(2);
    let mut surfaces = Vec::new();
    let mut counts = Vec::new();
    let mut surface_paths = Vec::new();
    for component in split_surface(facing.iter().map(Shape::keys).collect(), &near) {
        let members: Vec<Shape> = component.iter().map(Shape::of).collect();
        if members.iter().map(Shape::area).sum::<f64>() < min_area {
            continue;
        }
        let mesh = index(members);
        let outlines: Vec<SlicePath> =
            closed_paths(mesh.outline_base_slice(Axis::Z, &holds, &near).find_paths(&near, &negative));
        let mut strides = mesh.slice_surface(
            Axis::X,
            &layers(&mesh, Axis::X, nozzle),
            &near_coord,
            &cross,
            &near,
            &negative,
            &joins,
        );
        let mut paths = Vec::new();
        for path in strides.collect(&overlaps, &dist) {
            let length: f64 = path
                .path
                .windows(2)
                .map(|pair| (point_value(pair[0]) - point_value(pair[1])).norm())
                .sum();
            if length >= settings.min_surface_path_length && path.path.len() >= 2 {
                surface_paths.push(path.path.iter().map(|q| point_value(*q)).collect());
                paths.push(path);
            }
        }
        assert!(strides.next(&overlaps, &dist).is_none());
        counts.push((component.len(), outlines.len(), paths.len()));
        surfaces.push(Surface { mesh, outlines, paths });
    }
    let surfaces = order_surfaces(surfaces);
    let all_walls = walls_of(&shapes, settings.layer_height);
    let walls: Vec<(bool, Vec<Point3<f64>>)> = all_walls
        .iter()
        .map(|w| (w.closed, w.points.iter().map(|q| point_value(*q)).collect()))
        .collect();
    let queue: VecDeque<SlicePath> = closed_paths(all_walls).into();
    let out = schedule(surfaces, queue, &reaches, &shadows)
        .into_iter()
        .map(|line| line.into_iter().map(point_value).collect())
        .collect();
    Sliced { surface_triangles, surfaces: counts, surface_paths, walls, out }
}

/// A box with outward normals: twelve triangles.
fn cuboid(lo: [f64; 3], hi: [f64; 3]) -> Vec<Shape> {
    let v = |x: usize, y: usize, z: usize| {
        [[lo[0], hi[0]][x], [lo[1], hi[1]][y], [lo[2], hi[2]][z]]
    };
    vec![
        Shape::new(v(0, 0, 0), v(1, 1, 0), v(1, 0, 0)),
        Shape::new(v(0, 0, 0), v(0, 1, 0), v(1, 1, 0)),
        Shape::new(v(0, 0, 1), v(1, 0, 1), v(1, 1, 1)),
        Shape::new(v(0, 0, 1), v(1, 1, 1), v(0, 1, 1)),
        Shape::new(v(0, 0, 0), v(1, 0, 0), v(1, 0, 1)),
        Shape::new(v(0, 0, 0), v(1, 0, 1), v(0, 0, 1)),
        Shape::new(v(1, 0, 0), v(1, 1, 0), v(1, 1, 1)),
        Shape::new(v(1, 0, 0), v(1, 1, 1), v(1, 0, 1)),
        Shape::new(v(1, 1, 0), v(0, 1, 0), v(0, 1, 1)),
        Shape::new(v(1, 1, 0), v(0, 1, 1), v(1, 1, 1)),
        Shape::new(v(0, 1, 0), v(0, 0, 0), v(0, 0, 1)),
        Shape::new(v(0, 1, 0), v(0, 0, 1), v(0, 1, 1)),
    ]
}

fn cube_settings() -> Settings {
    Settings { layer_height: 1.0, max_angle: 0.0, nozzle_diameter: 0.4, min_surface_path_length: 0.0 }
}

fn on_square(p: &Point3<f64>, lo: f64, hi: f64) -> bool {
    let on_x = (p.x == lo || p.x == hi) && lo <= p.y && p.y <= hi;
    let on_y = (p.y == lo || p.y == hi) && lo <= p.x && p.x <= hi;
    on_x || on_y
}

#[test]
fn keys_order_as_numbers_do() {
    let numbers = [f64::NEG_INFINITY, -1.0e300, -2.5, -1.0e-300, 0.0, 1.0e-300, 0.4, 10.0, f64::INFINITY];
    for pair in numbers.windows(2) {
        assert!(key(pair[0]) < key(pair[1]));
    }
    for x in numbers {
        assert_eq!(value(key(x)), x);
    }
    assert_eq!(key(-0.0), key(0.0));
    assert_eq!(key(0.0), 0);
    assert_eq!(aabb_value(KeyBox::empty()), Aabb::<f64, 3>::empty());
}

#[test]
fn unit_cube_walls_are_closed_squares() {
    let sliced = run(cuboid([0.0; 3], [10.0; 3]), &cube_settings());
    assert_eq!(sliced.walls.len(), 11);
    for (z, (closed, points)) in sliced.walls.iter().enumerate() {
        assert!(*closed);
        for p in points {
            assert_eq!(p.z, z as f64);
            assert!(on_square(p, 0.0, 10.0));
        }
        for corner in [[0.0, 0.0], [10.0, 0.0], [10.0, 10.0], [0.0, 10.0]] {
            assert!(points.iter().any(|p| p.x == corner[0] && p.y == corner[1]));
        }
    }
    for (_, points) in &sliced.walls[..10] {
        let mut corners: Vec<(i64, i64)> = points
            .iter()
            .filter(|p| (p.x == 0.0 || p.x == 10.0) && (p.y == 0.0 || p.y == 10.0))
            .map(|p| (key(p.x), key(p.y)))
            .collect();
        corners.sort();
        corners.dedup();
        assert_eq!(corners.len(), 4);
    }
}

#[test]
fn unit_cube_top_is_the_only_surface() {
    let sliced = run(cuboid([0.0; 3], [10.0; 3]), &cube_settings());
    assert_eq!(sliced.surface_triangles, 2);
    assert_eq!(sliced.surfaces.len(), 1);
    assert_eq!(sliced.surfaces[0].0, 2);
    assert_eq!(sliced.surfaces[0].1, 1);
    for path in &sliced.surface_paths {
        for p in path {
            assert_eq!(p.z, 10.0);
            assert!(0.0 <= p.x && p.x <= 10.0 + 1.0e-9);
            assert!(0.0 <= p.y && p.y <= 10.0);
        }
    }
    let stripes: std::collections::BTreeSet<i64> =
        sliced.surface_paths.iter().flatten().map(|p| key(p.x)).collect();
    assert!(stripes.len() >= 25);
}

#[test]
fn unit_cube_is_printed_without_reordering() {
    let sliced = run(cuboid([0.0; 3], [10.0; 3]), &cube_settings());
    let heights: Vec<f64> = sliced.out.iter().map(|line| line[0].z).collect();
    let mut sorted = heights.clone();
    sorted.sort_by(|a, b| a.partial_cmp(b).unwrap());
    assert_eq!(heights, sorted);
    let wall_lines: Vec<&Vec<Point3<f64>>> =
        sliced.walls.iter().filter(|w| w.0).map(|w| &w.1).collect();
    for wall in &wall_lines {
        assert_eq!(sliced.out.iter().filter(|line| line == wall).count(), 1);
    }
    assert_eq!(
        sliced.out.len(),
        wall_lines.len() + sliced.surfaces.iter().map(|s| s.1 + s.2).sum::<usize>()
    );
}

#[test]
fn slicing_twice_gives_the_same_output() {
    let one = run(cuboid([0.0; 3], [10.0; 3]), &cube_settings());
    let two = run(cuboid([0.0; 3], [10.0; 3]), &cube_settings());
    assert_eq!(one.out.len(), two.out.len());
    for (a, b) in one.out.iter().zip(&two.out) {
        assert_eq!(a.len(), b.len());
        for (p, q) in a.iter().zip(b) {
            assert_eq!(point_key(p), point_key(q));
        }
    }
}

#[test]
fn moving_the_cube_by_whole_layers_moves_the_output() {
    let base = run(cuboid([0.0; 3], [10.0; 3]), &cube_settings());
    let moved = run(cuboid([32.0, -16.0, 4.0], [42.0, -6.0, 14.0]), &cube_settings());
    assert_eq!(base.walls.len(), moved.walls.len());
    for (a, b) in base.walls.iter().zip(&moved.walls) {
        assert_eq!(a.0, b.0);
        assert_eq!(a.1.len(), b.1.len());
        for (p, q) in a.1.iter().zip(&b.1) {
            assert_eq!(Point3::new(p.x + 32.0, p.y - 16.0, p.z + 4.0), *q);
        }
    }
}

#[test]
fn tilted_plate_is_one_surface_striped_in_its_plane() {
    let tilt = 15f64.to_radians();
    let (s, c) = (tilt.sin(), tilt.cos());
    let corner = |x: f64, y: f64| [x, y * c, y * s];
    let plate = vec![
        Shape::new(corner(0.0, 0.0), corner(20.0, 0.0), corner(20.0, 20.0)),
        Shape::new(corner(0.0, 0.0), corner(20.0, 20.0), corner(0.0, 20.0)),
    ];
    let settings = Settings {
        layer_height: 1.0,
        max_angle: 20f64.to_radians(),
        nozzle_diameter: 0.4,
        min_surface_path_length: 0.0,
    };
    let sliced = run(plate, &settings);
    assert_eq!(sliced.surface_triangles, 2);
    assert_eq!(sliced.surfaces.len(), 1);
    assert_eq!(sliced.surfaces[0].0, 2);
    assert!(!sliced.surface_paths.is_empty());
    for path in &sliced.surface_paths {
        for p in path {
            assert!((p.z - p.y * s / c).abs() < 1.0e-9);
        }
    }
}

#[test]
fn two_cubes_apart_give_two_surfaces() {
    let mut shapes = cuboid([0.0; 3], [10.0; 3]);
    shapes.extend(cuboid([100.0, 0.0, 0.0], [110.0, 10.0, 10.0]));
    let sliced = run(shapes, &cube_settings());
    assert_eq!(sliced.surface_triangles, 4);
    assert_eq!(sliced.surfaces.len(), 2);
    for path in &sliced.surface_paths {
        let left = path.iter().all(|p| p.x <= 10.0 + 1.0e-9);
        let right = path.iter().all(|p| p.x >= 100.0);
        assert!(left || right);
    }
    for (_, points) in &sliced.walls {
        let left = points.iter().all(|p| p.x <= 10.0);
        let right = points.iter().all(|p| p.x >= 100.0);
        assert!(left || right);
    }
    assert_eq!(sliced.walls.len(), 22);
}

#[test]
fn zero_area_triangle_changes_no_ring() {
    let plain = walls_of(&cuboid([0.0; 3], [10.0; 3]), 1.0);
    let mut shapes = cuboid([0.0; 3], [10.0; 3]);
    shapes.push(Shape::new([0.0, 0.0, 0.0], [5.0, 0.0, 5.0], [10.0, 0.0, 10.0]));
    let with = walls_of(&shapes, 1.0);
    assert_eq!(with.len(), plain.len());
    assert_eq!(with.iter().filter(|w| w.closed).count(), plain.iter().filter(|w| w.closed).count());
}

/// An icosahedron of radius 10, each face split into four `rounds` times.
fn sphere(rounds: usize) -> Vec<Shape> {
    let t = (1.0 + 5f64.sqrt()) / 2.0;
    let raw = [
        [-1.0, t, 0.0], [1.0, t, 0.0], [-1.0, -t, 0.0], [1.0, -t, 0.0],
        [0.0, -1.0, t], [0.0, 1.0, t], [0.0, -1.0, -t], [0.0, 1.0, -t],
        [t, 0.0, -1.0], [t, 0.0, 1.0], [-t, 0.0, -1.0], [-t, 0.0, 1.0],
    ];
    let on_sphere = |v: Vector3<f64>| v.normalize() * 10.0;
    let corners: Vec<Vector3<f64>> = raw.iter().map(|c| on_sphere(Vector3::from(*c))).collect();
    let faces = [
        [0, 11, 5], [0, 5, 1], [0, 1, 7], [0, 7, 10], [0, 10, 11],
        [1, 5, 9], [5, 11, 4], [11, 10, 2], [10, 7, 6], [7, 1, 8],
        [3, 9, 4], [3, 4, 2], [3, 2, 6], [3, 6, 8], [3, 8, 9],
        [4, 9, 5], [2, 4, 11], [6, 2, 10], [8, 6, 7], [9, 8, 1],
    ];
    let mut triangles: Vec<[Vector3<f64>; 3]> =
        faces.iter().map(|f| [corners[f[0]], corners[f[1]], corners[f[2]]]).collect();
    for _ in 0..rounds {
        let mut finer = Vec::new();
        for [a, b, c] in triangles {
            let ab = on_sphere((a + b) / 2.0);
            let bc = on_sphere((b + c) / 2.0);
            let ca = on_sphere((c + a) / 2.0);
            finer.push([a, ab, ca]);
            finer.push([b, bc, ab]);
            finer.push([c, ca, bc]);
            finer.push([ab, bc, ca]);
        }
        triangles = finer;
    }
    triangles
        .into_iter()
        .map(|[a, b, c]| Shape::new([a.x, a.y, a.z], [b.x, b.y, b.z], [c.x, c.y, c.z]))
        .collect()
}

#[test]
fn sphere_layers_close_and_wind_clockwise() {
    let shapes = sphere(2);
    assert_eq!(shapes.len(), 320);
    assert!(shapes.iter().all(|s| faces_up(s, std::f64::consts::PI)));
    // Layers of 0.7 keep the planes clear of the corners of the sphere.
    let walls = walls_of(&shapes, 0.7);
    let closed = walls.iter().filter(|w| w.closed).count();
    assert!(closed * 100 >= walls.len() * 99);
    assert!(walls.len() >= 27);
    for wall in &walls {
        assert!(shoelace(&wall.points, Axis::X, Axis::Y) >= 0.0);
        for q in &wall.points {
            assert!(wall.aabb.contains(q));
        }
        if wall.closed {
            assert!(near(wall.points[0], wall.points[wall.points.len() - 1]));
        }
    }
}
