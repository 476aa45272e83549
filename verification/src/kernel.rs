//! Questions the library puts to its caller.
//!
//! A question is a function value. The library asks it only where the
//! answer cannot be had by comparing coordinates. A contract that depends
//! on such answers is stated for every mathematical function that the
//! question computes: whatever the call returns must be what that function
//! says.

use vstd::prelude::*;
use crate::aabb::Aabb;
use crate::axis::Axis;
use crate::point::Point3;

verus! {

/// A yes-or-no question about two points can be asked of every pair.
pub open spec fn asks_points<F: Fn(Point3, Point3) -> bool>(f: &F) -> bool {
    forall|p: Point3, q: Point3| #[trigger] call_requires(*f, (p, q))
}

/// Every answer of `f` about two points is the one `rel` gives.
pub open spec fn tells_points<F: Fn(Point3, Point3) -> bool>(
    f: &F,
    rel: spec_fn(Point3, Point3) -> bool,
) -> bool {
    forall|p: Point3, q: Point3, r: bool| #[trigger] call_ensures(*f, (p, q), r) ==> r == rel(p, q)
}

/// A yes-or-no question about two coordinates can be asked of every pair.
pub open spec fn asks_coords<F: Fn(i64, i64) -> bool>(f: &F) -> bool {
    forall|a: i64, b: i64| #[trigger] call_requires(*f, (a, b))
}

/// Every answer of `f` about two coordinates is the one `rel` gives.
pub open spec fn tells_coords<F: Fn(i64, i64) -> bool>(
    f: &F,
    rel: spec_fn(i64, i64) -> bool,
) -> bool {
    forall|a: i64, b: i64, r: bool| #[trigger] call_ensures(*f, (a, b), r) ==> r == rel(a, b)
}

/// A yes-or-no question about a box and a point can be asked of every pair.
pub open spec fn asks_box<F: Fn(Aabb, Point3) -> bool>(f: &F) -> bool {
    forall|b: Aabb, p: Point3| #[trigger] call_requires(*f, (b, p))
}

/// Every answer of `f` about a box and a point is the one `rel` gives.
pub open spec fn tells_box<F: Fn(Aabb, Point3) -> bool>(
    f: &F,
    rel: spec_fn(Aabb, Point3) -> bool,
) -> bool {
    forall|b: Aabb, p: Point3, r: bool| #[trigger] call_ensures(*f, (b, p), r) ==> r == rel(b, p)
}

/// The point where a segment meets a plane can be asked for every segment,
/// plane coordinate and axis position below 3.
pub open spec fn asks_crossing<F: Fn(Point3, Point3, i64, usize) -> Point3>(f: &F) -> bool {
    forall|lo: Point3, hi: Point3, d: i64, i: usize|
        i < 3 ==> #[trigger] call_requires(*f, (lo, hi, d, i))
}

/// Every crossing point that `f` returns is the one `map` gives.
pub open spec fn tells_crossing<F: Fn(Point3, Point3, i64, usize) -> Point3>(
    f: &F,
    map: spec_fn(Point3, Point3, i64, int) -> Point3,
) -> bool {
    forall|lo: Point3, hi: Point3, d: i64, i: usize, r: Point3| #[trigger]
        call_ensures(*f, (lo, hi, d, i), r) ==> r == map(lo, hi, d, i as int)
}

/// A measure between two points can be asked of every pair.
pub open spec fn asks_measure<F: Fn(Point3, Point3) -> i64>(f: &F) -> bool {
    forall|p: Point3, q: Point3| #[trigger] call_requires(*f, (p, q))
}

/// Every measure that `f` returns is the one `map` gives.
pub open spec fn tells_measure<F: Fn(Point3, Point3) -> i64>(
    f: &F,
    map: spec_fn(Point3, Point3) -> i64,
) -> bool {
    forall|p: Point3, q: Point3, r: i64| #[trigger] call_ensures(*f, (p, q), r) ==> r == map(p, q)
}

/// A yes-or-no question about a polyline and two axes can be asked of every
/// polyline and pair of axes.
pub open spec fn asks_turn<F: Fn(&Vec<Point3>, Axis, Axis) -> bool>(f: &F) -> bool {
    forall|points: Vec<Point3>, a: Axis, b: Axis| #[trigger] call_requires(*f, (&points, a, b))
}

/// Every answer of `f` about a polyline is the one `rel` gives for its
/// points.
pub open spec fn tells_turn<F: Fn(&Vec<Point3>, Axis, Axis) -> bool>(
    f: &F,
    rel: spec_fn(Seq<Point3>, Axis, Axis) -> bool,
) -> bool {
    forall|points: Vec<Point3>, a: Axis, b: Axis, r: bool| #[trigger]
        call_ensures(*f, (&points, a, b), r) ==> r == rel(points@, a, b)
}

} // verus!
