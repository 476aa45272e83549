use vstd::prelude::*;
use crate::aabb::Aabb;
use crate::kernel::{asks_coords, asks_crossing, asks_points, tells_coords, tells_crossing, tells_points};
use crate::line::Line3;
use crate::point::Point3;

verus! {

/// A triangle with its bounding box. The box and the corners are fixed at
/// construction; only the index that a spatial index assigns may change.
#[derive(Clone, Copy, Debug)]
pub struct Triangle {
    pub a: Point3,
    pub b: Point3,
    pub c: Point3,
    pub node_index: usize,
    pub aabb: Aabb,
}

/// What the edge from `last` to `point` contributes to the cut at
/// `value` along the axis at position `axis`: the end point moved onto the
/// plane where it is close to it, else the crossing point where the edge
/// passes strictly from one side to the other, else nothing.
pub open spec fn spec_edge_hit(
    last: Point3,
    point: Point3,
    value: i64,
    axis: int,
    close: spec_fn(i64, i64) -> bool,
    crossing: spec_fn(Point3, Point3, i64, int) -> Point3,
) -> Option<Point3> {
    if close(point.at(axis), value) {
        Some(point.put(axis, value))
    } else if last.at(axis) < value && point.at(axis) > value {
        Some(crossing(last, point, value, axis).put(axis, value))
    } else if last.at(axis) > value && point.at(axis) < value {
        Some(crossing(point, last, value, axis).put(axis, value))
    } else {
        None
    }
}

fn edge_hit<N: Fn(i64, i64) -> bool, C: Fn(Point3, Point3, i64, usize) -> Point3>(
    last: &Point3,
    point: &Point3,
    value: i64,
    axis: usize,
    near: &N,
    cross: &C,
) -> (hit: Option<Point3>)
    requires
        axis < 3,
        asks_coords(near),
        asks_crossing(cross),
    ensures
        hit matches Some(p) ==> p.at(axis as int) == value,
        forall|close: spec_fn(i64, i64) -> bool, crossing: spec_fn(Point3, Point3, i64, int) -> Point3|
            #![trigger tells_coords(near, close), tells_crossing(cross, crossing)]
            tells_coords(near, close) && tells_crossing(cross, crossing) ==> hit == spec_edge_hit(
                *last,
                *point,
                value,
                axis as int,
                close,
                crossing,
            ),
{
    let at_point = point.coord(axis);
    let at_last = last.coord(axis);
    if near(at_point, value) {
        Some(point.with_coord(axis, value))
    } else if at_last < value && at_point > value {
        let met = cross(*last, *point, value, axis);
        Some(met.with_coord(axis, value))
    } else if at_last > value && at_point < value {
        let met = cross(*point, *last, value, axis);
        Some(met.with_coord(axis, value))
    } else {
        None
    }
}

impl Triangle {
    /// The box is the least one around the three corners.
    pub open spec fn wf(self) -> bool {
        self.aabb == Aabb::spec_of_point(self.a).spec_grow(self.b).spec_grow(self.c)
    }

    /// One of the corners is close to `v`.
    pub open spec fn spec_has_point(self, v: Point3, close: spec_fn(Point3, Point3) -> bool) -> bool {
        close(self.a, v) || close(self.b, v) || close(self.c, v)
    }

    /// One of the corners of `other` is close to a corner of this triangle.
    pub open spec fn spec_shares_point(
        self,
        other: Triangle,
        close: spec_fn(Point3, Point3) -> bool,
    ) -> bool {
        self.spec_has_point(other.a, close) || self.spec_has_point(other.b, close)
            || self.spec_has_point(other.c, close)
    }

    /// Two of the corners of `other` are each close to a corner of this
    /// triangle.
    pub open spec fn spec_shares_edge(
        self,
        other: Triangle,
        close: spec_fn(Point3, Point3) -> bool,
    ) -> bool {
        let a = self.spec_has_point(other.a, close);
        let b = self.spec_has_point(other.b, close);
        let c = self.spec_has_point(other.c, close);
        a && b || a && c || b && c
    }

    /// One of the corners lies inside `aabb`, borders included.
    pub open spec fn spec_has_point_in_aabb(self, aabb: Aabb) -> bool {
        aabb.spec_contains(self.a) || aabb.spec_contains(self.b) || aabb.spec_contains(self.c)
    }

    /// The cut of the triangle by the plane at `value` along the axis at
    /// position `axis`. The edges are walked in the order c→a, a→b, b→c; the
    /// cut is a segment where exactly two of them contribute a point, and
    /// the segment runs from the first of these points to the second.
    pub open spec fn spec_intersect(
        self,
        value: i64,
        axis: int,
        close: spec_fn(i64, i64) -> bool,
        crossing: spec_fn(Point3, Point3, i64, int) -> Point3,
    ) -> Option<Line3> {
        let at_a = spec_edge_hit(self.c, self.a, value, axis, close, crossing);
        let at_b = spec_edge_hit(self.a, self.b, value, axis, close, crossing);
        let at_c = spec_edge_hit(self.b, self.c, value, axis, close, crossing);
        match (at_a, at_b, at_c) {
            (Some(p), Some(q), None) => Some(Line3 { start: p, end: q }),
            (Some(p), None, Some(q)) => Some(Line3 { start: p, end: q }),
            (None, Some(p), Some(q)) => Some(Line3 { start: p, end: q }),
            _ => None,
        }
    }

    /// The triangle with these corners and the least box around them.
    pub fn new(a: Point3, b: Point3, c: Point3) -> (t: Triangle)
        ensures
            t.a == a,
            t.b == b,
            t.c == c,
            t.node_index == 0,
            t.wf(),
            t.aabb.spec_contains(a),
            t.aabb.spec_contains(b),
            t.aabb.spec_contains(c),
    {
        let aabb = Aabb::of_point(a).grow(&b).grow(&c);
        Triangle { a, b, c, node_index: 0, aabb }
    }

    /// The box around the corners.
    pub fn aabb(&self) -> (b: Aabb)
        ensures
            b == self.aabb,
    {
        self.aabb
    }

    /// Notes the node that a hierarchy has given the triangle.
    pub fn set_bh_node_index(&mut self, node_index: usize)
        ensures
            *final(self) == (Triangle { node_index, ..*old(self) }),
    {
        self.node_index = node_index;
    }

    /// The node that a hierarchy has given the triangle.
    pub fn bh_node_index(&self) -> (i: usize)
        ensures
            i == self.node_index,
    {
        self.node_index
    }

    /// Whether one of the corners lies inside `aabb`, borders included.
    pub fn has_point_in_aabb(&self, aabb: &Aabb) -> (r: bool)
        ensures
            r == self.spec_has_point_in_aabb(*aabb),
    {
        aabb.contains(&self.a) || aabb.contains(&self.b) || aabb.contains(&self.c)
    }

    /// Whether one of the corners is close to `vec`, as `near` judges it.
    pub fn has_point<N: Fn(Point3, Point3) -> bool>(&self, vec: Point3, near: &N) -> (r: bool)
        requires
            asks_points(near),
        ensures
            forall|close: spec_fn(Point3, Point3) -> bool| #[trigger]
                tells_points(near, close) ==> r == self.spec_has_point(vec, close),
    {
        near(self.a, vec) || near(self.b, vec) || near(self.c, vec)
    }

    /// Whether a corner of `other` is close to a corner of this triangle.
    pub fn shares_point_with_triangle<N: Fn(Point3, Point3) -> bool>(
        &self,
        other: Triangle,
        near: &N,
    ) -> (r: bool)
        requires
            asks_points(near),
        ensures
            forall|close: spec_fn(Point3, Point3) -> bool| #[trigger]
                tells_points(near, close) ==> r == self.spec_shares_point(other, close),
    {
        self.has_point(other.a, near) || self.has_point(other.b, near) || self.has_point(
            other.c,
            near,
        )
    }

    /// Whether two corners of `other` are each close to a corner of this
    /// triangle.
    pub fn shares_edge_with_triangle<N: Fn(Point3, Point3) -> bool>(
        &self,
        other: Triangle,
        near: &N,
    ) -> (r: bool)
        requires
            asks_points(near),
        ensures
            forall|close: spec_fn(Point3, Point3) -> bool| #[trigger]
                tells_points(near, close) ==> r == self.spec_shares_edge(other, close),
    {
        let a = self.has_point(other.a, near);
        let b = self.has_point(other.b, near);
        let c = self.has_point(other.c, near);
        a && b || a && c || b && c
    }

    /// Cuts the triangle by the plane at `value` along the axis at position
    /// `axis`. Both ends of the cut lie on the plane exactly.
    pub fn intersect<N: Fn(i64, i64) -> bool, C: Fn(Point3, Point3, i64, usize) -> Point3>(
        &self,
        value: i64,
        axis: usize,
        near: &N,
        cross: &C,
    ) -> (cut: Option<Line3>)
        requires
            axis < 3,
            asks_coords(near),
            asks_crossing(cross),
        ensures
            cut matches Some(line) ==> line.start.at(axis as int) == value && line.end.at(
                axis as int,
            ) == value,
            forall|close: spec_fn(i64, i64) -> bool, crossing: spec_fn(Point3, Point3, i64, int) -> Point3|
                #![trigger tells_coords(near, close), tells_crossing(cross, crossing)]
                tells_coords(near, close) && tells_crossing(cross, crossing) ==> cut
                    == self.spec_intersect(value, axis as int, close, crossing),
    {
        let at_a = edge_hit(&self.c, &self.a, value, axis, near, cross);
        let at_b = edge_hit(&self.a, &self.b, value, axis, near, cross);
        let at_c = edge_hit(&self.b, &self.c, value, axis, near, cross);
        match (at_a, at_b, at_c) {
            (Some(p), Some(q), None) => Some(Line3 { start: p, end: q }),
            (Some(p), None, Some(q)) => Some(Line3 { start: p, end: q }),
            (None, Some(p), Some(q)) => Some(Line3 { start: p, end: q }),
            _ => None,
        }
    }
}

} // verus!
