use vstd::prelude::*;
use crate::axis::Axis;

verus! {

/// A point of space. Each coordinate is an integer whose order is the order
/// of the position it stands for.
#[derive(Clone, Copy, Debug, PartialEq, Eq, Structural)]
pub struct Point3 {
    pub x: i64,
    pub y: i64,
    pub z: i64,
}

impl Point3 {
    /// The coordinate at position `i` of the triple `(x, y, z)`.
    pub open spec fn at(self, i: int) -> i64 {
        if i == 0 {
            self.x
        } else if i == 1 {
            self.y
        } else {
            self.z
        }
    }

    /// The point with the coordinate at position `i` replaced by `v`.
    pub open spec fn put(self, i: int, v: i64) -> Point3 {
        if i == 0 {
            Point3 { x: v, y: self.y, z: self.z }
        } else if i == 1 {
            Point3 { x: self.x, y: v, z: self.z }
        } else {
            Point3 { x: self.x, y: self.y, z: v }
        }
    }

    /// The point with these coordinates.
    pub fn new(x: i64, y: i64, z: i64) -> (p: Point3)
        ensures
            p == (Point3 { x, y, z }),
    {
        Point3 { x, y, z }
    }

    /// The coordinate at position `i`.
    pub fn coord(&self, i: usize) -> (v: i64)
        requires
            i < 3,
        ensures
            v == self.at(i as int),
    {
        if i == 0 {
            self.x
        } else if i == 1 {
            self.y
        } else {
            self.z
        }
    }

    /// The coordinate along `axis`.
    pub fn along(&self, axis: Axis) -> (v: i64)
        ensures
            v == self.at(axis.spec_index()),
    {
        self.coord(axis.index())
    }

    /// A copy of the point moved onto the plane `i = v`.
    pub fn with_coord(&self, i: usize, v: i64) -> (p: Point3)
        requires
            i < 3,
        ensures
            p == self.put(i as int, v),
            p.at(i as int) == v,
            forall|j: int| 0 <= j < 3 && j != i ==> p.at(j) == self.at(j),
    {
        if i == 0 {
            Point3 { x: v, y: self.y, z: self.z }
        } else if i == 1 {
            Point3 { x: self.x, y: v, z: self.z }
        } else {
            Point3 { x: self.x, y: self.y, z: v }
        }
    }
}

} // verus!
