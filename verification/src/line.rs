use vstd::prelude::*;
use crate::point::Point3;

verus! {

/// An oriented segment. On a contour the inside of the shape lies to the
/// right of the direction of travel.
#[derive(Clone, Copy, Debug, PartialEq, Eq, Structural)]
pub struct Line3 {
    pub start: Point3,
    pub end: Point3,
}

impl Line3 {
    /// The segment from `start` to `end`.
    pub fn new(start: Point3, end: Point3) -> (line: Line3)
        ensures
            line == (Line3 { start, end }),
    {
        Line3 { start, end }
    }
}

} // verus!
