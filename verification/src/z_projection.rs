use vstd::prelude::*;

verus! {

/// Marks a shape that takes part in the search for what the toolpath of a
/// surface meets.
pub trait ToolpathIntersection {
    fn toolpath_intersection(&self) {
    }
}

} // verus!
