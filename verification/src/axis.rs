use vstd::prelude::*;

verus! {

/// One of the three coordinate axes.
#[derive(Clone, Copy, Debug, PartialEq, Eq, Structural)]
pub enum Axis {
    X,
    Y,
    Z,
}

impl Axis {
    /// Position of the axis in a coordinate triple.
    pub open spec fn spec_index(self) -> int {
        match self {
            Axis::X => 0,
            Axis::Y => 1,
            Axis::Z => 2,
        }
    }

    /// The two remaining axes, lower index first.
    pub open spec fn spec_other(self) -> (Axis, Axis) {
        match self {
            Axis::X => (Axis::Y, Axis::Z),
            Axis::Y => (Axis::X, Axis::Z),
            Axis::Z => (Axis::X, Axis::Y),
        }
    }

    /// Position of the axis in a coordinate triple: 0, 1 or 2.
    pub fn index(&self) -> (i: usize)
        ensures
            i == self.spec_index(),
            i < 3,
    {
        match self {
            Axis::X => 0,
            Axis::Y => 1,
            Axis::Z => 2,
        }
    }

    /// The two remaining axes in a fixed order: the lower index first.
    pub fn other(&self) -> (pair: (Axis, Axis))
        ensures
            pair == self.spec_other(),
            pair.0 != *self,
            pair.1 != *self,
            pair.0.spec_index() < pair.1.spec_index(),
    {
        match self {
            Axis::X => (Axis::Y, Axis::Z),
            Axis::Y => (Axis::X, Axis::Z),
            Axis::Z => (Axis::X, Axis::Y),
        }
    }
}

/// An axis and the two that `other` pairs it with are the three axes, each once.
pub proof fn lemma_other_completes(axis: Axis)
    ensures
        axis.spec_index() + axis.spec_other().0.spec_index() + axis.spec_other().1.spec_index()
            == 3,
        axis.spec_other().0 != axis.spec_other().1,
{
}

} // verus!
