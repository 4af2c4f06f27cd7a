//! The planes that axis-aligned rectangles lie in.
use vstd::prelude::*;

verus! {

/// The pair of axes that span a rectangle's plane; the third axis is fixed.
#[derive(Clone, Copy, Debug, PartialEq, Eq, Structural)]
pub enum Axis {
    XY,
    XZ,
    YZ,
}

impl Axis {
    /// The index (0 for x, 1 for y, 2 for z) of the axis along which the
    /// plane sits at a fixed coordinate.
    pub open spec fn fixed_spec(self) -> usize {
        match self {
            Axis::XY => 2,
            Axis::XZ => 1,
            Axis::YZ => 0,
        }
    }

    /// The indices of the two axes that span the plane, in ascending order.
    pub open spec fn plane_spec(self) -> (usize, usize) {
        match self {
            Axis::XY => (0, 1),
            Axis::XZ => (0, 2),
            Axis::YZ => (1, 2),
        }
    }

    pub fn fixed(&self) -> (r: usize)
        ensures
            r == self.fixed_spec(),
            r < 3,
    {
        match self {
            Axis::XY => 2,
            Axis::XZ => 1,
            Axis::YZ => 0,
        }
    }

    pub fn plane(&self) -> (r: (usize, usize))
        ensures
            r == self.plane_spec(),
            r.0 < r.1 < 3,
            r.0 != self.fixed_spec() && r.1 != self.fixed_spec(),
    {
        match self {
            Axis::XY => (0, 1),
            Axis::XZ => (0, 2),
            Axis::YZ => (1, 2),
        }
    }
}

} // verus!
