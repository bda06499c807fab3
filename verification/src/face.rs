//! The six faces of a unit cube.
use vstd::prelude::*;

verus! {

/// Number of faces of a block.
pub const NUM_FACES: usize = 6;

/// A face of a block, named by the direction it looks in: `Top` looks up
/// (towards larger `y`), `Right` towards larger `x`, `Front` towards larger `z`.
#[derive(Clone, Copy, PartialEq, Eq, Structural, Debug)]
pub enum Face {
    Top,
    Bottom,
    Right,
    Left,
    Front,
    Back,
}

impl Face {
    /// The step from a cell to the cell that touches it at this face.
    pub open spec fn offset(self) -> (int, int, int) {
        match self {
            Face::Top => (0, 1, 0),
            Face::Bottom => (0, -1, 0),
            Face::Right => (1, 0, 0),
            Face::Left => (-1, 0, 0),
            Face::Front => (0, 0, 1),
            Face::Back => (0, 0, -1),
        }
    }

    /// The number of the face, from 0 for `Top` to 5 for `Back`.
    pub open spec fn spec_ordinal(self) -> int {
        match self {
            Face::Top => 0,
            Face::Bottom => 1,
            Face::Right => 2,
            Face::Left => 3,
            Face::Front => 4,
            Face::Back => 5,
        }
    }

    /// The face with the given number.
    pub open spec fn spec_from_ordinal(n: int) -> Face {
        if n == 0 {
            Face::Top
        } else if n == 1 {
            Face::Bottom
        } else if n == 2 {
            Face::Right
        } else if n == 3 {
            Face::Left
        } else if n == 4 {
            Face::Front
        } else {
            Face::Back
        }
    }

    /// The number of the face, from 0 for `Top` to 5 for `Back`.
    pub fn ordinal(self) -> (n: usize)
        ensures
            n == self.spec_ordinal(),
            n < NUM_FACES,
    {
        match self {
            Face::Top => 0,
            Face::Bottom => 1,
            Face::Right => 2,
            Face::Left => 3,
            Face::Front => 4,
            Face::Back => 5,
        }
    }

    /// The face with the given number.
    pub fn from_ordinal(n: usize) -> (face: Face)
        requires
            n < NUM_FACES,
        ensures
            face == Face::spec_from_ordinal(n as int),
            face.spec_ordinal() == n,
    {
        if n == 0 {
            Face::Top
        } else if n == 1 {
            Face::Bottom
        } else if n == 2 {
            Face::Right
        } else if n == 3 {
            Face::Left
        } else if n == 4 {
            Face::Front
        } else {
            Face::Back
        }
    }
}

/// The cell that touches the cell `p` at its face `face`.
pub open spec fn neighbor(p: (int, int, int), face: Face) -> (int, int, int) {
    (p.0 + face.offset().0, p.1 + face.offset().1, p.2 + face.offset().2)
}

/// Every face has a number below `NUM_FACES`, and the number names the face.
pub proof fn lemma_face_ordinals(face: Face)
    ensures
        0 <= face.spec_ordinal() < NUM_FACES,
        Face::spec_from_ordinal(face.spec_ordinal()) == face,
{
}

} // verus!
