//! Cube faces.

use vstd::prelude::*;

verus! {

/// The six faces of a cell or chunk, in index order.
#[derive(Clone, Copy, Debug, PartialEq, Eq, Structural, Hash)]
pub enum Face {
    PosX,
    NegX,
    PosY,
    NegY,
    PosZ,
    NegZ,
}

/// The face with index `f`.
pub open spec fn face_at(f: int) -> Face {
    if f == 0 {
        Face::PosX
    } else if f == 1 {
        Face::NegX
    } else if f == 2 {
        Face::PosY
    } else if f == 3 {
        Face::NegY
    } else if f == 4 {
        Face::PosZ
    } else {
        Face::NegZ
    }
}

impl Face {
    /// Position of the face in index order.
    pub open spec fn spec_index(self) -> int {
        match self {
            Face::PosX => 0,
            Face::NegX => 1,
            Face::PosY => 2,
            Face::NegY => 3,
            Face::PosZ => 4,
            Face::NegZ => 5,
        }
    }

    /// Outward unit step.
    pub open spec fn step(self) -> (int, int, int) {
        match self {
            Face::PosX => (1, 0, 0),
            Face::NegX => (-1, 0, 0),
            Face::PosY => (0, 1, 0),
            Face::NegY => (0, -1, 0),
            Face::PosZ => (0, 0, 1),
            Face::NegZ => (0, 0, -1),
        }
    }

    /// The face looking the other way.
    pub open spec fn facing(self) -> Face {
        match self {
            Face::PosX => Face::NegX,
            Face::NegX => Face::PosX,
            Face::PosY => Face::NegY,
            Face::NegY => Face::PosY,
            Face::PosZ => Face::NegZ,
            Face::NegZ => Face::PosZ,
        }
    }

    /// All faces in index order.
    pub fn all() -> (faces: [Face; 6])
        ensures
            forall|f: int| 0 <= f < 6 ==> #[trigger] faces@[f] == face_at(f),
    {
        [Face::PosX, Face::NegX, Face::PosY, Face::NegY, Face::PosZ, Face::NegZ]
    }

    /// Position of the face in index order.
    pub fn index(self) -> (i: usize)
        ensures
            i == self.spec_index(),
            i < 6,
    {
        match self {
            Face::PosX => 0,
            Face::NegX => 1,
            Face::PosY => 2,
            Face::NegY => 3,
            Face::PosZ => 4,
            Face::NegZ => 5,
        }
    }

    /// Outward unit normal.
    pub fn normal(self) -> (n: [i32; 3])
        ensures
            n@[0] == self.step().0,
            n@[1] == self.step().1,
            n@[2] == self.step().2,
    {
        match self {
            Face::PosX => [1, 0, 0],
            Face::NegX => [-1, 0, 0],
            Face::PosY => [0, 1, 0],
            Face::NegY => [0, -1, 0],
            Face::PosZ => [0, 0, 1],
            Face::NegZ => [0, 0, -1],
        }
    }

    /// The face looking the other way.
    pub fn opposite(self) -> (f: Face)
        ensures
            f == self.facing(),
    {
        match self {
            Face::PosX => Face::NegX,
            Face::NegX => Face::PosX,
            Face::PosY => Face::NegY,
            Face::NegY => Face::PosY,
            Face::PosZ => Face::NegZ,
            Face::NegZ => Face::PosZ,
        }
    }
}

/// Face indices and faces correspond one to one.
pub proof fn law_face_index_round_trip(f: Face, i: int)
    requires
        0 <= i < 6,
    ensures
        0 <= f.spec_index() < 6,
        face_at(f.spec_index()) == f,
        face_at(i).spec_index() == i,
{
}

/// Stepping out of a face and back through the opposite one returns to the
/// start.
pub proof fn law_opposite_face_undoes_step(f: Face)
    ensures
        f.facing().facing() == f,
        f.step().0 + f.facing().step().0 == 0,
        f.step().1 + f.facing().step().1 == 0,
        f.step().2 + f.facing().step().2 == 0,
{
}

/// Every face looks along one axis, by one step; no two look the same way; and even
/// indices look up their axis: x first, then y, then z.
pub proof fn law_faces_look_along_the_axes(f: Face, g: Face)
    ensures
        f.step() == g.step() ==> f == g,
        f.step().0 != 0 <==> f.spec_index() / 2 == 0,
        f.step().1 != 0 <==> f.spec_index() / 2 == 1,
        f.step().2 != 0 <==> f.spec_index() / 2 == 2,
        f.step().0 + f.step().1 + f.step().2 == 1 - 2 * (f.spec_index() % 2),
{
}

} // verus!
