use vstd::prelude::*;

verus! {

/// A side of a cell.
#[derive(Clone, Copy, PartialEq, Eq, Structural, Debug)]
pub enum Face {
    UP,
    LEFT,
    RIGHT,
    DOWN,
}

impl Face {
    /// The side across.
    pub open spec fn spec_opposite(self) -> Face {
        match self {
            Face::UP => Face::DOWN,
            Face::LEFT => Face::RIGHT,
            Face::RIGHT => Face::LEFT,
            Face::DOWN => Face::UP,
        }
    }

    /// The sides that a cell is drawn with, in drawing order: the lower side
    /// stands first and last.
    pub fn get_all() -> (all: Vec<Face>)
        ensures
            all@ == seq![Face::DOWN, Face::LEFT, Face::RIGHT, Face::DOWN],
    {
        let mut all: Vec<Face> = Vec::new();
        all.push(Face::DOWN);
        all.push(Face::LEFT);
        all.push(Face::RIGHT);
        all.push(Face::DOWN);
        assert(all@ =~= seq![Face::DOWN, Face::LEFT, Face::RIGHT, Face::DOWN]);
        all
    }

    /// The side across.
    pub fn opposite(&self) -> (face: Face)
        ensures
            face == self.spec_opposite(),
            face.spec_opposite() == *self,
    {
        match self {
            Face::UP => Face::DOWN,
            Face::LEFT => Face::RIGHT,
            Face::RIGHT => Face::LEFT,
            Face::DOWN => Face::UP,
        }
    }
}

} // verus!
