use vstd::prelude::*;
use crate::tools::direction_data::DirectionData;

verus! {

/// One of the four ways out of a cell centre. `UP` is towards row 0.
#[derive(Clone, Copy, Debug, PartialEq, Eq, Structural, Hash)]
pub enum Direction {
    UP,
    DOWN,
    LEFT,
    RIGHT,
}

impl Direction {
    /// The four directions in the order in which they are tried.
    pub open spec fn spec_all() -> Seq<Direction> {
        seq![Direction::UP, Direction::LEFT, Direction::RIGHT, Direction::DOWN]
    }

    /// Column displacement to the next cell centre.
    pub open spec fn dx(self) -> int {
        match self {
            Direction::UP => 0,
            Direction::DOWN => 0,
            Direction::LEFT => -2,
            Direction::RIGHT => 2,
        }
    }

    /// Row displacement to the next cell centre.
    pub open spec fn dy(self) -> int {
        match self {
            Direction::UP => -2,
            Direction::DOWN => 2,
            Direction::LEFT => 0,
            Direction::RIGHT => 0,
        }
    }

    /// Column displacement to the wall cell on the way to the next centre.
    pub open spec fn half_dx(self) -> int {
        match self {
            Direction::UP => 0,
            Direction::DOWN => 0,
            Direction::LEFT => -1,
            Direction::RIGHT => 1,
        }
    }

    /// Row displacement to the wall cell on the way to the next centre.
    pub open spec fn half_dy(self) -> int {
        match self {
            Direction::UP => -1,
            Direction::DOWN => 1,
            Direction::LEFT => 0,
            Direction::RIGHT => 0,
        }
    }

    /// The four directions in the order in which they are tried.
    pub fn all() -> (v: Vec<Direction>)
        ensures
            v@ == Direction::spec_all(),
    {
        let mut v: Vec<Direction> = Vec::new();
        v.push(Direction::UP);
        v.push(Direction::LEFT);
        v.push(Direction::RIGHT);
        v.push(Direction::DOWN);
        assert(v@ =~= Direction::spec_all());
        v
    }

    /// The displacement of magnitude 2 that this direction stands for.
    pub fn to_data(&self) -> (d: DirectionData)
        ensures
            d.x == self.dx(),
            d.y == self.dy(),
            d.dir == *self,
    {
        match self {
            Direction::UP => DirectionData::from_tuple(0, -2, Direction::UP),
            Direction::LEFT => DirectionData::from_tuple(-2, 0, Direction::LEFT),
            Direction::RIGHT => DirectionData::from_tuple(2, 0, Direction::RIGHT),
            Direction::DOWN => DirectionData::from_tuple(0, 2, Direction::DOWN),
        }
    }
}

} // verus!
