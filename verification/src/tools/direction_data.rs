use vstd::prelude::*;
use crate::point::direction::Direction;

verus! {

/// A displacement on the grid together with the direction it belongs to.
#[derive(Debug, Clone, Copy)]
pub struct DirectionData {
    pub x: i32,
    pub y: i32,
    pub dir: Direction,
}

/// -1, 0 or 1 as `v` is negative, zero or positive.
pub open spec fn signum(v: int) -> int {
    if v > 0 {
        1
    } else if v < 0 {
        -1
    } else {
        0
    }
}

impl DirectionData {
    /// The displacement `(x, y)` of the direction `dir`.
    pub fn from_tuple(x: i32, y: i32, dir: Direction) -> (d: DirectionData)
        ensures
            d.x == x,
            d.y == y,
            d.dir == dir,
    {
        DirectionData { x, y, dir }
    }

    /// The same displacement with each component cut down to magnitude 1:
    /// `(10, -10)` becomes `(1, -1)`.
    pub fn normalize(&self) -> (d: DirectionData)
        ensures
            d.x == signum(self.x as int),
            d.y == signum(self.y as int),
            d.dir == self.dir,
    {
        DirectionData { x: unit(self.x), y: unit(self.y), dir: self.dir }
    }
}

fn unit(v: i32) -> (r: i32)
    ensures
        r == signum(v as int),
{
    if v > 0 {
        1
    } else if v < 0 {
        -1
    } else {
        0
    }
}

} // verus!
