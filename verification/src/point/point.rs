use vstd::prelude::*;

verus! {

/// A cell position on the grid, 0-indexed. The derived order compares `x`
/// first and `y` second.
#[derive(Clone, Copy, Debug, PartialEq, Eq, Structural, PartialOrd, Ord, Hash)]
pub struct Point {
    pub x: usize,
    pub y: usize,
}

impl Point {
    /// The position reached by moving `x` columns and `y` rows back, if it is
    /// a position at all.
    pub open spec fn spec_add(self, x: int, y: int) -> Option<Point> {
        if 0 <= self.x - x <= usize::MAX && 0 <= self.y - y <= usize::MAX {
            Some(Point { x: (self.x - x) as usize, y: (self.y - y) as usize })
        } else {
            None
        }
    }

    /// Lexicographic order on `(x, y)`, the tie-break of the search fringe.
    pub open spec fn spec_less(self, other: Point) -> bool {
        self.x < other.x || (self.x == other.x && self.y < other.y)
    }

    /// Shifts the point by `-x` columns and `-y` rows. `None` when a
    /// coordinate would leave the range of `usize`.
    pub fn add(&self, x: i32, y: i32) -> (r: Option<Point>)
        ensures
            r == self.spec_add(x as int, y as int),
    {
        let new_x = shift_back(self.x, x);
        let new_y = shift_back(self.y, y);
        match (new_x, new_y) {
            (Some(nx), Some(ny)) => Some(Point { x: nx, y: ny }),
            _ => None,
        }
    }

    /// Whether `self` comes strictly before `other` in the order on `(x, y)`.
    pub fn less(&self, other: &Point) -> (r: bool)
        ensures
            r == self.spec_less(*other),
    {
        self.x < other.x || (self.x == other.x && self.y < other.y)
    }
}

/// `v - delta` where that is a `usize`.
fn shift_back(v: usize, delta: i32) -> (r: Option<usize>)
    ensures
        r == (if 0 <= v - delta <= usize::MAX {
            Some((v - delta) as usize)
        } else {
            None::<usize>
        }),
{
    if delta >= 0 {
        let d: usize = delta as usize;
        if d <= v {
            Some(v - d)
        } else {
            None
        }
    } else {
        let d: usize = (-(delta as i64)) as usize;
        if d <= usize::MAX - v {
            Some(v + d)
        } else {
            None
        }
    }
}

} // verus!
