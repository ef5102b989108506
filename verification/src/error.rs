use vstd::prelude::*;

verus! {

/// Why a generation, braiding or solving call did not finish.
#[derive(Clone, Copy, Debug, PartialEq, Eq, Structural)]
pub enum MazeError {
    /// The size is even, below 3, too large to index, or the decimation
    /// factor is above 100.
    InvalidOptions,
    /// Cancellation was requested: the job stops without completing.
    Terminated,
    /// The fringe ran empty before the end was reached.
    Unsolvable,
    /// Two points that should share a row or a column share neither.
    NotAligned,
    /// A point lies outside the grid.
    OutOfBounds,
}

} // verus!
