use vstd::prelude::*;
use crate::error::MazeError;
use crate::point::point::Point;
use crate::point::point_state::PointState;
use crate::tools::consts::{get_seeder, Maze};
use crate::tools::graph::{index_of, passages_kept, point_at, lemma_point_index, lemma_index_point};

use crate::tools::matrix::state_at;
use crate::tools::options::MazeData;
use crate::tools::seeder::{drawn, gen_below, seeder_state};

verus! {

/// Whether `p` lies inside the outer border.
pub open spec fn is_interior(size: int, p: Point) -> bool {
    1 <= p.x && p.x + 1 < size && 1 <= p.y && p.y + 1 < size
}

/// Whether `p` is a pinch point: an interior wall cell with walls on both
/// sides along one axis and passages on both sides along the other.
pub open spec fn is_pinch(maze: Seq<PointState>, size: int, p: Point) -> bool {
    let left = state_at(maze, size, Point { x: (p.x - 1) as usize, y: p.y });
    let right = state_at(maze, size, Point { x: (p.x + 1) as usize, y: p.y });
    let up = state_at(maze, size, Point { x: p.x, y: (p.y - 1) as usize });
    let down = state_at(maze, size, Point { x: p.x, y: (p.y + 1) as usize });
    &&& is_interior(size, p)
    &&& state_at(maze, size, p) == PointState::Wall
    &&& ((left == PointState::Wall && right == PointState::Wall && up == PointState::Passage
        && down == PointState::Passage) || (up == PointState::Wall && down == PointState::Wall
        && left == PointState::Passage && right == PointState::Passage))
}

/// The braiding of the cell with index `i`: a pinch point is opened if a
/// draw below 100 is below `factor` and a second one is too; the second is
/// made only after the first succeeded. Other cells take no draw.
pub open spec fn spec_braid_cell(
    maze: Seq<PointState>,
    size: int,
    factor: int,
    seeder: int,
    i: int,
) -> (Seq<PointState>, int) {
    if is_pinch(maze, size, point_at(size, i)) {
        let first = drawn(seeder, 100);
        if first.0 < factor {
            let second = drawn(first.1, 100);
            if second.0 < factor {
                (maze.update(i, PointState::Passage), second.1)
            } else {
                (maze, second.1)
            }
        } else {
            (maze, first.1)
        }
    } else {
        (maze, seeder)
    }
}

/// The grid and the generator after the first `k` cells, row by row, have
/// been braided in place.
pub open spec fn spec_braid_upto(
    maze: Seq<PointState>,
    size: int,
    factor: int,
    seeder: int,
    k: nat,
) -> (Seq<PointState>, int)
    decreases k,
{
    if k == 0 {
        (maze, seeder)
    } else {
        let prev = spec_braid_upto(maze, size, factor, seeder, (k - 1) as nat);
        spec_braid_cell(prev.0, size, factor, prev.1, k - 1)
    }
}

/// The braided grid, and the state in which the braiding leaves the
/// generator.
pub open spec fn spec_decimated(maze: Seq<PointState>, size: int, factor: int, seeder: int) -> (
    Seq<PointState>,
    int,
) {
    spec_braid_upto(maze, size, factor, seeder, maze.len())
}

/// The grid after each of the first `k` cells, row by row, has been opened
/// if it was a pinch point when its turn came.
pub open spec fn spec_open_pinches_upto(maze: Seq<PointState>, size: int, k: nat) -> Seq<
    PointState,
>
    decreases k,
{
    if k == 0 {
        maze
    } else {
        let prev = spec_open_pinches_upto(maze, size, (k - 1) as nat);
        if is_pinch(prev, size, point_at(size, k - 1)) {
            prev.update(k - 1, PointState::Passage)
        } else {
            prev
        }
    }
}

/// The grid with every pinch point opened, each judged when its turn comes.
pub open spec fn spec_open_pinches(maze: Seq<PointState>, size: int) -> Seq<PointState> {
    spec_open_pinches_upto(maze, size, maze.len())
}

/// Braids the maze in place: every interior wall cell that is a pinch point
/// when its turn comes, row by row, is opened with probability
/// `(factor / 100)²`. The draws come from a copy of the generator that the
/// options carry, where generation left it.
///
/// A factor above 100 is refused, and a requested cancellation ends the
/// call with `Terminated`; the grid is then left as it was. Else the grid is
/// the one that `spec_decimated` states. Passages are only added. With
/// factor 0 nothing changes; with factor 100 every pinch point is opened.
pub fn decimate_maze(data: &MazeData, maze: &mut Maze, size: usize) -> (r: Result<(), MazeError>)
    requires
        old(maze)@.len() == size * size,
    ensures
        final(maze)@.len() == old(maze)@.len(),
        r is Ok <==> data.maze_opt.decimate <= 100 && !data.should_exit,
        data.maze_opt.decimate > 100 ==> r == Err::<(), MazeError>(MazeError::InvalidOptions),
        data.maze_opt.decimate <= 100 && data.should_exit ==> r == Err::<(), MazeError>(
            MazeError::Terminated,
        ),
        r is Err ==> final(maze)@ == old(maze)@,
        r is Ok ==> final(maze)@ == spec_decimated(
            old(maze)@,
            size as int,
            data.maze_opt.decimate as int,
            data.maze_opt.spec_seeder_state(),
        ).0,
        r is Ok ==> passages_kept(old(maze)@, final(maze)@),
        r is Ok && data.maze_opt.decimate == 0 ==> final(maze)@ == old(maze)@,
        r is Ok && data.maze_opt.decimate == 100 ==> final(maze)@ == spec_open_pinches(
            old(maze)@,
            size as int,
        ),
{
    let factor: usize = data.maze_opt.decimate;
    if factor > 100 {
        return Err(MazeError::InvalidOptions);
    }
    if data.should_exit() {
        return Err(MazeError::Terminated);
    }
    let mut seeder = get_seeder(data);
    let ghost before = maze@;
    let ghost origin = seeder_state(seeder);
    let cells: usize = maze.len();
    let mut i: usize = 0;
    while i < cells
        invariant
            i <= cells,
            cells == size * size,
            maze@.len() == cells,
            before.len() == cells,
            factor <= 100,
            (maze@, seeder_state(seeder)) == spec_braid_upto(
                before,
                size as int,
                factor as int,
                origin,
                i as nat,
            ),
            passages_kept(before, maze@),
            factor == 0 ==> maze@ == before,
            factor == 100 ==> maze@ == spec_open_pinches_upto(before, size as int, i as nat),
        decreases cells - i,
    {
        let ghost prev = maze@;
        let ghost prev_seeder = seeder_state(seeder);
        proof {
            assert(size > 0) by (nonlinear_arith)
                requires i < size * size;
            lemma_index_point(size as int, i as int);
        }
        let x: usize = i % size;
        let y: usize = i / size;
        let ghost p = Point { x, y };
        assert(p == point_at(size as int, i as int));
        if x >= 1 && size - x > 1 && y >= 1 && size - y > 1 {
            proof {
                lemma_point_index(size as int, Point { x: (x - 1) as usize, y });
                lemma_point_index(size as int, Point { x: (x + 1) as usize, y });
                lemma_point_index(size as int, Point { x, y: (y - 1) as usize });
                lemma_point_index(size as int, Point { x, y: (y + 1) as usize });
                assert(index_of(size as int, Point { x: (x - 1) as usize, y }) == i - 1);
                assert(index_of(size as int, Point { x: (x + 1) as usize, y }) == i + 1);
                assert((y - 1) * size + x == i - size && (y + 1) * size + x == i + size)
                    by (nonlinear_arith)
                    requires i == y * size + x;
                assert(index_of(size as int, Point { x, y: (y - 1) as usize }) == i - size);
                assert(index_of(size as int, Point { x, y: (y + 1) as usize }) == i + size);
            }
            if maze[i] == PointState::Wall {
                let left = maze[i - 1] == PointState::Wall;
                let right = maze[i + 1] == PointState::Wall;
                let up = maze[i - size] == PointState::Wall;
                let down = maze[i + size] == PointState::Wall;
                if (left && right && !up && !down) || (up && down && !left && !right) {
                    assert(is_pinch(prev, size as int, p));
                    if gen_below(&mut seeder, 100) < factor as u64 {
                        if gen_below(&mut seeder, 100) < factor as u64 {
                            maze[i] = PointState::Passage;
                        }
                    }
                } else {
                    assert(!is_pinch(prev, size as int, p));
                }
            } else {
                assert(!is_pinch(prev, size as int, p));
            }
        } else {
            assert(!is_pinch(prev, size as int, p));
        }
        i = i + 1;
        proof {
            assert((maze@, seeder_state(seeder)) == spec_braid_cell(
                prev,
                size as int,
                factor as int,
                prev_seeder,
                i - 1,
            ));
        }
    }
    Ok(())
}

} // verus!
