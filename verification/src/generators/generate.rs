use vstd::prelude::*;
use crate::error::MazeError;
use crate::generators::carving::perfect_maze;
use crate::generators::hunt_and_kill::{hunt_and_kill, spec_all_walls, spec_generated};
use crate::generators::tools::spec_total_carvings;
use crate::point::point_state::{PointState, VisualIndicator};
use crate::tools::consts::{
    check_size, get_size, normalized_size, valid_size, Maze, MazeOptions,
};
use crate::tools::graph::cells_per_side;
use crate::tools::options::{same_controls, MazeData};
use crate::tools::window::spec_draw;

verus! {

/// A grid of side `size` that holds nothing but walls.
pub fn all_walls(size: usize) -> (maze: Maze)
    requires
        size * size <= usize::MAX,
    ensures
        maze@ == spec_all_walls(size as int),
{
    let cells: usize = size * size;
    let mut maze: Vec<PointState> = Vec::with_capacity(cells);
    let mut i: usize = 0;
    while i < cells
        invariant
            i <= cells,
            maze@ == Seq::new(i as nat, |k: int| PointState::Wall),
        decreases cells - i,
    {
        maze.push(PointState::Wall);
        i = i + 1;
        assert(maze@ =~= Seq::new(i as nat, |k: int| PointState::Wall));
    }
    maze
}

/// Generates the maze that the options describe. An even side is made odd
/// first; then a grid of walls of that side is carved by `hunt_and_kill`.
/// The result is the number of carvings and the maze; size and seed decide
/// both.
pub fn generate(data: &mut MazeData) -> (r: Result<(u64, Maze), MazeError>)
    ensures
        final(data).maze_opt.size == normalized_size(old(data).maze_opt.size as int),
        ({
            let size = normalized_size(old(data).maze_opt.size as int);
            &&& (r is Ok <==> valid_size(size) && !old(data).should_exit)
            &&& (!valid_size(size) ==> (r matches Err(e) && e == MazeError::InvalidOptions))
            &&& (valid_size(size) && old(data).should_exit ==> (r matches Err(e) && e
                == MazeError::Terminated))
            &&& (r is Err ==> *final(data) == (MazeData {
                maze_opt: final(data).maze_opt,
                ..*old(data)
            }) && final(data).maze_opt.seed == old(data).maze_opt.seed
                && final(data).maze_opt.decimate == old(data).maze_opt.decimate
                && final(data).maze_opt.seeder == old(data).maze_opt.seeder)
            &&& (r matches Ok((count, maze)) ==> {
                let end = spec_generated(size, old(data).maze_opt.spec_seeder_state());
                &&& maze@ == end.maze
                &&& count == end.count
                &&& final(data).maze_opt.spec_seeder_state() == end.seeder
                &&& perfect_maze(maze@, size)
                &&& count + 1 == cells_per_side(size) * cells_per_side(size)
                &&& count == spec_total_carvings(size)
                &&& same_controls(
                    MazeData {
                        maze_opt: MazeOptions {
                            size: final(data).maze_opt.size,
                            ..old(data).maze_opt
                        },
                        ..*old(data)
                    },
                    *final(data),
                )
                &&& final(data).gen_proc == 1000
                &&& final(data).pixels@ == spec_draw(
                    maze@,
                    Seq::<Option<VisualIndicator>>::empty(),
                    size * size,
                )
            })
        }),
{
    check_size(data);
    let size: usize = get_size(data)?;
    let mut maze = all_walls(size);
    let count: u64 = hunt_and_kill(&mut maze, data)?;
    Ok((count, maze))
}

} // verus!
