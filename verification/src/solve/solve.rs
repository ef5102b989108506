use vstd::prelude::*;
use crate::error::MazeError;
use crate::point::point::Point;
use crate::point::point_state::VisualIndicator;
use crate::solve::a_star::a_star::{a_star, solvable_size};
use crate::solve::a_star::model::{spec_solved, Task};
use crate::solve::a_star::route::{has_route, is_shortest_route};
use crate::tools::consts::Maze;
use crate::tools::graph::index_of;
use crate::point::point_state::PointState;
use crate::tools::matrix::{in_grid, state_at};
use crate::tools::options::{same_controls, MazeData};
use crate::tools::window::spec_draw;

verus! {

/// How a maze is solved.
#[derive(Debug, Clone, Copy, PartialEq, Eq, Structural)]
pub enum SolveAlgorithm {
    /// The maze is left unsolved.
    Unsolved,
    AStar,
}

impl SolveAlgorithm {
    /// The algorithms in the order in which they are offered.
    pub fn all() -> (all: Vec<SolveAlgorithm>)
        ensures
            all@ == seq![SolveAlgorithm::AStar, SolveAlgorithm::Unsolved],
    {
        let mut all: Vec<SolveAlgorithm> = Vec::new();
        all.push(SolveAlgorithm::AStar);
        all.push(SolveAlgorithm::Unsolved);
        assert(all@ =~= seq![SolveAlgorithm::AStar, SolveAlgorithm::Unsolved]);
        all
    }

    /// The name under which the algorithm is offered.
    pub fn label(&self) -> (name: &'static str)
        ensures
            name@ == (match self {
                SolveAlgorithm::AStar => "A*"@,
                SolveAlgorithm::Unsolved => "None"@,
            }),
    {
        match self {
            SolveAlgorithm::AStar => "A*",
            SolveAlgorithm::Unsolved => "None",
        }
    }
}

/// From where to where a maze is solved, and how.
#[derive(Debug, Clone, Copy)]
pub struct SolveOptions {
    pub start: Point,
    pub end: Point,
    pub algorithm: SolveAlgorithm,
}

impl SolveOptions {
    /// From the first cell centre to the last of a grid of side `size`, by
    /// A*.
    pub fn new(size: usize) -> (options: SolveOptions)
        requires
            size >= 2,
        ensures
            options.start == (Point { x: 1, y: 1 }),
            options.end == (Point { x: (size - 2) as usize, y: (size - 2) as usize }),
            options.algorithm == SolveAlgorithm::AStar,
    {
        let end_coords: usize = size - 2;
        let start = Point { x: 1, y: 1 };
        let end = Point { x: end_coords, y: end_coords };
        SolveOptions { algorithm: SolveAlgorithm::AStar, start, end }
    }
}

/// Solves the maze as `options` ask: by A*, as `a_star` states it, or not
/// at all, which gives an empty way and an overlay without tags.
pub fn solve(maze: &mut Maze, data: &mut MazeData, options: &SolveOptions) -> (r: Result<
    (Vec<Point>, Vec<Option<VisualIndicator>>),
    MazeError,
>)
    requires
        options.algorithm == SolveAlgorithm::AStar && solvable_size(
            old(data).maze_opt.size as int,
        ) ==> old(maze)@.len() == old(data).maze_opt.size * old(data).maze_opt.size,
    ensures
        final(maze)@ == old(maze)@,
        same_controls(*old(data), *final(data)),
        final(data).maze_opt == old(data).maze_opt,
        final(data).gen_proc == old(data).gen_proc,
        options.algorithm == SolveAlgorithm::Unsolved ==> *final(data) == *old(data) && (r matches Ok(
            (path, overlay),
        ) && path@.len() == 0 && overlay@ == Seq::new(
            old(maze)@.len(),
            |i: int| None::<VisualIndicator>,
        )),
        options.algorithm == SolveAlgorithm::AStar ==> ({
            let size = old(data).maze_opt.size as int;
            let inside = in_grid(size, options.start) && in_grid(size, options.end);
            let route = has_route(old(maze)@, size, options.start, options.end);
            &&& !solvable_size(size) ==> (r matches Err(e) && e == MazeError::InvalidOptions)
            &&& solvable_size(size) && !inside ==> (r matches Err(e) && e
                == MazeError::OutOfBounds)
            &&& solvable_size(size) && inside && old(data).should_exit ==> (r matches Err(e) && e
                == MazeError::Terminated)
            &&& solvable_size(size) && inside && !old(data).should_exit && !route ==> (r matches Err(
                e,
            ) && e == MazeError::Unsolvable)
            &&& solvable_size(size) && inside && !old(data).should_exit && route ==> r is Ok
            &&& !solvable_size(size) || !inside || old(data).should_exit || state_at(
                old(maze)@,
                size,
                options.start,
            ) != PointState::Passage ==> *final(data) == *old(data)
            &&& r matches Ok((path, overlay)) ==> {
                &&& is_shortest_route(old(maze)@, size, path@, options.start, options.end)
                &&& (path@, overlay@) == spec_solved(
                    Task { maze: old(maze)@, size: size, start: options.start, end: options.end },
                )
                &&& overlay@.len() == size * size
                &&& overlay@[index_of(size, options.end)] == Some(VisualIndicator::End)
                &&& (options.start != options.end ==> overlay@[index_of(size, options.start)]
                    == Some(VisualIndicator::Start))
                &&& final(data).pixels@ == spec_draw(old(maze)@, overlay@, size * size)
            }
        }),
{
    match options.algorithm {
        SolveAlgorithm::AStar => a_star(maze, data, options),
        SolveAlgorithm::Unsolved => {
            let mut no_visual: Vec<Option<VisualIndicator>> = Vec::with_capacity(maze.len());
            let mut i: usize = 0;
            while i < maze.len()
                invariant
                    i <= maze@.len(),
                    no_visual@ == Seq::new(i as nat, |k: int| None::<VisualIndicator>),
                decreases maze@.len() - i,
            {
                no_visual.push(None);
                i = i + 1;
                assert(no_visual@ =~= Seq::new(i as nat, |k: int| None::<VisualIndicator>));
            }
            Ok((Vec::new(), no_visual))
        },
    }
}

} // verus!
