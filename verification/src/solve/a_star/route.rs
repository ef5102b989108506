use vstd::prelude::*;
use crate::point::point::Point;
use crate::point::point_state::PointState;
use crate::tools::graph::{is_path, is_path_between, joined_at, two_apart};
use crate::tools::math::spec_dist;
use crate::tools::matrix::{in_grid, state_at};

verus! {

/// A walk from `a` to `b` through passages only: `a` is a passage in the
/// grid, and each point is joined to the next by a carved connection.
pub open spec fn is_route(
    maze: Seq<PointState>,
    size: int,
    path: Seq<Point>,
    a: Point,
    b: Point,
) -> bool {
    &&& is_path_between(maze, size, path, a, b)
    &&& in_grid(size, a)
    &&& state_at(maze, size, a) == PointState::Passage
}

/// The steps of a route: one for each move to the next centre.
pub open spec fn route_steps(path: Seq<Point>) -> int {
    path.len() - 1
}

/// Whether some route leads from `a` to `b`.
pub open spec fn has_route(maze: Seq<PointState>, size: int, a: Point, b: Point) -> bool {
    exists|path: Seq<Point>| is_route(maze, size, path, a, b)
}

/// A route from `a` to `b` that no other route undercuts.
pub open spec fn is_shortest_route(
    maze: Seq<PointState>,
    size: int,
    path: Seq<Point>,
    a: Point,
    b: Point,
) -> bool {
    &&& is_route(maze, size, path, a, b)
    &&& forall|other: Seq<Point>| #[trigger]
        is_route(maze, size, other, a, b) ==> path.len() <= other.len()
}

/// One move changes the distance to any point by 2 at most.
pub proof fn lemma_dist_step(a: Point, b: Point, e: Point)
    requires
        two_apart(a, b),
    ensures
        spec_dist(a, e) <= spec_dist(b, e) + 2,
        spec_dist(b, e) <= spec_dist(a, e) + 2,
{
}

/// The distance never asks for more steps than a route takes: from its
/// `j`-th point on, a route still has at least the distance to walk.
pub proof fn lemma_dist_along(maze: Seq<PointState>, size: int, path: Seq<Point>, j: int)
    requires
        is_path(maze, size, path),
        0 <= j < path.len(),
    ensures
        spec_dist(path[j], path.last()) <= 2 * (path.len() - 1 - j),
    decreases path.len() - j,
{
    if j < path.len() - 1 {
        lemma_dist_along(maze, size, path, j + 1);
        assert(joined_at(maze, size, path, j));
        lemma_dist_step(path[j], path[j + 1], path.last());
    }
}

} // verus!
