use vstd::prelude::*;
use crate::point::direction::Direction;
use crate::point::point::Point;
use crate::point::point_state::PointState;
use crate::tools::consts::valid_size;
use crate::tools::math::{spec_index, lemma_index_round_trip, lemma_coords_round_trip};
use crate::tools::matrix::{in_grid, state_at, spec_go_to_dir, spec_pos_between};

verus! {

/// Cell centres along one side of the grid.
pub open spec fn cells_per_side(size: int) -> int {
    (size - 1) / 2
}

/// Whether `p` is a cell centre: in the grid, both coordinates odd.
pub open spec fn is_center(size: int, p: Point) -> bool {
    p.x % 2 == 1 && p.y % 2 == 1 && p.x < size && p.y < size
}

/// The `k`-th cell centre, counting row by row.
pub open spec fn center_of(size: int, k: int) -> Point {
    let c = cells_per_side(size);
    Point { x: (2 * (k % c) + 1) as usize, y: (2 * (k / c) + 1) as usize }
}

/// The place of the centre `p` in the row-by-row count.
pub open spec fn center_number(size: int, p: Point) -> int {
    ((p.y - 1) / 2) * cells_per_side(size) + (p.x - 1) / 2
}

/// The point with the index `i`.
pub open spec fn point_at(size: int, i: int) -> Point {
    Point { x: (i % size) as usize, y: (i / size) as usize }
}

/// The index of `p`.
pub open spec fn index_of(size: int, p: Point) -> int {
    spec_index(p.x as int, p.y as int, size)
}

/// The cell half-way between two points.
pub open spec fn mid(a: Point, b: Point) -> Point {
    Point { x: ((a.x + b.x) / 2) as usize, y: ((a.y + b.y) / 2) as usize }
}

/// Whether `a` and `b` are two steps apart along a row or a column.
pub open spec fn two_apart(a: Point, b: Point) -> bool {
    ||| (a.x == b.x && (a.y + 2 == b.y || b.y + 2 == a.y))
    ||| (a.y == b.y && (a.x + 2 == b.x || b.x + 2 == a.x))
}

/// A carved connection: two cells two steps apart, both passages, with a
/// passage between them.
pub open spec fn linked(maze: Seq<PointState>, size: int, a: Point, b: Point) -> bool {
    &&& in_grid(size, a)
    &&& in_grid(size, b)
    &&& two_apart(a, b)
    &&& state_at(maze, size, a) == PointState::Passage
    &&& state_at(maze, size, b) == PointState::Passage
    &&& state_at(maze, size, mid(a, b)) == PointState::Passage
}

/// Whether the `i`-th point of `path` is joined to the next.
pub open spec fn joined_at(maze: Seq<PointState>, size: int, path: Seq<Point>, i: int) -> bool {
    linked(maze, size, path[i], path[i + 1])
}

/// A walk through carved connections: at least one point, each joined to
/// the next.
pub open spec fn is_path(maze: Seq<PointState>, size: int, path: Seq<Point>) -> bool {
    &&& path.len() >= 1
    &&& forall|i: int| 0 <= i < path.len() - 1 ==> #[trigger] joined_at(maze, size, path, i)
}

/// A walk through carved connections from `a` to `b`.
pub open spec fn is_path_between(
    maze: Seq<PointState>,
    size: int,
    path: Seq<Point>,
    a: Point,
    b: Point,
) -> bool {
    is_path(maze, size, path) && path[0] == a && path.last() == b
}

/// Whether some walk through carved connections leads from `a` to `b`.
pub open spec fn connected(maze: Seq<PointState>, size: int, a: Point, b: Point) -> bool {
    exists|path: Seq<Point>| is_path_between(maze, size, path, a, b)
}

/// Whether `after` has every passage that `before` has.
pub open spec fn passages_kept(before: Seq<PointState>, after: Seq<PointState>) -> bool {
    &&& before.len() == after.len()
    &&& forall|i: int|
        0 <= i < before.len() && before[i] == PointState::Passage ==> #[trigger] after[i]
            == PointState::Passage
}

/// How many of the cells are walls.
pub open spec fn wall_count(maze: Seq<PointState>) -> nat
    decreases maze.len(),
{
    if maze.len() == 0 {
        0
    } else {
        wall_count(maze.drop_last()) + if maze.last() == PointState::Wall {
            1nat
        } else {
            0nat
        }
    }
}

/// How many of the first `k` cell centres are passages.
pub open spec fn centre_count(maze: Seq<PointState>, size: int, k: int) -> int
    decreases k,
{
    if k <= 0 {
        0
    } else {
        centre_count(maze, size, k - 1) + if state_at(maze, size, center_of(size, k - 1))
            == PointState::Passage {
            1int
        } else {
            0int
        }
    }
}

/// 1 for a passage, 0 for a wall.
pub open spec fn passage_unit(s: PointState) -> int {
    if s == PointState::Passage {
        1
    } else {
        0
    }
}

/// A point of the grid has an index in the grid, which leads back to it.
pub proof fn lemma_point_index(size: int, p: Point)
    requires
        size > 0,
        in_grid(size, p),
    ensures
        0 <= index_of(size, p) < size * size,
        point_at(size, index_of(size, p)) == p,
{
    lemma_index_round_trip(p.x as int, p.y as int, size);
}

/// An index in the grid belongs to a point of the grid, which leads back
/// to it.
pub proof fn lemma_index_point(size: int, i: int)
    requires
        size > 0,
        0 <= i < size * size,
        size * size <= usize::MAX,
    ensures
        in_grid(size, point_at(size, i)),
        index_of(size, point_at(size, i)) == i,
{
    lemma_coords_round_trip(i, size);
    assert(i / size < size) by (nonlinear_arith)
        requires 0 <= i < size * size, size > 0;
    assert(0 <= i / size) by (nonlinear_arith)
        requires 0 <= i, size > 0;
}

/// The `k`-th centre is a centre, and its number is `k`.
pub proof fn lemma_center_of(size: int, k: int)
    requires
        valid_size(size),
        0 <= k < cells_per_side(size) * cells_per_side(size),
    ensures
        is_center(size, center_of(size, k)),
        center_number(size, center_of(size, k)) == k,
{
    let c = cells_per_side(size);
    assert(size <= size * size) by (nonlinear_arith)
        requires size >= 1;
    assert(0 <= k / c < c) by (nonlinear_arith)
        requires 0 <= k < c * c, c > 0;
    assert(0 <= k % c < c);
    lemma_coords_round_trip(k, c);
}

/// Every centre has a number below the count of centres, and is the centre
/// of that number.
pub proof fn lemma_center_number(size: int, p: Point)
    requires
        valid_size(size),
        is_center(size, p),
    ensures
        0 <= center_number(size, p) < cells_per_side(size) * cells_per_side(size),
        center_of(size, center_number(size, p)) == p,
{
    let c = cells_per_side(size);
    let a = (p.x - 1) / 2;
    let b = (p.y - 1) / 2;
    lemma_index_round_trip(a, b, c);
}

/// No more cells are walls than there are.
pub proof fn lemma_wall_count_le(maze: Seq<PointState>)
    ensures
        wall_count(maze) <= maze.len(),
    decreases maze.len(),
{
    if maze.len() > 0 {
        lemma_wall_count_le(maze.drop_last());
    }
}

/// In a grid of walls every cell counts.
pub proof fn lemma_wall_count_all(maze: Seq<PointState>)
    requires
        forall|i: int| 0 <= i < maze.len() ==> maze[i] == PointState::Wall,
    ensures
        wall_count(maze) == maze.len(),
    decreases maze.len(),
{
    if maze.len() > 0 {
        lemma_wall_count_all(maze.drop_last());
    }
}

/// Overwriting one cell changes the number of walls by what that cell was
/// and becomes.
pub proof fn lemma_wall_count_update(maze: Seq<PointState>, i: int, v: PointState)
    requires
        0 <= i < maze.len(),
    ensures
        wall_count(maze.update(i, v)) + passage_unit(v) == wall_count(maze) + passage_unit(maze[i]),
    decreases maze.len(),
{
    if i == maze.len() - 1 {
        assert(maze.update(i, v).drop_last() =~= maze.drop_last());
    } else {
        assert(maze.update(i, v).drop_last() =~= maze.drop_last().update(i, v));
        lemma_wall_count_update(maze.drop_last(), i, v);
    }
}

/// Overwriting one cell changes the number of carved centres only if the
/// cell is one of the centres counted.
pub proof fn lemma_centre_count_update(
    maze: Seq<PointState>,
    size: int,
    k: int,
    i: int,
    v: PointState,
)
    requires
        valid_size(size),
        maze.len() == size * size,
        0 <= k <= cells_per_side(size) * cells_per_side(size),
        0 <= i < maze.len(),
    ensures
        centre_count(maze.update(i, v), size, k) == centre_count(maze, size, k) + (if is_center(
            size,
            point_at(size, i),
        ) && center_number(size, point_at(size, i)) < k {
            passage_unit(v) - passage_unit(maze[i])
        } else {
            0
        }),
    decreases k,
{
    if k > 0 {
        lemma_centre_count_update(maze, size, k - 1, i, v);
        let q = center_of(size, k - 1);
        lemma_center_of(size, k - 1);
        lemma_point_index(size, q);
        lemma_index_point(size, i);
        let p = point_at(size, i);
        if is_center(size, p) {
            lemma_center_number(size, p);
        }
        if index_of(size, q) == i {
            assert(q == p);
        } else {
            assert(q != p);
        }
    }
}

/// When every centre is a passage, the count of carved centres is the count
/// of centres.
pub proof fn lemma_centre_count_full(maze: Seq<PointState>, size: int, k: int)
    requires
        valid_size(size),
        0 <= k <= cells_per_side(size) * cells_per_side(size),
        forall|p: Point| is_center(size, p) ==> state_at(maze, size, p) == PointState::Passage,
    ensures
        centre_count(maze, size, k) == k,
    decreases k,
{
    if k > 0 {
        lemma_centre_count_full(maze, size, k - 1);
        lemma_center_of(size, k - 1);
    }
}

/// A carved connection can be walked both ways.
pub proof fn lemma_linked_symmetric(maze: Seq<PointState>, size: int, a: Point, b: Point)
    requires
        linked(maze, size, a, b),
    ensures
        linked(maze, size, b, a),
{
    assert(mid(a, b) == mid(b, a));
}

/// A connection stays one when passages are only added.
pub proof fn lemma_linked_kept(
    before: Seq<PointState>,
    after: Seq<PointState>,
    size: int,
    a: Point,
    b: Point,
)
    requires
        size > 0,
        before.len() == size * size,
        passages_kept(before, after),
        linked(before, size, a, b),
    ensures
        linked(after, size, a, b),
{
    lemma_point_index(size, a);
    lemma_point_index(size, b);
    let m = mid(a, b);
    assert(in_grid(size, m));
    lemma_point_index(size, m);
    assert(after[index_of(size, a)] == PointState::Passage);
    assert(after[index_of(size, b)] == PointState::Passage);
    assert(after[index_of(size, m)] == PointState::Passage);
}

/// A walk stays one when passages are only added.
pub proof fn lemma_path_kept(
    before: Seq<PointState>,
    after: Seq<PointState>,
    size: int,
    path: Seq<Point>,
)
    requires
        size > 0,
        before.len() == size * size,
        passages_kept(before, after),
        is_path(before, size, path),
    ensures
        is_path(after, size, path),
{
    assert forall|i: int| 0 <= i < path.len() - 1 implies #[trigger] joined_at(
        after,
        size,
        path,
        i,
    ) by {
        assert(joined_at(before, size, path, i));
        lemma_linked_kept(before, after, size, path[i], path[i + 1]);
    }
}

/// What is connected stays connected when passages are only added.
pub proof fn lemma_connected_kept(
    before: Seq<PointState>,
    after: Seq<PointState>,
    size: int,
    a: Point,
    b: Point,
)
    requires
        size > 0,
        before.len() == size * size,
        passages_kept(before, after),
        connected(before, size, a, b),
    ensures
        connected(after, size, a, b),
{
    let path = choose|path: Seq<Point>| is_path_between(before, size, path, a, b);
    lemma_path_kept(before, after, size, path);
    assert(is_path_between(after, size, path, a, b));
}

/// A point is connected to itself.
pub proof fn lemma_connected_self(maze: Seq<PointState>, size: int, a: Point)
    ensures
        connected(maze, size, a, a),
{
    let path = seq![a];
    assert(is_path_between(maze, size, path, a, a));
}

/// A walk to `b` goes on over a connection from `b` to `c`.
pub proof fn lemma_connected_step(maze: Seq<PointState>, size: int, a: Point, b: Point, c: Point)
    requires
        connected(maze, size, a, b),
        linked(maze, size, b, c),
    ensures
        connected(maze, size, a, c),
{
    let path = choose|path: Seq<Point>| is_path_between(maze, size, path, a, b);
    let longer = path.push(c);
    assert forall|i: int| 0 <= i < longer.len() - 1 implies #[trigger] joined_at(
        maze,
        size,
        longer,
        i,
    ) by {
        if i < path.len() - 1 {
            assert(joined_at(maze, size, path, i));
            assert(longer[i] == path[i]);
            assert(longer[i + 1] == path[i + 1]);
        }
    }
    assert(is_path_between(maze, size, longer, a, c));
}

/// Walks can be joined end to start.
pub proof fn lemma_connected_transitive(
    maze: Seq<PointState>,
    size: int,
    a: Point,
    b: Point,
    c: Point,
)
    requires
        connected(maze, size, a, b),
        connected(maze, size, b, c),
    ensures
        connected(maze, size, a, c),
{
    let second = choose|path: Seq<Point>| is_path_between(maze, size, path, b, c);
    lemma_join(maze, size, a, second, second.len() as int);
}

proof fn lemma_join(maze: Seq<PointState>, size: int, a: Point, second: Seq<Point>, n: int)
    requires
        is_path(maze, size, second),
        connected(maze, size, a, second[0]),
        1 <= n <= second.len(),
    ensures
        connected(maze, size, a, second[n - 1]),
    decreases n,
{
    if n > 1 {
        lemma_join(maze, size, a, second, n - 1);
        assert(joined_at(maze, size, second, n - 2));
        lemma_connected_step(maze, size, a, second[n - 2], second[n - 1]);
    }
}

/// A walk can be walked backwards.
pub proof fn lemma_connected_symmetric(maze: Seq<PointState>, size: int, a: Point, b: Point)
    requires
        connected(maze, size, a, b),
    ensures
        connected(maze, size, b, a),
{
    let path = choose|path: Seq<Point>| is_path_between(maze, size, path, a, b);
    lemma_back(maze, size, path, path.len() as int);
}

proof fn lemma_back(maze: Seq<PointState>, size: int, path: Seq<Point>, n: int)
    requires
        is_path(maze, size, path),
        1 <= n <= path.len(),
    ensures
        connected(maze, size, path[n - 1], path[0]),
    decreases n,
{
    if n == 1 {
        lemma_connected_self(maze, size, path[0]);
    } else {
        lemma_back(maze, size, path, n - 1);
        assert(joined_at(maze, size, path, n - 2));
        lemma_linked_symmetric(maze, size, path[n - 2], path[n - 1]);
        lemma_connected_self(maze, size, path[n - 1]);
        lemma_connected_step(maze, size, path[n - 1], path[n - 1], path[n - 2]);
        lemma_connected_transitive(maze, size, path[n - 1], path[n - 2], path[0]);
    }
}

/// Going two steps towards `dir` from a point in the grid gives a point two
/// apart, and the cell between them is the one half-way.
pub proof fn lemma_dir_geometry(size: int, a: Point, dir: Direction)
    requires
        size <= usize::MAX,
        in_grid(size, a),
        spec_go_to_dir(size, a, dir) is Some,
    ensures
        in_grid(size, spec_go_to_dir(size, a, dir).unwrap()),
        two_apart(a, spec_go_to_dir(size, a, dir).unwrap()),
        spec_pos_between(size, a, dir) == Some(mid(a, spec_go_to_dir(size, a, dir).unwrap())),
        in_grid(size, mid(a, spec_go_to_dir(size, a, dir).unwrap())),
        is_center(size, a) ==> is_center(size, spec_go_to_dir(size, a, dir).unwrap()),
{
}

} // verus!
