use vstd::prelude::*;
use crate::point::point::Point;
use crate::point::point_state::PointState;
use crate::tools::consts::valid_size;
use crate::tools::graph::{
    cells_per_side, centre_count, connected, index_of, is_center, lemma_centre_count_update,
    lemma_connected_kept, lemma_connected_self, lemma_connected_step, lemma_connected_symmetric,
    lemma_index_point, lemma_point_index, lemma_wall_count_update, linked, mid, passages_kept,
    point_at, two_apart, wall_count, lemma_center_number,
};
use crate::tools::matrix::{in_grid, state_at};

verus! {

/// Whether `c` lies on the straight run of cells from `from` to `to`.
pub open spec fn on_segment(from: Point, to: Point, c: Point) -> bool {
    ||| (from.x == to.x && c.x == from.x && ((from.y <= c.y <= to.y) || (to.y <= c.y <= from.y)))
    ||| (from.y == to.y && c.y == from.y && ((from.x <= c.x <= to.x) || (to.x <= c.x <= from.x)))
}

/// The grid with every cell from `from` to `to` turned into a passage.
pub open spec fn spec_remove_wall(
    maze: Seq<PointState>,
    size: int,
    from: Point,
    to: Point,
) -> Seq<PointState> {
    Seq::new(
        maze.len(),
        |i: int|
            if on_segment(from, to, point_at(size, i)) {
                PointState::Passage
            } else {
                maze[i]
            },
    )
}

/// Whether `p` is a wall cell that was carved to join the two centres beside
/// it, left and right or above and below.
pub open spec fn is_carved_wall(maze: Seq<PointState>, size: int, p: Point) -> bool {
    ||| (p.x % 2 == 0 && p.y % 2 == 1 && 1 <= p.x && p.x + 1 < size && p.y < size && state_at(
        maze,
        size,
        Point { x: (p.x - 1) as usize, y: p.y },
    ) == PointState::Passage && state_at(maze, size, Point { x: (p.x + 1) as usize, y: p.y })
        == PointState::Passage)
    ||| (p.x % 2 == 1 && p.y % 2 == 0 && 1 <= p.y && p.y + 1 < size && p.x < size && state_at(
        maze,
        size,
        Point { x: p.x, y: (p.y - 1) as usize },
    ) == PointState::Passage && state_at(maze, size, Point { x: p.x, y: (p.y + 1) as usize })
        == PointState::Passage)
}

/// Whether the cell with the index `i` is a passage.
pub open spec fn is_open(maze: Seq<PointState>, i: int) -> bool {
    maze[i] == PointState::Passage
}

/// Every passage is a cell centre or a carved wall between two carved
/// centres: the border and the corners between four centres stay walls.
pub open spec fn well_formed(maze: Seq<PointState>, size: int) -> bool {
    forall|i: int|
        0 <= i < maze.len() && #[trigger] is_open(maze, i) ==> is_center(
            size,
            point_at(size, i),
        ) || is_carved_wall(maze, size, point_at(size, i))
}

/// Any two carved centres are joined by a walk through carved connections.
pub open spec fn all_connected(maze: Seq<PointState>, size: int) -> bool {
    forall|a: Point, b: Point|
        is_center(size, a) && state_at(maze, size, a) == PointState::Passage && is_center(size, b)
            && state_at(maze, size, b) == PointState::Passage ==> #[trigger] connected(
            maze,
            size,
            a,
            b,
        )
}

/// The carved part of the grid is a tree with `count` connections: the
/// passages are `count + 1` centres and the `count` wall cells that join
/// them, and all carved centres are connected.
pub open spec fn carved_tree(maze: Seq<PointState>, size: int, count: int) -> bool {
    &&& maze.len() == size * size
    &&& well_formed(maze, size)
    &&& centre_count(maze, size, cells_per_side(size) * cells_per_side(size)) == count + 1
    &&& wall_count(maze) + 2 * count + 1 == maze.len()
    &&& all_connected(maze, size)
}

/// A perfect maze: every cell centre is carved, and the carved part is a
/// tree, so it has one connection less than there are centres.
pub open spec fn perfect_maze(maze: Seq<PointState>, size: int) -> bool {
    &&& carved_tree(maze, size, cells_per_side(size) * cells_per_side(size) - 1)
    &&& forall|p: Point| is_center(size, p) ==> state_at(maze, size, p) == PointState::Passage
}

/// The run of cells between two centres two apart is the two centres and the
/// cell half-way.
proof fn lemma_segment_cells(size: int, p: Point, n: Point, c: Point)
    requires
        two_apart(p, n),
    ensures
        on_segment(p, n, c) <==> (c == p || c == n || c == mid(p, n)),
        on_segment(n, p, c) <==> (c == p || c == n || c == mid(p, n)),
{
}

/// Carving from a carved centre `p` to an uncarved centre `n` two apart
/// keeps the carved part a tree, with one connection more.
pub proof fn lemma_carve(maze: Seq<PointState>, size: int, count: int, p: Point, n: Point)
    requires
        valid_size(size),
        carved_tree(maze, size, count),
        is_center(size, p),
        is_center(size, n),
        two_apart(p, n),
        state_at(maze, size, p) == PointState::Passage,
        state_at(maze, size, n) == PointState::Wall,
    ensures
        spec_remove_wall(maze, size, p, n) == spec_remove_wall(maze, size, n, p),
        carved_tree(spec_remove_wall(maze, size, p, n), size, count + 1),
        passages_kept(maze, spec_remove_wall(maze, size, p, n)),
        wall_count(spec_remove_wall(maze, size, p, n)) + 2 == wall_count(maze),
        state_at(spec_remove_wall(maze, size, p, n), size, n) == PointState::Passage,
        forall|c: Point|
            in_grid(size, c) && c != n && c != mid(p, n) ==> #[trigger] state_at(
                spec_remove_wall(maze, size, p, n),
                size,
                c,
            ) == state_at(maze, size, c),
{
    let m = mid(p, n);
    assert forall|c: Point| in_grid(size, c) && c != n && c != mid(p, n) implies #[trigger] state_at(
        spec_remove_wall(maze, size, p, n),
        size,
        c,
    ) == state_at(maze, size, c) by {
        lemma_point_index(size, c);
        lemma_segment_cells(size, p, n, c);
    }
    let ip = index_of(size, p);
    let im = index_of(size, m);
    let i_n = index_of(size, n);
    let after = spec_remove_wall(maze, size, p, n);
    let total = cells_per_side(size) * cells_per_side(size);
    lemma_point_index(size, p);
    lemma_point_index(size, m);
    lemma_point_index(size, n);
    assert(!is_center(size, m));
    assert(maze[im] == PointState::Wall) by {
        if maze[im] == PointState::Passage {
            assert(is_open(maze, im));
            assert(is_center(size, point_at(size, im)) || is_carved_wall(
                maze,
                size,
                point_at(size, im),
            ));
        }
    }
    let step1 = maze.update(im, PointState::Passage);
    let step2 = step1.update(i_n, PointState::Passage);
    assert(after =~= step2) by {
        assert forall|i: int| 0 <= i < maze.len() implies after[i] == step2[i] by {
            lemma_index_point(size, i);
            lemma_segment_cells(size, p, n, point_at(size, i));
        }
    }
    assert(spec_remove_wall(maze, size, n, p) =~= after) by {
        assert forall|i: int| 0 <= i < maze.len() implies spec_remove_wall(maze, size, n, p)[i]
            == after[i] by {
            lemma_segment_cells(size, p, n, point_at(size, i));
        }
    }
    lemma_wall_count_update(maze, im, PointState::Passage);
    lemma_wall_count_update(step1, i_n, PointState::Passage);
    lemma_centre_count_update(maze, size, total, im, PointState::Passage);
    lemma_centre_count_update(step1, size, total, i_n, PointState::Passage);
    lemma_center_number(size, n);
    assert(passages_kept(maze, after));
    lemma_carve_well_formed(maze, size, p, n);
    lemma_carve_connected(maze, size, p, n);
}

proof fn lemma_carve_well_formed(maze: Seq<PointState>, size: int, p: Point, n: Point)
    requires
        valid_size(size),
        maze.len() == size * size,
        well_formed(maze, size),
        is_center(size, p),
        is_center(size, n),
        two_apart(p, n),
        state_at(maze, size, p) == PointState::Passage,
        passages_kept(maze, spec_remove_wall(maze, size, p, n)),
    ensures
        well_formed(spec_remove_wall(maze, size, p, n), size),
{
    let after = spec_remove_wall(maze, size, p, n);
    let m = mid(p, n);
    lemma_point_index(size, p);
    lemma_point_index(size, m);
    lemma_point_index(size, n);
    assert(after[index_of(size, p)] == PointState::Passage);
    assert(after[index_of(size, n)] == PointState::Passage);
    assert forall|i: int| 0 <= i < after.len() && #[trigger] is_open(after, i) implies is_center(
        size,
        point_at(size, i),
    ) || is_carved_wall(after, size, point_at(size, i)) by {
        let c = point_at(size, i);
        lemma_index_point(size, i);
        lemma_segment_cells(size, p, n, c);
        if c == m {
            assert(is_carved_wall(after, size, c));
        } else if c == p || c == n {
        } else {
            assert(is_open(maze, i));
            if !is_center(size, c) {
                assert(is_carved_wall(maze, size, c));
                if c.x % 2 == 0 {
                    let l = Point { x: (c.x - 1) as usize, y: c.y };
                    let r = Point { x: (c.x + 1) as usize, y: c.y };
                    lemma_point_index(size, l);
                    lemma_point_index(size, r);
                    assert(after[index_of(size, l)] == PointState::Passage);
                    assert(after[index_of(size, r)] == PointState::Passage);
                } else {
                    let u = Point { x: c.x, y: (c.y - 1) as usize };
                    let d = Point { x: c.x, y: (c.y + 1) as usize };
                    lemma_point_index(size, u);
                    lemma_point_index(size, d);
                    assert(after[index_of(size, u)] == PointState::Passage);
                    assert(after[index_of(size, d)] == PointState::Passage);
                }
                assert(is_carved_wall(after, size, c));
            }
        }
    }
}

proof fn lemma_carve_connected(maze: Seq<PointState>, size: int, p: Point, n: Point)
    requires
        valid_size(size),
        maze.len() == size * size,
        all_connected(maze, size),
        is_center(size, p),
        is_center(size, n),
        two_apart(p, n),
        state_at(maze, size, p) == PointState::Passage,
        passages_kept(maze, spec_remove_wall(maze, size, p, n)),
    ensures
        all_connected(spec_remove_wall(maze, size, p, n), size),
{
    let after = spec_remove_wall(maze, size, p, n);
    let m = mid(p, n);
    lemma_point_index(size, p);
    lemma_point_index(size, m);
    lemma_point_index(size, n);
    assert(after[index_of(size, p)] == PointState::Passage);
    assert(after[index_of(size, m)] == PointState::Passage);
    assert(after[index_of(size, n)] == PointState::Passage);
    assert(linked(after, size, p, n));
    assert forall|a: Point, b: Point|
        is_center(size, a) && state_at(after, size, a) == PointState::Passage && is_center(size, b)
            && state_at(after, size, b) == PointState::Passage implies #[trigger] connected(
        after,
        size,
        a,
        b,
    ) by {
        lemma_point_index(size, a);
        lemma_point_index(size, b);
        lemma_segment_cells(size, p, n, a);
        lemma_segment_cells(size, p, n, b);
        if a == n {
            if b == n {
                lemma_connected_self(after, size, n);
            } else {
                assert(state_at(maze, size, b) == PointState::Passage);
                assert(connected(maze, size, b, p));
                lemma_connected_kept(maze, after, size, b, p);
                lemma_connected_step(after, size, b, p, n);
                lemma_connected_symmetric(after, size, b, n);
            }
        } else {
            assert(state_at(maze, size, a) == PointState::Passage);
            if b == n {
                assert(connected(maze, size, a, p));
                lemma_connected_kept(maze, after, size, a, p);
                lemma_connected_step(after, size, a, p, n);
            } else {
                assert(state_at(maze, size, b) == PointState::Passage);
                assert(connected(maze, size, a, b));
                lemma_connected_kept(maze, after, size, a, b);
            }
        }
    }
}

} // verus!
