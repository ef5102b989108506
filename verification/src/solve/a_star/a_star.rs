use vstd::prelude::*;
use crate::error::MazeError;
use crate::point::direction::Direction;
use crate::point::point::Point;
use crate::point::point_state::{Color, PointState, VisualIndicator};
use crate::solve::a_star::model::{
    goes_before, lemma_search_ended, spec_key, spec_advance, spec_begin, spec_expand, spec_heat,
    spec_lowest_upto, spec_reached_tag, spec_relax, spec_search, spec_searched, spec_solved,
    spec_way, SearchState, Task,
};
pub use crate::solve::a_star::model::Search;
use crate::solve::a_star::node::{Node, UNREACHED};
use crate::solve::a_star::route::{
    has_route, is_route, is_shortest_route, lemma_dist_along, lemma_dist_step, route_steps,
};
use crate::solve::solve::SolveOptions;
use crate::tools::consts::{valid_size, Maze};
use crate::tools::options::{same_controls, MazeData};
use crate::tools::window::{publishes, spec_attempted, spec_draw, update_maze_debug};
use crate::tools::graph::{
    index_of, is_path, joined_at, lemma_dir_geometry, lemma_point_index, linked, mid, point_at,
};
use crate::tools::math::{get_dist, point_to_numb, spec_capped_dist, spec_dist};
use crate::tools::matrix::{
    get_pos_between, go_to_dir, has_passage_between, in_grid, spec_go_to_dir, state_at,
};

verus! {

/// Whether a grid of side `size` can be searched: it can be carved, and no
/// step count or cost on it comes near `UNREACHED`.
pub open spec fn solvable_size(size: int) -> bool {
    valid_size(size) && 2 * (size * size) + 2 * size + 2 < UNREACHED
}

/// How many of the flags are set.
pub open spec fn closed_count(closed: Seq<bool>) -> nat
    decreases closed.len(),
{
    if closed.len() == 0 {
        0
    } else {
        closed_count(closed.drop_last()) + if closed.last() {
            1nat
        } else {
            0nat
        }
    }
}

/// No more flags are set than there are.
pub proof fn lemma_closed_count_le(closed: Seq<bool>)
    ensures
        closed_count(closed) <= closed.len(),
    decreases closed.len(),
{
    if closed.len() > 0 {
        lemma_closed_count_le(closed.drop_last());
    }
}

/// Where no flag is set, the count is zero.
pub proof fn lemma_closed_count_none(closed: Seq<bool>)
    requires
        forall|i: int| 0 <= i < closed.len() ==> !closed[i],
    ensures
        closed_count(closed) == 0,
    decreases closed.len(),
{
    if closed.len() > 0 {
        lemma_closed_count_none(closed.drop_last());
    }
}

/// Setting a flag that was not set raises the count by one.
pub proof fn lemma_closed_count_set(closed: Seq<bool>, i: int)
    requires
        0 <= i < closed.len(),
        !closed[i],
    ensures
        closed_count(closed.update(i, true)) == closed_count(closed) + 1,
    decreases closed.len(),
{
    if i == closed.len() - 1 {
        assert(closed.update(i, true).drop_last() =~= closed.drop_last());
    } else {
        assert(closed.update(i, true).drop_last() =~= closed.drop_last().update(i, true));
        lemma_closed_count_set(closed.drop_last(), i);
    }
}

/// How warm a cell is shown, as `spec_heat` states it.
pub fn heat(dist: u64, start_cost: u64) -> (h: u8)
    ensures
        h == spec_heat(dist, start_cost),
{
    if start_cost == 0 {
        return 0;
    }
    let gap: u128 = if dist <= start_cost {
        (start_cost - dist) as u128
    } else {
        (dist - start_cost) as u128
    };
    let scaled: u128 = 255 * gap / (start_cost as u128);
    if scaled > 255 {
        255
    } else {
        scaled as u8
    }
}

/// A search in progress.
pub struct AStar {
    pub size: usize,
    pub start: Point,
    pub end: Point,
    /// One node per cell, row by row.
    pub nodes: Vec<Node>,
    /// The cells that were taken from the fringe and expanded.
    pub closed: Vec<bool>,
    /// The fringe: reached cells that wait to be expanded.
    pub pending: Vec<Point>,
    pub visual_overwrites: Vec<Option<VisualIndicator>>,
    /// The distance from start to end.
    pub start_cost: u64,
}

impl AStar {
    /// The search as the contracts see it.
    pub open spec fn state(&self) -> SearchState {
        SearchState {
            nodes: self.nodes@,
            closed: self.closed@,
            pending: self.pending@,
            overlay: self.visual_overwrites@,
        }
    }

    /// What the search is made for.
    pub open spec fn task(&self, maze: Seq<PointState>) -> Task {
        Task { maze: maze, size: self.size as int, start: self.start, end: self.end }
    }

    /// The node of the cell `p`.
    pub open spec fn node_at(&self, p: Point) -> Node {
        self.nodes@[index_of(self.size as int, p)]
    }

    /// Whether the cell `p` was expanded.
    pub open spec fn is_closed(&self, p: Point) -> bool {
        self.closed@[index_of(self.size as int, p)]
    }

    /// What the fringe is ordered by: the steps to `p` counted twice, since
    /// a move covers two cells of distance, plus the distance left; that is
    /// the cost of `p` plus its steps.
    pub open spec fn key_of(&self, p: Point) -> int {
        spec_key(self.node_at(p))
    }

    /// Whether the search has found a way to `p`.
    pub open spec fn is_reached(&self, p: Point) -> bool {
        self.node_at(p).steps < UNREACHED
    }

    /// The tables have one entry per cell, each node knows its place, and
    /// start and end lie in the grid.
    pub open spec fn shape(&self, maze: Seq<PointState>) -> bool {
        &&& solvable_size(self.size as int)
        &&& maze.len() == self.size * self.size
        &&& self.nodes@.len() == self.size * self.size
        &&& self.closed@.len() == self.size * self.size
        &&& self.visual_overwrites@.len() == self.size * self.size
        &&& in_grid(self.size as int, self.start)
        &&& in_grid(self.size as int, self.end)
        &&& state_at(maze, self.size as int, self.start) == PointState::Passage
        &&& self.start_cost == spec_capped_dist(self.start, self.end)
        &&& forall|i: int|
            0 <= i < self.nodes@.len() ==> (#[trigger] self.nodes@[i]).pos == point_at(
                self.size as int,
                i,
            ) && self.nodes@[i].end == self.end
    }

    /// A reached cell is a passage, costs its steps plus its distance to the
    /// end, and is no more steps away than there are expanded cells. An
    /// unreached cell is not expanded.
    pub open spec fn costs(&self, maze: Seq<PointState>) -> bool {
        forall|p: Point|
            in_grid(self.size as int, p) ==> {
                let n = #[trigger] self.node_at(p);
                &&& n.steps <= UNREACHED
                &&& (n.steps < UNREACHED ==> n.cost == n.steps + spec_dist(p, self.end) && n.steps
                    <= closed_count(self.closed@) && state_at(maze, self.size as int, p)
                    == PointState::Passage)
                &&& (n.steps == UNREACHED ==> n.cost == UNREACHED && !self.is_closed(p))
            }
    }

    /// The start is no steps away, and every other reached cell is one step
    /// beyond its parent, an expanded cell that it is joined to.
    pub open spec fn origin(&self, maze: Seq<PointState>) -> bool {
        &&& self.node_at(self.start).steps == 0
        &&& forall|p: Point|
            in_grid(self.size as int, p) && p != self.start && #[trigger] self.is_reached(p) ==> {
                let n = self.node_at(p);
                &&& n.steps >= 1
                &&& n.parent matches Some(u)
                &&& in_grid(self.size as int, u)
                &&& self.is_closed(u)
                &&& linked(maze, self.size as int, u, p)
                &&& self.node_at(u).steps + 1 == n.steps
            }
    }

    /// Every cell joined to an expanded cell is at most one step beyond it;
    /// the cell `except` is being expanded and exempt.
    pub open spec fn settled(&self, maze: Seq<PointState>, except: Option<Point>) -> bool {
        forall|c: Point, w: Point|
            in_grid(self.size as int, c) && #[trigger] self.is_closed(c) && Some(c) != except
                && #[trigger] linked(maze, self.size as int, c, w) ==> self.node_at(w).steps
                <= self.node_at(c).steps + 1
    }

    /// No expanded cell has a higher key than a reached cell that still
    /// waits.
    pub open spec fn order(&self) -> bool {
        forall|c: Point, u: Point|
            in_grid(self.size as int, c) && in_grid(self.size as int, u) && #[trigger] self.is_closed(
                c,
            ) && !self.is_closed(u) && (#[trigger] self.node_at(u)).steps < UNREACHED
                ==> self.key_of(c) <= self.key_of(u)
    }

    /// Every reached cell that is not expanded waits in the fringe, and the
    /// fringe holds reached cells only.
    pub open spec fn fringe(&self) -> bool {
        &&& forall|p: Point|
            in_grid(self.size as int, p) && (#[trigger] self.node_at(p)).steps < UNREACHED
                && !self.is_closed(p) ==> self.pending@.contains(p)
        &&& forall|k: int|
            0 <= k < self.pending@.len() ==> in_grid(self.size as int, #[trigger] self.pending@[k])
                && self.node_at(self.pending@[k]).steps < UNREACHED
    }

    /// What holds between two turns of the search.
    pub open spec fn inv(&self, maze: Seq<PointState>) -> bool {
        &&& self.shape(maze)
        &&& self.costs(maze)
        &&& self.origin(maze)
        &&& self.settled(maze, None)
        &&& self.order()
        &&& self.fringe()
        &&& !self.is_closed(self.end)
    }

    /// No expanded cell has a higher key than `p`.
    pub open spec fn top(&self, p: Point) -> bool {
        forall|c: Point|
            in_grid(self.size as int, c) && #[trigger] self.is_closed(c) ==> self.key_of(c)
                <= self.key_of(p)
    }

    /// The cells joined to `p` in the first `k` directions are at most one
    /// step beyond it.
    pub open spec fn relaxed(&self, maze: Seq<PointState>, p: Point, k: int) -> bool {
        forall|j: int|
            0 <= j < k ==> (match #[trigger] spec_go_to_dir(
                self.size as int,
                p,
                Direction::spec_all()[j],
            ) {
                Some(w) => linked(maze, self.size as int, p, w) ==> self.node_at(w).steps
                    <= self.node_at(p).steps + 1,
                None => true,
            })
    }

    /// What holds while `p` is being expanded and its first `k` directions
    /// are done.
    pub open spec fn mid(&self, maze: Seq<PointState>, p: Point, k: int) -> bool {
        &&& self.shape(maze)
        &&& self.costs(maze)
        &&& self.origin(maze)
        &&& self.settled(maze, Some(p))
        &&& self.order()
        &&& self.fringe()
        &&& !self.is_closed(self.end)
        &&& in_grid(self.size as int, p)
        &&& self.is_closed(p)
        &&& self.node_at(p).steps + 1 <= closed_count(self.closed@)
        &&& self.top(p)
        &&& self.relaxed(maze, p, k)
    }

    /// What is left to do at most: five turns for each cell not yet expanded,
    /// and one for each cell in the fringe.
    pub open spec fn work(&self) -> int {
        5 * (self.closed@.len() - closed_count(self.closed@)) + self.pending@.len()
    }
}

/// A cell joined to `p` lies in one of the four directions from it.
proof fn lemma_linked_dir(maze: Seq<PointState>, size: int, p: Point, w: Point) -> (j: int)
    requires
        size <= usize::MAX,
        linked(maze, size, p, w),
    ensures
        0 <= j < 4,
        spec_go_to_dir(size, p, Direction::spec_all()[j]) == Some(w),
{
    if w.x == p.x && w.y + 2 == p.y {
        0
    } else if w.y == p.y && w.x + 2 == p.x {
        1
    } else if w.y == p.y && p.x + 2 == w.x {
        2
    } else {
        3
    }
}

/// When all four directions of the expanded cell are done, the search is
/// between two turns again.
proof fn lemma_mid_done(st: AStar, maze: Seq<PointState>, p: Point)
    requires
        st.mid(maze, p, 4),
    ensures
        st.inv(maze),
{
    assert forall|c: Point, w: Point|
        in_grid(st.size as int, c) && #[trigger] st.is_closed(c) && #[trigger] linked(
            maze,
            st.size as int,
            c,
            w,
        ) implies st.node_at(w).steps <= st.node_at(c).steps + 1 by {
        if c == p {
            let j = lemma_linked_dir(maze, st.size as int, p, w);
            assert(spec_go_to_dir(st.size as int, p, Direction::spec_all()[j]) == Some(w));
        } else {
            assert(Some(c) != Some(p));
        }
    }
}

/// Nodes of different cells are different entries.
proof fn lemma_other_cell(size: int, p: Point, q: Point)
    requires
        size > 0,
        in_grid(size, p),
        in_grid(size, q),
        p != q,
    ensures
        index_of(size, p) != index_of(size, q),
        0 <= index_of(size, p) < size * size,
        0 <= index_of(size, q) < size * size,
{
    lemma_point_index(size, p);
    lemma_point_index(size, q);
}

/// What a step of the search leaves as it was when it replaces the node of
/// `w` as `fresh`: the grid's side, start and end, the expanded cells and
/// the nodes of all other cells.
pub open spec fn framed(old_st: AStar, new_st: AStar, w: Point, fresh: Node) -> bool {
    &&& new_st.size == old_st.size
    &&& new_st.start == old_st.start
    &&& new_st.end == old_st.end
    &&& new_st.closed@ == old_st.closed@
    &&& in_grid(old_st.size as int, w)
    &&& new_st.node_at(w) == fresh
    &&& forall|q: Point|
        in_grid(old_st.size as int, q) && q != w ==> #[trigger] new_st.node_at(q)
            == old_st.node_at(q)
}

proof fn lemma_frame(old_st: AStar, new_st: AStar, maze: Seq<PointState>, w: Point, fresh: Node)
    requires
        old_st.shape(maze),
        in_grid(old_st.size as int, w),
        new_st.size == old_st.size,
        new_st.start == old_st.start,
        new_st.end == old_st.end,
        new_st.closed@ == old_st.closed@,
        new_st.start_cost == old_st.start_cost,
        new_st.visual_overwrites@.len() == old_st.visual_overwrites@.len(),
        new_st.nodes@ == old_st.nodes@.update(index_of(old_st.size as int, w), fresh),
        fresh.pos == w,
        fresh.end == old_st.end,
    ensures
        framed(old_st, new_st, w, fresh),
        new_st.shape(maze),
{
    let size = old_st.size as int;
    let iw = index_of(size, w);
    lemma_point_index(size, w);
    assert forall|q: Point| in_grid(size, q) && q != w implies #[trigger] new_st.node_at(q)
        == old_st.node_at(q) by {
        lemma_other_cell(size, q, w);
    }
    assert forall|i: int| 0 <= i < new_st.nodes@.len() implies (#[trigger] new_st.nodes@[i]).pos
        == point_at(size, i) && new_st.nodes@[i].end == new_st.end by {
        if i != iw {
            assert(new_st.nodes@[i] == old_st.nodes@[i]);
        }
    }
}

proof fn lemma_keep_costs(old_st: AStar, new_st: AStar, maze: Seq<PointState>, w: Point, fresh: Node)
    requires
        old_st.costs(maze),
        framed(old_st, new_st, w, fresh),
        fresh.steps < UNREACHED,
        fresh.cost == fresh.steps + spec_dist(w, old_st.end),
        fresh.steps <= closed_count(old_st.closed@),
        state_at(maze, old_st.size as int, w) == PointState::Passage,
    ensures
        new_st.costs(maze),
{
    let size = old_st.size as int;
    assert forall|q: Point| in_grid(size, q) implies ({
        let n = #[trigger] new_st.node_at(q);
        &&& n.steps <= UNREACHED
        &&& (n.steps < UNREACHED ==> n.cost == n.steps + spec_dist(q, new_st.end) && n.steps <= closed_count(new_st.closed@) && state_at(maze, size, q) == PointState::Passage)
        &&& (n.steps == UNREACHED ==> n.cost == UNREACHED && !new_st.is_closed(q))
    }) by {
        if q != w {
            assert(new_st.node_at(q) == old_st.node_at(q));
        }
    }
}

proof fn lemma_keep_origin(
    old_st: AStar,
    new_st: AStar,
    maze: Seq<PointState>,
    p: Point,
    w: Point,
    fresh: Node,
)
    requires
        old_st.origin(maze),
        framed(old_st, new_st, w, fresh),
        in_grid(old_st.size as int, old_st.start),
        in_grid(old_st.size as int, p),
        old_st.is_closed(p),
        !old_st.is_closed(w),
        linked(maze, old_st.size as int, p, w),
        fresh.parent == Some(p),
        fresh.steps == old_st.node_at(p).steps + 1,
        fresh.steps <= old_st.node_at(w).steps,
    ensures
        new_st.origin(maze),
{
    let size = old_st.size as int;
    assert(p != w);
    assert(new_st.node_at(p) == old_st.node_at(p));
    assert(w != old_st.start);
    assert(new_st.node_at(new_st.start) == old_st.node_at(old_st.start));
    assert forall|q: Point|
        in_grid(size, q) && q != new_st.start && #[trigger] new_st.is_reached(q) implies ({
        let n = new_st.node_at(q);
        &&& n.steps >= 1
        &&& n.parent matches Some(u)
        &&& in_grid(size, u)
        &&& new_st.is_closed(u)
        &&& linked(maze, size, u, q)
        &&& new_st.node_at(u).steps + 1 == n.steps
    }) by {
        if q != w {
            assert(new_st.node_at(q) == old_st.node_at(q));
            assert(old_st.is_reached(q));
            let u = old_st.node_at(q).parent->0;
            assert(old_st.is_closed(u));
            assert(u != w);
            assert(new_st.node_at(u) == old_st.node_at(u));
        }
    }
}

proof fn lemma_keep_settled(
    old_st: AStar,
    new_st: AStar,
    maze: Seq<PointState>,
    p: Point,
    w: Point,
    fresh: Node,
)
    requires
        old_st.settled(maze, Some(p)),
        framed(old_st, new_st, w, fresh),
        !old_st.is_closed(w),
        fresh.steps <= old_st.node_at(w).steps,
    ensures
        new_st.settled(maze, Some(p)),
{
    let size = old_st.size as int;
    assert forall|c: Point, v: Point|
        in_grid(size, c) && #[trigger] new_st.is_closed(c) && Some(c) != Some(p)
            && #[trigger] linked(maze, size, c, v) implies new_st.node_at(v).steps
            <= new_st.node_at(c).steps + 1 by {
        assert(old_st.is_closed(c));
        assert(c != w);
        assert(new_st.node_at(c) == old_st.node_at(c));
        assert(old_st.node_at(v).steps <= old_st.node_at(c).steps + 1);
        if v != w {
            assert(new_st.node_at(v) == old_st.node_at(v));
        }
    }
}

proof fn lemma_keep_order(old_st: AStar, new_st: AStar, p: Point, w: Point, fresh: Node)
    requires
        old_st.order(),
        old_st.top(p),
        framed(old_st, new_st, w, fresh),
        in_grid(old_st.size as int, p),
        !old_st.is_closed(w),
        spec_key(fresh) >= old_st.key_of(p),
    ensures
        new_st.order(),
        new_st.top(p),
{
    let size = old_st.size as int;
    assert(old_st.is_closed(p) ==> p != w);
    assert forall|c: Point, u: Point|
        in_grid(size, c) && in_grid(size, u) && #[trigger] new_st.is_closed(c)
            && !new_st.is_closed(u) && (#[trigger] new_st.node_at(u)).steps < UNREACHED
            implies new_st.key_of(c) <= new_st.key_of(u) by {
        assert(old_st.is_closed(c));
        assert(c != w);
        assert(new_st.node_at(c) == old_st.node_at(c));
        if u != w {
            assert(new_st.node_at(u) == old_st.node_at(u));
        } else {
            assert(old_st.key_of(c) <= old_st.key_of(p));
        }
    }
    assert forall|c: Point| in_grid(size, c) && #[trigger] new_st.is_closed(c)
        implies new_st.key_of(c) <= new_st.key_of(p) by {
        assert(old_st.is_closed(c));
        assert(c != w);
        assert(new_st.node_at(c) == old_st.node_at(c));
        assert(old_st.key_of(c) <= old_st.key_of(p));
        if p != w {
            assert(new_st.node_at(p) == old_st.node_at(p));
        }
    }
}

proof fn lemma_keep_fringe(old_st: AStar, new_st: AStar, w: Point, fresh: Node)
    requires
        old_st.fringe(),
        framed(old_st, new_st, w, fresh),
        fresh.steps < UNREACHED,
        new_st.pending@ == old_st.pending@.push(w),
    ensures
        new_st.fringe(),
{
    let size = old_st.size as int;
    assert forall|q: Point|
        in_grid(size, q) && (#[trigger] new_st.node_at(q)).steps < UNREACHED && !new_st.is_closed(
            q,
        ) implies new_st.pending@.contains(q) by {
        if q != w {
            assert(new_st.node_at(q) == old_st.node_at(q));
            assert(old_st.pending@.contains(q));
            let i = choose|i: int| 0 <= i < old_st.pending@.len() && old_st.pending@[i] == q;
            assert(new_st.pending@[i] == q);
        } else {
            assert(new_st.pending@[old_st.pending@.len() as int] == w);
        }
    }
    assert forall|i: int| 0 <= i < new_st.pending@.len() implies in_grid(
        size,
        #[trigger] new_st.pending@[i],
    ) && new_st.node_at(new_st.pending@[i]).steps < UNREACHED by {
        if i < old_st.pending@.len() {
            let q = old_st.pending@[i];
            assert(new_st.pending@[i] == q);
            if q != w {
                assert(new_st.node_at(q) == old_st.node_at(q));
            }
        }
    }
}

proof fn lemma_keep_relaxed(
    old_st: AStar,
    new_st: AStar,
    maze: Seq<PointState>,
    p: Point,
    w: Point,
    fresh: Node,
    k: int,
)
    requires
        old_st.relaxed(maze, p, k),
        framed(old_st, new_st, w, fresh),
        in_grid(old_st.size as int, p),
        p != w,
        linked(maze, old_st.size as int, p, w),
        0 <= k < 4,
        spec_go_to_dir(old_st.size as int, p, Direction::spec_all()[k]) == Some(w),
        fresh.steps == old_st.node_at(p).steps + 1,
        fresh.steps <= old_st.node_at(w).steps,
    ensures
        new_st.relaxed(maze, p, k + 1),
{
    let size = old_st.size as int;
    assert(new_st.node_at(p) == old_st.node_at(p));
    assert forall|j: int| 0 <= j < k + 1 implies (match #[trigger] spec_go_to_dir(
        size,
        p,
        Direction::spec_all()[j],
    ) {
        Some(v) => linked(maze, size, p, v) ==> new_st.node_at(v).steps <= new_st.node_at(p).steps
            + 2,
        None => true,
    }) by {
        if j < k {
            match spec_go_to_dir(size, p, Direction::spec_all()[j]) {
                Some(v) => {
                    if linked(maze, size, p, v) {
                        assert(old_st.node_at(v).steps <= old_st.node_at(p).steps + 1);
                        if v != w {
                            assert(new_st.node_at(v) == old_st.node_at(v));
                        }
                    }
                },
                None => {},
            }
        }
    }
}

/// Reaching `w` from the cell `p` that is being expanded, in its `k`-th
/// direction, keeps the search in order.
proof fn lemma_relax_update(
    old_st: AStar,
    new_st: AStar,
    maze: Seq<PointState>,
    p: Point,
    w: Point,
    k: int,
    fresh: Node,
)
    requires
        old_st.mid(maze, p, k),
        0 <= k < 4,
        spec_go_to_dir(old_st.size as int, p, Direction::spec_all()[k]) == Some(w),
        linked(maze, old_st.size as int, p, w),
        !old_st.is_closed(w),
        old_st.node_at(p).steps + 1 + spec_dist(w, old_st.end) < old_st.node_at(w).cost,
        new_st.size == old_st.size,
        new_st.start == old_st.start,
        new_st.end == old_st.end,
        new_st.closed@ == old_st.closed@,
        new_st.start_cost == old_st.start_cost,
        new_st.visual_overwrites@.len() == old_st.visual_overwrites@.len(),
        new_st.pending@ == old_st.pending@.push(w),
        new_st.nodes@ == old_st.nodes@.update(index_of(old_st.size as int, w), fresh),
        fresh == (Node {
            parent: Some(p),
            steps: (old_st.node_at(p).steps + 1) as u64,
            cost: (old_st.node_at(p).steps + 1 + spec_dist(w, old_st.end)) as u64,
            pos: w,
            end: old_st.end,
        }),
    ensures
        new_st.mid(maze, p, k + 1),
{
    let size = old_st.size as int;
    lemma_point_index(size, w);
    lemma_point_index(size, p);
    lemma_closed_count_le(old_st.closed@);
    lemma_closed_count_pos(old_st.closed@, index_of(size, p));
    assert(size * size >= 0) by (nonlinear_arith);
    lemma_dist_step(p, w, old_st.end);
    let sp = old_st.node_at(p).steps;
    assert(sp < UNREACHED);
    assert(spec_dist(w, old_st.end) <= 2 * size);
    assert(fresh.steps == sp + 1);
    assert(fresh.cost == sp + 1 + spec_dist(w, old_st.end));
    assert(fresh.steps <= old_st.node_at(w).steps);
    assert(spec_key(fresh) >= old_st.key_of(p));
    lemma_frame(old_st, new_st, maze, w, fresh);
    lemma_keep_costs(old_st, new_st, maze, w, fresh);
    lemma_keep_origin(old_st, new_st, maze, p, w, fresh);
    lemma_keep_settled(old_st, new_st, maze, p, w, fresh);
    lemma_keep_order(old_st, new_st, p, w, fresh);
    lemma_keep_fringe(old_st, new_st, w, fresh);
    lemma_keep_relaxed(old_st, new_st, maze, p, w, fresh, k);
}

/// Where a flag is set, the count is not zero.
proof fn lemma_closed_count_pos(closed: Seq<bool>, i: int)
    requires
        0 <= i < closed.len(),
        closed[i],
    ensures
        closed_count(closed) >= 1,
    decreases closed.len(),
{
    if i < closed.len() - 1 {
        lemma_closed_count_pos(closed.drop_last(), i);
    }
}

/// A direction of the expanded cell `p` that reaches nothing new is done.
proof fn lemma_relax_skip(st: AStar, maze: Seq<PointState>, p: Point, k: int)
    requires
        st.mid(maze, p, k),
        0 <= k < 4,
        match spec_go_to_dir(st.size as int, p, Direction::spec_all()[k]) {
            Some(w) => linked(maze, st.size as int, p, w) ==> st.node_at(w).steps <= st.node_at(
                p,
            ).steps + 1,
            None => true,
        },
    ensures
        st.mid(maze, p, k + 1),
{
    assert forall|j: int| 0 <= j < k + 1 implies (match #[trigger] spec_go_to_dir(
        st.size as int,
        p,
        Direction::spec_all()[j],
    ) {
        Some(v) => linked(maze, st.size as int, p, v) ==> st.node_at(v).steps <= st.node_at(
            p,
        ).steps + 1,
        None => true,
    }) by {
        if j < k {
        }
    }
}

/// Along a route from the start, the first cell that is not expanded is
/// reached, and with no more steps than the route took to it.
proof fn lemma_frontier(st: AStar, maze: Seq<PointState>, route: Seq<Point>, j: int) -> (u: int)
    requires
        st.shape(maze),
        st.costs(maze),
        st.settled(maze, None),
        is_path(maze, st.size as int, route),
        0 <= j < route.len(),
        in_grid(st.size as int, route[j]),
        st.node_at(route[j]).steps <= j,
        st.node_at(route[j]).steps < UNREACHED,
        !st.is_closed(route.last()),
    ensures
        j <= u < route.len(),
        in_grid(st.size as int, route[u]),
        st.node_at(route[u]).steps <= u,
        st.node_at(route[u]).steps < UNREACHED,
        !st.is_closed(route[u]),
    decreases route.len() - j,
{
    if st.is_closed(route[j]) {
        lemma_closed_count_le(st.closed@);
        assert(joined_at(maze, st.size as int, route, j));
        lemma_frontier(st, maze, route, j + 1)
    } else {
        j
    }
}

/// When the fringe's first in line is the end, no route to it takes
/// fewer steps than the search counted.
proof fn lemma_found(st: AStar, maze: Seq<PointState>, other: Seq<Point>)
    requires
        st.inv(maze),
        st.is_reached(st.end),
        forall|k: int|
            0 <= k < st.pending@.len() ==> st.key_of(st.end) <= st.key_of(
                #[trigger] st.pending@[k],
            ),
        is_route(maze, st.size as int, other, st.start, st.end),
    ensures
        st.node_at(st.end).steps <= route_steps(other),
{
    let size = st.size as int;
    let u = lemma_frontier(st, maze, other, 0);
    let q = other[u];
    lemma_closed_count_le(st.closed@);
    assert(size * size >= 0) by (nonlinear_arith);
    assert(st.node_at(q).steps < UNREACHED);
    assert(st.pending@.contains(q));
    let k = choose|k: int| 0 <= k < st.pending@.len() && st.pending@[k] == q;
    assert(st.key_of(st.end) <= st.key_of(st.pending@[k]));
    lemma_dist_along(maze, size, other, u);
    assert(in_grid(size, st.end));
    assert(st.node_at(st.end).cost == st.node_at(st.end).steps + spec_dist(st.end, st.end));
}

/// With an empty fringe every cell on a route from the start is expanded.
proof fn lemma_all_expanded(st: AStar, maze: Seq<PointState>, route: Seq<Point>, j: int)
    requires
        st.shape(maze),
        st.costs(maze),
        st.origin(maze),
        st.settled(maze, None),
        st.fringe(),
        st.pending@.len() == 0,
        is_path(maze, st.size as int, route),
        route[0] == st.start,
        0 <= j < route.len(),
    ensures
        in_grid(st.size as int, route[j]),
        st.is_closed(route[j]),
    decreases j,
{
    let size = st.size as int;
    lemma_closed_count_le(st.closed@);
    assert(size * size >= 0) by (nonlinear_arith);
    if j == 0 {
        assert(st.node_at(st.start).steps < UNREACHED);
        if !st.is_closed(st.start) {
            assert(st.pending@.contains(st.start));
        }
    } else {
        lemma_all_expanded(st, maze, route, j - 1);
        assert(joined_at(maze, size, route, j - 1));
        assert(st.node_at(route[j]).steps <= st.node_at(route[j - 1]).steps + 1);
        assert(st.node_at(route[j]).steps < UNREACHED);
        if !st.is_closed(route[j]) {
            assert(st.pending@.contains(route[j]));
        }
    }
}

/// With an empty fringe and the end not expanded, no route leads to it.
proof fn lemma_exhausted(st: AStar, maze: Seq<PointState>)
    requires
        st.inv(maze),
        st.pending@.len() == 0,
    ensures
        !has_route(maze, st.size as int, st.start, st.end),
{
    if has_route(maze, st.size as int, st.start, st.end) {
        let route = choose|route: Seq<Point>|
            is_route(maze, st.size as int, route, st.start, st.end);
        lemma_all_expanded(st, maze, route, route.len() - 1);
        assert(false);
    }
}

/// Taking one entry out of the fringe by moving the last into its place
/// keeps every other cell in it, and brings no new one in.
proof fn lemma_taken(fringe: Seq<Point>, i: int)
    requires
        0 <= i < fringe.len(),
    ensures
        forall|q: Point|
            fringe.contains(q) && q != fringe[i] ==> #[trigger] fringe.update(
                i,
                fringe.last(),
            ).drop_last().contains(q),
        forall|k: int|
            0 <= k < fringe.len() - 1 ==> fringe.contains(
                #[trigger] fringe.update(i, fringe.last()).drop_last()[k],
            ),
{
    let rest = fringe.update(i, fringe.last()).drop_last();
    assert forall|q: Point| fringe.contains(q) && q != fringe[i] implies #[trigger] rest.contains(
        q,
    ) by {
        let k = choose|k: int| 0 <= k < fringe.len() && fringe[k] == q;
        if k == fringe.len() - 1 {
            assert(rest[i] == q);
        } else {
            assert(rest[k] == q);
        }
    }
    assert forall|k: int| 0 <= k < fringe.len() - 1 implies fringe.contains(#[trigger] rest[k]) by {
        if k == i {
            assert(fringe[fringe.len() - 1] == rest[k]);
        } else {
            assert(fringe[k] == rest[k]);
        }
    }
}

/// Dropping an entry of an expanded cell from the fringe keeps the search in
/// order.
proof fn lemma_drop_stale(old_st: AStar, new_st: AStar, maze: Seq<PointState>, i: int)
    requires
        old_st.inv(maze),
        0 <= i < old_st.pending@.len(),
        old_st.is_closed(old_st.pending@[i]),
        new_st.size == old_st.size,
        new_st.start == old_st.start,
        new_st.end == old_st.end,
        new_st.closed@ == old_st.closed@,
        new_st.nodes@ == old_st.nodes@,
        new_st.start_cost == old_st.start_cost,
        new_st.visual_overwrites@.len() == old_st.visual_overwrites@.len(),
        new_st.pending@ == old_st.pending@.update(i, old_st.pending@.last()).drop_last(),
    ensures
        new_st.inv(maze),
        new_st.work() < old_st.work(),
{
    let size = old_st.size as int;
    lemma_taken(old_st.pending@, i);
    assert forall|q: Point| in_grid(size, q) implies #[trigger] new_st.node_at(q)
        == old_st.node_at(q) by {}
    assert(new_st.fringe()) by {
        assert forall|q: Point|
            in_grid(size, q) && (#[trigger] new_st.node_at(q)).steps < UNREACHED
                && !new_st.is_closed(q) implies new_st.pending@.contains(q) by {
            assert(old_st.pending@.contains(q));
        }
        assert forall|k: int| 0 <= k < new_st.pending@.len() implies in_grid(
            size,
            #[trigger] new_st.pending@[k],
        ) && new_st.node_at(new_st.pending@[k]).steps < UNREACHED by {
            let q = new_st.pending@[k];
            assert(old_st.pending@.contains(q));
            let j = choose|j: int| 0 <= j < old_st.pending@.len() && old_st.pending@[j] == q;
            assert(in_grid(size, old_st.pending@[j]));
        }
    }
    assert(new_st.costs(maze));
    assert(new_st.origin(maze)) by {
        assert forall|q: Point|
            in_grid(size, q) && q != new_st.start && #[trigger] new_st.is_reached(q) implies ({
            let n = new_st.node_at(q);
            &&& n.steps >= 1
            &&& n.parent matches Some(u)
            &&& in_grid(size, u)
            &&& new_st.is_closed(u)
            &&& linked(maze, size, u, q)
            &&& new_st.node_at(u).steps + 1 == n.steps
        }) by {
            assert(old_st.is_reached(q));
        }
    }
    assert(new_st.settled(maze, None));
    assert(new_st.order());
}

/// Expanding the fringe's first in line: what holds once it is marked
/// and before its directions are looked at.
proof fn lemma_close(old_st: AStar, new_st: AStar, maze: Seq<PointState>, p: Point, i: int)
    requires
        old_st.inv(maze),
        0 <= i < old_st.pending@.len(),
        p == old_st.pending@[i],
        !old_st.is_closed(p),
        p != old_st.end,
        forall|k: int|
            0 <= k < old_st.pending@.len() ==> old_st.key_of(p) <= old_st.key_of(
                #[trigger] old_st.pending@[k],
            ),
        new_st.size == old_st.size,
        new_st.start == old_st.start,
        new_st.end == old_st.end,
        new_st.closed@ == old_st.closed@.update(index_of(old_st.size as int, p), true),
        new_st.nodes@ == old_st.nodes@,
        new_st.start_cost == old_st.start_cost,
        new_st.visual_overwrites@.len() == old_st.visual_overwrites@.len(),
        new_st.pending@ == old_st.pending@.update(i, old_st.pending@.last()).drop_last(),
    ensures
        new_st.mid(maze, p, 0),
        new_st.work() + 6 == old_st.work(),
{
    let size = old_st.size as int;
    let ip = index_of(size, p);
    assert(in_grid(size, p));
    lemma_point_index(size, p);
    lemma_closed_count_set(old_st.closed@, ip);
    lemma_taken(old_st.pending@, i);
    assert forall|q: Point| in_grid(size, q) implies #[trigger] new_st.node_at(q)
        == old_st.node_at(q) by {}
    assert forall|q: Point| in_grid(size, q) && q != p implies #[trigger] new_st.is_closed(q)
        == old_st.is_closed(q) by {
        lemma_other_cell(size, q, p);
    }
    assert(new_st.is_closed(p));
    assert(new_st.costs(maze)) by {
        assert forall|q: Point| in_grid(size, q) implies ({
            let n = #[trigger] new_st.node_at(q);
            &&& n.steps <= UNREACHED
            &&& (n.steps < UNREACHED ==> n.cost == n.steps + spec_dist(q, new_st.end) && n.steps
                <= closed_count(new_st.closed@) && state_at(maze, size, q)
                == PointState::Passage)
            &&& (n.steps == UNREACHED ==> n.cost == UNREACHED && !new_st.is_closed(q))
        }) by {
            assert(new_st.node_at(q) == old_st.node_at(q));
            if q != p {
                assert(new_st.is_closed(q) == old_st.is_closed(q));
            }
        }
    }
    lemma_close_origin(old_st, new_st, maze, p);
    lemma_close_order(old_st, new_st, maze, p);
    assert(new_st.settled(maze, Some(p))) by {
        assert forall|c: Point, v: Point|
            in_grid(size, c) && #[trigger] new_st.is_closed(c) && Some(c) != Some(p)
                && #[trigger] linked(maze, size, c, v) implies new_st.node_at(v).steps
                <= new_st.node_at(c).steps + 1 by {
            assert(new_st.is_closed(c) == old_st.is_closed(c));
            assert(old_st.node_at(v).steps <= old_st.node_at(c).steps + 1);
        }
    }
    assert(new_st.fringe()) by {
        assert forall|q: Point|
            in_grid(size, q) && (#[trigger] new_st.node_at(q)).steps < UNREACHED
                && !new_st.is_closed(q) implies new_st.pending@.contains(q) by {
            assert(q != p);
            assert(new_st.is_closed(q) == old_st.is_closed(q));
            assert(old_st.pending@.contains(q));
        }
        assert forall|k: int| 0 <= k < new_st.pending@.len() implies in_grid(
            size,
            #[trigger] new_st.pending@[k],
        ) && new_st.node_at(new_st.pending@[k]).steps < UNREACHED by {
            let q = new_st.pending@[k];
            assert(old_st.pending@.contains(q));
            let j = choose|j: int| 0 <= j < old_st.pending@.len() && old_st.pending@[j] == q;
            assert(in_grid(size, old_st.pending@[j]));
        }
    }
    assert(!new_st.is_closed(new_st.end)) by {
        assert(new_st.is_closed(old_st.end) == old_st.is_closed(old_st.end));
    }
    assert(new_st.relaxed(maze, p, 0));
}

proof fn lemma_close_origin(old_st: AStar, new_st: AStar, maze: Seq<PointState>, p: Point)
    requires
        old_st.origin(maze),
        in_grid(old_st.size as int, p),
        old_st.size > 0,
        new_st.size == old_st.size,
        new_st.start == old_st.start,
        new_st.end == old_st.end,
        new_st.closed@ == old_st.closed@.update(index_of(old_st.size as int, p), true),
        old_st.closed@.len() == old_st.size * old_st.size,
        new_st.nodes@ == old_st.nodes@,
    ensures
        new_st.origin(maze),
{
    let size = old_st.size as int;
    lemma_point_index(size, p);
    assert forall|q: Point|
        in_grid(size, q) && q != new_st.start && #[trigger] new_st.is_reached(q) implies ({
        let n = new_st.node_at(q);
        &&& n.steps >= 1
        &&& n.parent matches Some(u)
        &&& in_grid(size, u)
        &&& new_st.is_closed(u)
        &&& linked(maze, size, u, q)
        &&& new_st.node_at(u).steps + 1 == n.steps
    }) by {
        assert(old_st.is_reached(q));
        let u = old_st.node_at(q).parent->0;
        assert(old_st.is_closed(u));
        lemma_point_index(size, u);
    }
}

proof fn lemma_close_order(old_st: AStar, new_st: AStar, maze: Seq<PointState>, p: Point)
    requires
        old_st.order(),
        old_st.fringe(),
        old_st.costs(maze),
        in_grid(old_st.size as int, p),
        old_st.size > 0,
        !old_st.is_closed(p),
        old_st.node_at(p).steps < UNREACHED,
        forall|k: int|
            0 <= k < old_st.pending@.len() ==> old_st.key_of(p) <= old_st.key_of(
                #[trigger] old_st.pending@[k],
            ),
        new_st.size == old_st.size,
        new_st.start == old_st.start,
        new_st.end == old_st.end,
        new_st.closed@ == old_st.closed@.update(index_of(old_st.size as int, p), true),
        old_st.closed@.len() == old_st.size * old_st.size,
        new_st.nodes@ == old_st.nodes@,
    ensures
        new_st.order(),
        new_st.top(p),
        new_st.node_at(p).steps + 1 <= closed_count(new_st.closed@),
{
    let size = old_st.size as int;
    let ip = index_of(size, p);
    lemma_point_index(size, p);
    lemma_closed_count_set(old_st.closed@, ip);
    assert forall|q: Point| in_grid(size, q) && q != p implies #[trigger] new_st.is_closed(q)
        == old_st.is_closed(q) by {
        lemma_other_cell(size, q, p);
    }
    assert forall|c: Point, u: Point|
        in_grid(size, c) && in_grid(size, u) && #[trigger] new_st.is_closed(c)
            && !new_st.is_closed(u) && (#[trigger] new_st.node_at(u)).steps < UNREACHED
            implies new_st.key_of(c) <= new_st.key_of(u) by {
        assert(u != p);
        assert(new_st.is_closed(u) == old_st.is_closed(u));
        if c == p {
            assert(old_st.node_at(u).steps < UNREACHED);
            assert(old_st.pending@.contains(u));
            let k = choose|k: int| 0 <= k < old_st.pending@.len() && old_st.pending@[k] == u;
            assert(old_st.key_of(p) <= old_st.key_of(old_st.pending@[k]));
        } else {
            assert(new_st.is_closed(c) == old_st.is_closed(c));
        }
    }
    assert forall|c: Point| in_grid(size, c) && #[trigger] new_st.is_closed(c)
        implies new_st.key_of(c) <= new_st.key_of(p) by {
        if c != p {
            assert(new_st.is_closed(c) == old_st.is_closed(c));
            assert(old_st.is_closed(c));
            assert(old_st.node_at(p).steps < UNREACHED);
        }
    }
}

/// Whether a grid of side `size` can be searched.
pub fn check_solvable(size: usize) -> (ok: bool)
    ensures
        ok == solvable_size(size as int),
{
    if size < 3 || size % 2 == 0 || usize::MAX / size < size {
        proof {
            if size >= 3 && size % 2 == 1 {
                assert(size * size > usize::MAX) by (nonlinear_arith)
                    requires (usize::MAX as int) / (size as int) < (size as int), size > 0;
            }
        }
        return false;
    }
    assert(size * size <= usize::MAX) by (nonlinear_arith)
        requires (usize::MAX as int) / (size as int) >= (size as int), size > 0;
    let cells: u128 = (size * size) as u128;
    2 * cells + 2 * (size as u128) + 2 < UNREACHED as u128
}

impl AStar {
    /// Sets a search up: no cell is reached but the start, which waits in
    /// the fringe. A start that is no passage has no route to anywhere.
    pub fn begin(maze: &Maze, size: usize, start: &Point, end: &Point) -> (r: Result<
        AStar,
        MazeError,
    >)
        requires
            solvable_size(size as int),
            maze@.len() == size * size,
            in_grid(size as int, *start),
            in_grid(size as int, *end),
        ensures
            state_at(maze@, size as int, *start) != PointState::Passage ==> (r matches Err(e) && e
                == MazeError::Unsolvable) && !has_route(maze@, size as int, *start, *end),
            state_at(maze@, size as int, *start) == PointState::Passage ==> (r matches Ok(st)
                && st.inv(maze@) && st.size == size && st.start == *start && st.end == *end
                && st.state() == spec_begin(st.task(maze@))),
    {
        proof {
            lemma_point_index(size as int, *start);
            lemma_point_index(size as int, *end);
        }
        let is: usize = point_to_numb(start, size);
        let ie: usize = point_to_numb(end, size);
        if maze[is] != PointState::Passage {
            proof {
                assert forall|path: Seq<Point>| !is_route(
                    maze@,
                    size as int,
                    path,
                    *start,
                    *end,
                ) by {}
            }
            return Err(MazeError::Unsolvable);
        }
        let cells: usize = size * size;
        let mut nodes: Vec<Node> = Vec::with_capacity(cells);
        let mut closed: Vec<bool> = Vec::with_capacity(cells);
        let mut overlay: Vec<Option<VisualIndicator>> = Vec::with_capacity(cells);
        let mut i: usize = 0;
        while i < cells
            invariant
                i <= cells,
                cells == size * size,
                size > 0,
                nodes@.len() == i,
                closed@.len() == i,
                overlay@.len() == i,
                forall|k: int|
                    0 <= k < i ==> #[trigger] nodes@[k] == (Node {
                        parent: None,
                        cost: UNREACHED,
                        steps: UNREACHED,
                        pos: point_at(size as int, k),
                        end: *end,
                    }),
                forall|k: int| 0 <= k < i ==> !#[trigger] closed@[k],
                forall|k: int| 0 <= k < i ==> #[trigger] overlay@[k] is None,
            decreases cells - i,
        {
            nodes.push(Node::new(Point { x: i % size, y: i / size }, end));
            closed.push(false);
            overlay.push(None);
            i = i + 1;
        }
        let mut first: Node = nodes[is];
        first.set_start_node();
        let start_cost: u64 = first.get_cost();
        nodes[is] = first;
        overlay[is] = Some(VisualIndicator::Start);
        overlay[ie] = Some(VisualIndicator::End);
        let mut pending: Vec<Point> = Vec::new();
        pending.push(*start);
        let st = AStar {
            size,
            start: *start,
            end: *end,
            nodes,
            closed,
            pending,
            visual_overwrites: overlay,
            start_cost,
        };
        proof {
            let sz = size as int;
            lemma_closed_count_none(st.closed@);
            assert(sz * sz >= 0) by (nonlinear_arith);
            assert(spec_dist(*start, *end) <= 2 * sz);
            assert forall|q: Point| in_grid(sz, q) && q != *start implies (#[trigger] st.node_at(
                q,
            )).steps == UNREACHED && st.node_at(q).cost == UNREACHED by {
                lemma_other_cell(sz, q, *start);
            }
            assert forall|q: Point| in_grid(sz, q) implies !#[trigger] st.is_closed(q) by {
                lemma_point_index(sz, q);
            }
            assert(st.node_at(*start).steps == 0);
            assert(st.pending@[0] == *start);
            let want = spec_begin(st.task(maze@));
            assert(st.state().nodes =~= want.nodes);
            assert(st.state().closed =~= want.closed);
            assert(st.state().pending =~= want.pending);
            assert(st.state().overlay =~= want.overlay);
            assert(st.shape(maze@));
            assert(st.costs(maze@));
            assert(st.origin(maze@)) by {
                assert forall|q: Point|
                    in_grid(sz, q) && q != st.start && #[trigger] st.is_reached(q) implies false by {
                    assert(st.node_at(q).steps == UNREACHED);
                }
            }
            assert(st.settled(maze@, None));
            assert(st.order());
            assert(st.fringe()) by {
                assert forall|q: Point|
                    in_grid(sz, q) && (#[trigger] st.node_at(q)).steps < UNREACHED
                        && !st.is_closed(q) implies st.pending@.contains(q) by {
                    assert(q == *start);
                }
            }
        }
        Ok(st)
    }

    /// The key of a node, by which the fringe is ordered.
    fn key(node: &Node) -> (key: u128)
        ensures
            key == spec_key(*node),
    {
        node.get_cost() as u128 + node.get_steps() as u128
    }

    /// The place in the fringe of the cell with the lowest key; among cells
    /// of equal key, of the one that comes first in the order of the points.
    pub fn lowest(&self) -> (best: usize)
        requires
            self.pending@.len() > 0,
            self.size > 0,
            self.nodes@.len() == self.size * self.size,
            forall|k: int|
                0 <= k < self.pending@.len() ==> in_grid(
                    self.size as int,
                    #[trigger] self.pending@[k],
                ),
        ensures
            best < self.pending@.len(),
            best == spec_lowest_upto(self.size as int, self.state(), self.pending@.len()),
            forall|k: int|
                0 <= k < self.pending@.len() ==> self.key_of(self.pending@[best as int])
                    <= self.key_of(#[trigger] self.pending@[k]),
            forall|k: int|
                0 <= k < self.pending@.len() && self.key_of(self.pending@[best as int])
                    == self.key_of(#[trigger] self.pending@[k]) ==> !self.pending@[k].spec_less(
                    self.pending@[best as int],
                ),
    {
        let mut best: usize = 0;
        let cells: usize = self.nodes.len();
        proof {
            lemma_point_index(self.size as int, self.pending@[0]);
        }
        let mut best_key: u128 = Self::key(&self.nodes[point_to_numb(&self.pending[0], self.size)]);
        let mut i: usize = 1;
        while i < self.pending.len()
            invariant
                1 <= i <= self.pending@.len(),
                best < i,
                best == spec_lowest_upto(self.size as int, self.state(), i as nat),
                self.size > 0,
                self.nodes@.len() == self.size * self.size,
                self.nodes@.len() == cells,
                best_key == self.key_of(self.pending@[best as int]),
                forall|k: int|
                    0 <= k < self.pending@.len() ==> in_grid(
                        self.size as int,
                        #[trigger] self.pending@[k],
                    ),
                forall|k: int|
                    0 <= k < i ==> best_key <= self.key_of(#[trigger] self.pending@[k]),
                forall|k: int|
                    0 <= k < i && best_key == self.key_of(#[trigger] self.pending@[k])
                        ==> !self.pending@[k].spec_less(self.pending@[best as int]),
            decreases self.pending@.len() - i,
        {
            let q = self.pending[i];
            proof {
                lemma_point_index(self.size as int, q);
            }
            let key: u128 = Self::key(&self.nodes[point_to_numb(&q, self.size)]);
            if key < best_key || (key == best_key && q.less(&self.pending[best])) {
                best = i;
                best_key = key;
            }
            i = i + 1;
        }
        best
    }

    /// Looks from the cell `p` that is being expanded in its `k`-th
    /// direction. A passage there that is joined to `p`, not yet expanded,
    /// and cheaper by way of `p` than it was, is reached from `p` and put
    /// into the fringe.
    #[verifier::rlimit(40)]
    pub fn relax(&mut self, maze: &Maze, p: &Point, k: usize, dir: Direction)
        requires
            old(self).mid(maze@, *p, k as int),
            k < 4,
            dir == Direction::spec_all()[k as int],
        ensures
            final(self).mid(maze@, *p, k + 1),
            final(self).size == old(self).size,
            final(self).start == old(self).start,
            final(self).end == old(self).end,
            final(self).start_cost == old(self).start_cost,
            final(self).closed@ == old(self).closed@,
            final(self).pending@.len() <= old(self).pending@.len() + 1,
            final(self).state() == spec_relax(old(self).task(maze@), old(self).state(), *p, dir),
    {
        let size: usize = self.size;
        let ghost before = *self;
        let ghost sz = size as int;
        let ghost task = self.task(maze@);
        proof {
            lemma_point_index(sz, *p);
            lemma_closed_count_le(self.closed@);
            assert(sz * sz >= 0) by (nonlinear_arith);
            assert(self.node_at(*p).steps < UNREACHED);
        }
        match go_to_dir(&size, p, &dir) {
            None => {
                proof {
                    lemma_relax_skip(before, maze@, *p, k as int);
                }
            },
            Some(w) => {
                proof {
                    lemma_dir_geometry(sz, *p, dir);
                    lemma_point_index(sz, w);
                    lemma_point_index(sz, mid(*p, w));
                    lemma_dist_step(*p, w, self.end);
                    assert(spec_dist(w, self.end) <= 2 * sz);
                }
                let iw: usize = point_to_numb(&w, size);
                let ip: usize = point_to_numb(p, size);
                let open = match has_passage_between(&size, maze, p, &dir) {
                    Ok(Some(open)) => open,
                    _ => false,
                };
                let joined: bool = maze[iw] == PointState::Passage && open;
                assert(joined == linked(maze@, sz, *p, w));
                if !joined {
                    proof {
                        lemma_relax_skip(before, maze@, *p, k as int);
                    }
                } else if self.closed[iw] {
                    proof {
                        assert(before.is_closed(w));
                        assert(before.key_of(w) <= before.key_of(*p));
                        lemma_relax_skip(before, maze@, *p, k as int);
                    }
                } else {
                    let parent: Node = self.nodes[ip];
                    let mut node: Node = self.nodes[iw];
                    assert(node == before.node_at(w));
                    assert(parent == before.node_at(*p));
                    let temp_cost: u64 = node.calculate_cost(&parent);
                    assert(temp_cost == parent.steps + 1 + spec_dist(w, self.end));
                    if temp_cost < node.get_cost() {
                        node.update(&parent);
                        self.nodes[iw] = node;
                        self.pending.push(w);
                        let warmth: u8 = heat(get_dist(&w, &self.end), self.start_cost);
                        let tag = Some(VisualIndicator::Custom(Color::from_rgb(warmth, 0, 255)));
                        self.visual_overwrites[iw] = tag;
                        match get_pos_between(&size, p, &dir) {
                            Ok(Some(between)) => {
                                let ib: usize = point_to_numb(&between, size);
                                self.visual_overwrites[ib] = tag;
                            },
                            _ => {},
                        }
                        proof {
                            lemma_relax_update(before, *self, maze@, *p, w, k as int, node);
                            let want = spec_relax(task, before.state(), *p, dir);
                            assert(tag == spec_reached_tag(task, w));
                            assert(self.state().nodes =~= want.nodes);
                            assert(self.state().pending =~= want.pending);
                            assert(self.state().overlay =~= want.overlay);
                        }
                    } else {
                        proof {
                            assert(before.node_at(w).steps < UNREACHED);
                            lemma_relax_skip(before, maze@, *p, k as int);
                        }
                    }
                }
            },
        }
    }

    /// One turn of the search. With an empty fringe the search is exhausted:
    /// no route leads to the end. Else the fringe's first in line is
    /// looked at. If it is the end, the way is found, and no route is
    /// shorter than the steps counted to it. Else the cell is taken out and,
    /// unless it was expanded before, expanded in all four directions.
    #[verifier::rlimit(40)]
    pub fn advance(&mut self, maze: &Maze) -> (turn: Search)
        requires
            old(self).inv(maze@),
        ensures
            final(self).inv(maze@),
            final(self).size == old(self).size,
            final(self).start == old(self).start,
            final(self).end == old(self).end,
            turn is Exhausted ==> !has_route(
                maze@,
                old(self).size as int,
                old(self).start,
                old(self).end,
            ),
            turn is Found ==> final(self).is_reached(old(self).end) && forall|other: Seq<Point>| #[trigger]
                is_route(maze@, old(self).size as int, other, old(self).start, old(self).end)
                    ==> final(self).node_at(old(self).end).steps <= route_steps(other),
            turn is Going ==> final(self).work() < old(self).work(),
            (final(self).state(), turn) == spec_advance(old(self).task(maze@), old(self).state()),
    {
        let size: usize = self.size;
        let ghost before = *self;
        let ghost sz = size as int;
        let ghost task = self.task(maze@);
        if self.pending.len() == 0 {
            proof {
                lemma_exhausted(before, maze@);
            }
            return Search::Exhausted;
        }
        let best: usize = self.lowest();
        let p: Point = self.pending[best];
        proof {
            lemma_point_index(sz, p);
        }
        if p == self.end {
            proof {
                assert forall|other: Seq<Point>| #[trigger]
                    is_route(maze@, sz, other, before.start, before.end) implies before.node_at(
                    before.end,
                ).steps <= route_steps(other) by {
                    lemma_found(before, maze@, other);
                }
            }
            return Search::Found;
        }
        let ip: usize = point_to_numb(&p, size);
        self.pending.swap_remove(best);
        if self.closed[ip] {
            proof {
                lemma_drop_stale(before, *self, maze@, best as int);
            }
            return Search::Going;
        }
        self.closed[ip] = true;
        if p != self.start {
            self.visual_overwrites[ip] = Some(VisualIndicator::Searching);
        }
        proof {
            lemma_close(before, *self, maze@, p, best as int);
        }
        let ghost closed_now = self.closed@;
        let ghost waiting = self.pending@.len();
        let ghost marked = self.state();
        let all = Direction::all();
        let mut k: usize = 0;
        while k < 4
            invariant
                k <= 4,
                all@ == Direction::spec_all(),
                self.mid(maze@, p, k as int),
                self.size == before.size,
                self.start == before.start,
                self.end == before.end,
                self.closed@ == closed_now,
                self.pending@.len() <= waiting + k,
                task == self.task(maze@),
                self.state() == spec_expand(task, marked, p, k as nat),
            decreases 4 - k,
        {
            self.relax(maze, &p, k, all[k]);
            k = k + 1;
        }
        proof {
            lemma_mid_done(*self, maze@, p);
        }
        Search::Going
    }

    /// The overlay of the search with start and end tagged on top.
    pub fn overlay(&self) -> (overlay: Vec<Option<VisualIndicator>>)
        requires
            self.size > 0,
            self.visual_overwrites@.len() == self.size * self.size,
            in_grid(self.size as int, self.start),
            in_grid(self.size as int, self.end),
        ensures
            overlay@ == self.visual_overwrites@.update(
                index_of(self.size as int, self.start),
                Some(VisualIndicator::Start),
            ).update(index_of(self.size as int, self.end), Some(VisualIndicator::End)),
    {
        let mut overlay: Vec<Option<VisualIndicator>> = Vec::with_capacity(
            self.visual_overwrites.len(),
        );
        let mut i: usize = 0;
        while i < self.visual_overwrites.len()
            invariant
                i <= self.visual_overwrites@.len(),
                overlay@ == self.visual_overwrites@.subrange(0, i as int),
            decreases self.visual_overwrites@.len() - i,
        {
            overlay.push(self.visual_overwrites[i]);
            i = i + 1;
        }
        assert(overlay@ =~= self.visual_overwrites@);
        proof {
            lemma_point_index(self.size as int, self.start);
            lemma_point_index(self.size as int, self.end);
        }
        let is: usize = point_to_numb(&self.start, self.size);
        let ie: usize = point_to_numb(&self.end, self.size);
        overlay[is] = Some(VisualIndicator::Start);
        overlay[ie] = Some(VisualIndicator::End);
        overlay
    }
}

/// The way from the start to the end, read off the parents of the nodes: a
/// route of exactly the steps that the search counted to the end.
pub fn node_to_path(search: &AStar, maze: &Maze) -> (path: Vec<Point>)
    requires
        search.inv(maze@),
        search.is_reached(search.end),
    ensures
        is_route(maze@, search.size as int, path@, search.start, search.end),
        route_steps(path@) == search.node_at(search.end).steps,
        path@ == spec_way(
            search.task(maze@),
            search.nodes@,
            search.end,
            search.node_at(search.end).steps as nat,
        ),
{
    let size: usize = search.size;
    let ghost sz = size as int;
    let ghost task = search.task(maze@);
    let ghost whole = search.node_at(search.end).steps as nat;
    let ghost mut tail: Seq<Point> = Seq::empty();
    let mut back: Vec<Point> = Vec::new();
    let mut cur: Point = search.end;
    back.push(cur);
    assert(spec_way(task, search.nodes@, cur, whole) + tail =~= spec_way(
        task,
        search.nodes@,
        search.end,
        whole,
    ));
    while cur != search.start
        invariant
            search.inv(maze@),
            size == search.size,
            sz == size as int,
            in_grid(sz, cur),
            search.is_reached(cur),
            back@.len() >= 1,
            back@[0] == search.end,
            back@.last() == cur,
            forall|i: int|
                0 <= i < back@.len() - 1 ==> linked(maze@, sz, #[trigger] back@[i + 1], back@[i]),
            search.node_at(cur).steps + 1 * (back@.len() - 1) == search.node_at(search.end).steps,
            task == search.task(maze@),
            whole == search.node_at(search.end).steps,
            tail.len() == back@.len() - 1,
            forall|j: int| 0 <= j < tail.len() ==> #[trigger] tail[j] == back@[back@.len() - 2 - j],
            spec_way(task, search.nodes@, cur, (whole - (back@.len() - 1)) as nat) + tail
                == spec_way(task, search.nodes@, search.end, whole),
        decreases search.node_at(cur).steps,
    {
        proof {
            lemma_point_index(sz, cur);
        }
        let node: Node = search.nodes[point_to_numb(&cur, size)];
        assert(node == search.node_at(cur));
        let ghost prev = back@;
        match *node.get_parent() {
            Some(u) => {
                proof {
                    let fuel = (whole - (back@.len() - 1)) as nat;
                    assert(search.is_reached(cur));
                    assert(fuel > 0);
                    assert(spec_way(task, search.nodes@, cur, fuel) == spec_way(
                        task,
                        search.nodes@,
                        u,
                        (fuel - 1) as nat,
                    ).push(cur));
                    let longer = seq![cur] + tail;
                    assert(spec_way(task, search.nodes@, u, (fuel - 1) as nat) + longer
                        =~= spec_way(task, search.nodes@, cur, fuel) + tail);
                    tail = longer;
                }
                cur = u;
                back.push(u);
                assert forall|i: int| 0 <= i < back@.len() - 1 implies linked(
                    maze@,
                    sz,
                    #[trigger] back@[i + 1],
                    back@[i],
                ) by {
                    if i < prev.len() - 1 {
                        assert(back@[i + 1] == prev[i + 1]);
                        assert(back@[i] == prev[i]);
                    }
                }
                proof {
                    lemma_closed_count_le(search.closed@);
                }
            },
            None => {
                assert(false);
            },
        }
    }
    let mut path: Vec<Point> = Vec::with_capacity(back.len());
    let mut i: usize = back.len();
    while i > 0
        invariant
            i <= back@.len(),
            path@.len() == back@.len() - i,
            forall|k: int| 0 <= k < path@.len() ==> #[trigger] path@[k] == back@[back@.len() - 1 - k],
        decreases i,
    {
        i = i - 1;
        path.push(back[i]);
    }
    proof {
        assert forall|k: int| 0 <= k < path@.len() - 1 implies #[trigger] joined_at(
            maze@,
            sz,
            path@,
            k,
        ) by {
            let j = back@.len() - 2 - k;
            assert(linked(maze@, sz, back@[j + 1], back@[j]));
            assert(path@[k] == back@[back@.len() - 1 - k]);
            assert(path@[k + 1] == back@[back@.len() - 1 - (k + 1)]);
        }
        assert(path@[0] == back@[back@.len() - 1 - 0]);
        assert(path@[path@.len() - 1] == back@[back@.len() - 1 - (path@.len() - 1)]);
        assert(path@ =~= seq![cur] + tail);
        assert(spec_way(task, search.nodes@, cur, (whole - (back@.len() - 1)) as nat) =~= seq![
            cur,
        ]);
    }
    path
}

/// One turn of a search that a foreground watches. A requested
/// cancellation ends it before the fringe is touched. Else the turn is taken
/// as `AStar::advance` states it, followed by its publish attempt: the
/// overlay of the search, and, once the way is found, the one with start
/// and end on top, which is always shown.
pub fn a_star_step(search: &mut AStar, maze: &Maze, data: &mut MazeData) -> (r: Result<
    Search,
    MazeError,
>)
    requires
        old(search).inv(maze@),
        old(search).size == old(data).maze_opt.size,
    ensures
        old(data).should_exit ==> r == Err::<Search, MazeError>(MazeError::Terminated)
            && *final(search) == *old(search) && *final(data) == *old(data),
        !old(data).should_exit ==> r is Ok,
        r matches Ok(turn) ==> {
            &&& final(search).inv(maze@)
            &&& final(search).size == old(search).size
            &&& final(search).start == old(search).start
            &&& final(search).end == old(search).end
            &&& (turn is Exhausted ==> !has_route(
                maze@,
                old(search).size as int,
                old(search).start,
                old(search).end,
            ))
            &&& (turn is Found ==> final(search).is_reached(old(search).end) && forall|
                other: Seq<Point>,
            | #[trigger]
                is_route(maze@, old(search).size as int, other, old(search).start, old(search).end)
                    ==> final(search).node_at(old(search).end).steps <= route_steps(other))
            &&& (turn is Going ==> final(search).work() < old(search).work())
            &&& (final(search).state(), turn) == spec_advance(
                old(search).task(maze@),
                old(search).state(),
            )
            &&& same_controls(*old(data), *final(data))
            &&& final(data).maze_opt == old(data).maze_opt
            &&& final(data).gen_proc == old(data).gen_proc
            &&& (turn is Exhausted ==> *final(data) == *old(data))
            &&& (!(turn is Exhausted) ==> *final(data) == (MazeData {
                pixels: final(data).pixels,
                ..spec_attempted(*old(data), turn is Found, false)
            }))
            &&& (turn is Going ==> final(data).pixels@ == (if publishes(
                *old(data),
                false,
                false,
            ) {
                spec_draw(
                    maze@,
                    final(search).visual_overwrites@,
                    old(search).size * old(search).size,
                )
            } else {
                old(data).pixels@
            }))
            &&& (turn is Found ==> final(data).pixels@ == spec_draw(
                maze@,
                final(search).visual_overwrites@.update(
                    index_of(old(search).size as int, old(search).start),
                    Some(VisualIndicator::Start),
                ).update(
                    index_of(old(search).size as int, old(search).end),
                    Some(VisualIndicator::End),
                ),
                old(search).size * old(search).size,
            ))
        },
{
    if data.should_exit() {
        return Err(MazeError::Terminated);
    }
    let turn = search.advance(maze);
    match turn {
        Search::Found => {
            let overlay = search.overlay();
            update_maze_debug(data, maze, &overlay, true)?;
        },
        Search::Going => {
            update_maze_debug(data, maze, &search.visual_overwrites, false)?;
        },
        Search::Exhausted => {},
    }
    Ok(turn)
}

/// Finds a shortest way from `options.start` to `options.end` through the
/// passages of the maze, whose side the shared data gives.
///
/// The result is the way, cell centre by cell centre, and the overlay of the
/// search with start and end tagged. It is refused with `InvalidOptions` for
/// a side that cannot be searched, with `OutOfBounds` for a start or an end
/// outside the grid, with `Terminated` where cancellation was requested, and
/// with `Unsolvable` where no route leads from start to end; each under
/// these conditions only, in this order. The maze is not changed.
pub fn a_star(maze: &mut Maze, data: &mut MazeData, options: &SolveOptions) -> (r: Result<
    (Vec<Point>, Vec<Option<VisualIndicator>>),
    MazeError,
>)
    requires
        solvable_size(old(data).maze_opt.size as int) ==> old(maze)@.len()
            == old(data).maze_opt.size * old(data).maze_opt.size,
    ensures
        final(maze)@ == old(maze)@,
        same_controls(*old(data), *final(data)),
        final(data).maze_opt == old(data).maze_opt,
        final(data).gen_proc == old(data).gen_proc,
        ({
            let size = old(data).maze_opt.size as int;
            let inside = in_grid(size, options.start) && in_grid(size, options.end);
            let route = has_route(old(maze)@, size, options.start, options.end);
            &&& !solvable_size(size) ==> (r matches Err(e) && e == MazeError::InvalidOptions)
            &&& solvable_size(size) && !inside ==> (r matches Err(e) && e
                == MazeError::OutOfBounds)
            &&& solvable_size(size) && inside && old(data).should_exit ==> (r matches Err(e) && e
                == MazeError::Terminated)
            &&& solvable_size(size) && inside && !old(data).should_exit && !route ==> (r matches Err(
                e,
            ) && e == MazeError::Unsolvable)
            &&& solvable_size(size) && inside && !old(data).should_exit && route ==> r is Ok
            &&& !solvable_size(size) || !inside || old(data).should_exit || state_at(
                old(maze)@,
                size,
                options.start,
            ) != PointState::Passage ==> *final(data) == *old(data)
            &&& r matches Ok((path, overlay)) ==> {
                &&& is_shortest_route(old(maze)@, size, path@, options.start, options.end)
                &&& (path@, overlay@) == spec_solved(
                    Task { maze: old(maze)@, size: size, start: options.start, end: options.end },
                )
                &&& overlay@.len() == size * size
                &&& overlay@[index_of(size, options.end)] == Some(VisualIndicator::End)
                &&& (options.start != options.end ==> overlay@[index_of(size, options.start)]
                    == Some(VisualIndicator::Start))
                &&& final(data).pixels@ == spec_draw(old(maze)@, overlay@, size * size)
            }
        }),
{
    let size: usize = data.maze_opt.size;
    if !check_solvable(size) {
        return Err(MazeError::InvalidOptions);
    }
    let start: Point = options.start;
    let end: Point = options.end;
    if !(start.x < size && start.y < size && end.x < size && end.y < size) {
        return Err(MazeError::OutOfBounds);
    }
    if data.should_exit() {
        return Err(MazeError::Terminated);
    }
    let ghost entry = *data;
    let mut search = AStar::begin(maze, size, &start, &end)?;
    let ghost task = search.task(maze@);
    let ghost mut turns: nat = (5 * (size * size) + 2) as nat;
    proof {
        lemma_closed_count_none(search.closed@);
        assert(size * size >= 0) by (nonlinear_arith);
    }
    loop
        invariant
            search.inv(maze@),
            task == search.task(maze@),
            turns >= search.work() + 1,
            spec_search(task, search.state(), turns) == spec_searched(task),
            maze@ == old(maze)@,
            search.size == size,
            search.start == start,
            search.end == end,
            start == options.start,
            end == options.end,
            size == data.maze_opt.size,
            size == entry.maze_opt.size,
            entry == *old(data),
            same_controls(entry, *data),
            !data.should_exit,
            data.maze_opt == entry.maze_opt,
            data.gen_proc == entry.gen_proc,
        decreases search.work(),
    {
        proof {
            lemma_closed_count_le(search.closed@);
        }
        let ghost before = search.state();
        let turn = match a_star_step(&mut search, maze, data) {
            Ok(turn) => turn,
            Err(e) => {
                return Err(e);
            },
        };
        match turn {
            Search::Going => {
                proof {
                    lemma_closed_count_le(search.closed@);
                    assert(spec_search(task, before, turns) == spec_search(
                        task,
                        search.state(),
                        (turns - 1) as nat,
                    ));
                    turns = (turns - 1) as nat;
                }
            },
            Search::Exhausted => {
                return Err(MazeError::Unsolvable);
            },
            Search::Found => {
                let path = node_to_path(&search, maze);
                let overlay = search.overlay();
                proof {
                    let sz = size as int;
                    lemma_point_index(sz, start);
                    lemma_point_index(sz, end);
                    if start != end {
                        lemma_other_cell(sz, start, end);
                    }
                    assert(has_route(maze@, sz, start, end));
                    lemma_search_ended(task, before, turns);
                    assert(spec_searched(task).0 == search.state());
                }
                return Ok((path, overlay));
            },
        }
    }
}

} // verus!
