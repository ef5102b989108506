use vstd::prelude::*;
use crate::point::direction::Direction;
use crate::point::point::Point;
use crate::point::point_state::{Color, PointState, VisualIndicator};
use crate::solve::a_star::node::{Node, UNREACHED};
use crate::tools::graph::index_of;
use crate::tools::math::spec_capped_dist;
use crate::tools::matrix::{spec_go_to_dir, spec_has_passage_between, spec_pos_between, state_at};

verus! {

/// What a search is made for: the grid, and where the way starts and ends.
pub struct Task {
    pub maze: Seq<PointState>,
    pub size: int,
    pub start: Point,
    pub end: Point,
}

/// A search between two turns, as the contracts see it.
pub struct SearchState {
    /// One node per cell, row by row.
    pub nodes: Seq<Node>,
    /// The cells that were expanded.
    pub closed: Seq<bool>,
    /// The fringe.
    pub pending: Seq<Point>,
    pub overlay: Seq<Option<VisualIndicator>>,
}

/// What a turn of the search did.
#[derive(Clone, Copy, Debug, PartialEq, Eq, Structural)]
pub enum Search {
    /// A cell was taken from the fringe; the search goes on.
    Going,
    /// The fringe's first in line is the end: the way to it is known.
    Found,
    /// The fringe is empty: no way leads to the end.
    Exhausted,
}

/// How warm a cell `dist` from the end is shown, when the start is
/// `start_cost` from it: 255 times the part of the way that is done, cut to
/// a byte.
pub open spec fn spec_heat(dist: u64, start_cost: u64) -> int {
    if start_cost == 0 {
        0
    } else {
        let gap = if dist <= start_cost {
            start_cost - dist
        } else {
            dist - start_cost
        };
        if 255 * gap / (start_cost as int) > 255 {
            255
        } else {
            255 * gap / (start_cost as int)
        }
    }
}

/// The tag of a cell that was just reached: the warmer, the nearer the end.
pub open spec fn spec_reached_tag(task: Task, w: Point) -> Option<VisualIndicator> {
    Some(
        VisualIndicator::Custom(
            Color {
                r: spec_heat(spec_capped_dist(w, task.end), spec_capped_dist(task.start, task.end))
                    as u8,
                g: 0,
                b: 255,
                a: 255,
            },
        ),
    )
}

/// The search before its first turn: no cell is reached but the start,
/// which waits in the fringe; start and end are tagged.
pub open spec fn spec_begin(task: Task) -> SearchState {
    let cells = (task.size * task.size) as nat;
    let is = index_of(task.size, task.start);
    let ie = index_of(task.size, task.end);
    SearchState {
        nodes: Seq::new(
            cells,
            |i: int|
                Node {
                    parent: None,
                    cost: UNREACHED,
                    steps: UNREACHED,
                    pos: Point { x: (i % task.size) as usize, y: (i / task.size) as usize },
                    end: task.end,
                },
        ).update(
            is,
            Node {
                parent: None,
                cost: spec_capped_dist(task.start, task.end),
                steps: 0,
                pos: task.start,
                end: task.end,
            },
        ),
        closed: Seq::new(cells, |i: int| false),
        pending: seq![task.start],
        overlay: Seq::new(cells, |i: int| None::<VisualIndicator>).update(
            is,
            Some(VisualIndicator::Start),
        ).update(ie, Some(VisualIndicator::End)),
    }
}

/// Looking from the expanded cell `p` towards `dir`: a passage there that is
/// joined to `p`, not expanded, and cheaper by way of `p` than it was, gets
/// `p` as its parent, goes into the fringe, and is tagged together with the
/// cell between.
pub open spec fn spec_relax(task: Task, s: SearchState, p: Point, dir: Direction) -> SearchState {
    match spec_go_to_dir(task.size, p, dir) {
        None => s,
        Some(w) => {
            let iw = index_of(task.size, w);
            let from = s.nodes[index_of(task.size, p)];
            let joined = state_at(task.maze, task.size, w) == PointState::Passage
                && spec_has_passage_between(task.maze, task.size, p, dir);
            let cost = s.nodes[iw].spec_cost_at(Node::spec_steps_from(from));
            if joined && !s.closed[iw] && cost < s.nodes[iw].cost {
                let tag = spec_reached_tag(task, w);
                SearchState {
                    nodes: s.nodes.update(
                        iw,
                        Node {
                            parent: Some(from.pos),
                            steps: Node::spec_steps_from(from),
                            cost: cost,
                            ..s.nodes[iw]
                        },
                    ),
                    pending: s.pending.push(w),
                    overlay: s.overlay.update(iw, tag).update(
                        index_of(task.size, spec_pos_between(task.size, p, dir).unwrap()),
                        tag,
                    ),
                    closed: s.closed,
                }
            } else {
                s
            }
        },
    }
}

/// Looking from `p` in the first `k` directions, one after the other.
pub open spec fn spec_expand(task: Task, s: SearchState, p: Point, k: nat) -> SearchState
    decreases k,
{
    if k == 0 {
        s
    } else {
        spec_relax(task, spec_expand(task, s, p, (k - 1) as nat), p, Direction::spec_all()[k - 1])
    }
}

/// What the fringe is ordered by: the cost of a node plus its steps. A move
/// covers two cells of distance, so this is the steps counted twice plus the
/// distance left, which no route to the end can undercut.
pub open spec fn spec_key(node: Node) -> int {
    node.cost + node.steps
}

/// Whether the cell `a` goes before the cell `b`: its key is lower, or the
/// same and it comes first in the order of the points.
pub open spec fn goes_before(size: int, s: SearchState, a: Point, b: Point) -> bool {
    let key_a = spec_key(s.nodes[index_of(size, a)]);
    let key_b = spec_key(s.nodes[index_of(size, b)]);
    key_a < key_b || (key_a == key_b && a.spec_less(b))
}

/// Among the first `k` entries of the fringe, the place of the one that
/// goes before all others; of its equals, the first.
pub open spec fn spec_lowest_upto(size: int, s: SearchState, k: nat) -> int
    decreases k,
{
    if k <= 1 {
        0
    } else {
        let best = spec_lowest_upto(size, s, (k - 1) as nat);
        if goes_before(size, s, s.pending[k - 1], s.pending[best]) {
            k - 1
        } else {
            best
        }
    }
}

/// One turn of the search. With an empty fringe it is exhausted. If the
/// fringe's first in line is the end, the way is found. Else that entry is
/// taken out, the last taking its place; and unless its cell was expanded
/// before, the cell is marked as expanded, tagged as searched if it is not
/// the start, and looked from in all four directions.
pub open spec fn spec_advance(task: Task, s: SearchState) -> (SearchState, Search) {
    if s.pending.len() == 0 {
        (s, Search::Exhausted)
    } else {
        let best = spec_lowest_upto(task.size, s, s.pending.len());
        let p = s.pending[best];
        let ip = index_of(task.size, p);
        let rest = s.pending.update(best, s.pending.last()).drop_last();
        if p == task.end {
            (s, Search::Found)
        } else if s.closed[ip] {
            (SearchState { pending: rest, ..s }, Search::Going)
        } else {
            let marked = SearchState {
                pending: rest,
                closed: s.closed.update(ip, true),
                overlay: if p != task.start {
                    s.overlay.update(ip, Some(VisualIndicator::Searching))
                } else {
                    s.overlay
                },
                nodes: s.nodes,
            };
            (spec_expand(task, marked, p, 4), Search::Going)
        }
    }
}

/// The search after at most `turns` turns: it stops when a turn finds the
/// way or exhausts the fringe.
pub open spec fn spec_search(task: Task, s: SearchState, turns: nat) -> (SearchState, Search)
    decreases turns,
{
    if turns == 0 {
        (s, Search::Going)
    } else {
        let next = spec_advance(task, s);
        if next.1 == Search::Going {
            spec_search(task, next.0, (turns - 1) as nat)
        } else {
            next
        }
    }
}

/// The way to `cur` that the parents of the nodes give, at most `moves`
/// moves long.
pub open spec fn spec_way(task: Task, nodes: Seq<Node>, cur: Point, moves: nat) -> Seq<Point>
    decreases moves,
{
    if moves == 0 || cur == task.start {
        seq![cur]
    } else {
        match nodes[index_of(task.size, cur)].parent {
            Some(u) => spec_way(task, nodes, u, (moves - 1) as nat).push(cur),
            None => seq![cur],
        }
    }
}

/// The whole search: more turns than any search takes, five for each cell
/// and two more.
pub open spec fn spec_searched(task: Task) -> (SearchState, Search) {
    spec_search(task, spec_begin(task), (5 * (task.size * task.size) + 2) as nat)
}

/// What a search that found the way hands out: the way that the parents
/// give from the end back, and the overlay with start and end on top.
pub open spec fn spec_solved(task: Task) -> (Seq<Point>, Seq<Option<VisualIndicator>>) {
    let found = spec_searched(task).0;
    (
        spec_way(
            task,
            found.nodes,
            task.end,
            found.nodes[index_of(task.size, task.end)].steps as nat,
        ),
        found.overlay.update(index_of(task.size, task.start), Some(VisualIndicator::Start)).update(
            index_of(task.size, task.end),
            Some(VisualIndicator::End),
        ),
    )
}

/// Once a turn has found the way or exhausted the fringe, more turns
/// change nothing.
pub proof fn lemma_search_ended(task: Task, s: SearchState, turns: nat)
    requires
        spec_advance(task, s).1 != Search::Going,
        turns > 0,
    ensures
        spec_search(task, s, turns) == spec_advance(task, s),
{
}

} // verus!
