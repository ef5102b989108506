use vstd::prelude::*;
use std::collections::VecDeque;
use rand::rngs::StdRng;
use crate::error::MazeError;
use crate::generators::carving::{carved_tree, lemma_carve, perfect_maze, spec_remove_wall};
use crate::generators::tools::rand_el;
use crate::point::direction::Direction;
use crate::point::point::Point;
use crate::point::point_state::PointState;
use crate::generators::tools::{
    count_to_percentage, spec_count_to_percentage, spec_total_carvings,
};
use crate::point::point_state::VisualIndicator;
use crate::tools::consts::{get_seeder, get_size, set_seeder, valid_size, Maze};
use crate::tools::options::{same_controls, MazeData};
use crate::point::point_state::Color;
use crate::tools::window::{
    publishes, spec_attempted, spec_draw, update_maze, update_maze_debug,
};
use crate::tools::graph::{
    cells_per_side, center_of, centre_count, index_of, is_center, lemma_center_number,
    lemma_center_of, lemma_centre_count_full, lemma_centre_count_update, lemma_dir_geometry,
    lemma_index_point, lemma_point_index, lemma_wall_count_all, lemma_wall_count_update,
    passages_kept, point_at, wall_count, lemma_connected_self, connected,
};
use crate::tools::math::{lemma_coords_round_trip, lemma_index_round_trip, point_to_numb};
use crate::tools::matrix::{
    dir_has_state, get_available_dirs_state, get_surrounding_walls, go_to_dir,
    lemma_available_dirs, spec_available_dirs, spec_go_to_dir, state_at,
};
use crate::tools::seeder::{drawn, gen_below, seeder_state};

verus! {

/// A generation between two carvings, as the contracts see it.
pub struct GenState {
    pub maze: Seq<PointState>,
    /// The cells from which the walk may go on, the last one first.
    pub active: Seq<Point>,
    /// Where the generator stands in its stream.
    pub seeder: int,
    /// Carvings so far.
    pub count: int,
}

/// A grid of side `size` with nothing carved.
pub open spec fn spec_all_walls(size: int) -> Seq<PointState> {
    Seq::new((size * size) as nat, |i: int| PointState::Wall)
}

/// A wall centre next to a carved centre: where a hunt may resume the walk.
pub open spec fn is_hunt_candidate(maze: Seq<PointState>, size: int, p: Point) -> bool {
    state_at(maze, size, p) == PointState::Wall && spec_available_dirs(
        maze,
        size,
        p,
        PointState::Passage,
    ).len() > 0
}

/// The first hunt candidate among the centres from number `k` on, row by row.
pub open spec fn spec_hunt_from(maze: Seq<PointState>, size: int, k: int) -> Option<Point>
    decreases cells_per_side(size) * cells_per_side(size) - k,
{
    if k < 0 || k >= cells_per_side(size) * cells_per_side(size) {
        None
    } else if is_hunt_candidate(maze, size, center_of(size, k)) {
        Some(center_of(size, k))
    } else {
        spec_hunt_from(maze, size, k + 1)
    }
}

/// What a hunt finds: the first wall centre, row by row, that has a carved
/// centre beside it.
pub open spec fn spec_hunt(maze: Seq<PointState>, size: int) -> Option<Point> {
    spec_hunt_from(maze, size, 0)
}

/// The centre picked among `dirs` from `from` by the next draw, and the
/// state in which the draw leaves the generator.
pub open spec fn spec_pick(size: int, from: Point, dirs: Seq<Direction>, seeder: int) -> (
    Point,
    int,
) {
    let d = drawn(seeder, dirs.len() as u64);
    (spec_go_to_dir(size, from, dirs[d.0 as int]).unwrap(), d.1)
}

/// The start of a generation: two draws pick the first centre, column then
/// row; it is carved and becomes the active cell.
pub open spec fn spec_start(size: int, seeder: int) -> GenState {
    let c = cells_per_side(size);
    let dx = drawn(seeder, c as u64);
    let dy = drawn(dx.1, c as u64);
    let start = Point { x: (2 * dx.0 + 1) as usize, y: (2 * dy.0 + 1) as usize };
    GenState {
        maze: spec_all_walls(size).update(index_of(size, start), PointState::Passage),
        active: seq![start],
        seeder: dy.1,
        count: 0,
    }
}

/// One turn of the generation. The last active cell is taken. If it has an
/// uncarved centre beside it, a draw picks one, the walk carves to it and it
/// becomes active (kill). Else the hunt looks for a wall centre beside a
/// carved one; a draw picks the carved neighbour to join it to, and it
/// becomes active. If the hunt finds nothing, nothing is left active.
pub open spec fn spec_step(size: int, s: GenState) -> GenState {
    if s.active.len() == 0 {
        s
    } else {
        let p = s.active.last();
        let rest = s.active.drop_last();
        let walls = spec_available_dirs(s.maze, size, p, PointState::Wall);
        if walls.len() > 0 {
            let pick = spec_pick(size, p, walls, s.seeder);
            GenState {
                maze: spec_remove_wall(s.maze, size, p, pick.0),
                active: rest.push(pick.0),
                seeder: pick.1,
                count: s.count + 1,
            }
        } else {
            match spec_hunt(s.maze, size) {
                None => GenState { active: rest, ..s },
                Some(w) => {
                    let passages = spec_available_dirs(s.maze, size, w, PointState::Passage);
                    let pick = spec_pick(size, w, passages, s.seeder);
                    GenState {
                        maze: spec_remove_wall(s.maze, size, w, pick.0),
                        active: rest.push(w),
                        seeder: pick.1,
                        count: s.count + 1,
                    }
                },
            }
        }
    }
}

/// What the turn from `s` does: it walks on where the active cell has an
/// uncarved centre beside it, else it hunts, and it finishes where the hunt
/// finds nothing.
pub open spec fn spec_turn(size: int, s: GenState) -> Turn {
    if s.active.len() == 0 {
        Turn::Finished
    } else if spec_available_dirs(s.maze, size, s.active.last(), PointState::Wall).len() > 0 {
        Turn::Walked
    } else {
        match spec_hunt(s.maze, size) {
            None => Turn::Finished,
            Some(w) => Turn::Hunted(w),
        }
    }
}

/// `turns` turns from `s` on.
pub open spec fn spec_run(size: int, s: GenState, turns: nat) -> GenState
    decreases turns,
{
    if turns == 0 {
        s
    } else {
        spec_run(size, spec_step(size, s), (turns - 1) as nat)
    }
}

/// The finished generation on a grid of side `size` with a generator that
/// starts in state `seeder`: it depends on nothing else. One turn more than
/// there are cells is more than any generation takes, and turns after the
/// end change nothing.
pub open spec fn spec_generated(size: int, seeder: int) -> GenState {
    spec_run(size, spec_start(size, seeder), (size * size + 1) as nat)
}

/// Once nothing is active, further turns change nothing.
pub proof fn lemma_run_finished(size: int, s: GenState, turns: nat)
    requires
        s.active.len() == 0,
    ensures
        spec_run(size, s, turns) == s,
    decreases turns,
{
    if turns > 0 {
        lemma_run_finished(size, s, (turns - 1) as nat);
    }
}

/// Centres that are no candidates can be skipped by the hunt.
proof fn lemma_hunt_skip(maze: Seq<PointState>, size: int, a: int, b: int)
    requires
        0 <= a <= b <= cells_per_side(size) * cells_per_side(size),
        forall|j: int| a <= j < b ==> !is_hunt_candidate(maze, size, #[trigger] center_of(size, j)),
    ensures
        spec_hunt_from(maze, size, a) == spec_hunt_from(maze, size, b),
    decreases b - a,
{
    if a < b {
        assert(!is_hunt_candidate(maze, size, center_of(size, a)));
        lemma_hunt_skip(maze, size, a + 1, b);
    }
}

/// A hunt that finds nothing has seen every centre: none is a candidate.
proof fn lemma_hunt_none(maze: Seq<PointState>, size: int, k: int)
    requires
        valid_size(size),
        0 <= k,
        spec_hunt_from(maze, size, k) is None,
    ensures
        forall|p: Point|
            #![trigger is_center(size, p)]
            is_center(size, p) && crate::tools::graph::center_number(size, p) >= k
                ==> !is_hunt_candidate(maze, size, p),
    decreases cells_per_side(size) * cells_per_side(size) - k,
{
    let total = cells_per_side(size) * cells_per_side(size);
    if k < total {
        lemma_hunt_none(maze, size, k + 1);
        assert forall|p: Point|
            #![trigger is_center(size, p)]
            is_center(size, p) && crate::tools::graph::center_number(size, p) >= k
                implies !is_hunt_candidate(maze, size, p) by {
            lemma_center_number(size, p);
        }
    } else {
        assert forall|p: Point|
            #![trigger is_center(size, p)]
            is_center(size, p) && crate::tools::graph::center_number(size, p) >= k
                implies !is_hunt_candidate(maze, size, p) by {
            lemma_center_number(size, p);
        }
    }
}

/// When no wall centre has a carved centre beside it and one centre is
/// carved, all of them are: the carved ones spread along the row of `p` and
/// from there along every column.
proof fn lemma_all_carved(maze: Seq<PointState>, size: int, p: Point, q: Point)
    requires
        valid_size(size),
        is_center(size, p),
        state_at(maze, size, p) == PointState::Passage,
        is_center(size, q),
        forall|c: Point|
            #![trigger is_center(size, c)]
            is_center(size, c) ==> !is_hunt_candidate(maze, size, c),
    ensures
        state_at(maze, size, q) == PointState::Passage,
    decreases
        (if q.y >= p.y { q.y - p.y } else { p.y - q.y }),
        (if q.x >= p.x { q.x - p.x } else { p.x - q.x }),
{
    assert(size <= size * size) by (nonlinear_arith)
        requires size >= 1;
    if q.y != p.y {
        let prev = if q.y > p.y {
            Point { x: q.x, y: (q.y - 2) as usize }
        } else {
            Point { x: q.x, y: (q.y + 2) as usize }
        };
        let dir = if q.y > p.y {
            Direction::UP
        } else {
            Direction::DOWN
        };
        lemma_all_carved(maze, size, p, prev);
        assert(spec_go_to_dir(size, q, dir) == Some(prev));
        assert(dir_has_state(maze, size, q, dir, PointState::Passage));
        lemma_available_dirs(maze, size, q, PointState::Passage);
        assert(spec_available_dirs(maze, size, q, PointState::Passage).contains(dir));
        assert(is_center(size, q));
    } else if q.x != p.x {
        let prev = if q.x > p.x {
            Point { x: (q.x - 2) as usize, y: q.y }
        } else {
            Point { x: (q.x + 2) as usize, y: q.y }
        };
        let dir = if q.x > p.x {
            Direction::LEFT
        } else {
            Direction::RIGHT
        };
        lemma_all_carved(maze, size, p, prev);
        assert(spec_go_to_dir(size, q, dir) == Some(prev));
        assert(dir_has_state(maze, size, q, dir, PointState::Passage));
        lemma_available_dirs(maze, size, q, PointState::Passage);
        assert(spec_available_dirs(maze, size, q, PointState::Passage).contains(dir));
        assert(is_center(size, q));
    }
}

/// No more centres are carved than there are.
proof fn lemma_centre_count_le(maze: Seq<PointState>, size: int, k: int)
    requires
        0 <= k,
    ensures
        0 <= centre_count(maze, size, k) <= k,
    decreases k,
{
    if k > 0 {
        lemma_centre_count_le(maze, size, k - 1);
    }
}

/// Turns every cell on the straight run from `from` to `to` into a passage.
/// The two must share a row or a column.
pub fn remove_wall(size: usize, maze: &mut Maze, from: &Point, to: &Point) -> (r: Result<
    (),
    MazeError,
>)
    requires
        old(maze)@.len() == size * size,
    ensures
        r is Ok <==> (from.x == to.x || from.y == to.y),
        r is Ok ==> final(maze)@ == spec_remove_wall(old(maze)@, size as int, *from, *to),
        r is Err ==> r == Err::<(), MazeError>(MazeError::NotAligned) && final(maze)@ == old(maze)@,
{
    if from.x != to.x && from.y != to.y {
        return Err(MazeError::NotAligned);
    }
    let ghost before = maze@;
    let len: usize = maze.len();
    if from.x == to.x {
        let x: usize = from.x;
        let lo: usize = if from.y <= to.y { from.y } else { to.y };
        let hi: usize = if from.y <= to.y { to.y } else { from.y };
        if x < size && lo < size {
            let top: usize = if hi < size { hi } else { size - 1 };
            let mut y: usize = lo;
            while y <= top
                invariant
                    lo <= y <= top + 1,
                    top < size,
                    x < size,
                    top <= hi,
                    hi >= size ==> top == size - 1,
                    hi < size ==> top == hi,
                    maze@.len() == before.len(),
                    before.len() == size * size,
                    before.len() == len,
                    forall|i: int|
                        0 <= i < before.len() ==> maze@[i] == (if point_at(size as int, i).x == x
                            && lo <= point_at(size as int, i).y < y {
                            PointState::Passage
                        } else {
                            before[i]
                        }),
                decreases top + 1 - y,
            {
                proof {
                    lemma_index_round_trip(x as int, y as int, size as int);
                }
                let ghost prev = maze@;
                let idx: usize = y * size + x;
                maze[idx] = PointState::Passage;
                proof {
                    assert forall|i: int| 0 <= i < before.len() implies maze@[i] == (if point_at(
                        size as int,
                        i,
                    ).x == x && lo <= point_at(size as int, i).y < y + 1 {
                        PointState::Passage
                    } else {
                        before[i]
                    }) by {
                        lemma_coords_round_trip(i, size as int);
                    }
                }
                y = y + 1;
            }
        }
        proof {
            assert forall|i: int| 0 <= i < before.len() implies maze@[i] == spec_remove_wall(
                before,
                size as int,
                *from,
                *to,
            )[i] by {
                if size > 0 {
                    lemma_index_point(size as int, i);
                }
            }
            assert(maze@ =~= spec_remove_wall(before, size as int, *from, *to));
        }
    } else {
        let y: usize = from.y;
        let lo: usize = if from.x <= to.x { from.x } else { to.x };
        let hi: usize = if from.x <= to.x { to.x } else { from.x };
        if y < size && lo < size {
            let top: usize = if hi < size { hi } else { size - 1 };
            let mut x: usize = lo;
            while x <= top
                invariant
                    lo <= x <= top + 1,
                    top < size,
                    y < size,
                    top <= hi,
                    hi >= size ==> top == size - 1,
                    hi < size ==> top == hi,
                    maze@.len() == before.len(),
                    before.len() == size * size,
                    before.len() == len,
                    forall|i: int|
                        0 <= i < before.len() ==> maze@[i] == (if point_at(size as int, i).y == y
                            && lo <= point_at(size as int, i).x < x {
                            PointState::Passage
                        } else {
                            before[i]
                        }),
                decreases top + 1 - x,
            {
                proof {
                    lemma_index_round_trip(x as int, y as int, size as int);
                }
                let idx: usize = y * size + x;
                maze[idx] = PointState::Passage;
                proof {
                    assert forall|i: int| 0 <= i < before.len() implies maze@[i] == (if point_at(
                        size as int,
                        i,
                    ).y == y && lo <= point_at(size as int, i).x < x + 1 {
                        PointState::Passage
                    } else {
                        before[i]
                    }) by {
                        lemma_coords_round_trip(i, size as int);
                    }
                }
                x = x + 1;
            }
        }
        proof {
            assert forall|i: int| 0 <= i < before.len() implies maze@[i] == spec_remove_wall(
                before,
                size as int,
                *from,
                *to,
            )[i] by {
                if size > 0 {
                    lemma_index_point(size as int, i);
                }
            }
            assert(maze@ =~= spec_remove_wall(before, size as int, *from, *to));
        }
    }
    Ok(())
}

/// A centre more than a row before the first carved one has nothing carved
/// beside it.
proof fn lemma_untouched(maze: Seq<PointState>, size: int, first: int, j: int)
    requires
        valid_size(size),
        maze.len() == size * size,
        0 <= j,
        j + cells_per_side(size) < first <= cells_per_side(size) * cells_per_side(size),
        forall|i: int|
            0 <= i < first ==> state_at(maze, size, #[trigger] center_of(size, i))
                == PointState::Wall,
    ensures
        !is_hunt_candidate(maze, size, center_of(size, j)),
{
    let c = cells_per_side(size);
    let p = center_of(size, j);
    lemma_center_of(size, j);
    lemma_available_dirs(maze, size, p, PointState::Passage);
    let dirs = spec_available_dirs(maze, size, p, PointState::Passage);
    if dirs.len() > 0 {
        let d = dirs[0];
        assert(dir_has_state(maze, size, p, d, PointState::Passage));
        let q = spec_go_to_dir(size, p, d).unwrap();
        assert(size <= size * size) by (nonlinear_arith)
            requires size >= 1;
        lemma_dir_geometry(size, p, d);
        lemma_center_number(size, q);
        let a = (p.y - 1) / 2;
        assert((a + 1) * c == a * c + c && (a - 1) * c == a * c - c) by (nonlinear_arith);
        assert(crate::tools::graph::center_number(size, q) <= j + c);
        assert(state_at(maze, size, center_of(size, crate::tools::graph::center_number(size, q)))
            == PointState::Wall);
    }
}

/// The number of a centre in the row-by-row count.
pub fn center_index(size: usize, p: &Point) -> (k: usize)
    requires
        valid_size(size as int),
        is_center(size as int, *p),
    ensures
        k == crate::tools::graph::center_number(size as int, *p),
        k < cells_per_side(size as int) * cells_per_side(size as int),
{
    let c: usize = (size - 1) / 2;
    proof {
        lemma_center_number(size as int, *p);
        assert(((p.y - 1) / 2) * c >= 0) by (nonlinear_arith)
            requires p.y >= 1, c >= 0;
        assert(c * c <= size * size) by (nonlinear_arith)
            requires 0 <= c <= size;
    }
    ((p.y - 1) / 2) * c + (p.x - 1) / 2
}

/// The hunt: the first wall centre, row by row, beside a carved centre.
/// Centres below `*cursor` are known to be carved and are not looked at
/// again; the cursor moves on over the carved centres it meets first. No
/// centre below `first_carved` is carved, so the search begins a row before
/// it at the earliest.
pub fn hunt_phase(size: usize, maze: &Maze, cursor: &mut usize, first_carved: usize) -> (found:
    Option<Point>)
    requires
        valid_size(size as int),
        maze@.len() == size * size,
        *old(cursor) <= cells_per_side(size as int) * cells_per_side(size as int),
        forall|j: int|
            0 <= j < *old(cursor) ==> state_at(maze@, size as int, #[trigger] center_of(size as int, j))
                == PointState::Passage,
        first_carved <= cells_per_side(size as int) * cells_per_side(size as int),
        forall|j: int|
            0 <= j < first_carved ==> state_at(maze@, size as int, #[trigger] center_of(size as int, j))
                == PointState::Wall,
    ensures
        found == spec_hunt(maze@, size as int),
        *old(cursor) <= *final(cursor) <= cells_per_side(size as int) * cells_per_side(
            size as int,
        ),
        forall|j: int|
            0 <= j < *final(cursor) ==> state_at(maze@, size as int, #[trigger] center_of(size as int, j))
                == PointState::Passage,
        found matches Some(w) ==> is_center(size as int, w) && is_hunt_candidate(
            maze@,
            size as int,
            w,
        ),
        found is None ==> forall|p: Point|
            #![trigger is_center(size as int, p)]
            is_center(size as int, p) ==> !is_hunt_candidate(maze@, size as int, p),
{
    let c: usize = (size - 1) / 2;
    proof {
        assert(c * c <= size * size) by (nonlinear_arith)
            requires 0 <= c <= size;
    }
    let total: usize = c * c;
    let from: usize = if first_carved > c {
        first_carved - c
    } else {
        0
    };
    let mut k: usize = if *cursor > from {
        *cursor
    } else {
        from
    };
    proof {
        assert forall|j: int| 0 <= j < k implies !is_hunt_candidate(
            maze@,
            size as int,
            #[trigger] center_of(size as int, j),
        ) by {
            if j >= *cursor {
                lemma_untouched(maze@, size as int, first_carved as int, j);
            }
        }
    }
    while k < total
        invariant
            valid_size(size as int),
            maze@.len() == size * size,
            c == cells_per_side(size as int),
            total == c * c,
            *old(cursor) <= *cursor <= total,
            k <= total,
            forall|j: int|
                0 <= j < *cursor ==> state_at(maze@, size as int, #[trigger] center_of(size as int, j))
                    == PointState::Passage,
            forall|j: int|
                0 <= j < k ==> !is_hunt_candidate(maze@, size as int, #[trigger] center_of(size as int, j)),
        decreases total - k,
    {
        proof {
            lemma_center_of(size as int, k as int);
            assert(0 <= k as int / c as int && (k as int / c as int) < c) by (nonlinear_arith)
                requires 0 <= k < c * c, c > 0;
        }
        let p = Point { x: 2 * (k % c) + 1, y: 2 * (k / c) + 1 };
        assert(p == center_of(size as int, k as int));
        proof {
            lemma_point_index(size as int, p);
        }
        let state = maze[point_to_numb(&p, size)];
        if state == PointState::Passage {
            if k == *cursor {
                *cursor = k + 1;
            }
        } else {
            match get_available_dirs_state(&size, maze, &p, PointState::Passage) {
                Ok(passages) => {
                    if passages.len() > 0 {
                        proof {
                            lemma_hunt_skip(maze@, size as int, 0, k as int);
                        }
                        return Some(p);
                    }
                },
                Err(_) => {},
            }
        }
        k = k + 1;
    }
    proof {
        lemma_hunt_skip(maze@, size as int, 0, total as int);
        lemma_hunt_none(maze@, size as int, 0);
        assert forall|p: Point|
            #![trigger is_center(size as int, p)]
            is_center(size as int, p) implies !is_hunt_candidate(maze@, size as int, p) by {
            lemma_center_number(size as int, p);
        }
    }
    None
}

/// While no centre is carved, none is counted.
proof fn lemma_centre_count_none(maze: Seq<PointState>, size: int, k: int)
    requires
        valid_size(size),
        0 <= k <= cells_per_side(size) * cells_per_side(size),
        forall|p: Point| is_center(size, p) ==> state_at(maze, size, p) == PointState::Wall,
    ensures
        centre_count(maze, size, k) == 0,
    decreases k,
{
    if k > 0 {
        lemma_centre_count_none(maze, size, k - 1);
        lemma_center_of(size, k - 1);
    }
}

/// A grid with one carved centre and nothing else carved is a tree without
/// connections.
proof fn lemma_start_tree(size: int, start: Point)
    requires
        valid_size(size),
        is_center(size, start),
    ensures
        carved_tree(
            spec_all_walls(size).update(index_of(size, start), PointState::Passage),
            size,
            0,
        ),
{
    let walls = spec_all_walls(size);
    let idx = index_of(size, start);
    let maze = walls.update(idx, PointState::Passage);
    let total = cells_per_side(size) * cells_per_side(size);
    lemma_point_index(size, start);
    assert(size * size >= 0) by (nonlinear_arith);
    lemma_wall_count_all(walls);
    lemma_wall_count_update(walls, idx, PointState::Passage);
    assert forall|p: Point| is_center(size, p) implies state_at(walls, size, p)
        == PointState::Wall by {
        lemma_point_index(size, p);
    }
    lemma_centre_count_none(walls, size, total);
    lemma_centre_count_update(walls, size, total, idx, PointState::Passage);
    lemma_center_number(size, start);
    assert forall|i: int|
        0 <= i < maze.len() && #[trigger] crate::generators::carving::is_open(
            maze,
            i,
        ) implies is_center(size, point_at(size, i)) || crate::generators::carving::is_carved_wall(
        maze,
        size,
        point_at(size, i),
    ) by {
        assert(i == idx);
    }
    assert forall|a: Point, b: Point|
        is_center(size, a) && state_at(maze, size, a) == PointState::Passage && is_center(size, b)
            && state_at(maze, size, b) == PointState::Passage implies #[trigger] connected(
        maze,
        size,
        a,
        b,
    ) by {
        lemma_point_index(size, a);
        lemma_point_index(size, b);
        assert(a == start);
        assert(b == start);
        lemma_connected_self(maze, size, start);
    }
}

/// What a turn of the generation did.
#[derive(Clone, Copy, Debug, PartialEq, Eq, Structural)]
pub enum Turn {
    /// The walk carved on from the active cell.
    Walked,
    /// The walk was stuck; the hunt found this centre and joined it on.
    Hunted(Point),
    /// Nothing was left to carve.
    Finished,
}

/// A generation in progress.
pub struct HuntAndKill {
    pub size: usize,
    /// The active cells; the walk goes on from the last.
    pub pending: VecDeque<Point>,
    pub seeder: StdRng,
    /// Carvings so far.
    pub count: u64,
    /// Centres below this number are carved; the hunt starts here.
    pub hunt_cursor: usize,
    /// The lowest number of a carved centre.
    pub first_carved: usize,
    /// The progress last reported, in thousandths.
    pub last_percentage: u64,
}

impl HuntAndKill {
    /// The generation as the contracts see it.
    pub open spec fn state(&self, maze: Seq<PointState>) -> GenState {
        GenState {
            maze: maze,
            active: self.pending@,
            seeder: seeder_state(self.seeder),
            count: self.count as int,
        }
    }

    /// What the generation remembers of the grid to keep the hunt short: the
    /// centres below the hunt cursor are carved, those below the first
    /// carved one are not.
    pub open spec fn marks(&self, maze: Seq<PointState>) -> bool {
        &&& self.hunt_cursor <= cells_per_side(self.size as int) * cells_per_side(
            self.size as int,
        )
        &&& forall|j: int|
            0 <= j < self.hunt_cursor ==> state_at(
                maze,
                self.size as int,
                #[trigger] center_of(self.size as int, j),
            ) == PointState::Passage
        &&& self.first_carved <= cells_per_side(self.size as int) * cells_per_side(
            self.size as int,
        )
        &&& forall|j: int|
            0 <= j < self.first_carved ==> state_at(
                maze,
                self.size as int,
                #[trigger] center_of(self.size as int, j),
            ) == PointState::Wall
    }

    /// What holds between two turns: the carved part of `maze` is a tree of
    /// `count` connections, and at most one cell is active, a carved centre.
    pub open spec fn inv(&self, maze: Seq<PointState>) -> bool {
        &&& valid_size(self.size as int)
        &&& carved_tree(maze, self.size as int, self.count as int)
        &&& self.pending@.len() <= 1
        &&& forall|i: int|
            0 <= i < self.pending@.len() ==> is_center(self.size as int, #[trigger] self.pending@[i])
                && state_at(maze, self.size as int, self.pending@[i]) == PointState::Passage
        &&& self.marks(maze)
    }

    /// Carves the connection between the centres `a` and `b`, of which one
    /// is carved and the other, `fresh`, is not; `fresh` becomes the active
    /// cell.
    fn join(&mut self, maze: &mut Maze, a: &Point, b: &Point, fresh: &Point)
        requires
            valid_size(old(self).size as int),
            carved_tree(old(maze)@, old(self).size as int, old(self).count as int),
            old(self).pending@.len() == 0,
            old(self).marks(old(maze)@),
            is_center(old(self).size as int, *a),
            is_center(old(self).size as int, *b),
            crate::tools::graph::two_apart(*a, *b),
            (*fresh == *b && state_at(old(maze)@, old(self).size as int, *a)
                == PointState::Passage && state_at(old(maze)@, old(self).size as int, *b)
                == PointState::Wall) || (*fresh == *a && state_at(
                old(maze)@,
                old(self).size as int,
                *b,
            ) == PointState::Passage && state_at(old(maze)@, old(self).size as int, *a)
                == PointState::Wall),
        ensures
            final(self).inv(final(maze)@),
            final(maze)@ == spec_remove_wall(old(maze)@, old(self).size as int, *a, *b),
            final(self).pending@ == seq![*fresh],
            final(self).count == old(self).count + 1,
            final(self).seeder == old(self).seeder,
            final(self).size == old(self).size,
            final(self).last_percentage == old(self).last_percentage,
            passages_kept(old(maze)@, final(maze)@),
            wall_count(final(maze)@) + 2 == wall_count(old(maze)@),
    {
        let size: usize = self.size;
        let ghost sz = size as int;
        let ghost before = maze@;
        let ghost total = cells_per_side(sz) * cells_per_side(sz);
        let ghost known = if *fresh == *b { *a } else { *b };
        proof {
            assert(sz <= sz * sz) by (nonlinear_arith)
                requires sz >= 1;
            lemma_carve(before, sz, self.count as int, known, *fresh);
            lemma_centre_count_le(spec_remove_wall(before, sz, *a, *b), sz, total);
        }
        let carved = remove_wall(size, maze, a, b);
        assert(carved is Ok);
        self.pending.push_back(*fresh);
        self.count = self.count + 1;
        let reached: usize = center_index(size, fresh);
        if reached < self.first_carved {
            self.first_carved = reached;
        }
        proof {
            assert(self.pending@ =~= seq![*fresh]);
            lemma_center_number(sz, *fresh);
            assert forall|j: int| 0 <= j < self.first_carved implies state_at(
                maze@,
                sz,
                #[trigger] center_of(sz, j),
            ) == PointState::Wall by {
                lemma_center_of(sz, j);
                assert(center_of(sz, j) != *fresh);
            }
            assert forall|j: int| 0 <= j < self.hunt_cursor implies state_at(
                maze@,
                sz,
                #[trigger] center_of(sz, j),
            ) == PointState::Passage by {
                lemma_center_of(sz, j);
                lemma_point_index(sz, center_of(sz, j));
            }
        }
    }

    /// Begins a generation on a grid of walls: two draws pick the first
    /// centre, which is carved and becomes active.
    pub fn start(maze: &mut Maze, size: usize, seeder: StdRng) -> (st: HuntAndKill)
        requires
            valid_size(size as int),
            old(maze)@ == spec_all_walls(size as int),
        ensures
            st.size == size,
            st.last_percentage == 0,
            st.inv(final(maze)@),
            st.pending@.len() == 1,
            st.state(final(maze)@) == spec_start(size as int, seeder_state(seeder)),
    {
        let ghost origin = seeder_state(seeder);
        let mut rng = seeder;
        let c: usize = (size - 1) / 2;
        let x: usize = (gen_below(&mut rng, c as u64) as usize) * 2 + 1;
        let y: usize = (gen_below(&mut rng, c as u64) as usize) * 2 + 1;
        let start = Point { x, y };
        proof {
            assert(size * size >= 0) by (nonlinear_arith);
            lemma_point_index(size as int, start);
            lemma_start_tree(size as int, start);
        }
        let idx: usize = point_to_numb(&start, size);
        maze[idx] = PointState::Passage;
        let mut pending: VecDeque<Point> = VecDeque::new();
        pending.push_back(start);
        let first_carved: usize = center_index(size, &start);
        let st = HuntAndKill {
            size,
            pending,
            seeder: rng,
            count: 0,
            hunt_cursor: 0,
            first_carved,
            last_percentage: 0,
        };
        proof {
            assert forall|j: int| 0 <= j < first_carved implies state_at(
                maze@,
                size as int,
                #[trigger] center_of(size as int, j),
            ) == PointState::Wall by {
                lemma_center_of(size as int, j);
                lemma_point_index(size as int, center_of(size as int, j));
            }
            assert(st.pending@ =~= seq![start]);
            assert(st.state(maze@).maze == spec_start(size as int, origin).maze);
        }
        st
    }

    /// One turn, as `spec_step` states it. Each turn but the last carves one
    /// more centre; the last finds nothing to carve and leaves a perfect
    /// maze.
    pub fn advance(&mut self, maze: &mut Maze) -> (turn: Turn)
        requires
            old(self).inv(old(maze)@),
            old(self).pending@.len() > 0,
        ensures
            final(self).inv(final(maze)@),
            final(self).size == old(self).size,
            final(self).last_percentage == old(self).last_percentage,
            final(self).state(final(maze)@) == spec_step(
                old(self).size as int,
                old(self).state(old(maze)@),
            ),
            turn == spec_turn(old(self).size as int, old(self).state(old(maze)@)),
            turn is Finished <==> final(self).pending@.len() == 0,
            turn matches Turn::Hunted(w) ==> is_center(old(self).size as int, w) && state_at(
                old(maze)@,
                old(self).size as int,
                w,
            ) == PointState::Wall,
            !(turn is Finished) ==> final(self).count == old(self).count + 1,
            turn is Finished ==> final(self).count == old(self).count && final(maze)@ == old(maze)@,
            passages_kept(old(maze)@, final(maze)@),
            wall_count(final(maze)@) + final(self).pending@.len() < wall_count(old(maze)@)
                + old(self).pending@.len(),
            turn is Finished ==> perfect_maze(final(maze)@, old(self).size as int),
            turn is Finished ==> final(self).count + 1 == cells_per_side(old(self).size as int)
                * cells_per_side(old(self).size as int),
    {
        let size: usize = self.size;
        let ghost before = maze@;
        let ghost s0 = self.state(maze@);
        let ghost total = cells_per_side(size as int) * cells_per_side(size as int);
        proof {
            assert(size <= size * size) by (nonlinear_arith)
                requires size >= 1;
            lemma_centre_count_le(before, size as int, total);
        }
        let p = match self.pending.pop_back() {
            Some(p) => p,
            None => Point { x: 1, y: 1 },
        };
        assert(p == s0.active.last());
        assert(self.pending@ =~= s0.active.drop_last());
        assert(is_center(size as int, p) && state_at(before, size as int, p)
            == PointState::Passage) by {
            assert(p == old(self).pending@[0]);
        }
        let walls = match get_surrounding_walls(&size, maze, &p) {
            Ok(v) => v,
            Err(_) => Vec::new(),
        };
        if walls.len() > 0 {
            proof {
                lemma_available_dirs(before, size as int, p, PointState::Wall);
            }
            let dir = rand_el(&mut self.seeder, walls.as_slice());
            let ghost pick = spec_pick(size as int, p, walls@, s0.seeder);
            assert(dir_has_state(before, size as int, p, dir, PointState::Wall));
            let n = match go_to_dir(&size, &p, &dir) {
                Some(n) => n,
                None => p,
            };
            proof {
                assert(n == pick.0);
                lemma_dir_geometry(size as int, p, dir);
            }
            self.join(maze, &p, &n, &n);
            proof {
                let s1 = self.state(maze@);
                let want = spec_step(size as int, s0);
                assert(s1.maze == want.maze);
                assert(s1.active =~= want.active);
                assert(s1 == want);
            }
            Turn::Walked
        } else {
            match hunt_phase(size, maze, &mut self.hunt_cursor, self.first_carved) {
                None => {
                    proof {
                        let s1 = self.state(maze@);
                        let want = spec_step(size as int, s0);
                        assert(s1.active =~= want.active);
                        assert(s1 == want);
                        assert forall|q: Point| is_center(size as int, q) implies state_at(
                            maze@,
                            size as int,
                            q,
                        ) == PointState::Passage by {
                            lemma_all_carved(maze@, size as int, p, q);
                        }
                        lemma_centre_count_full(maze@, size as int, total);
                    }
                    Turn::Finished
                },
                Some(w) => {
                    let passages = match get_available_dirs_state(
                        &size,
                        maze,
                        &w,
                        PointState::Passage,
                    ) {
                        Ok(v) => v,
                        Err(_) => Vec::new(),
                    };
                    proof {
                        lemma_available_dirs(before, size as int, w, PointState::Passage);
                    }
                    let dir = rand_el(&mut self.seeder, passages.as_slice());
                    let ghost pick = spec_pick(size as int, w, passages@, s0.seeder);
                    assert(dir_has_state(before, size as int, w, dir, PointState::Passage));
                    let n = match go_to_dir(&size, &w, &dir) {
                        Some(n) => n,
                        None => w,
                    };
                    proof {
                        assert(n == pick.0);
                        lemma_dir_geometry(size as int, w, dir);
                    }
                    self.join(maze, &w, &n, &w);
                    proof {
                        let s1 = self.state(maze@);
                        let want = spec_step(size as int, s0);
                        assert(s1.maze == want.maze);
                        assert(s1.active =~= want.active);
                        assert(s1 == want);
                    }
                    Turn::Hunted(w)
                },
            }
        }
    }
}

/// An overlay of `cells` cells with the one tag `tag` at `at`.
pub open spec fn spec_single_mark(cells: int, at: int, tag: VisualIndicator) -> Seq<
    Option<VisualIndicator>,
> {
    Seq::new(cells as nat, |i: int| if i == at { Some(tag) } else { None })
}

/// An overlay that tags nothing but the cell `at`.
pub fn single_mark(cells: usize, at: usize, tag: VisualIndicator) -> (overlay: Vec<
    Option<VisualIndicator>,
>)
    ensures
        overlay@ == spec_single_mark(cells as int, at as int, tag),
{
    let mut overlay: Vec<Option<VisualIndicator>> = Vec::with_capacity(cells);
    let mut i: usize = 0;
    while i < cells
        invariant
            i <= cells,
            overlay@ == spec_single_mark(i as int, at as int, tag),
        decreases cells - i,
    {
        overlay.push(if i == at { Some(tag) } else { None });
        i = i + 1;
        assert(overlay@ =~= spec_single_mark(i as int, at as int, tag));
    }
    overlay
}

/// The shared state after a turn that carved, but for the snapshot: a
/// hunt's find is shown at once where the animation is on, the progress is
/// set where one is due, and the turn makes its publish attempt.
pub open spec fn spec_turn_reported(data: MazeData, hunted: bool, progress: Option<u64>) -> MazeData {
    let found = if hunted && data.anim.show_anim {
        spec_attempted(data, true, false)
    } else {
        data
    };
    let reported = match progress {
        Some(e) => MazeData { gen_proc: e, ..found },
        None => found,
    };
    spec_attempted(reported, false, false)
}

/// The snapshot after a turn that carved: the maze as the turn left it if
/// the turn's publish attempt wrote one; else the maze with the hunt's find
/// tagged, if that was shown; else the snapshot as it was.
pub open spec fn spec_turn_shown(
    data: MazeData,
    found: Option<Point>,
    maze: Seq<PointState>,
    size: int,
) -> Seq<Color> {
    let shown = found is Some && data.anim.show_anim;
    let before = if shown {
        spec_attempted(data, true, false)
    } else {
        data
    };
    if publishes(before, false, false) {
        spec_draw(maze, Seq::<Option<VisualIndicator>>::empty(), size * size)
    } else if shown {
        spec_draw(
            maze,
            spec_single_mark(size * size, index_of(size, found->0), VisualIndicator::Match),
            size * size,
        )
    } else {
        data.pixels@
    }
}

/// The centre that a turn's hunt found, if it hunted.
pub open spec fn spec_found(turn: Turn) -> Option<Point> {
    match turn {
        Turn::Hunted(w) => Some(w),
        _ => None,
    }
}

/// One turn of a generation that a foreground watches. A requested
/// cancellation ends it before anything is carved. Else the turn is taken as
/// `HuntAndKill::advance` states it; the progress is reported where it is
/// due; a hunt's find is published at once, tagged, and every turn makes its
/// publish attempt.
pub fn hunt_and_kill_step(st: &mut HuntAndKill, maze: &mut Maze, data: &mut MazeData) -> (r: Result<
    Turn,
    MazeError,
>)
    requires
        old(st).inv(old(maze)@),
        old(st).pending@.len() > 0,
        old(st).size == old(data).maze_opt.size,
    ensures
        old(data).should_exit ==> r == Err::<Turn, MazeError>(MazeError::Terminated)
            && final(maze)@ == old(maze)@ && *final(st) == *old(st) && *final(data) == *old(data),
        !old(data).should_exit ==> r is Ok,
        r matches Ok(turn) ==> {
            &&& final(st).inv(final(maze)@)
            &&& final(st).size == old(st).size
            &&& final(st).state(final(maze)@) == spec_step(
                old(st).size as int,
                old(st).state(old(maze)@),
            )
            &&& turn == spec_turn(old(st).size as int, old(st).state(old(maze)@))
            &&& final(st).count == old(st).count + (if turn is Finished {
                0int
            } else {
                1int
            })
            &&& (turn is Finished <==> final(st).pending@.len() == 0)
            &&& passages_kept(old(maze)@, final(maze)@)
            &&& wall_count(final(maze)@) + final(st).pending@.len() < wall_count(old(maze)@)
                + old(st).pending@.len()
            &&& (turn is Finished ==> perfect_maze(final(maze)@, old(st).size as int)
                && final(st).count + 1 == cells_per_side(old(st).size as int) * cells_per_side(
                old(st).size as int,
            ))
            &&& same_controls(*old(data), *final(data))
            &&& final(data).maze_opt == old(data).maze_opt
            &&& (turn is Finished ==> *final(data) == *old(data))
            &&& (!(turn is Finished) ==> *final(data) == (MazeData {
                pixels: final(data).pixels,
                ..spec_turn_reported(
                    *old(data),
                    turn is Hunted,
                    spec_count_to_percentage(
                        old(data).anim.speed,
                        old(st).size as int,
                        final(st).count,
                        old(st).last_percentage,
                    ),
                )
            }) && final(data).pixels@ == spec_turn_shown(
                *old(data),
                spec_found(turn),
                final(maze)@,
                old(st).size as int,
            ))
            &&& final(st).last_percentage == (if turn is Finished {
                old(st).last_percentage
            } else {
                match spec_count_to_percentage(
                    old(data).anim.speed,
                    old(st).size as int,
                    final(st).count,
                    old(st).last_percentage,
                ) {
                    Some(e) => e,
                    None => old(st).last_percentage,
                }
            })
        },
{
    if data.should_exit() {
        return Err(MazeError::Terminated);
    }
    let size: usize = st.size;
    let turn = st.advance(maze);
    match turn {
        Turn::Finished => {
            return Ok(turn);
        },
        Turn::Walked => {},
        Turn::Hunted(w) => {
            if data.show_anim() {
                proof {
                    lemma_point_index(size as int, w);
                }
                let overlay = single_mark(
                    maze.len(),
                    point_to_numb(&w, size),
                    VisualIndicator::Match,
                );
                update_maze_debug(data, maze, &overlay, true)?;
            }
        },
    }
    let mut last: u64 = st.last_percentage;
    match count_to_percentage(data, size, st.count, &mut last) {
        Some(e) => {
            st.last_percentage = e;
            data.set_gen_proc(e);
        },
        None => {},
    }
    update_maze(data, maze, false)?;
    Ok(turn)
}

/// On a grid of odd side, one carving per cell centre but the first is
/// `(size - 3) * (size + 1) / 4` carvings.
pub proof fn lemma_total_carvings(size: int)
    requires
        size >= 3,
        size % 2 == 1,
    ensures
        spec_total_carvings(size) == cells_per_side(size) * cells_per_side(size) - 1,
{
    let c = cells_per_side(size);
    assert(size == 2 * c + 1);
    assert((size - 3) * (size + 1) == 4 * (c * c - 1)) by (nonlinear_arith)
        requires size == 2 * c + 1;
}

/// Carves a perfect maze into a grid of walls, by hunt-and-kill with the
/// generator that the options carry. The grid must have the side that the
/// options give and hold nothing but walls.
///
/// A side that is even, below 3 or too large to index is refused. A
/// cancellation that was requested before the call ends it with
/// `Terminated`; in both cases the grid is left as it was. Else the
/// generation runs to its end: the result is the number of carvings, the
/// grid is a perfect maze, and grid, number and the generator's final state
/// are those of `spec_generated`, so that size and seed decide them. The
/// generator is handed back to the options, the progress stands at 1000 and
/// the last snapshot shows the finished maze.
pub fn hunt_and_kill(maze: &mut Maze, data: &mut MazeData) -> (r: Result<u64, MazeError>)
    requires
        valid_size(old(data).maze_opt.size as int) ==> old(maze)@ == spec_all_walls(
            old(data).maze_opt.size as int,
        ),
    ensures
        r is Ok <==> valid_size(old(data).maze_opt.size as int) && !old(data).should_exit,
        !valid_size(old(data).maze_opt.size as int) ==> r == Err::<u64, MazeError>(
            MazeError::InvalidOptions,
        ),
        valid_size(old(data).maze_opt.size as int) && old(data).should_exit ==> r == Err::<
            u64,
            MazeError,
        >(MazeError::Terminated),
        r is Err ==> final(maze)@ == old(maze)@ && *final(data) == *old(data),
        r matches Ok(count) ==> {
            let size = old(data).maze_opt.size as int;
            let end = spec_generated(size, old(data).maze_opt.spec_seeder_state());
            &&& final(maze)@ == end.maze
            &&& count == end.count
            &&& final(data).maze_opt.spec_seeder_state() == end.seeder
            &&& perfect_maze(final(maze)@, size)
            &&& count + 1 == cells_per_side(size) * cells_per_side(size)
            &&& count == spec_total_carvings(size)
            &&& same_controls(*old(data), *final(data))
            &&& final(data).gen_proc == 1000
            &&& final(data).pixels@ == spec_draw(
                final(maze)@,
                Seq::<Option<VisualIndicator>>::empty(),
                size * size,
            )
        },
{
    let size: usize = get_size(data)?;
    if data.should_exit() {
        return Err(MazeError::Terminated);
    }
    let ghost origin = data.maze_opt.spec_seeder_state();
    let ghost goal = spec_generated(size as int, origin);
    let ghost entry = *data;
    let mut st = HuntAndKill::start(maze, size, get_seeder(data));
    let ghost mut turns: nat = (size * size) as nat;
    proof {
        assert(size * size >= 0) by (nonlinear_arith);
        crate::tools::graph::lemma_wall_count_le(maze@);
        assert(spec_run(size as int, spec_step(size as int, st.state(maze@)), turns) == goal);
    }
    let mut more: bool = true;
    while more
        invariant
            st.inv(maze@),
            st.size == size,
            valid_size(size as int),
            size == data.maze_opt.size,
            same_controls(entry, *data),
            !data.should_exit,
            more <==> st.pending@.len() > 0,
            more ==> spec_run(size as int, spec_step(size as int, st.state(maze@)), turns) == goal,
            more ==> turns + 1 >= wall_count(maze@) + st.pending@.len(),
            !more ==> st.state(maze@) == goal,
            !more ==> perfect_maze(maze@, size as int) && st.count + 1 == cells_per_side(
                size as int,
            ) * cells_per_side(size as int),
        decreases wall_count(maze@) + st.pending@.len(),
    {
        let ghost before = st.state(maze@);
        match hunt_and_kill_step(&mut st, maze, data) {
            Ok(turn) => {
                more = match turn {
                    Turn::Finished => false,
                    _ => true,
                };
            },
            Err(e) => {
                return Err(e);
            },
        }
        proof {
            if more {
                assert(turns > 0);
                assert(spec_run(size as int, spec_step(size as int, before), turns) == spec_run(
                    size as int,
                    spec_step(size as int, st.state(maze@)),
                    (turns - 1) as nat,
                ));
                turns = (turns - 1) as nat;
            } else {
                lemma_run_finished(size as int, st.state(maze@), turns);
            }
        }
    }
    let count: u64 = st.count;
    proof {
        lemma_total_carvings(size as int);
    }
    set_seeder(data, st.seeder);
    data.set_gen_proc(1000);
    update_maze(data, maze, true)?;
    Ok(count)
}

} // verus!
