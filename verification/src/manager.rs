use vstd::prelude::*;
use crate::error::MazeError;
use crate::generators::carving::perfect_maze;
use crate::generators::decimate::{decimate_maze, spec_decimated};
use crate::generators::generate::generate;
use crate::generators::generate::all_walls;
use crate::generators::hunt_and_kill::{
    hunt_and_kill_step, lemma_run_finished, spec_generated, spec_run, spec_start, spec_step,
    HuntAndKill, Turn,
};
use crate::point::point::Point;
use crate::point::point_state::{PointState, VisualIndicator};
use crate::solve::a_star::a_star::{
    a_star_step, check_solvable, lemma_closed_count_le, lemma_closed_count_none, node_to_path,
    solvable_size, AStar, Search,
};
use crate::solve::a_star::model::{
    lemma_search_ended, spec_search, spec_searched, spec_solved, Task,
};
use crate::solve::a_star::route::{has_route, is_route, is_shortest_route, route_steps};
use crate::solve::solve::{solve, SolveAlgorithm, SolveOptions};
use crate::tools::consts::{
    check_size, get_seeder, normalized_size, set_seeder, Maze, MazeOptions,
};
use crate::tools::graph::{
    connected, index_of, is_center, is_path_between, joined_at, lemma_path_kept, lemma_point_index,
    lemma_wall_count_le, mid, passages_kept, point_at, wall_count,
};
use crate::tools::math::point_to_numb;
use crate::tools::matrix::{in_grid, state_at};
use std::time::Instant;
use crate::tools::clock::{elapsed_since, now};
use crate::tools::options::MazeData;
use crate::tools::seeder::seeder_state;
use crate::generators::hunt_and_kill::{spec_found, spec_turn, spec_turn_reported, spec_turn_shown};
use crate::generators::tools::spec_count_to_percentage;
use crate::point::point_state::Color;
use crate::solve::a_star::model::spec_advance;
use crate::tools::window::{publishes, spec_attempted, spec_draw, update_maze};

verus! {

/// Whether `c` lies on the way: one of its points, or the cell between two
/// successive ones.
pub open spec fn on_way(path: Seq<Point>, c: Point) -> bool {
    exists|k: int|
        0 <= k < path.len() && (c == #[trigger] path[k] || (k + 1 < path.len() && c == mid(
            path[k],
            path[k + 1],
        )))
}

/// Whether `c` lies on the part of the way up to its `n`-th point.
pub open spec fn on_way_upto(path: Seq<Point>, c: Point, n: int) -> bool {
    exists|k: int|
        0 <= k <= n && k < path.len() && (c == #[trigger] path[k] || (k + 1 <= n && k + 1
            < path.len() && c == mid(path[k], path[k + 1])))
}

/// The overlay with the way laid over it, and start and end over the way.
pub open spec fn spec_tagged(
    overlay: Seq<Option<VisualIndicator>>,
    size: int,
    path: Seq<Point>,
    start: Point,
    end: Point,
) -> Seq<Option<VisualIndicator>> {
    Seq::new(
        overlay.len(),
        |i: int|
            if i == index_of(size, end) {
                Some(VisualIndicator::End)
            } else if i == index_of(size, start) {
                Some(VisualIndicator::Start)
            } else if on_way(path, point_at(size, i)) {
                Some(VisualIndicator::SolvePath)
            } else {
                overlay[i]
            },
    )
}

/// Lays the way over the overlay: its cell centres and the cells between
/// them are tagged as the way, then the start and last the end as
/// themselves.
pub fn draw_path(
    visual_overwrites: &mut Vec<Option<VisualIndicator>>,
    size: usize,
    path: &Vec<Point>,
    start: &Point,
    end: &Point,
)
    requires
        size > 0,
        old(visual_overwrites)@.len() == size * size,
        in_grid(size as int, *start),
        in_grid(size as int, *end),
        forall|k: int| 0 <= k < path@.len() ==> in_grid(size as int, #[trigger] path@[k]),
    ensures
        final(visual_overwrites)@ == spec_tagged(
            old(visual_overwrites)@,
            size as int,
            path@,
            *start,
            *end,
        ),
{
    let ghost before = visual_overwrites@;
    let ghost sz = size as int;
    let cells: usize = visual_overwrites.len();
    let mut i: usize = 0;
    while i < path.len()
        invariant
            i <= path@.len(),
            size > 0,
            sz == size as int,
            visual_overwrites@.len() == before.len(),
            before.len() == size * size,
            before.len() == cells,
            forall|k: int| 0 <= k < path@.len() ==> in_grid(sz, #[trigger] path@[k]),
            forall|j: int|
                0 <= j < before.len() ==> #[trigger] visual_overwrites@[j] == (if on_way_upto(
                    path@,
                    point_at(sz, j),
                    i - 1,
                ) {
                    Some(VisualIndicator::SolvePath)
                } else {
                    before[j]
                }),
        decreases path@.len() - i,
    {
        let p: Point = path[i];
        let ghost prev = visual_overwrites@;
        proof {
            lemma_point_index(sz, p);
        }
        let ip: usize = point_to_numb(&p, size);
        visual_overwrites[ip] = Some(VisualIndicator::SolvePath);
        let ghost between = p;
        if i > 0 {
            let q: Point = path[i - 1];
            let b = Point { x: q.x / 2 + p.x / 2 + (q.x % 2 + p.x % 2) / 2, y: q.y / 2 + p.y / 2 + (
                q.y % 2 + p.y % 2) / 2 };
            assert(b == mid(q, p));
            proof {
                lemma_point_index(sz, b);
                between = b;
            }
            let ib: usize = point_to_numb(&b, size);
            visual_overwrites[ib] = Some(VisualIndicator::SolvePath);
        }
        proof {
            assert forall|j: int| 0 <= j < before.len() implies #[trigger] visual_overwrites@[j]
                == (if on_way_upto(path@, point_at(sz, j), i as int) {
                Some(VisualIndicator::SolvePath)
            } else {
                before[j]
            }) by {
                let c = point_at(sz, j);
                crate::tools::graph::lemma_index_point(sz, j);
                if on_way_upto(path@, c, i - 1) {
                    let k = choose|k: int|
                        0 <= k <= i - 1 && k < path@.len() && (c == #[trigger] path@[k] || (k + 1
                            <= i - 1 && k + 1 < path@.len() && c == mid(path@[k], path@[k + 1])));
                    assert(0 <= k <= i && k < path@.len() && (c == path@[k] || (k + 1 <= i && k + 1
                        < path@.len() && c == mid(path@[k], path@[k + 1]))));
                    assert(on_way_upto(path@, c, i as int));
                } else if c == p {
                    assert(c == path@[i as int]);
                    assert(on_way_upto(path@, c, i as int));
                } else if i > 0 && c == between {
                    assert(c == mid(path@[i - 1], path@[i - 1 + 1]));
                    assert(path@[i - 1] == path@[i - 1]);
                    assert(on_way_upto(path@, c, i as int));
                } else {
                    if on_way_upto(path@, c, i as int) {
                        let k = choose|k: int|
                            0 <= k <= i && k < path@.len() && (c == #[trigger] path@[k] || (k + 1
                                <= i && k + 1 < path@.len() && c == mid(path@[k], path@[k + 1])));
                        if k == i {
                            assert(false);
                        } else if c == path@[k] {
                            assert(on_way_upto(path@, c, i - 1));
                        } else if k + 1 <= i - 1 {
                            assert(on_way_upto(path@, c, i - 1));
                        } else {
                            assert(false);
                        }
                    }
                    lemma_point_index(sz, c);
                }
            }
        }
        i = i + 1;
    }
    proof {
        lemma_point_index(sz, *start);
        lemma_point_index(sz, *end);
    }
    let ghost drawn = visual_overwrites@;
    let is: usize = point_to_numb(start, size);
    let ie: usize = point_to_numb(end, size);
    visual_overwrites[is] = Some(VisualIndicator::Start);
    visual_overwrites[ie] = Some(VisualIndicator::End);
    proof {
        assert forall|j: int| 0 <= j < before.len() implies visual_overwrites@[j] == spec_tagged(
            before,
            sz,
            path@,
            *start,
            *end,
        )[j] by {
            let c = point_at(sz, j);
            assert(drawn[j] == (if on_way_upto(path@, c, path@.len() - 1) {
                Some(VisualIndicator::SolvePath)
            } else {
                before[j]
            }));
            if on_way(path@, c) {
                let k = choose|k: int|
                    0 <= k < path@.len() && (c == #[trigger] path@[k] || (k + 1 < path@.len() && c
                        == mid(path@[k], path@[k + 1])));
                assert(0 <= k <= path@.len() - 1 && k < path@.len() && (c == path@[k] || (k + 1
                    <= path@.len() - 1 && k + 1 < path@.len() && c == mid(path@[k], path@[k + 1]))));
                assert(on_way_upto(path@, c, path@.len() - 1));
            }
            if on_way_upto(path@, c, path@.len() - 1) {
                let k = choose|k: int|
                    0 <= k <= path@.len() - 1 && k < path@.len() && (c == #[trigger] path@[k] || (k
                        + 1 <= path@.len() - 1 && k + 1 < path@.len() && c == mid(
                        path@[k],
                        path@[k + 1],
                    )));
                assert(0 <= k < path@.len() && (c == path@[k] || (k + 1 < path@.len() && c == mid(
                    path@[k],
                    path@[k + 1],
                ))));
                assert(on_way(path@, c));
            }
        }
        assert(visual_overwrites@ =~= spec_tagged(before, sz, path@, *start, *end));
    }
}

/// In a perfect maze, and in any maze that has all its passages, a route
/// leads from every cell centre to every other.
pub proof fn lemma_route_exists(
    perfect: Seq<PointState>,
    maze: Seq<PointState>,
    size: int,
    a: Point,
    b: Point,
)
    requires
        size > 0,
        perfect_maze(perfect, size),
        passages_kept(perfect, maze),
        is_center(size, a),
        is_center(size, b),
    ensures
        has_route(maze, size, a, b),
{
    assert(state_at(perfect, size, a) == PointState::Passage);
    assert(state_at(perfect, size, b) == PointState::Passage);
    assert(connected(perfect, size, a, b));
    let path = choose|path: Seq<Point>| is_path_between(perfect, size, path, a, b);
    lemma_path_kept(perfect, maze, size, path);
    lemma_point_index(size, a);
    assert(maze[index_of(size, a)] == PointState::Passage);
    assert(is_route(maze, size, path, a, b));
}

/// Where a job stands.
#[derive(Clone, Copy, Debug, PartialEq, Eq, Structural)]
pub enum JobPhase {
    /// The maze is being carved.
    Generating,
    /// The carved and braided maze is being searched.
    Solving,
    /// Maze and way are there; the job is done.
    Done,
    /// The job has ended without completing.
    Stopped,
}

/// One job: a maze is generated, braided and solved, turn by turn, so that
/// whoever drives it can show each state, pause, and cancel between two
/// turns.
pub struct MazeThread {
    pub data: MazeData,
    pub algorithm: SolveAlgorithm,
    pub phase: JobPhase,
    pub maze: Maze,
    /// The generation, while the job is generating.
    pub carving: Option<HuntAndKill>,
    /// The search, while the job is solving.
    pub search: Option<AStar>,
    /// The way from start to end, once the job is done.
    pub path: Vec<Point>,
    /// The overlay of the finished maze, once the job is done.
    pub visual_overwrites: Vec<Option<VisualIndicator>>,
    /// Why the job stopped, if it did.
    pub failure: Option<MazeError>,
    /// When the job was set up.
    pub started: Instant,
    /// The state in which the generator stood when the job was set up.
    pub origin: Ghost<int>,
    /// Turns that the generation may still take.
    pub turns: Ghost<nat>,
}

/// The first cell centre, where every job's way starts.
pub open spec fn first_center() -> Point {
    Point { x: 1, y: 1 }
}

/// The last cell centre, where every job's way ends.
pub open spec fn last_center(size: int) -> Point {
    Point { x: (size - 2) as usize, y: (size - 2) as usize }
}

impl MazeThread {
    /// The side of the job's grid.
    pub open spec fn size(&self) -> int {
        self.data.maze_opt.size as int
    }

    /// What the job's search is made for: the way from the first centre of
    /// its maze to the last.
    pub open spec fn task(&self) -> Task {
        Task {
            maze: self.maze@,
            size: self.size(),
            start: first_center(),
            end: last_center(self.size()),
        }
    }

    /// The maze that the job is solving: the one generated from its side and
    /// the generator's first state, braided with its decimation factor.
    pub open spec fn braided(&self) -> Seq<PointState> {
        let carved = spec_generated(self.size(), self.origin@);
        spec_decimated(
            carved.maze,
            self.size(),
            self.data.maze_opt.decimate as int,
            carved.seeder,
        ).0
    }

    /// What holds of a job between two turns. Until it is done it does not
    /// report completion; once done, it has recorded the time it took and
    /// holds a shortest way through its maze, or no way if it was asked for
    /// none.
    pub open spec fn wf(&self) -> bool {
        match self.phase {
            JobPhase::Generating => {
                &&& solvable_size(self.size())
                &&& self.data.maze_opt.decimate <= 100
                &&& self.maze@.len() == self.size() * self.size()
                &&& !self.data.is_done
                &&& self.carving matches Some(st)
                &&& st.inv(self.maze@)
                &&& st.size == self.size()
                &&& st.pending@.len() > 0
                &&& self.turns@ + 1 >= wall_count(self.maze@) + st.pending@.len()
                &&& spec_run(
                    self.size(),
                    spec_step(self.size(), st.state(self.maze@)),
                    self.turns@,
                ) == spec_generated(self.size(), self.origin@)
            },
            JobPhase::Solving => {
                &&& solvable_size(self.size())
                &&& self.maze@.len() == self.size() * self.size()
                &&& !self.data.is_done
                &&& self.algorithm == SolveAlgorithm::AStar
                &&& self.maze@ == self.braided()
                &&& has_route(self.maze@, self.size(), first_center(), last_center(self.size()))
                &&& self.search matches Some(search)
                &&& search.inv(self.maze@)
                &&& search.size == self.size()
                &&& search.start == first_center()
                &&& search.end == last_center(self.size())
                &&& self.turns@ >= search.work() + 1
                &&& spec_search(self.task(), search.state(), self.turns@) == spec_searched(
                    self.task(),
                )
            },
            JobPhase::Done => {
                &&& solvable_size(self.size())
                &&& self.maze@.len() == self.size() * self.size()
                &&& self.data.is_done
                &&& self.data.time_elapsed is Some
                &&& self.maze@ == self.braided()
                &&& self.visual_overwrites@.len() == self.size() * self.size()
                &&& (self.algorithm == SolveAlgorithm::AStar ==> is_shortest_route(
                    self.maze@,
                    self.size(),
                    self.path@,
                    first_center(),
                    last_center(self.size()),
                ) && self.path@ == spec_solved(self.task()).0 && self.visual_overwrites@
                    == spec_tagged(
                    spec_solved(self.task()).1,
                    self.size(),
                    self.path@,
                    first_center(),
                    last_center(self.size()),
                ))
                &&& (self.algorithm == SolveAlgorithm::Unsolved ==> self.path@.len() == 0
                    && self.visual_overwrites@ == spec_tagged(
                    Seq::new(self.maze@.len(), |i: int| None::<VisualIndicator>),
                    self.size(),
                    Seq::<Point>::empty(),
                    first_center(),
                    last_center(self.size()),
                ))
            },
            JobPhase::Stopped => !self.data.is_done && self.failure is Some,
        }
    }

    /// The shared data after the next turn of a job that is under way and
    /// not cancelled, but for the snapshot, the generator in the options and
    /// the elapsed time. A turn of the generation reports and publishes as
    /// `spec_turn_reported` states; the last one sets the progress to 1000
    /// and shows the finished maze at once. A turn of the search makes its
    /// publish attempt, and the one that finds the way shows it at once.
    /// The turn that completes the job reports completion.
    pub open spec fn turn_data(&self) -> MazeData {
        match self.phase {
            JobPhase::Generating => {
                let st = self.carving->0;
                let turn = spec_turn(self.size(), st.state(self.maze@));
                if turn is Finished {
                    MazeData {
                        is_done: self.algorithm == SolveAlgorithm::Unsolved,
                        ..spec_attempted(MazeData { gen_proc: 1000, ..self.data }, true, false)
                    }
                } else {
                    spec_turn_reported(
                        self.data,
                        turn is Hunted,
                        spec_count_to_percentage(
                            self.data.anim.speed,
                            self.size(),
                            (st.count + 1) as u64,
                            st.last_percentage,
                        ),
                    )
                }
            },
            JobPhase::Solving => {
                if spec_advance(self.task(), self.search->0.state()).1 == Search::Found {
                    MazeData { is_done: true, ..spec_attempted(self.data, true, false) }
                } else {
                    spec_attempted(self.data, false, false)
                }
            },
            _ => self.data,
        }
    }

    /// The snapshot after the next turn of a job that is under way and not
    /// cancelled.
    pub open spec fn turn_shown(&self) -> Seq<Color> {
        let cells = self.size() * self.size();
        match self.phase {
            JobPhase::Generating => {
                let st = self.carving->0;
                let turn = spec_turn(self.size(), st.state(self.maze@));
                if turn is Finished {
                    spec_draw(self.maze@, Seq::<Option<VisualIndicator>>::empty(), cells)
                } else {
                    spec_turn_shown(
                        self.data,
                        spec_found(turn),
                        spec_step(self.size(), st.state(self.maze@)).maze,
                        self.size(),
                    )
                }
            },
            JobPhase::Solving => {
                let next = spec_advance(self.task(), self.search->0.state());
                if next.1 == Search::Found {
                    spec_draw(
                        self.maze@,
                        next.0.overlay.update(
                            index_of(self.size(), first_center()),
                            Some(VisualIndicator::Start),
                        ).update(
                            index_of(self.size(), last_center(self.size())),
                            Some(VisualIndicator::End),
                        ),
                        cells,
                    )
                } else if publishes(self.data, false, false) {
                    spec_draw(self.maze@, next.0.overlay, cells)
                } else {
                    self.data.pixels@
                }
            },
            _ => self.data.pixels@,
        }
    }

    /// Whether `after` is the shared data that the next turn of this job
    /// leaves, the job being under way and not cancelled.
    pub open spec fn turn_leaves(&self, after: MazeData) -> bool {
        &&& after == (MazeData {
            pixels: after.pixels,
            maze_opt: after.maze_opt,
            time_elapsed: after.time_elapsed,
            ..self.turn_data()
        })
        &&& after.pixels@ == self.turn_shown()
        &&& after.maze_opt.size == self.data.maze_opt.size
        &&& after.maze_opt.seed == self.data.maze_opt.seed
        &&& after.maze_opt.decimate == self.data.maze_opt.decimate
        &&& (after.is_done ==> after.time_elapsed is Some)
        &&& (!after.is_done ==> after.time_elapsed == self.data.time_elapsed)
    }

    /// Whether `after` is what one turn can make of this job, as far as its
    /// end goes: a job that has ended stays as it is; a job under way is
    /// stopped by a requested cancellation, with maze and shared data left
    /// alone, and by nothing else.
    pub open spec fn turned_into(&self, after: MazeThread) -> bool {
        &&& after.wf()
        &&& (self.is_ended() ==> after == *self)
        &&& (!self.is_ended() && self.data.should_exit ==> after.phase == JobPhase::Stopped
            && after.failure == Some(MazeError::Terminated) && after.maze@ == self.maze@
            && after.data == self.data)
        &&& (!self.is_ended() && !self.data.should_exit ==> after.phase != JobPhase::Stopped)
    }

    /// Whether `next` is this job after the foreground has written to the
    /// shared data: the cancellation flag, the animation options and the
    /// save request may have changed, and nothing else.
    pub open spec fn written_to(&self, next: MazeThread) -> bool {
        next == (MazeThread {
            data: MazeData {
                should_exit: next.data.should_exit,
                anim: next.data.anim,
                save_requested: next.data.save_requested,
                ..self.data
            },
            ..*self
        })
    }

    /// How far the job is from its end, first part: the phases to come.
    pub open spec fn rank(&self) -> int {
        match self.phase {
            JobPhase::Generating => 2,
            JobPhase::Solving => 1,
            _ => 0,
        }
    }

    /// How far the job is from its end, second part: the turns that its
    /// phase may still take.
    pub open spec fn left(&self) -> int {
        match self.phase {
            JobPhase::Generating => (wall_count(self.maze@) + self.carving->0.pending@.len()) as int,
            JobPhase::Solving => self.search->0.work(),
            _ => 0,
        }
    }

    /// Sets a job up. The side is made odd first. Options that cannot be
    /// carved and searched stop the job at once, and so does a cancellation
    /// that was already requested. Else the grid of walls is laid out and
    /// the generation begins.
    pub fn new(data: MazeData, algorithm: SolveAlgorithm) -> (job: MazeThread)
        ensures
            job.wf(),
            job.algorithm == algorithm,
            job.size() == normalized_size(data.maze_opt.size as int),
            job.data.maze_opt.decimate == data.maze_opt.decimate,
            job.data.should_exit == data.should_exit,
            job.data == (MazeData { maze_opt: job.data.maze_opt, is_done: false, ..data }),
            job.data.maze_opt.seed == data.maze_opt.seed,
            job.data.maze_opt.seeder == data.maze_opt.seeder,
            job.origin@ == data.maze_opt.spec_seeder_state(),
            !(solvable_size(job.size()) && data.maze_opt.decimate <= 100) ==> job.phase
                == JobPhase::Stopped && job.failure == Some(MazeError::InvalidOptions),
            solvable_size(job.size()) && data.maze_opt.decimate <= 100 && data.should_exit
                ==> job.phase == JobPhase::Stopped && job.failure == Some(MazeError::Terminated),
            solvable_size(job.size()) && data.maze_opt.decimate <= 100 && !data.should_exit
                ==> job.phase == JobPhase::Generating && job.carving->0.state(job.maze@)
                == spec_start(job.size(), data.maze_opt.spec_seeder_state()),
    {
        let ghost origin = data.maze_opt.spec_seeder_state();
        let mut data = data;
        check_size(&mut data);
        data.set_done(false);
        let size: usize = data.maze_opt.size;
        if !check_solvable(size) || data.maze_opt.decimate > 100 || data.should_exit() {
            let failure = if !check_solvable(size) || data.maze_opt.decimate > 100 {
                MazeError::InvalidOptions
            } else {
                MazeError::Terminated
            };
            return MazeThread {
                data,
                algorithm,
                phase: JobPhase::Stopped,
                maze: Vec::new(),
                carving: None,
                search: None,
                path: Vec::new(),
                visual_overwrites: Vec::new(),
                failure: Some(failure),
                started: now(),
                origin: Ghost(origin),
                turns: Ghost(0),
            };
        }
        let mut maze = all_walls(size);
        let st = HuntAndKill::start(&mut maze, size, get_seeder(&data));
        proof {
            assert(size * size >= 0) by (nonlinear_arith);
            lemma_wall_count_le(maze@);
        }
        MazeThread {
            data,
            algorithm,
            phase: JobPhase::Generating,
            maze,
            carving: Some(st),
            search: None,
            path: Vec::new(),
            visual_overwrites: Vec::new(),
            failure: None,
            started: now(),
            origin: Ghost(origin),
            turns: Ghost((size * size) as nat),
        }
    }

    /// Whether the job has ended, done or stopped.
    pub fn is_finished(&self) -> (finished: bool)
        ensures
            finished == (self.phase == JobPhase::Done || self.phase == JobPhase::Stopped),
    {
        match self.phase {
            JobPhase::Done => true,
            JobPhase::Stopped => true,
            _ => false,
        }
    }

    /// Whether cancellation was requested.
    pub fn exit_signal_sent(&self) -> (sent: bool)
        ensures
            sent == self.data.should_exit,
    {
        self.data.should_exit()
    }

    /// A copy of the options that the job runs with.
    pub fn get_options(&self) -> (opt: MazeOptions)
        ensures
            opt.size == self.data.maze_opt.size,
            opt.seed == self.data.maze_opt.seed,
            opt.decimate == self.data.maze_opt.decimate,
            opt.spec_seeder_state() == self.data.maze_opt.spec_seeder_state(),
    {
        self.data.get_opt()
    }

    /// What the job shares with the foreground.
    pub fn get_data(&self) -> (data: &MazeData)
        ensures
            *data == self.data,
    {
        &self.data
    }

    /// Requests cancellation: the next turn stops the job.
    pub fn terminate(&mut self)
        ensures
            *final(self) == (MazeThread {
                data: MazeData { should_exit: true, ..old(self).data },
                ..*old(self)
            }),
            old(self).wf() ==> final(self).wf(),
    {
        if self.exit_signal_sent() {
            return ;
        }
        self.data.set_should_exit(true);
    }

    /// One turn of the job. A job that is done or stopped stays as it is.
    /// A requested cancellation stops the job before anything else is
    /// touched, and a stopped job never reports completion. Else the phase
    /// takes its turn: a carving, and after the last one the braiding and the
    /// set-up of the search; or a turn of the search, and after the last one
    /// the drawing of the way, which completes the job. Nothing but a
    /// cancellation stops a job that has begun.
    pub fn step(&mut self) -> (phase: JobPhase)
        requires
            old(self).wf(),
        ensures
            final(self).wf(),
            phase == final(self).phase,
            final(self).size() == old(self).size(),
            final(self).algorithm == old(self).algorithm,
            final(self).origin@ == old(self).origin@,
            final(self).data.maze_opt.decimate == old(self).data.maze_opt.decimate,
            old(self).is_ended() ==> *final(self) == *old(self),
            !old(self).is_ended() && old(self).data.should_exit ==> final(self).phase
                == JobPhase::Stopped && final(self).failure == Some(MazeError::Terminated)
                && final(self).maze@ == old(self).maze@ && final(self).data == old(self).data,
            !old(self).is_ended() && !old(self).data.should_exit ==> final(self).phase
                != JobPhase::Stopped && !final(self).data.should_exit,
            !old(self).is_ended() ==> final(self).rank() < old(self).rank() || (final(self).rank()
                == old(self).rank() && final(self).left() < old(self).left()),
            final(self).phase == JobPhase::Generating ==> old(self).phase == JobPhase::Generating
                && final(self).carving->0.state(final(self).maze@) == spec_step(
                old(self).size(),
                old(self).carving->0.state(old(self).maze@),
            ),
            old(self).turned_into(*final(self)),
            !old(self).is_ended() && !old(self).data.should_exit ==> old(self).turn_leaves(
                final(self).data,
            ),
            old(self).phase == JobPhase::Generating && final(self).phase != JobPhase::Generating
                && final(self).phase != JobPhase::Stopped ==> final(self).data.maze_opt.spec_seeder_state() == spec_generated(
                old(self).size(),
                old(self).origin@,
            ).seeder,
            old(self).phase == JobPhase::Solving || final(self).phase == JobPhase::Generating
                ==> final(self).data.maze_opt == old(self).data.maze_opt,
    {
        match self.phase {
            JobPhase::Done => JobPhase::Done,
            JobPhase::Stopped => JobPhase::Stopped,
            JobPhase::Generating => self.step_generating(),
            JobPhase::Solving => self.step_solving(),
        }
    }

    /// Whether the job is done or stopped.
    pub open spec fn is_ended(&self) -> bool {
        self.phase == JobPhase::Done || self.phase == JobPhase::Stopped
    }

    fn step_generating(&mut self) -> (phase: JobPhase)
        requires
            old(self).wf(),
            old(self).phase == JobPhase::Generating,
        ensures
            final(self).wf(),
            phase == final(self).phase,
            final(self).size() == old(self).size(),
            final(self).algorithm == old(self).algorithm,
            final(self).origin@ == old(self).origin@,
            final(self).data.maze_opt.decimate == old(self).data.maze_opt.decimate,
            old(self).data.should_exit ==> final(self).phase == JobPhase::Stopped
                && final(self).failure == Some(MazeError::Terminated)
                && final(self).maze@ == old(self).maze@
                && final(self).data == old(self).data,
            !old(self).data.should_exit ==> final(self).phase != JobPhase::Stopped
                && !final(self).data.should_exit,
            final(self).rank() < old(self).rank() || (final(self).rank() == old(self).rank()
                && final(self).left() < old(self).left()),
            final(self).phase == JobPhase::Generating ==> final(self).carving->0.state(
                final(self).maze@,
            ) == spec_step(old(self).size(), old(self).carving->0.state(old(self).maze@)),
            !old(self).data.should_exit ==> old(self).turn_leaves(final(self).data),
            final(self).phase != JobPhase::Generating && final(self).phase != JobPhase::Stopped
                ==> final(self).data.maze_opt.spec_seeder_state() == spec_generated(
                old(self).size(),
                old(self).origin@,
            ).seeder,
            final(self).phase == JobPhase::Generating ==> final(self).data.maze_opt == old(self).data.maze_opt,
    {
        let size: usize = self.data.maze_opt.size;
        let mut st = match self.carving.take() {
            Some(st) => st,
            None => {
                assert(false);
                self.phase = JobPhase::Stopped;
                self.failure = Some(MazeError::Terminated);
                return JobPhase::Stopped;
            },
        };
        let ghost before = st.state(self.maze@);
        let ghost goal = spec_generated(size as int, self.origin@);
        match hunt_and_kill_step(&mut st, &mut self.maze, &mut self.data) {
            Err(e) => {
                self.carving = Some(st);
                self.phase = JobPhase::Stopped;
                self.failure = Some(e);
                JobPhase::Stopped
            },
            Ok(Turn::Finished) => {
                proof {
                    lemma_run_finished(size as int, st.state(self.maze@), self.turns@);
                    assert(st.state(self.maze@) == goal);
                }
                self.braid_and_go_on(st)
            },
            Ok(_) => {
                proof {
                    assert(self.turns@ > 0);
                    assert(spec_run(size as int, spec_step(size as int, before), self.turns@)
                        == spec_run(
                        size as int,
                        spec_step(size as int, st.state(self.maze@)),
                        (self.turns@ - 1) as nat,
                    ));
                    self.turns = Ghost((self.turns@ - 1) as nat);
                }
                self.carving = Some(st);
                JobPhase::Generating
            },
        }
    }

    /// What follows the last carving: the generator goes back to the
    /// options, the finished maze is shown and braided, and the search is
    /// set up; or the job is done, where no way is asked for.
    fn braid_and_go_on(&mut self, st: HuntAndKill) -> (phase: JobPhase)
        requires
            old(self).phase == JobPhase::Generating,
            solvable_size(old(self).size()),
            old(self).data.maze_opt.decimate <= 100,
            !old(self).data.is_done,
            !old(self).data.should_exit,
            old(self).maze@.len() == old(self).size() * old(self).size(),
            perfect_maze(old(self).maze@, old(self).size()),
            old(self).maze@ == spec_generated(old(self).size(), old(self).origin@).maze,
            seeder_state(st.seeder) == spec_generated(old(self).size(), old(self).origin@).seeder,
        ensures
            final(self).wf(),
            phase == final(self).phase,
            phase == JobPhase::Solving || phase == JobPhase::Done,
            final(self).size() == old(self).size(),
            final(self).algorithm == old(self).algorithm,
            final(self).origin@ == old(self).origin@,
            final(self).data.maze_opt.decimate == old(self).data.maze_opt.decimate,
            !final(self).data.should_exit,
            final(self).data.maze_opt.spec_seeder_state() == seeder_state(st.seeder),
            final(self).data.maze_opt.seed == old(self).data.maze_opt.seed,
            final(self).data == (MazeData {
                pixels: final(self).data.pixels,
                maze_opt: final(self).data.maze_opt,
                time_elapsed: final(self).data.time_elapsed,
                is_done: old(self).algorithm == SolveAlgorithm::Unsolved,
                ..spec_attempted(MazeData { gen_proc: 1000, ..old(self).data }, true, false)
            }),
            final(self).data.pixels@ == spec_draw(
                old(self).maze@,
                Seq::<Option<VisualIndicator>>::empty(),
                old(self).size() * old(self).size(),
            ),
            final(self).data.is_done ==> final(self).data.time_elapsed is Some,
            !final(self).data.is_done ==> final(self).data.time_elapsed == old(self).data.time_elapsed,
    {
        let size: usize = self.data.maze_opt.size;
        let ghost perfect = self.maze@;
        set_seeder(&mut self.data, st.seeder);
        self.data.set_gen_proc(1000);
        let shown = update_maze(&mut self.data, &self.maze, true);
        let braided = decimate_maze(&self.data, &mut self.maze, size);
        assert(braided is Ok);
        let start = Point { x: 1, y: 1 };
        let end = Point { x: size - 2, y: size - 2 };
        proof {
            lemma_route_exists(perfect, self.maze@, size as int, start, end);
        }
        match self.algorithm {
            SolveAlgorithm::Unsolved => {
                let mut overlay = no_overlay(self.maze.len());
                let no_way: Vec<Point> = Vec::new();
                draw_path(&mut overlay, size, &no_way, &start, &end);
                assert(no_way@ =~= Seq::<Point>::empty());
                self.path = no_way;
                self.visual_overwrites = overlay;
                self.data.set_time_elapsed(elapsed_since(&self.started));
                self.data.set_done(true);
                self.phase = JobPhase::Done;
                JobPhase::Done
            },
            SolveAlgorithm::AStar => {
                match AStar::begin(&self.maze, size, &start, &end) {
                    Ok(search) => {
                        proof {
                            lemma_closed_count_none(search.closed@);
                            assert(size * size >= 0) by (nonlinear_arith);
                            self.turns = Ghost((5 * (size * size) + 2) as nat);
                        }
                        self.search = Some(search);
                        self.phase = JobPhase::Solving;
                        JobPhase::Solving
                    },
                    Err(e) => {
                        proof {
                            let route = choose|route: Seq<Point>|
                                is_route(self.maze@, size as int, route, start, end);
                            assert(false);
                        }
                        self.search = None;
                        self.phase = JobPhase::Done;
                        JobPhase::Done
                    },
                }
            },
        }
    }

    fn step_solving(&mut self) -> (phase: JobPhase)
        requires
            old(self).wf(),
            old(self).phase == JobPhase::Solving,
        ensures
            final(self).wf(),
            phase == final(self).phase,
            final(self).size() == old(self).size(),
            final(self).algorithm == old(self).algorithm,
            final(self).origin@ == old(self).origin@,
            final(self).data.maze_opt.decimate == old(self).data.maze_opt.decimate,
            final(self).phase != JobPhase::Generating,
            old(self).data.should_exit ==> final(self).phase == JobPhase::Stopped
                && final(self).failure == Some(MazeError::Terminated)
                && final(self).maze@ == old(self).maze@
                && final(self).data == old(self).data,
            !old(self).data.should_exit ==> final(self).phase != JobPhase::Stopped
                && !final(self).data.should_exit,
            final(self).rank() < old(self).rank() || (final(self).rank() == old(self).rank()
                && final(self).left() < old(self).left()),
            !old(self).data.should_exit ==> old(self).turn_leaves(final(self).data),
            final(self).data.maze_opt == old(self).data.maze_opt,
    {
        let size: usize = self.data.maze_opt.size;
        let mut search = match self.search.take() {
            Some(search) => search,
            None => {
                assert(false);
                self.phase = JobPhase::Stopped;
                self.failure = Some(MazeError::Terminated);
                return JobPhase::Stopped;
            },
        };
        proof {
            lemma_closed_count_le(search.closed@);
        }
        let ghost before = search.state();
        let ghost task = self.task();
        match a_star_step(&mut search, &self.maze, &mut self.data) {
            Err(e) => {
                self.search = Some(search);
                self.phase = JobPhase::Stopped;
                self.failure = Some(e);
                JobPhase::Stopped
            },
            Ok(Search::Going) => {
                proof {
                    lemma_closed_count_le(search.closed@);
                    assert(spec_search(task, before, self.turns@) == spec_search(
                        task,
                        search.state(),
                        (self.turns@ - 1) as nat,
                    ));
                    self.turns = Ghost((self.turns@ - 1) as nat);
                }
                self.search = Some(search);
                JobPhase::Solving
            },
            Ok(Search::Exhausted) => {
                assert(false);
                self.phase = JobPhase::Stopped;
                self.failure = Some(MazeError::Unsolvable);
                JobPhase::Stopped
            },
            Ok(Search::Found) => {
                let start = Point { x: 1, y: 1 };
                let end = Point { x: size - 2, y: size - 2 };
                let path = node_to_path(&search, &self.maze);
                assert(search.shape(self.maze@));
                let mut overlay = search.overlay();
                proof {
                    lemma_search_ended(task, before, self.turns@);
                    assert(spec_searched(task).0 == search.state());
                    lemma_point_index(size as int, start);
                    lemma_point_index(size as int, end);
                    assert(overlay@.len() == size * size);
                    assert forall|other: Seq<Point>| #[trigger]
                        is_route(self.maze@, size as int, other, start, end) implies path@.len()
                        <= other.len() by {
                        assert(search.node_at(end).steps <= route_steps(other));
                    }
                    assert(is_shortest_route(self.maze@, size as int, path@, start, end));
                    assert forall|k: int| 0 <= k < path@.len() implies in_grid(
                        size as int,
                        #[trigger] path@[k],
                    ) by {
                        if k < path@.len() - 1 {
                            assert(joined_at(self.maze@, size as int, path@, k));
                        } else if k > 0 {
                            assert(joined_at(self.maze@, size as int, path@, k - 1));
                        }
                    }
                }
                draw_path(&mut overlay, size, &path, &start, &end);
                self.path = path;
                self.visual_overwrites = overlay;
                self.data.set_time_elapsed(elapsed_since(&self.started));
                self.data.set_done(true);
                self.phase = JobPhase::Done;
                JobPhase::Done
            },
        }
    }
}

/// An overlay of `cells` cells without a tag.
pub fn no_overlay(cells: usize) -> (overlay: Vec<Option<VisualIndicator>>)
    ensures
        overlay@ == Seq::new(cells as nat, |i: int| None::<VisualIndicator>),
{
    let mut overlay: Vec<Option<VisualIndicator>> = Vec::with_capacity(cells);
    let mut i: usize = 0;
    while i < cells
        invariant
            i <= cells,
            overlay@ == Seq::new(i as nat, |k: int| None::<VisualIndicator>),
        decreases cells - i,
    {
        overlay.push(None);
        i = i + 1;
        assert(overlay@ =~= Seq::new(i as nat, |k: int| None::<VisualIndicator>));
    }
    overlay
}

/// A whole job in one call: the side is made odd, the maze is generated,
/// braided and solved from the first cell centre to the last, and the way
/// is laid over the overlay of the search.
///
/// Options that cannot be carved and searched are refused, and a requested
/// cancellation ends the call with `Terminated`; nothing else fails, since a
/// generated maze has a route between any two centres. The finished job
/// reports completion. Its maze is the generated one, braided; size, seed
/// and decimation factor decide it.
pub fn main_run(data: MazeData, algorithm: SolveAlgorithm) -> (r: Result<MazeThread, MazeError>)
    ensures
        ({
            let size = normalized_size(data.maze_opt.size as int);
            let valid = solvable_size(size) && data.maze_opt.decimate <= 100;
            let carved = spec_generated(size, data.maze_opt.spec_seeder_state());
            &&& !valid ==> (r matches Err(e) && e == MazeError::InvalidOptions)
            &&& valid && data.should_exit ==> (r matches Err(e) && e == MazeError::Terminated)
            &&& valid && !data.should_exit ==> (r matches Ok(job) && {
                &&& job.wf()
                &&& job.phase == JobPhase::Done
                &&& job.algorithm == algorithm
                &&& job.size() == size
                &&& job.origin@ == data.maze_opt.spec_seeder_state()
                &&& job.data.is_done
                &&& job.data.time_elapsed is Some
                &&& job.data.gen_proc == 1000
                &&& job.maze@ == spec_decimated(
                    carved.maze,
                    size,
                    data.maze_opt.decimate as int,
                    carved.seeder,
                ).0
                &&& passages_kept(carved.maze, job.maze@)
                &&& perfect_maze(carved.maze, size)
                &&& (data.maze_opt.decimate == 0 ==> job.maze@ == carved.maze)
            })
        }),
{
    let started = now();
    let ghost origin = data.maze_opt.spec_seeder_state();
    let mut data = data;
    check_size(&mut data);
    let size: usize = data.maze_opt.size;
    if !check_solvable(size) || data.maze_opt.decimate > 100 {
        return Err(MazeError::InvalidOptions);
    }
    let (count, mut maze) = generate(&mut data)?;
    let ghost perfect = maze@;
    decimate_maze(&data, &mut maze, size)?;
    let start = Point { x: 1, y: 1 };
    let end = Point { x: size - 2, y: size - 2 };
    let options = SolveOptions { algorithm, start, end };
    proof {
        lemma_route_exists(perfect, maze@, size as int, start, end);
    }
    let (path, mut overlay) = solve(&mut maze, &mut data, &options)?;
    proof {
        assert forall|k: int| 0 <= k < path@.len() implies in_grid(size as int, #[trigger] path@[k]) by {
            if k < path@.len() - 1 {
                assert(joined_at(maze@, size as int, path@, k));
            } else if k > 0 {
                assert(joined_at(maze@, size as int, path@, k - 1));
            }
        }
    }
    draw_path(&mut overlay, size, &path, &start, &end);
    data.set_time_elapsed(elapsed_since(&started));
    data.set_done(true);
    assert(algorithm == SolveAlgorithm::Unsolved ==> path@ =~= Seq::<Point>::empty());
    Ok(
        MazeThread {
            data,
            algorithm,
            phase: JobPhase::Done,
            maze,
            carving: None,
            search: None,
            path,
            visual_overwrites: overlay,
            failure: None,
            started,
            origin: Ghost(origin),
            turns: Ghost(0),
        },
    )
}

/// Whether the `i`-th turn of a run takes the job from `before[i]` to
/// `after[i]`.
pub open spec fn turn_at(before: Seq<MazeThread>, after: Seq<MazeThread>, i: int) -> bool {
    before[i].turned_into(after[i])
}

/// Whether the foreground's writing after the `i`-th turn takes the job
/// from `after[i]` to `before[i + 1]`.
pub open spec fn write_at(before: Seq<MazeThread>, after: Seq<MazeThread>, i: int) -> bool {
    after[i].written_to(before[i + 1])
}

/// A run of a job: the job before and after each of its turns, with the
/// foreground writing to the shared data between two turns.
pub open spec fn is_run(before: Seq<MazeThread>, after: Seq<MazeThread>) -> bool {
    &&& before.len() == after.len()
    &&& before.len() > 0
    &&& before[0].wf()
    &&& forall|i: int| 0 <= i < before.len() ==> #[trigger] turn_at(before, after, i)
    &&& forall|i: int| 0 <= i < before.len() - 1 ==> #[trigger] write_at(before, after, i)
}

/// Whether neither before nor after the `i`-th turn the job reports
/// completion.
pub open spec fn not_done_at(before: Seq<MazeThread>, after: Seq<MazeThread>, i: int) -> bool {
    !before[i].data.is_done && !after[i].data.is_done
}

/// Whether the `i`-th turn leaves the job stopped by the cancellation, with
/// the maze as it was when the cancellation came before turn `k`.
pub open spec fn stopped_at(
    before: Seq<MazeThread>,
    after: Seq<MazeThread>,
    k: int,
    i: int,
) -> bool {
    after[i].phase == JobPhase::Stopped && after[i].failure == Some(MazeError::Terminated)
        && after[i].maze@ == before[k].maze@
}

/// What the foreground writes changes nothing of where the job stands.
proof fn lemma_written(job: MazeThread, next: MazeThread)
    requires
        job.wf(),
        job.written_to(next),
    ensures
        next.wf(),
        next.phase == job.phase,
        next.failure == job.failure,
        next.maze@ == job.maze@,
        next.data.is_done == job.data.is_done,
{
}

/// Up to the turn before which the cancellation comes the job is under way;
/// after it the job is stopped.
proof fn lemma_run_at(before: Seq<MazeThread>, after: Seq<MazeThread>, k: int, i: int)
    requires
        is_run(before, after),
        0 <= k < before.len(),
        0 <= i < before.len(),
        forall|j: int| 0 <= j <= k ==> !(#[trigger] before[j]).is_ended(),
        forall|j: int| k <= j < before.len() ==> (#[trigger] before[j]).data.should_exit,
    ensures
        before[i].wf(),
        i > k ==> before[i].phase == JobPhase::Stopped && before[i].failure == Some(
            MazeError::Terminated,
        ) && before[i].maze@ == before[k].maze@,
        not_done_at(before, after, i),
        i >= k ==> stopped_at(before, after, k, i),
    decreases i,
{
    if i > 0 {
        lemma_run_at(before, after, k, i - 1);
        assert(turn_at(before, after, i - 1));
        assert(write_at(before, after, i - 1));
        lemma_written(after[i - 1], before[i]);
    }
    assert(turn_at(before, after, i));
    if i < k {
        assert(write_at(before, after, i));
        lemma_written(after[i], before[i + 1]);
        assert(!before[i + 1].is_ended());
    }
}

/// An ended job stays ended, whatever turns and writes follow.
proof fn lemma_ended_stays(before: Seq<MazeThread>, after: Seq<MazeThread>, i: int, j: int)
    requires
        is_run(before, after),
        0 <= i <= j < before.len(),
        before[i].wf(),
        before[i].is_ended(),
    ensures
        before[j].wf(),
        before[j].is_ended(),
    decreases j - i,
{
    if i < j {
        assert(turn_at(before, after, i));
        assert(write_at(before, after, i));
        lemma_written(after[i], before[i + 1]);
        lemma_ended_stays(before, after, i + 1, j);
    }
}

/// Every job of a run is well-formed before its turn.
proof fn lemma_run_wf(before: Seq<MazeThread>, after: Seq<MazeThread>, i: int)
    requires
        is_run(before, after),
        0 <= i < before.len(),
    ensures
        before[i].wf(),
    decreases i,
{
    if i > 0 {
        lemma_run_wf(before, after, i - 1);
        assert(turn_at(before, after, i - 1));
        assert(write_at(before, after, i - 1));
        lemma_written(after[i - 1], before[i]);
    }
}

/// A cancellation that is requested while the job is under way, before its
/// `k`-th turn, and that stays requested, stops the job in that very turn:
/// the maze is not touched again, the job stays stopped, and at no moment of
/// the run, before or after the request, does the job report completion.
pub proof fn lemma_cancelled_run(before: Seq<MazeThread>, after: Seq<MazeThread>, k: int)
    requires
        is_run(before, after),
        0 <= k < before.len(),
        !before[k].is_ended(),
        forall|j: int| k <= j < before.len() ==> (#[trigger] before[j]).data.should_exit,
    ensures
        forall|i: int| 0 <= i < before.len() ==> #[trigger] not_done_at(before, after, i),
        forall|i: int| k <= i < before.len() ==> #[trigger] stopped_at(before, after, k, i),
{
    assert forall|j: int| 0 <= j <= k implies !(#[trigger] before[j]).is_ended() by {
        lemma_run_wf(before, after, j);
        if before[j].is_ended() {
            lemma_ended_stays(before, after, j, k);
        }
    }
    assert forall|i: int| 0 <= i < before.len() implies #[trigger] not_done_at(
        before,
        after,
        i,
    ) by {
        lemma_run_at(before, after, k, i);
    }
    assert forall|i: int| k <= i < before.len() implies #[trigger] stopped_at(
        before,
        after,
        k,
        i,
    ) by {
        lemma_run_at(before, after, k, i);
    }
}

} // verus!
