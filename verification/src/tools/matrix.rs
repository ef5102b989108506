use vstd::prelude::*;
use crate::error::MazeError;
use crate::point::direction::Direction;
use crate::point::point::Point;
use crate::point::point_state::PointState;
use crate::tools::consts::Maze;
use crate::tools::direction_data::DirectionData;
use crate::tools::math::{point_to_numb, spec_index, lemma_index_round_trip};

verus! {

/// Whether `p` lies in the grid of side `size`.
pub open spec fn in_grid(size: int, p: Point) -> bool {
    p.x < size && p.y < size
}

/// The state of the cell at `p`.
pub open spec fn state_at(maze: Seq<PointState>, size: int, p: Point) -> PointState {
    maze[spec_index(p.x as int, p.y as int, size)]
}

/// The cell centre two steps from `p` towards `dir`, if it is in the grid.
pub open spec fn spec_go_to_dir(size: int, p: Point, dir: Direction) -> Option<Point> {
    let x = p.x + dir.dx();
    let y = p.y + dir.dy();
    if x < 0 || y < 0 || x >= size || y >= size {
        None
    } else {
        Some(Point { x: x as usize, y: y as usize })
    }
}

/// The cell one step from `src` towards `dir`, given that the cell two steps
/// away is in the grid.
pub open spec fn spec_pos_between(size: int, src: Point, dir: Direction) -> Option<Point> {
    if spec_go_to_dir(size, src, dir) is Some {
        Some(Point { x: (src.x + dir.half_dx()) as usize, y: (src.y + dir.half_dy()) as usize })
    } else {
        None
    }
}

/// Whether the cell two steps from `p` towards `dir` exists and is `desired`.
pub open spec fn dir_has_state(
    maze: Seq<PointState>,
    size: int,
    p: Point,
    dir: Direction,
    desired: PointState,
) -> bool {
    match spec_go_to_dir(size, p, dir) {
        Some(n) => state_at(maze, size, n) == desired,
        None => false,
    }
}

/// Among the first `k` directions, in their fixed order, those that lead to a
/// cell in state `desired`.
pub open spec fn spec_dirs_upto(
    maze: Seq<PointState>,
    size: int,
    p: Point,
    desired: PointState,
    k: nat,
) -> Seq<Direction>
    decreases k,
{
    if k == 0 {
        Seq::empty()
    } else {
        let rest = spec_dirs_upto(maze, size, p, desired, (k - 1) as nat);
        let dir = Direction::spec_all()[k - 1];
        if dir_has_state(maze, size, p, dir, desired) {
            rest.push(dir)
        } else {
            rest
        }
    }
}

/// The directions from `p` that lead to a cell in state `desired`, in the
/// fixed order of the directions.
pub open spec fn spec_available_dirs(
    maze: Seq<PointState>,
    size: int,
    p: Point,
    desired: PointState,
) -> Seq<Direction> {
    spec_dirs_upto(maze, size, p, desired, 4)
}

/// Whether the wall cell between `src` and its neighbour towards `dir` has
/// been carved.
pub open spec fn spec_has_passage_between(
    maze: Seq<PointState>,
    size: int,
    src: Point,
    dir: Direction,
) -> bool {
    match spec_pos_between(size, src, dir) {
        Some(b) => state_at(maze, size, b) == PointState::Passage,
        None => false,
    }
}

/// Every listed direction leads to a cell in the asked state, and every
/// direction that does is listed.
pub proof fn lemma_available_dirs(
    maze: Seq<PointState>,
    size: int,
    p: Point,
    desired: PointState,
)
    ensures
        spec_available_dirs(maze, size, p, desired).len() <= 4,
        forall|i: int|
            0 <= i < spec_available_dirs(maze, size, p, desired).len() ==> dir_has_state(
                maze,
                size,
                p,
                #[trigger] spec_available_dirs(maze, size, p, desired)[i],
                desired,
            ),
        forall|d: Direction|
            dir_has_state(maze, size, p, d, desired) ==> #[trigger] spec_available_dirs(
                maze,
                size,
                p,
                desired,
            ).contains(d),
{
    let all = Direction::spec_all();
    let s0 = spec_dirs_upto(maze, size, p, desired, 0);
    let s1 = spec_dirs_upto(maze, size, p, desired, 1);
    let s2 = spec_dirs_upto(maze, size, p, desired, 2);
    let s3 = spec_dirs_upto(maze, size, p, desired, 3);
    let s4 = spec_dirs_upto(maze, size, p, desired, 4);
    assert(s0.len() == 0);
    assert(s4 == spec_available_dirs(maze, size, p, desired));
    assert forall|d: Direction| dir_has_state(maze, size, p, d, desired) implies s4.contains(
        d,
    ) by {
        if d == all[0] {
            assert(s1 == s0.push(d));
            assert(s1[s1.len() - 1] == d);
            let i = s1.len() - 1;
            assert(s2[i] == d);
            assert(s3[i] == d);
            assert(s4[i] == d);
        } else if d == all[1] {
            assert(s2 == s1.push(d));
            let i = s2.len() - 1;
            assert(s2[i] == d);
            assert(s3[i] == d);
            assert(s4[i] == d);
        } else if d == all[2] {
            assert(s3 == s2.push(d));
            let i = s3.len() - 1;
            assert(s3[i] == d);
            assert(s4[i] == d);
        } else {
            assert(d == all[3]);
            assert(s4 == s3.push(d));
            let i = s4.len() - 1;
            assert(s4[i] == d);
        }
    }
    assert forall|i: int| 0 <= i < s4.len() implies dir_has_state(
        maze,
        size,
        p,
        #[trigger] s4[i],
        desired,
    ) by {
        assert(forall|j: int| 0 <= j < s1.len() ==> dir_has_state(maze, size, p, s1[j], desired));
        assert(forall|j: int| 0 <= j < s2.len() ==> dir_has_state(maze, size, p, s2[j], desired));
        assert(forall|j: int| 0 <= j < s3.len() ==> dir_has_state(maze, size, p, s3[j], desired));
    }
}

/// The cell centre two steps from `point` towards `dir`; none outside the
/// grid.
pub fn go_to_dir(size: &usize, point: &Point, dir: &Direction) -> (pos: Option<Point>)
    ensures
        pos == spec_go_to_dir(*size as int, *point, *dir),
{
    let size: usize = *size;
    let Point { x, y } = *point;
    match dir {
        Direction::UP => {
            if y >= 2 && x < size && y - 2 < size {
                Some(Point { x, y: y - 2 })
            } else {
                None
            }
        },
        Direction::LEFT => {
            if x >= 2 && y < size && x - 2 < size {
                Some(Point { x: x - 2, y })
            } else {
                None
            }
        },
        Direction::RIGHT => {
            if x < size && y < size && size - x > 2 {
                Some(Point { x: x + 2, y })
            } else {
                None
            }
        },
        Direction::DOWN => {
            if x < size && y < size && size - y > 2 {
                Some(Point { x, y: y + 2 })
            } else {
                None
            }
        },
    }
}

/// The directions from `point` that lead to an uncarved centre.
pub fn get_surrounding_walls(size: &usize, maze: &Maze, point: &Point) -> (dirs: Result<
    Vec<Direction>,
    MazeError,
>)
    requires
        maze@.len() == *size * *size,
    ensures
        dirs matches Ok(v) && v@ == spec_available_dirs(
            maze@,
            *size as int,
            *point,
            PointState::Wall,
        ),
{
    get_available_dirs_state(size, maze, point, PointState::Wall)
}

/// The directions from `point` that lead to a centre in `desired_state`,
/// in the fixed order of the directions.
pub fn get_available_dirs_state(
    size: &usize,
    maze: &Maze,
    point: &Point,
    desired_state: PointState,
) -> (dirs: Result<Vec<Direction>, MazeError>)
    requires
        maze@.len() == *size * *size,
    ensures
        dirs matches Ok(v) && v@ == spec_available_dirs(
            maze@,
            *size as int,
            *point,
            desired_state,
        ),
{
    let all: [Direction; 4] = [Direction::UP, Direction::LEFT, Direction::RIGHT, Direction::DOWN];
    assert(all@ =~= Direction::spec_all());
    let mut available: Vec<Direction> = Vec::with_capacity(4);
    let mut i: usize = 0;
    while i < 4
        invariant
            i <= 4,
            all@ == Direction::spec_all(),
            maze@.len() == *size * *size,
            available@ == spec_dirs_upto(maze@, *size as int, *point, desired_state, i as nat),
        decreases 4 - i,
    {
        let dir = all[i];
        i = i + 1;
        match go_to_dir(size, point, &dir) {
            Some(p) => {
                let len: usize = maze.len();
                proof {
                    lemma_index_round_trip(p.x as int, p.y as int, *size as int);
                }
                let state = maze[point_to_numb(&p, *size)];
                if state == desired_state {
                    available.push(dir);
                }
            },
            None => {},
        }
    }
    Ok(available)
}

/// The wall cell between `src` and its neighbour towards `dir`; none where
/// there is no such neighbour in the grid.
pub fn get_pos_between(size: &usize, src: &Point, dir: &Direction) -> (pos: Result<
    Option<Point>,
    MazeError,
>)
    ensures
        pos == Ok::<Option<Point>, MazeError>(spec_pos_between(*size as int, *src, *dir)),
{
    let dest = go_to_dir(size, src, dir);
    if dest.is_none() {
        return Ok(None);
    }
    let DirectionData { x: dir_x, y: dir_y, .. } = dir.to_data().normalize();
    Ok(src.add(-dir_x, -dir_y))
}

/// Whether the wall cell between `src` and its neighbour towards `dir` is
/// carved; not so where there is no such neighbour.
pub fn has_passage_between(size: &usize, maze: &Maze, src: &Point, dir: &Direction) -> (r: Result<
    Option<bool>,
    MazeError,
>)
    requires
        maze@.len() == *size * *size,
        in_grid(*size as int, *src),
    ensures
        r == Ok::<Option<bool>, MazeError>(
            Some(spec_has_passage_between(maze@, *size as int, *src, *dir)),
        ),
{
    match get_pos_between(size, src, dir) {
        Ok(None) => Ok(Some(false)),
        Ok(Some(b)) => {
            let len: usize = maze.len();
            proof {
                assert(spec_go_to_dir(*size as int, *src, *dir) is Some);
                assert(in_grid(*size as int, b));
                lemma_index_round_trip(b.x as int, b.y as int, *size as int);
            }
            let state = maze[point_to_numb(&b, *size)];
            Ok(Some(state == PointState::Passage))
        },
        Err(e) => Err(e),
    }
}

} // verus!
