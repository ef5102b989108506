use maze_gen::error::MazeError;
use maze_gen::generators::decimate::decimate_maze;
use maze_gen::generators::generate::{all_walls, generate};
use maze_gen::generators::hunt_and_kill::{
    hunt_and_kill, hunt_and_kill_step, hunt_phase, remove_wall, HuntAndKill, Turn,
};
use maze_gen::generators::tools::{count_to_percentage, rand_el};
use maze_gen::point::point::Point;
use maze_gen::point::point_state::PointState;
use maze_gen::tools::consts::{check_size, get_seeder, get_size, set_seeder, MazeOptions};
use maze_gen::tools::math::vec2_to_numb;
use maze_gen::tools::options::{AnimOptions, MazeData};

fn quiet(size: usize, seed: u64, decimate: usize) -> MazeData {
    MazeData::new(&MazeOptions::new(size, seed, decimate), &AnimOptions::new(false, false, 1000))
}

fn passages(maze: &Vec<PointState>) -> usize {
    maze.iter().filter(|c| **c == PointState::Passage).count()
}

/// Cell centres reachable from (1, 1) through carved wall cells.
fn reachable_centres(maze: &Vec<PointState>, size: usize) -> usize {
    let mut seen = vec![false; size * size];
    let mut stack = vec![(1usize, 1usize)];
    seen[vec2_to_numb(1, 1, size)] = true;
    let mut count = 0;
    while let Some((x, y)) = stack.pop() {
        count += 1;
        let mut around: Vec<(usize, usize, usize, usize)> = Vec::new();
        if x >= 2 {
            around.push((x - 2, y, x - 1, y));
        }
        if y >= 2 {
            around.push((x, y - 2, x, y - 1));
        }
        if x + 2 < size {
            around.push((x + 2, y, x + 1, y));
        }
        if y + 2 < size {
            around.push((x, y + 2, x, y + 1));
        }
        for (nx, ny, bx, by) in around {
            let n = vec2_to_numb(nx, ny, size);
            if !seen[n]
                && maze[n] == PointState::Passage
                && maze[vec2_to_numb(bx, by, size)] == PointState::Passage
            {
                seen[n] = true;
                stack.push((nx, ny));
            }
        }
    }
    count
}

#[test]
pub fn bench_large() {
    println!("Generating...");
    let mut data = MazeData::new(
        &MazeOptions::new(4000, rand::random(), 30),
        &AnimOptions::new(false, false, 5000 * 1000),
    );
    let _e = generate(&mut data).unwrap();
    println!("Done.");
}

#[test]
fn generated_maze_is_a_spanning_tree() {
    for size in [3usize, 5, 7, 11, 21, 41] {
        for seed in [0u64, 1, 42, 9001, u64::MAX] {
            let mut data = quiet(size, seed, 0);
            let (count, maze) = generate(&mut data).unwrap();
            let cells = (size - 1) / 2;
            assert_eq!(maze.len(), size * size);
            assert_eq!(count as usize, cells * cells - 1);
            assert_eq!(passages(&maze), 2 * cells * cells - 1);
            for cy in 0..cells {
                for cx in 0..cells {
                    let i = vec2_to_numb(2 * cx + 1, 2 * cy + 1, size);
                    assert_eq!(maze[i], PointState::Passage);
                }
            }
            for y in 0..size {
                for x in 0..size {
                    if x % 2 == 0 && y % 2 == 0 {
                        assert_eq!(maze[vec2_to_numb(x, y, size)], PointState::Wall);
                    }
                    if x == 0 || y == 0 || x == size - 1 || y == size - 1 {
                        assert_eq!(maze[vec2_to_numb(x, y, size)], PointState::Wall);
                    }
                }
            }
            assert_eq!(reachable_centres(&maze, size), cells * cells);
            assert_eq!(data.get_gen_proc(), 1000);
        }
    }
}

#[test]
fn generation_is_decided_by_size_and_seed() {
    for (size, seed) in [(11usize, 42u64), (21, 7), (41, 123456789)] {
        let (count_a, maze_a) = generate(&mut quiet(size, seed, 0)).unwrap();
        let (count_b, maze_b) = generate(&mut quiet(size, seed, 0)).unwrap();
        assert_eq!(count_a, count_b);
        assert_eq!(maze_a, maze_b);
    }
    let (_, one) = generate(&mut quiet(41, 1, 0)).unwrap();
    let (_, two) = generate(&mut quiet(41, 2, 0)).unwrap();
    assert_ne!(one, two);
}

#[test]
fn smallest_grid_has_one_cell_and_nothing_to_carve() {
    let (count, maze) = generate(&mut quiet(3, 5, 0)).unwrap();
    assert_eq!(count, 0);
    let mut expected = vec![PointState::Wall; 9];
    expected[4] = PointState::Passage;
    assert_eq!(maze, expected);
}

#[test]
fn even_size_is_normalized_to_the_next_odd() {
    let mut data = quiet(4, 1, 0);
    assert_eq!(get_size(&data), Err(MazeError::InvalidOptions));
    check_size(&mut data);
    assert_eq!(data.get_opt().size, 5);
    assert_eq!(get_size(&data), Ok(5));
    check_size(&mut data);
    assert_eq!(data.get_opt().size, 5);
    let (_, maze) = generate(&mut data).unwrap();
    assert_eq!(maze.len(), 25);
    let mut even = quiet(4, 1, 0);
    let (count, maze) = generate(&mut even).unwrap();
    assert_eq!(even.get_opt().size, 5);
    assert_eq!(maze.len(), 25);
    assert_eq!(count, 3);
}

#[test]
fn sizes_that_cannot_be_carved_are_refused() {
    for size in [0usize, 1, 2, 4, 10, usize::MAX] {
        let mut data = quiet(size, 1, 0);
        assert_eq!(get_size(&data), Err(MazeError::InvalidOptions));
        let mut maze: Vec<PointState> = Vec::new();
        assert_eq!(hunt_and_kill(&mut maze, &mut data), Err(MazeError::InvalidOptions));
    }
    for size in [0usize, 1, usize::MAX, usize::MAX - 1] {
        let mut data = quiet(size, 1, 0);
        assert!(matches!(generate(&mut data), Err(MazeError::InvalidOptions)));
    }
}

#[test]
fn cancelled_generation_terminates_and_touches_nothing() {
    let mut data = quiet(11, 42, 0);
    data.set_should_exit(true);
    let mut maze = all_walls(11);
    assert_eq!(hunt_and_kill(&mut maze, &mut data), Err(MazeError::Terminated));
    assert_eq!(maze, vec![PointState::Wall; 121]);
    assert!(!data.is_done());
    assert!(matches!(generate(&mut data), Err(MazeError::Terminated)));
}

#[test]
fn cancellation_stops_generation_within_one_turn() {
    let mut data = quiet(21, 3, 0);
    let mut maze = all_walls(21);
    let mut st = HuntAndKill::start(&mut maze, 21, get_seeder(&data));
    for _ in 0..10 {
        assert!(hunt_and_kill_step(&mut st, &mut maze, &mut data).is_ok());
        if st.count >= 5 {
            break;
        }
    }
    let before = maze.clone();
    let carved = st.count;
    data.set_should_exit(true);
    assert_eq!(hunt_and_kill_step(&mut st, &mut maze, &mut data), Err(MazeError::Terminated));
    assert_eq!(maze, before);
    assert_eq!(st.count, carved);
    assert!(!data.is_done());
}

#[test]
fn turns_carve_one_centre_each_until_finished() {
    let mut data = quiet(9, 11, 0);
    let mut maze = all_walls(9);
    let mut st = HuntAndKill::start(&mut maze, 9, get_seeder(&data));
    assert_eq!(passages(&maze), 1);
    let mut turns = 0;
    loop {
        let before = passages(&maze);
        match hunt_and_kill_step(&mut st, &mut maze, &mut data).unwrap() {
            Turn::Finished => {
                assert_eq!(passages(&maze), before);
                break;
            }
            Turn::Walked => assert_eq!(passages(&maze), before + 2),
            Turn::Hunted(w) => {
                assert_eq!(passages(&maze), before + 2);
                assert_eq!(maze[vec2_to_numb(w.x, w.y, 9)], PointState::Passage);
                assert!(w.x % 2 == 1 && w.y % 2 == 1);
            }
        }
        turns += 1;
        assert!(turns <= 16);
    }
    assert_eq!(turns, 15);
    assert_eq!(st.count, 15);
}

#[test]
fn stepwise_and_whole_generation_agree() {
    let (_, whole) = generate(&mut quiet(15, 77, 0)).unwrap();
    let mut data = quiet(15, 77, 0);
    let mut maze = all_walls(15);
    let mut st = HuntAndKill::start(&mut maze, 15, get_seeder(&data));
    while st.advance(&mut maze) != Turn::Finished {}
    assert_eq!(maze, whole);
    data.set_should_exit(false);
}

#[test]
fn hunt_finds_first_wall_centre_beside_a_passage() {
    let mut maze = all_walls(7);
    maze[vec2_to_numb(3, 3, 7)] = PointState::Passage;
    let mut cursor = 0usize;
    assert_eq!(hunt_phase(7, &maze, &mut cursor, 4), Some(Point { x: 3, y: 1 }));
    assert_eq!(cursor, 0);
    maze[vec2_to_numb(1, 1, 7)] = PointState::Passage;
    maze[vec2_to_numb(3, 1, 7)] = PointState::Passage;
    assert_eq!(hunt_phase(7, &maze, &mut cursor, 0), Some(Point { x: 5, y: 1 }));
    assert_eq!(cursor, 2);
    let none = all_walls(7);
    let mut from_start = 0usize;
    assert_eq!(hunt_phase(7, &none, &mut from_start, 9), None);
}

#[test]
fn remove_wall_opens_the_run_between_two_points() {
    let mut maze = all_walls(7);
    assert_eq!(remove_wall(7, &mut maze, &Point { x: 1, y: 1 }, &Point { x: 1, y: 3 }), Ok(()));
    let open: Vec<usize> = (0..49).filter(|i| maze[*i] == PointState::Passage).collect();
    assert_eq!(open, vec![8, 15, 22]);
    assert_eq!(remove_wall(7, &mut maze, &Point { x: 5, y: 5 }, &Point { x: 3, y: 5 }), Ok(()));
    let open: Vec<usize> = (0..49).filter(|i| maze[*i] == PointState::Passage).collect();
    assert_eq!(open, vec![8, 15, 22, 38, 39, 40]);
    let before = maze.clone();
    assert_eq!(
        remove_wall(7, &mut maze, &Point { x: 1, y: 1 }, &Point { x: 3, y: 3 }),
        Err(MazeError::NotAligned)
    );
    assert_eq!(maze, before);
    assert_eq!(remove_wall(7, &mut maze, &Point { x: 5, y: 5 }, &Point { x: 9, y: 5 }), Ok(()));
    assert_eq!(maze[vec2_to_numb(6, 5, 7)], PointState::Passage);
    assert_eq!(passages(&maze), 7);
}

#[test]
fn progress_is_reported_in_thousandths() {
    let data = quiet(11, 1, 0);
    let mut last = 0u64;
    // 24 carvings on a grid of side 11
    assert_eq!(count_to_percentage(&data, 11, 12, &mut last), Some(500));
    assert_eq!(count_to_percentage(&data, 11, 24, &mut last), Some(1000));
    assert_eq!(count_to_percentage(&data, 11, 1, &mut last), Some(42));
    assert_eq!(count_to_percentage(&data, 11, 0, &mut last), None);
    assert_eq!(last, 0);
    let mut high = 498u64;
    assert_eq!(count_to_percentage(&data, 11, 12, &mut high), None);
    let mut near = 497u64;
    assert_eq!(count_to_percentage(&data, 11, 12, &mut near), Some(500));
    // nothing to carve on the smallest grid
    assert_eq!(count_to_percentage(&data, 3, 0, &mut last), None);
    // only every fifth carving is looked at with speed 5
    let fast = MazeData::new(&MazeOptions::new(11, 1, 0), &AnimOptions::new(false, true, 5000));
    assert_eq!(count_to_percentage(&fast, 11, 12, &mut last), None);
    assert_eq!(count_to_percentage(&fast, 11, 10, &mut last), Some(417));
}

#[test]
fn rand_el_picks_from_the_slice_and_replays_with_the_seed() {
    let items = [10u32, 20, 30, 40, 50, 60, 70];
    let mut first = get_seeder(&quiet(5, 99, 0));
    let mut second = get_seeder(&quiet(5, 99, 0));
    let mut seen = [false; 7];
    for _ in 0..200 {
        let a = rand_el(&mut first, &items);
        let b = rand_el(&mut second, &items);
        assert_eq!(a, b);
        let at = items.iter().position(|v| *v == a).unwrap();
        seen[at] = true;
    }
    assert!(seen.iter().all(|s| *s));
    let one = [5u8];
    assert_eq!(rand_el(&mut first, &one), 5);
}

#[test]
fn seeder_copy_leaves_the_generator_where_it_stands() {
    let mut data = quiet(5, 1234, 0);
    let items: Vec<u32> = (0..1000).collect();
    let mut copy = get_seeder(&data);
    let drawn: Vec<u32> = (0..20).map(|_| rand_el(&mut copy, &items)).collect();
    let mut again = get_seeder(&data);
    let replay: Vec<u32> = (0..20).map(|_| rand_el(&mut again, &items)).collect();
    assert_eq!(drawn, replay);
    set_seeder(&mut data, copy);
    let mut later = get_seeder(&data);
    let next: Vec<u32> = (0..20).map(|_| rand_el(&mut later, &items)).collect();
    assert_ne!(next, drawn);
}

fn is_pinch(maze: &Vec<PointState>, size: usize, x: usize, y: usize) -> bool {
    let wall = |x: usize, y: usize| maze[vec2_to_numb(x, y, size)] == PointState::Wall;
    wall(x, y)
        && ((wall(x - 1, y) && wall(x + 1, y) && !wall(x, y - 1) && !wall(x, y + 1))
            || (wall(x, y - 1) && wall(x, y + 1) && !wall(x - 1, y) && !wall(x + 1, y)))
}

#[test]
fn braiding_with_factor_zero_changes_nothing() {
    for seed in [1u64, 2, 3] {
        let mut data = quiet(21, seed, 0);
        let (_, mut maze) = generate(&mut data).unwrap();
        let before = maze.clone();
        assert_eq!(decimate_maze(&data, &mut maze, 21), Ok(()));
        assert_eq!(maze, before);
    }
}

#[test]
fn braiding_with_factor_hundred_opens_every_pinch() {
    for seed in [1u64, 2, 3] {
        let mut data = quiet(21, seed, 100);
        let (_, mut maze) = generate(&mut data).unwrap();
        let mut expected = maze.clone();
        for y in 1..20 {
            for x in 1..20 {
                if is_pinch(&expected, 21, x, y) {
                    expected[vec2_to_numb(x, y, 21)] = PointState::Passage;
                }
            }
        }
        assert_ne!(expected, maze);
        assert_eq!(decimate_maze(&data, &mut maze, 21), Ok(()));
        assert_eq!(maze, expected);
    }
}

#[test]
fn braiding_only_adds_passages_and_replays_with_the_seed() {
    let mut data = quiet(31, 8, 50);
    let (_, carved) = generate(&mut data).unwrap();
    let mut one = carved.clone();
    let mut two = carved.clone();
    assert_eq!(decimate_maze(&data, &mut one, 31), Ok(()));
    assert_eq!(decimate_maze(&data, &mut two, 31), Ok(()));
    assert_eq!(one, two);
    for i in 0..carved.len() {
        if carved[i] == PointState::Passage {
            assert_eq!(one[i], PointState::Passage);
        }
    }
    for x in 0..31 {
        assert_eq!(one[vec2_to_numb(x, 0, 31)], PointState::Wall);
        assert_eq!(one[vec2_to_numb(x, 30, 31)], PointState::Wall);
        assert_eq!(one[vec2_to_numb(0, x, 31)], PointState::Wall);
        assert_eq!(one[vec2_to_numb(30, x, 31)], PointState::Wall);
    }
}

#[test]
fn braiding_refuses_bad_factor_and_cancellation() {
    let mut data = quiet(11, 8, 101);
    let mut maze = all_walls(11);
    assert_eq!(decimate_maze(&data, &mut maze, 11), Err(MazeError::InvalidOptions));
    let mut ok = quiet(11, 8, 100);
    ok.set_should_exit(true);
    assert_eq!(decimate_maze(&ok, &mut maze, 11), Err(MazeError::Terminated));
    assert_eq!(maze, vec![PointState::Wall; 121]);
    data.set_should_exit(true);
    assert_eq!(decimate_maze(&data, &mut maze, 11), Err(MazeError::InvalidOptions));
}

#[test]
fn default_options_pick_a_seed_and_start_from_it() {
    let opt = MazeOptions::default();
    assert_eq!((opt.size, opt.decimate), (50, 2));
    let same = MazeOptions::new(50, opt.seed, 2);
    let items: Vec<u32> = (0..1000).collect();
    let mut a = opt.seeder();
    let mut b = same.seeder();
    for _ in 0..20 {
        assert_eq!(rand_el(&mut a, &items), rand_el(&mut b, &items));
    }
    let seeds: Vec<u64> = (0..8).map(|_| MazeOptions::default().seed).collect();
    assert!(seeds.iter().any(|s| *s != seeds[0]));
}
