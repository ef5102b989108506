use maze_gen::error::MazeError;
use maze_gen::generators::decimate::decimate_maze;
use maze_gen::generators::generate::{all_walls, generate};
use maze_gen::point::point::Point;
use maze_gen::point::point_state::{Color, PointState, VisualIndicator};
use maze_gen::solve::a_star::a_star::{
    a_star, a_star_step, check_solvable, heat, node_to_path, AStar, Search,
};
use maze_gen::solve::a_star::node::{Node, STEP, UNREACHED};
use maze_gen::solve::solve::{solve, SolveAlgorithm, SolveOptions};
use maze_gen::tools::consts::MazeOptions;
use maze_gen::tools::image::{img_to_maze, maze_to_img};
use maze_gen::tools::math::vec2_to_numb;
use maze_gen::tools::options::{AnimOptions, MazeData};

fn quiet(size: usize, seed: u64, decimate: usize) -> MazeData {
    MazeData::new(&MazeOptions::new(size, seed, decimate), &AnimOptions::new(false, false, 1000))
}

fn braided(size: usize, seed: u64, decimate: usize) -> (MazeData, Vec<PointState>) {
    let mut data = quiet(size, seed, decimate);
    let (_, mut maze) = generate(&mut data).unwrap();
    decimate_maze(&data, &mut maze, size).unwrap();
    (data, maze)
}

fn joined(maze: &Vec<PointState>, size: usize, a: &Point, b: &Point) -> bool {
    let apart = (a.x == b.x && (a.y + 2 == b.y || b.y + 2 == a.y))
        || (a.y == b.y && (a.x + 2 == b.x || b.x + 2 == a.x));
    apart
        && a.x < size
        && a.y < size
        && b.x < size
        && b.y < size
        && maze[vec2_to_numb(a.x, a.y, size)] == PointState::Passage
        && maze[vec2_to_numb(b.x, b.y, size)] == PointState::Passage
        && maze[vec2_to_numb((a.x + b.x) / 2, (a.y + b.y) / 2, size)] == PointState::Passage
}

/// Fewest points on a walk from `start` to `end`, by breadth-first search.
fn shortest(maze: &Vec<PointState>, size: usize, start: Point, end: Point) -> Option<usize> {
    if maze[vec2_to_numb(start.x, start.y, size)] != PointState::Passage {
        return None;
    }
    let mut points = vec![0usize; size * size];
    let mut queue = std::collections::VecDeque::new();
    points[vec2_to_numb(start.x, start.y, size)] = 1;
    queue.push_back(start);
    while let Some(p) = queue.pop_front() {
        let at = points[vec2_to_numb(p.x, p.y, size)];
        if p == end {
            return Some(at);
        }
        let mut around = vec![Point { x: p.x + 2, y: p.y }, Point { x: p.x, y: p.y + 2 }];
        if p.x >= 2 {
            around.push(Point { x: p.x - 2, y: p.y });
        }
        if p.y >= 2 {
            around.push(Point { x: p.x, y: p.y - 2 });
        }
        for n in around {
            if joined(maze, size, &p, &n) && points[vec2_to_numb(n.x, n.y, size)] == 0 {
                points[vec2_to_numb(n.x, n.y, size)] = at + 1;
                queue.push_back(n);
            }
        }
    }
    None
}

#[test]
pub fn bench_solve() {
    println!("Reading img...");
    let (mut source, shown) = braided(101, 5000, 30);
    let bytes = maze_to_img(&mut source, &shown, &Vec::new()).unwrap();
    println!("Translating img to maze...");
    let (mut maze, opt) = img_to_maze(101, 101, &bytes).unwrap();
    assert_eq!(maze, shown);
    let mut data = MazeData::new(&opt, &AnimOptions::new(false, false, 5000 * 1000));
    println!("Solving...");
    let _e = solve(&mut maze, &mut data, &SolveOptions::new(opt.size)).unwrap();
    println!("Done.");
}

#[test]
fn seed_42_on_side_11_is_solved_corner_to_corner() {
    let mut data = quiet(11, 42, 0);
    let (_, mut maze) = generate(&mut data).unwrap();
    let (_, again) = generate(&mut quiet(11, 42, 0)).unwrap();
    assert_eq!(maze, again);
    let options = SolveOptions::new(11);
    assert_eq!(options.start, Point { x: 1, y: 1 });
    assert_eq!(options.end, Point { x: 9, y: 9 });
    assert_eq!(options.algorithm, SolveAlgorithm::AStar);
    let before = maze.clone();
    let (path, overlay) = a_star(&mut maze, &mut data, &options).unwrap();
    assert_eq!(maze, before);
    assert!(!path.is_empty());
    assert_eq!(path[0], Point { x: 1, y: 1 });
    assert_eq!(path[path.len() - 1], Point { x: 9, y: 9 });
    for i in 0..path.len() - 1 {
        assert!(joined(&maze, 11, &path[i], &path[i + 1]));
    }
    assert_eq!(overlay.len(), 121);
    assert_eq!(overlay[vec2_to_numb(1, 1, 11)], Some(VisualIndicator::Start));
    assert_eq!(overlay[vec2_to_numb(9, 9, 11)], Some(VisualIndicator::End));
}

#[test]
fn fully_walled_grid_is_unsolvable() {
    let mut maze = all_walls(5);
    let mut data = quiet(5, 1, 0);
    let r = a_star(&mut maze, &mut data, &SolveOptions::new(5));
    assert!(matches!(r, Err(MazeError::Unsolvable)));
    let r = solve(&mut maze, &mut data, &SolveOptions::new(5));
    assert!(matches!(r, Err(MazeError::Unsolvable)));
    assert_eq!(maze, vec![PointState::Wall; 25]);
}

#[test]
fn a_star_path_is_as_short_as_breadth_first_search() {
    for size in [7usize, 11, 21] {
        for seed in 0..12u64 {
            for decimate in [0usize, 60, 100] {
                let (mut data, mut maze) = braided(size, seed, decimate);
                let ends = [
                    (Point { x: 1, y: 1 }, Point { x: size - 2, y: size - 2 }),
                    (Point { x: size - 2, y: 1 }, Point { x: 1, y: size - 2 }),
                    (Point { x: 3, y: 3 }, Point { x: 3, y: 3 }),
                    (Point { x: 1, y: size - 2 }, Point { x: 3, y: 1 }),
                ];
                for (start, end) in ends {
                    let options = SolveOptions { start, end, algorithm: SolveAlgorithm::AStar };
                    let (path, _) = a_star(&mut maze, &mut data, &options).unwrap();
                    assert_eq!(path[0], start);
                    assert_eq!(path[path.len() - 1], end);
                    for i in 0..path.len() - 1 {
                        assert!(joined(&maze, size, &path[i], &path[i + 1]));
                    }
                    assert_eq!(Some(path.len()), shortest(&maze, size, start, end));
                }
            }
        }
    }
}

#[test]
fn a_star_takes_the_shorter_of_two_ways() {
    // a ring of passages round the centre of a 7 x 7 grid, cut between (1,1) and (1,3)
    let mut maze = all_walls(7);
    for i in 1..6 {
        maze[vec2_to_numb(i, 1, 7)] = PointState::Passage;
        maze[vec2_to_numb(i, 5, 7)] = PointState::Passage;
        maze[vec2_to_numb(1, i, 7)] = PointState::Passage;
        maze[vec2_to_numb(5, i, 7)] = PointState::Passage;
    }
    maze[vec2_to_numb(1, 2, 7)] = PointState::Wall;
    let mut data = quiet(7, 1, 0);
    let go = |from: Point, to: Point, maze: &mut Vec<PointState>, data: &mut MazeData| {
        let options = SolveOptions { start: from, end: to, algorithm: SolveAlgorithm::AStar };
        a_star(maze, data, &options).unwrap().0
    };
    let way = go(Point { x: 1, y: 1 }, Point { x: 5, y: 3 }, &mut maze, &mut data);
    assert_eq!(
        way,
        vec![
            Point { x: 1, y: 1 },
            Point { x: 3, y: 1 },
            Point { x: 5, y: 1 },
            Point { x: 5, y: 3 }
        ]
    );
    let round = go(Point { x: 1, y: 1 }, Point { x: 1, y: 3 }, &mut maze, &mut data);
    assert_eq!(round.len(), 8);
    assert_eq!(round[1], Point { x: 3, y: 1 });
    assert_eq!(round[7], Point { x: 1, y: 3 });
}

#[test]
fn a_star_refuses_what_it_cannot_search() {
    let (mut data, mut maze) = braided(7, 3, 0);
    let outside = SolveOptions {
        start: Point { x: 1, y: 1 },
        end: Point { x: 7, y: 5 },
        algorithm: SolveAlgorithm::AStar,
    };
    assert!(matches!(a_star(&mut maze, &mut data, &outside), Err(MazeError::OutOfBounds)));
    let from_wall = SolveOptions {
        start: Point { x: 0, y: 0 },
        end: Point { x: 5, y: 5 },
        algorithm: SolveAlgorithm::AStar,
    };
    assert!(matches!(a_star(&mut maze, &mut data, &from_wall), Err(MazeError::Unsolvable)));
    let to_wall = SolveOptions {
        start: Point { x: 1, y: 1 },
        end: Point { x: 2, y: 2 },
        algorithm: SolveAlgorithm::AStar,
    };
    assert!(matches!(a_star(&mut maze, &mut data, &to_wall), Err(MazeError::Unsolvable)));
    data.set_should_exit(true);
    let fine = SolveOptions::new(7);
    assert!(matches!(a_star(&mut maze, &mut data, &fine), Err(MazeError::Terminated)));
    assert!(matches!(a_star(&mut maze, &mut data, &outside), Err(MazeError::OutOfBounds)));
    let mut even = quiet(8, 3, 0);
    let mut grid = vec![PointState::Wall; 64];
    assert!(matches!(a_star(&mut grid, &mut even, &fine), Err(MazeError::InvalidOptions)));
    assert!(check_solvable(7) && !check_solvable(8) && !check_solvable(1));
}

#[test]
fn search_turns_end_in_found_or_exhausted() {
    let (mut data, maze) = braided(9, 4, 0);
    let start = Point { x: 1, y: 1 };
    let end = Point { x: 7, y: 7 };
    let mut search = AStar::begin(&maze, 9, &start, &end).unwrap();
    let mut turns = 0;
    loop {
        match a_star_step(&mut search, &maze, &mut data).unwrap() {
            Search::Going => turns += 1,
            Search::Found => break,
            Search::Exhausted => panic!("a generated maze has a way"),
        }
        assert!(turns < 200);
    }
    let path = node_to_path(&search, &maze);
    assert_eq!(Some(path.len()), shortest(&maze, 9, start, end));
    data.set_should_exit(true);
    let closed = search.closed.clone();
    assert_eq!(a_star_step(&mut search, &maze, &mut data), Err(MazeError::Terminated));
    assert_eq!(search.closed, closed);

    let walls = all_walls(5);
    assert!(matches!(
        AStar::begin(&walls, 5, &Point { x: 1, y: 1 }, &Point { x: 3, y: 3 }),
        Err(MazeError::Unsolvable)
    ));
    let mut lonely = all_walls(5);
    lonely[vec2_to_numb(1, 1, 5)] = PointState::Passage;
    let mut alone = AStar::begin(&lonely, 5, &Point { x: 1, y: 1 }, &Point { x: 3, y: 3 }).unwrap();
    assert_eq!(alone.advance(&lonely), Search::Going);
    assert_eq!(alone.advance(&lonely), Search::Exhausted);
}

#[test]
fn solving_with_no_algorithm_gives_no_way() {
    let (mut data, mut maze) = braided(7, 3, 0);
    let options = SolveOptions {
        start: Point { x: 1, y: 1 },
        end: Point { x: 5, y: 5 },
        algorithm: SolveAlgorithm::Unsolved,
    };
    let (path, overlay) = solve(&mut maze, &mut data, &options).unwrap();
    assert!(path.is_empty());
    assert_eq!(overlay, vec![None; 49]);
    assert_eq!(SolveAlgorithm::all(), vec![SolveAlgorithm::AStar, SolveAlgorithm::Unsolved]);
    assert_eq!(SolveAlgorithm::AStar.label(), "A*");
    assert_eq!(SolveAlgorithm::Unsolved.label(), "None");
}

#[test]
fn nodes_count_steps_and_cost() {
    let end = Point { x: 9, y: 9 };
    let mut start = Node::new(Point { x: 1, y: 1 }, &end);
    assert_eq!(start.get_cost(), UNREACHED);
    assert_eq!(start.get_steps(), UNREACHED);
    assert_eq!(UNREACHED, u64::MAX - 1);
    assert_eq!(*start.get_parent(), None);
    assert_eq!(start.get_pos(), Point { x: 1, y: 1 });
    start.set_start_node();
    assert_eq!(start.get_steps(), 0);
    assert_eq!(start.get_cost(), 16);
    let mut next = Node::new(Point { x: 3, y: 1 }, &end);
    assert_eq!(next.calculate_steps(&start), STEP);
    assert_eq!(next.calculate_steps(&start), 1);
    assert_eq!(next.calculate_cost(&start), 1 + 14);
    assert_eq!(next.calculate_cost_steps_given(10), 24);
    assert_eq!(next.calculate_cost_steps_given(u64::MAX), u64::MAX);
    next.update(&start);
    assert_eq!(*next.get_parent(), Some(Point { x: 1, y: 1 }));
    assert_eq!(next.get_steps(), 1);
    assert_eq!(next.get_cost(), 15);
    assert_eq!(next.get_pos(), Point { x: 3, y: 1 });
    let mut third = Node::new(Point { x: 5, y: 1 }, &end);
    third.update(&next);
    assert_eq!(third.get_steps(), 2);
    assert_eq!(third.get_cost(), 2 + 12);
    let unreached = Node::new(Point { x: 5, y: 1 }, &end);
    let beyond = Node::new(Point { x: 7, y: 1 }, &end);
    assert_eq!(beyond.calculate_steps(&unreached), u64::MAX);
}

#[test]
fn cost_of_a_neighbour_is_one_step_plus_its_distance() {
    let end = Point { x: 1, y: 3 };
    let mut s = Node::new(Point { x: 1, y: 1 }, &end);
    s.set_start_node();
    let n = Node::new(Point { x: 3, y: 1 }, &end);
    assert_eq!(n.calculate_cost(&s), 5);
    assert_eq!(n.get_steps(), UNREACHED);
    assert_eq!(s.get_steps(), 0);
    assert_eq!(s.get_cost(), 2);
}

#[test]
fn search_counts_one_step_for_each_move() {
    let (mut data, maze) = braided(11, 42, 0);
    let start = Point { x: 1, y: 1 };
    let end = Point { x: 9, y: 9 };
    let mut search = AStar::begin(&maze, 11, &start, &end).unwrap();
    while a_star_step(&mut search, &maze, &mut data).unwrap() == Search::Going {}
    let path = node_to_path(&search, &maze);
    let node = search.nodes[vec2_to_numb(9, 9, 11)];
    assert_eq!(node.get_steps() as usize, path.len() - 1);
    assert_eq!(node.get_cost(), node.get_steps());
    for (i, p) in path.iter().enumerate() {
        let n = search.nodes[vec2_to_numb(p.x, p.y, 11)];
        assert_eq!(n.get_steps() as usize, i);
        assert_eq!(n.get_cost(), i as u64 + (9 - p.x + 9 - p.y) as u64);
        if i > 0 {
            assert_eq!(*n.get_parent(), Some(path[i - 1]));
        }
    }
}

#[test]
fn heat_grows_towards_the_end() {
    assert_eq!(heat(16, 16), 0);
    assert_eq!(heat(0, 16), 255);
    assert_eq!(heat(8, 16), 127);
    assert_eq!(heat(4, 16), 191);
    assert_eq!(heat(20, 16), 63);
    assert_eq!(heat(100, 16), 255);
    assert_eq!(heat(5, 0), 0);
}

#[test]
fn image_round_trip_keeps_the_maze() {
    let (mut data, maze) = braided(9, 21, 40);
    let bytes = maze_to_img(&mut data, &maze, &Vec::new()).unwrap();
    assert_eq!(bytes.len(), 4 * 81);
    for i in 0..81 {
        let expected: [u8; 4] = if maze[i] == PointState::Passage {
            [255, 255, 255, 255]
        } else {
            [0, 0, 0, 255]
        };
        assert_eq!(bytes[4 * i..4 * i + 4], expected);
    }
    assert_eq!(data.get_pixels().len(), 81);
    assert_eq!(data.get_pixels()[0], Color { r: 0, g: 0, b: 0, a: 255 });
    let (back, opt) = img_to_maze(9, 9, &bytes).unwrap();
    assert_eq!(back, maze);
    assert_eq!((opt.size, opt.seed, opt.decimate), (9, u64::MAX, 0));
    let mut overlay = vec![None; 81];
    overlay[0] = Some(VisualIndicator::Start);
    let tagged = maze_to_img(&mut data, &maze, &overlay).unwrap();
    assert_eq!(tagged[0..4], [255, 0, 0, 255]);
    let (read, _) = img_to_maze(9, 9, &tagged).unwrap();
    assert_eq!(read[0], PointState::Passage);
    data.set_should_exit(true);
    assert_eq!(maze_to_img(&mut data, &maze, &overlay), Err(MazeError::Terminated));
}

#[test]
fn images_of_the_wrong_shape_are_refused() {
    let bytes = vec![0u8; 4 * 81];
    assert!(matches!(img_to_maze(9, 7, &bytes), Err(MazeError::InvalidOptions)));
    assert!(matches!(img_to_maze(8, 8, &bytes), Err(MazeError::InvalidOptions)));
    assert!(matches!(img_to_maze(9, 9, &bytes[0..80].to_vec()), Err(MazeError::InvalidOptions)));
    assert!(matches!(img_to_maze(0, 0, &Vec::new()), Err(MazeError::InvalidOptions)));
    let (maze, _) = img_to_maze(9, 9, &bytes).unwrap();
    // transparent black is not the black of a wall
    assert_eq!(maze, vec![PointState::Passage; 81]);
}

#[test]
fn fringe_hands_out_cheapest_cell_and_breaks_ties_by_point_order() {
    let (_, maze) = braided(9, 4, 0);
    let mut search = AStar::begin(&maze, 9, &Point { x: 1, y: 1 }, &Point { x: 7, y: 7 }).unwrap();
    assert_eq!(search.lowest(), 0);
    // unreached cells all cost the same
    search.pending = vec![Point { x: 5, y: 1 }, Point { x: 3, y: 7 }, Point { x: 3, y: 5 }];
    assert_eq!(search.lowest(), 2);
    search.pending = vec![Point { x: 5, y: 1 }, Point { x: 1, y: 1 }, Point { x: 3, y: 5 }];
    assert_eq!(search.lowest(), 1);
    search.pending = vec![Point { x: 3, y: 5 }, Point { x: 5, y: 1 }, Point { x: 3, y: 5 }];
    assert_eq!(search.lowest(), 0);
}

#[test]
fn search_tags_what_it_expands_and_reaches() {
    let mut maze = all_walls(7);
    for x in 1..6 {
        maze[vec2_to_numb(x, 1, 7)] = PointState::Passage;
    }
    let mut data = quiet(7, 1, 0);
    let options = SolveOptions {
        start: Point { x: 1, y: 1 },
        end: Point { x: 5, y: 1 },
        algorithm: SolveAlgorithm::AStar,
    };
    let (path, overlay) = a_star(&mut maze, &mut data, &options).unwrap();
    assert_eq!(path, vec![Point { x: 1, y: 1 }, Point { x: 3, y: 1 }, Point { x: 5, y: 1 }]);
    let mut expected = vec![None; 49];
    expected[vec2_to_numb(1, 1, 7)] = Some(VisualIndicator::Start);
    // reached from the start: half of the way is done
    expected[vec2_to_numb(2, 1, 7)] =
        Some(VisualIndicator::Custom(Color { r: 127, g: 0, b: 255, a: 255 }));
    expected[vec2_to_numb(3, 1, 7)] = Some(VisualIndicator::Searching);
    expected[vec2_to_numb(4, 1, 7)] =
        Some(VisualIndicator::Custom(Color { r: 255, g: 0, b: 255, a: 255 }));
    expected[vec2_to_numb(5, 1, 7)] = Some(VisualIndicator::End);
    assert_eq!(overlay, expected);
}
