use maze_gen::error::MazeError;
use maze_gen::path::point::face::Face;
use maze_gen::point::direction::Direction;
use maze_gen::point::point::Point;
use maze_gen::point::point_state::{Color, PointState, VisualIndicator};
use maze_gen::tools::direction_data::DirectionData;
use maze_gen::tools::math::{
    get_dist, get_point, grid_side, numb_to_vec2, point_to_numb, points_to_dir, set_point,
    set_point_mult, vec2_to_numb,
};
use maze_gen::tools::matrix::{
    get_available_dirs_state, get_pos_between, get_surrounding_walls, go_to_dir,
    has_passage_between,
};

fn walls(size: usize) -> Vec<PointState> {
    vec![PointState::Wall; size * size]
}

#[test]
fn index_is_row_major() {
    assert_eq!(vec2_to_numb(3, 2, 7), 17);
    assert_eq!(vec2_to_numb(0, 0, 7), 0);
    assert_eq!(vec2_to_numb(6, 6, 7), 48);
    assert_eq!(point_to_numb(&Point { x: 3, y: 2 }, 7), 17);
    assert_eq!(numb_to_vec2(17, 7), Point { x: 3, y: 2 });
}

#[test]
fn index_and_coordinates_are_inverse() {
    for size in [1usize, 3, 5, 11] {
        for numb in 0..size * size {
            let p = numb_to_vec2(numb, size);
            assert!(p.x < size && p.y < size);
            assert_eq!(point_to_numb(&p, size), numb);
        }
    }
}

#[test]
fn side_of_a_grid_is_the_root_of_its_length() {
    assert_eq!(grid_side(0), 0);
    assert_eq!(grid_side(1), 1);
    assert_eq!(grid_side(24), 4);
    assert_eq!(grid_side(25), 5);
    assert_eq!(grid_side(26), 5);
    assert_eq!(grid_side(10_000 * 10_000), 10_000);
    assert_eq!(grid_side(usize::MAX), 4_294_967_295);
}

#[test]
fn cells_are_read_and_written_by_point() {
    let mut grid = walls(5);
    set_point(&mut grid, &Point { x: 3, y: 1 }, PointState::Passage);
    assert_eq!(grid[8], PointState::Passage);
    assert_eq!(get_point(&grid, &Point { x: 3, y: 1 }), PointState::Passage);
    assert_eq!(get_point(&grid, &Point { x: 1, y: 3 }), PointState::Wall);
    let marks = vec![Point { x: 0, y: 0 }, Point { x: 4, y: 4 }, Point { x: 2, y: 2 }];
    set_point_mult(&mut grid, &marks, PointState::Passage);
    let open: Vec<usize> = (0..25).filter(|i| grid[*i] == PointState::Passage).collect();
    assert_eq!(open, vec![0, 8, 12, 24]);
}

#[test]
fn distance_is_manhattan() {
    assert_eq!(get_dist(&Point { x: 1, y: 1 }, &Point { x: 9, y: 9 }), 16);
    assert_eq!(get_dist(&Point { x: 9, y: 1 }, &Point { x: 1, y: 9 }), 16);
    assert_eq!(get_dist(&Point { x: 4, y: 4 }, &Point { x: 4, y: 4 }), 0);
    assert_eq!(get_dist(&Point { x: 0, y: 7 }, &Point { x: 3, y: 2 }), 8);
}

#[test]
fn points_order_by_x_then_y() {
    let a = Point { x: 1, y: 9 };
    let b = Point { x: 2, y: 0 };
    let c = Point { x: 2, y: 1 };
    assert!(a < b && b < c && a < c);
    assert!(a.less(&b) && b.less(&c) && !c.less(&b) && !a.less(&a));
    let mut all = vec![c, a, b];
    all.sort();
    assert_eq!(all, vec![a, b, c]);
}

#[test]
fn point_add_moves_back_and_refuses_negative() {
    let p = Point { x: 3, y: 5 };
    assert_eq!(p.add(1, 2), Some(Point { x: 2, y: 3 }));
    assert_eq!(p.add(-1, -2), Some(Point { x: 4, y: 7 }));
    assert_eq!(p.add(3, 5), Some(Point { x: 0, y: 0 }));
    assert_eq!(p.add(4, 0), None);
    assert_eq!(p.add(0, 6), None);
    assert_eq!(Point { x: usize::MAX, y: 0 }.add(-1, 0), None);
}

#[test]
fn directions_come_in_fixed_order_with_their_data() {
    assert_eq!(
        Direction::all(),
        vec![Direction::UP, Direction::LEFT, Direction::RIGHT, Direction::DOWN]
    );
    let up = Direction::UP.to_data();
    assert_eq!((up.x, up.y, up.dir), (0, -2, Direction::UP));
    let left = Direction::LEFT.to_data();
    assert_eq!((left.x, left.y, left.dir), (-2, 0, Direction::LEFT));
    let right = Direction::RIGHT.to_data();
    assert_eq!((right.x, right.y, right.dir), (2, 0, Direction::RIGHT));
    let down = Direction::DOWN.to_data();
    assert_eq!((down.x, down.y, down.dir), (0, 2, Direction::DOWN));
}

#[test]
fn direction_data_normalizes_to_unit_steps() {
    let d = DirectionData::from_tuple(10, -10, Direction::UP).normalize();
    assert_eq!((d.x, d.y, d.dir), (1, -1, Direction::UP));
    let z = DirectionData::from_tuple(0, 0, Direction::LEFT).normalize();
    assert_eq!((z.x, z.y), (0, 0));
    let m = DirectionData::from_tuple(i32::MIN, i32::MAX, Direction::DOWN).normalize();
    assert_eq!((m.x, m.y), (-1, 1));
}

#[test]
fn faces_and_their_opposites() {
    assert_eq!(Face::get_all(), vec![Face::DOWN, Face::LEFT, Face::RIGHT, Face::DOWN]);
    assert_eq!(Face::UP.opposite(), Face::DOWN);
    assert_eq!(Face::DOWN.opposite(), Face::UP);
    assert_eq!(Face::LEFT.opposite(), Face::RIGHT);
    assert_eq!(Face::RIGHT.opposite(), Face::LEFT);
    for f in [Face::UP, Face::LEFT, Face::RIGHT, Face::DOWN] {
        assert_eq!(f.opposite().opposite(), f);
    }
}

#[test]
fn neighbour_is_two_steps_away_or_none() {
    let p = Point { x: 1, y: 1 };
    assert_eq!(go_to_dir(&5, &p, &Direction::UP), None);
    assert_eq!(go_to_dir(&5, &p, &Direction::LEFT), None);
    assert_eq!(go_to_dir(&5, &p, &Direction::RIGHT), Some(Point { x: 3, y: 1 }));
    assert_eq!(go_to_dir(&5, &p, &Direction::DOWN), Some(Point { x: 1, y: 3 }));
    let q = Point { x: 3, y: 3 };
    assert_eq!(go_to_dir(&5, &q, &Direction::RIGHT), None);
    assert_eq!(go_to_dir(&5, &q, &Direction::DOWN), None);
    assert_eq!(go_to_dir(&5, &q, &Direction::UP), Some(Point { x: 3, y: 1 }));
    assert_eq!(go_to_dir(&5, &Point { x: 9, y: 9 }, &Direction::UP), None);
}

#[test]
fn between_is_one_step_towards_the_neighbour() {
    let p = Point { x: 3, y: 3 };
    assert_eq!(get_pos_between(&7, &p, &Direction::UP), Ok(Some(Point { x: 3, y: 2 })));
    assert_eq!(get_pos_between(&7, &p, &Direction::DOWN), Ok(Some(Point { x: 3, y: 4 })));
    assert_eq!(get_pos_between(&7, &p, &Direction::LEFT), Ok(Some(Point { x: 2, y: 3 })));
    assert_eq!(get_pos_between(&7, &p, &Direction::RIGHT), Ok(Some(Point { x: 4, y: 3 })));
    assert_eq!(get_pos_between(&5, &p, &Direction::RIGHT), Ok(None));
}

#[test]
fn directions_are_listed_by_the_state_they_lead_to() {
    let mut grid = walls(7);
    let p = Point { x: 3, y: 3 };
    assert_eq!(
        get_surrounding_walls(&7, &grid, &p),
        Ok(vec![Direction::UP, Direction::LEFT, Direction::RIGHT, Direction::DOWN])
    );
    assert_eq!(get_available_dirs_state(&7, &grid, &p, PointState::Passage), Ok(vec![]));
    grid[vec2_to_numb(1, 3, 7)] = PointState::Passage;
    grid[vec2_to_numb(3, 5, 7)] = PointState::Passage;
    assert_eq!(
        get_surrounding_walls(&7, &grid, &p),
        Ok(vec![Direction::UP, Direction::RIGHT])
    );
    assert_eq!(
        get_available_dirs_state(&7, &grid, &p, PointState::Passage),
        Ok(vec![Direction::LEFT, Direction::DOWN])
    );
    let corner = Point { x: 5, y: 1 };
    assert_eq!(
        get_surrounding_walls(&7, &grid, &corner),
        Ok(vec![Direction::LEFT, Direction::DOWN])
    );
}

#[test]
fn passage_between_reads_the_wall_cell() {
    let mut grid = walls(5);
    let p = Point { x: 1, y: 1 };
    assert_eq!(has_passage_between(&5, &grid, &p, &Direction::RIGHT), Ok(Some(false)));
    grid[vec2_to_numb(2, 1, 5)] = PointState::Passage;
    assert_eq!(has_passage_between(&5, &grid, &p, &Direction::RIGHT), Ok(Some(true)));
    assert_eq!(has_passage_between(&5, &grid, &p, &Direction::DOWN), Ok(Some(false)));
    assert_eq!(has_passage_between(&5, &grid, &p, &Direction::UP), Ok(Some(false)));
}

#[test]
fn direction_between_two_points() {
    let p = Point { x: 3, y: 3 };
    assert_eq!(points_to_dir(&Point { x: 3, y: 1 }, &p), Some(Direction::UP));
    assert_eq!(points_to_dir(&Point { x: 3, y: 5 }, &p), Some(Direction::DOWN));
    assert_eq!(points_to_dir(&Point { x: 1, y: 3 }, &p), Some(Direction::LEFT));
    assert_eq!(points_to_dir(&Point { x: 5, y: 3 }, &p), Some(Direction::RIGHT));
    assert_eq!(points_to_dir(&Point { x: 4, y: 3 }, &p), None);
    assert_eq!(points_to_dir(&p, &p), None);
    assert_eq!(points_to_dir(&Point { x: 5, y: 5 }, &p), None);
}

#[test]
fn colours_carry_four_channels() {
    let c = Color::from_rgb(1, 2, 3);
    assert_eq!(c, Color { r: 1, g: 2, b: 3, a: 255 });
    assert_eq!(c.to_array(), [1, 2, 3, 255]);
    assert_ne!(VisualIndicator::Custom(c), VisualIndicator::Start);
    assert_ne!(MazeError::Terminated, MazeError::Unsolvable);
}
