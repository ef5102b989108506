use std::time::Duration;

use maze_gen::error::MazeError;
use maze_gen::generators::generate::all_walls;
use maze_gen::manager::{draw_path, main_run, no_overlay, JobPhase, MazeThread};
use maze_gen::point::point::Point;
use maze_gen::point::point_state::{Color, PointState, VisualIndicator};
use maze_gen::solve::solve::SolveAlgorithm;
use maze_gen::tools::consts::{MazeOptions, MAX_WAIT_TIME};
use maze_gen::tools::math::vec2_to_numb;
use maze_gen::tools::options::{AnimOptions, MazeData};
use maze_gen::tools::window::{
    draw_maze_overwrites, frame_step, obtain_color, update_maze, update_maze_debug,
    update_maze_debug_overwrite, update_maze_overwrite,
};

fn shared(size: usize, show_anim: bool, speed: u64) -> MazeData {
    MazeData::new(&MazeOptions::new(size, 7, 0), &AnimOptions::new(true, show_anim, speed))
}

#[test]
fn shared_state_starts_empty_and_keeps_what_is_set() {
    let mut data = shared(5, true, 1000);
    assert!(!data.should_exit() && !data.is_done());
    assert!(data.show_anim() && data.show_debug());
    assert_eq!(data.speed_anim(), 1000);
    assert_eq!(data.get_gen_proc(), 0);
    assert_eq!(data.get_time_elapsed(), None);
    assert_eq!(data.get_pixels(), Vec::new());
    assert_eq!(data.take_requested(), None);
    data.set_show_anim(false);
    data.set_show_debug(false);
    data.set_speed_anim(250);
    data.set_gen_proc(512);
    data.set_time_elapsed(Duration::from_millis(1234));
    data.set_done(true);
    data.set_should_exit(true);
    data.set_requested("maze.png".to_string());
    assert!(!data.show_anim() && !data.show_debug());
    assert_eq!(data.speed_anim(), 250);
    assert_eq!(data.get_gen_proc(), 512);
    assert_eq!(data.get_time_elapsed(), Some(Duration::from_millis(1234)));
    assert!(data.is_done() && data.should_exit());
    assert_eq!(data.take_requested(), Some("maze.png".to_string()));
    assert_eq!(data.take_requested(), None);
    data.set_pixels(vec![Color::from_rgb(1, 2, 3)]);
    assert_eq!(data.get_pixels(), vec![Color { r: 1, g: 2, b: 3, a: 255 }]);
    assert_eq!(data.snapshots, 1);
    let opt = data.get_opt();
    assert_eq!((opt.size, opt.seed, opt.decimate), (5, 7, 0));
    data.write_opt(&MazeOptions::new(9, 8, 30));
    let opt = data.get_opt();
    assert_eq!((opt.size, opt.seed, opt.decimate), (9, 8, 30));
    let anim = AnimOptions::default();
    assert!(anim.show_debug && anim.show_anim);
    assert_eq!(anim.speed, 1000);
}

#[test]
fn cells_are_shown_in_their_colours() {
    let white = Color { r: 255, g: 255, b: 255, a: 255 };
    let black = Color { r: 0, g: 0, b: 0, a: 255 };
    assert_eq!(obtain_color(&PointState::Passage, &None), white);
    assert_eq!(obtain_color(&PointState::Wall, &None), black);
    let tags = [
        (VisualIndicator::SolvePath, (255, 128, 0)),
        (VisualIndicator::Searching, (0, 0, 255)),
        (VisualIndicator::Match, (255, 0, 255)),
        (VisualIndicator::End, (0, 255, 0)),
        (VisualIndicator::Start, (255, 0, 0)),
        (VisualIndicator::Custom(Color::from_rgb(9, 8, 7)), (9, 8, 7)),
    ];
    for (tag, (r, g, b)) in tags {
        for state in [PointState::Passage, PointState::Wall] {
            assert_eq!(obtain_color(&state, &Some(tag)), Color { r, g, b, a: 255 });
        }
    }
}

#[test]
fn snapshot_shows_maze_under_overlay() {
    let mut data = shared(3, true, 1000);
    let mut maze = all_walls(3);
    maze[4] = PointState::Passage;
    let overlay = vec![Some(VisualIndicator::Start), None];
    assert_eq!(draw_maze_overwrites(&mut data, &maze, &overlay), Ok(()));
    let black = Color { r: 0, g: 0, b: 0, a: 255 };
    let mut expected = vec![black; 9];
    expected[0] = Color { r: 255, g: 0, b: 0, a: 255 };
    expected[4] = Color { r: 255, g: 255, b: 255, a: 255 };
    assert_eq!(data.get_pixels(), expected);
    assert_eq!(data.snapshots, 1);
    let short = vec![PointState::Passage; 2];
    assert_eq!(draw_maze_overwrites(&mut data, &short, &Vec::new()), Ok(()));
    let shown = data.get_pixels();
    assert_eq!(shown.len(), 9);
    assert_eq!(shown[1], Color { r: 255, g: 255, b: 255, a: 255 });
    assert_eq!(shown[2], black);
}

#[test]
fn frames_are_published_every_rounded_speed() {
    assert_eq!(frame_step(0), 1);
    assert_eq!(frame_step(499), 1);
    assert_eq!(frame_step(1000), 1);
    assert_eq!(frame_step(1499), 1);
    assert_eq!(frame_step(1500), 2);
    assert_eq!(frame_step(5000), 5);
    assert_eq!(frame_step(u64::MAX), u64::MAX / 1000 + 1);
    let mut data = shared(3, true, 3000);
    let maze = all_walls(3);
    let mut published = Vec::new();
    for frame in 1..=9u64 {
        let before = data.snapshots;
        assert_eq!(update_maze(&mut data, &maze, false), Ok(()));
        assert_eq!(data.frame_count, frame);
        if data.snapshots != before {
            published.push(frame);
        }
    }
    assert_eq!(published, vec![3, 6, 9]);
    assert_eq!(update_maze(&mut data, &maze, true), Ok(()));
    assert_eq!(data.frame_count, 10);
    assert_eq!(data.snapshots, 4);
    assert_eq!(data.take_wait(), 0);
}

#[test]
fn slow_speed_owes_a_pause_after_each_frame() {
    assert_eq!(MAX_WAIT_TIME, 1500);
    let mut data = shared(3, true, 500);
    let maze = all_walls(3);
    assert_eq!(update_maze(&mut data, &maze, false), Ok(()));
    assert_eq!(data.owed_wait, 750);
    assert_eq!(update_maze_debug(&mut data, &maze, &Vec::new(), false), Ok(()));
    assert_eq!(data.owed_wait, 1500);
    assert_eq!(data.take_wait(), 1500);
    assert_eq!(data.take_wait(), 0);
    data.set_speed_anim(0);
    assert_eq!(update_maze(&mut data, &maze, false), Ok(()));
    assert_eq!(data.take_wait(), 1500);
    data.set_speed_anim(999);
    assert_eq!(update_maze(&mut data, &maze, false), Ok(()));
    assert_eq!(data.take_wait(), 1);
    data.set_speed_anim(1000);
    assert_eq!(update_maze(&mut data, &maze, false), Ok(()));
    assert_eq!(data.take_wait(), 0);
}

#[test]
fn hidden_animation_publishes_only_what_must_be_shown() {
    let mut data = shared(3, false, 500);
    let maze = all_walls(3);
    assert_eq!(update_maze(&mut data, &maze, false), Ok(()));
    assert_eq!((data.frame_count, data.snapshots), (0, 0));
    assert_eq!(update_maze(&mut data, &maze, true), Ok(()));
    assert_eq!((data.frame_count, data.snapshots), (1, 1));
    assert_eq!(data.owed_wait, 0);
    assert_eq!(update_maze_overwrite(&mut data, &maze, false), Ok(()));
    assert_eq!((data.frame_count, data.snapshots), (2, 2));
    assert_eq!(update_maze_debug_overwrite(&mut data, &maze, &Vec::new(), true, true), Ok(()));
    assert_eq!((data.frame_count, data.snapshots), (3, 3));
    assert_eq!(data.take_wait(), 0);
}

#[test]
fn cancellation_ends_every_publish_attempt() {
    let mut data = shared(3, true, 1000);
    let maze = all_walls(3);
    data.set_should_exit(true);
    assert_eq!(update_maze(&mut data, &maze, true), Err(MazeError::Terminated));
    assert_eq!(update_maze_overwrite(&mut data, &maze, true), Err(MazeError::Terminated));
    assert_eq!(update_maze_debug(&mut data, &maze, &Vec::new(), true), Err(MazeError::Terminated));
    assert_eq!(
        update_maze_debug_overwrite(&mut data, &maze, &Vec::new(), true, true),
        Err(MazeError::Terminated)
    );
    assert_eq!((data.frame_count, data.snapshots), (0, 0));
    assert!(data.get_pixels().is_empty());
}

#[test]
fn way_is_drawn_with_start_and_end_on_top() {
    let mut overlay = no_overlay(25);
    assert_eq!(overlay, vec![None; 25]);
    overlay[vec2_to_numb(3, 3, 5)] = Some(VisualIndicator::Searching);
    overlay[vec2_to_numb(0, 4, 5)] = Some(VisualIndicator::Match);
    let path = vec![Point { x: 1, y: 1 }, Point { x: 3, y: 1 }, Point { x: 3, y: 3 }];
    draw_path(&mut overlay, 5, &path, &Point { x: 1, y: 1 }, &Point { x: 3, y: 3 });
    let mut expected = vec![None; 25];
    expected[vec2_to_numb(1, 1, 5)] = Some(VisualIndicator::Start);
    expected[vec2_to_numb(2, 1, 5)] = Some(VisualIndicator::SolvePath);
    expected[vec2_to_numb(3, 1, 5)] = Some(VisualIndicator::SolvePath);
    expected[vec2_to_numb(3, 2, 5)] = Some(VisualIndicator::SolvePath);
    expected[vec2_to_numb(3, 3, 5)] = Some(VisualIndicator::End);
    expected[vec2_to_numb(0, 4, 5)] = Some(VisualIndicator::Match);
    assert_eq!(overlay, expected);
}

#[test]
fn whole_job_generates_braids_and_solves() {
    let data = MazeData::new(&MazeOptions::new(20, 42, 30), &AnimOptions::new(false, false, 1000));
    let job = main_run(data, SolveAlgorithm::AStar).unwrap();
    assert_eq!(job.phase, JobPhase::Done);
    assert!(job.is_finished());
    assert!(job.get_data().is_done());
    assert!(job.get_data().get_time_elapsed().is_some());
    assert_eq!(job.get_options().size, 21);
    assert_eq!(job.maze.len(), 21 * 21);
    assert_eq!(job.path[0], Point { x: 1, y: 1 });
    assert_eq!(job.path[job.path.len() - 1], Point { x: 19, y: 19 });
    assert_eq!(job.visual_overwrites[vec2_to_numb(1, 1, 21)], Some(VisualIndicator::Start));
    assert_eq!(job.visual_overwrites[vec2_to_numb(19, 19, 21)], Some(VisualIndicator::End));
    let second = job.path[1];
    assert_eq!(
        job.visual_overwrites[vec2_to_numb(second.x, second.y, 21)],
        Some(VisualIndicator::SolvePath)
    );
    let again = main_run(
        MazeData::new(&MazeOptions::new(20, 42, 30), &AnimOptions::new(true, true, 250)),
        SolveAlgorithm::AStar,
    )
    .unwrap();
    assert_eq!(again.maze, job.maze);
    assert_eq!(again.path, job.path);
    let unsolved = main_run(
        MazeData::new(&MazeOptions::new(21, 42, 30), &AnimOptions::new(false, false, 1000)),
        SolveAlgorithm::Unsolved,
    )
    .unwrap();
    assert_eq!(unsolved.maze, job.maze);
    assert!(unsolved.path.is_empty());
    assert!(unsolved.get_data().is_done());
}

#[test]
fn whole_job_refuses_bad_options_and_cancellation() {
    let options = |size, decimate| {
        MazeData::new(&MazeOptions::new(size, 1, decimate), &AnimOptions::new(false, false, 1000))
    };
    assert!(matches!(main_run(options(0, 0), SolveAlgorithm::AStar), Err(MazeError::InvalidOptions)));
    assert!(matches!(main_run(options(1, 0), SolveAlgorithm::AStar), Err(MazeError::InvalidOptions)));
    assert!(matches!(
        main_run(options(11, 101), SolveAlgorithm::AStar),
        Err(MazeError::InvalidOptions)
    ));
    let mut cancelled = options(11, 0);
    cancelled.set_should_exit(true);
    assert!(matches!(main_run(cancelled, SolveAlgorithm::AStar), Err(MazeError::Terminated)));
    assert!(main_run(options(2, 100), SolveAlgorithm::AStar).is_ok());
}

#[test]
fn job_runs_turn_by_turn_to_the_same_end() {
    let whole = main_run(
        MazeData::new(&MazeOptions::new(15, 5, 20), &AnimOptions::new(false, false, 1000)),
        SolveAlgorithm::AStar,
    )
    .unwrap();
    let mut job = MazeThread::new(
        MazeData::new(&MazeOptions::new(14, 5, 20), &AnimOptions::new(true, true, 2000)),
        SolveAlgorithm::AStar,
    );
    assert_eq!(job.get_options().size, 15);
    assert_eq!(job.phase, JobPhase::Generating);
    assert!(!job.is_finished());
    let mut phases = vec![job.phase];
    let mut turns = 0;
    while !job.is_finished() {
        assert!(!job.get_data().is_done());
        assert_eq!(job.get_data().get_time_elapsed(), None);
        let phase = job.step();
        if *phases.last().unwrap() != phase {
            phases.push(phase);
        }
        turns += 1;
        assert!(turns < 10_000);
    }
    assert_eq!(phases, vec![JobPhase::Generating, JobPhase::Solving, JobPhase::Done]);
    assert!(job.get_data().is_done());
    assert!(job.get_data().get_time_elapsed().is_some());
    assert_eq!(job.maze, whole.maze);
    assert_eq!(job.path, whole.path);
    assert_eq!(job.visual_overwrites, whole.visual_overwrites);
    assert_eq!(job.get_data().get_gen_proc(), 1000);
    assert!(job.get_data().snapshots > 0);
    assert_eq!(job.step(), JobPhase::Done);
}

#[test]
fn cancelled_job_stops_at_once_and_is_never_done() {
    for cancel_at in [0usize, 1, 10, 48, 49, 60] {
        let mut job = MazeThread::new(
            MazeData::new(&MazeOptions::new(15, 5, 20), &AnimOptions::new(false, false, 1000)),
            SolveAlgorithm::AStar,
        );
        for _ in 0..cancel_at {
            job.step();
        }
        assert!(!job.is_finished());
        let before = job.maze.clone();
        assert!(!job.exit_signal_sent());
        job.terminate();
        assert!(job.exit_signal_sent());
        job.terminate();
        assert_eq!(job.step(), JobPhase::Stopped);
        assert_eq!(job.failure, Some(MazeError::Terminated));
        assert_eq!(job.maze, before);
        assert!(job.is_finished());
        for _ in 0..5 {
            assert_eq!(job.step(), JobPhase::Stopped);
            assert!(!job.get_data().is_done());
            assert_eq!(job.get_data().get_time_elapsed(), None);
        }
    }
}

#[test]
fn job_with_bad_options_never_begins() {
    let job = MazeThread::new(
        MazeData::new(&MazeOptions::new(1, 5, 20), &AnimOptions::new(false, false, 1000)),
        SolveAlgorithm::AStar,
    );
    assert_eq!(job.phase, JobPhase::Stopped);
    assert_eq!(job.failure, Some(MazeError::InvalidOptions));
    assert!(job.maze.is_empty());
    let mut cancelled = MazeData::new(&MazeOptions::new(9, 5, 20), &AnimOptions::default());
    cancelled.set_should_exit(true);
    let job = MazeThread::new(cancelled, SolveAlgorithm::AStar);
    assert_eq!(job.phase, JobPhase::Stopped);
    assert_eq!(job.failure, Some(MazeError::Terminated));
    let mut unsolved = MazeThread::new(
        MazeData::new(&MazeOptions::new(4, 5, 0), &AnimOptions::default()),
        SolveAlgorithm::Unsolved,
    );
    assert_eq!(unsolved.get_options().size, 5);
    while !unsolved.is_finished() {
        unsolved.step();
    }
    assert_eq!(unsolved.phase, JobPhase::Done);
    assert!(unsolved.get_data().get_time_elapsed().is_some());
    assert!(unsolved.path.is_empty());
    assert_eq!(unsolved.visual_overwrites[vec2_to_numb(1, 1, 5)], Some(VisualIndicator::Start));
    assert_eq!(unsolved.visual_overwrites[vec2_to_numb(3, 3, 5)], Some(VisualIndicator::End));
}

#[test]
fn turns_report_progress_and_publish() {
    let mut job = MazeThread::new(
        MazeData::new(&MazeOptions::new(9, 3, 0), &AnimOptions::new(false, true, 1000)),
        SolveAlgorithm::AStar,
    );
    let mut last_progress = 0;
    let mut frames = 0;
    while job.phase == JobPhase::Generating {
        let before = job.get_data().frame_count;
        job.step();
        let data = job.get_data();
        assert!(data.frame_count > before);
        assert!(data.get_gen_proc() >= last_progress);
        assert_eq!(data.get_pixels().len(), 81);
        last_progress = data.get_gen_proc();
        frames = data.frame_count;
    }
    assert_eq!(last_progress, 1000);
    assert_eq!(job.get_data().snapshots, frames);
    while !job.is_finished() {
        let before = job.get_data().frame_count;
        job.step();
        assert_eq!(job.get_data().frame_count, before + 1);
    }
    assert_eq!(job.get_data().snapshots, job.get_data().frame_count);
}

#[test]
fn failed_search_leaves_the_shared_data_alone() {
    let fresh = || MazeData::new(&MazeOptions::new(5, 1, 0), &AnimOptions::new(true, true, 500));
    let mut maze = all_walls(5);
    let mut data = fresh();
    data.set_pixels(vec![Color::from_rgb(1, 2, 3)]);
    let options = maze_gen::solve::solve::SolveOptions::new(5);
    assert!(maze_gen::solve::solve::solve(&mut maze, &mut data, &options).is_err());
    assert_eq!(data.get_pixels(), vec![Color::from_rgb(1, 2, 3)]);
    assert_eq!((data.frame_count, data.snapshots, data.owed_wait), (0, 1, 0));
    data.set_should_exit(true);
    maze[vec2_to_numb(1, 1, 5)] = PointState::Passage;
    assert!(maze_gen::solve::solve::solve(&mut maze, &mut data, &options).is_err());
    assert_eq!(data.get_pixels(), vec![Color::from_rgb(1, 2, 3)]);
    assert_eq!((data.frame_count, data.snapshots, data.owed_wait), (0, 1, 0));
}
