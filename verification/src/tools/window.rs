use vstd::prelude::*;
use crate::error::MazeError;
use crate::point::point_state::{Color, PointState, VisualIndicator};
use crate::tools::consts::{Maze, MAX_WAIT_TIME};
use crate::tools::options::{spec_capped_sum, spec_next, MazeData};

verus! {

/// The colour in which a cell is shown: the overlay's where there is one,
/// else white for a passage and black for a wall.
pub open spec fn spec_obtain_color(point: PointState, overwrite: Option<VisualIndicator>) -> Color {
    match overwrite {
        Some(VisualIndicator::SolvePath) => Color { r: 255, g: 128, b: 0, a: 255 },
        Some(VisualIndicator::Searching) => Color { r: 0, g: 0, b: 255, a: 255 },
        Some(VisualIndicator::Match) => Color { r: 255, g: 0, b: 255, a: 255 },
        Some(VisualIndicator::End) => Color { r: 0, g: 255, b: 0, a: 255 },
        Some(VisualIndicator::Start) => Color { r: 255, g: 0, b: 0, a: 255 },
        Some(VisualIndicator::Custom(c)) => c,
        None => match point {
            PointState::Passage => Color { r: 255, g: 255, b: 255, a: 255 },
            PointState::Wall => Color { r: 0, g: 0, b: 0, a: 255 },
        },
    }
}

/// The overlay tag of cell `pos`; none where the overlay is shorter.
pub open spec fn spec_overlay_at(
    overlay: Seq<Option<VisualIndicator>>,
    pos: int,
) -> Option<VisualIndicator> {
    if 0 <= pos < overlay.len() {
        overlay[pos]
    } else {
        None
    }
}

/// The snapshot of `cells` pixels: each cell of the maze in its colour, black
/// behind the maze's end.
pub open spec fn spec_draw(
    maze: Seq<PointState>,
    overlay: Seq<Option<VisualIndicator>>,
    cells: int,
) -> Seq<Color> {
    Seq::new(
        cells as nat,
        |pos: int|
            if pos < maze.len() {
                spec_obtain_color(maze[pos], spec_overlay_at(overlay, pos))
            } else {
                Color { r: 0, g: 0, b: 0, a: 255 }
            },
    )
}

/// Every how many frames one is published: the speed rounded to a whole
/// number, at least 1.
pub open spec fn spec_frame_step(speed: u64) -> int {
    let rounded = speed / 1000 + if speed % 1000 >= 500 {
        1int
    } else {
        0int
    };
    if rounded < 1 {
        1
    } else {
        rounded
    }
}

/// The pause after a published frame, in milliseconds: none at speed 1 and
/// above, below it the missing part of `MAX_WAIT_TIME`.
pub open spec fn spec_wait_ms(speed: u64) -> int {
    if speed < 1000 {
        (1000 - speed) * MAX_WAIT_TIME / 1000
    } else {
        0
    }
}

/// Whether a publish attempt counts as a frame: the animation is shown, or
/// the caller insists.
pub open spec fn counts_frame(data: MazeData, always_render: bool, overwrite: bool) -> bool {
    data.anim.show_anim || overwrite || always_render
}

/// Whether a publish attempt writes a snapshot.
pub open spec fn publishes(data: MazeData, always_render: bool, overwrite: bool) -> bool {
    &&& !data.should_exit
    &&& counts_frame(data, always_render, overwrite)
    &&& (always_render || spec_next(data.frame_count) as int % spec_frame_step(data.anim.speed) == 0)
}

/// The shared state after a publish attempt that was not cancelled.
pub open spec fn spec_published(
    data: MazeData,
    pixels: Vec<Color>,
    always_render: bool,
    overwrite: bool,
) -> MazeData {
    if !counts_frame(data, always_render, overwrite) {
        data
    } else if !publishes(data, always_render, overwrite) {
        MazeData { frame_count: spec_next(data.frame_count), ..data }
    } else {
        MazeData {
            frame_count: spec_next(data.frame_count),
            pixels: pixels,
            snapshots: spec_next(data.snapshots),
            owed_wait: if data.anim.show_anim {
                spec_capped_sum(data.owed_wait, spec_wait_ms(data.anim.speed) as u64)
            } else {
                data.owed_wait
            },
            ..data
        }
    }
}

/// The shared state after a publish attempt that was not cancelled, but
/// for the snapshot, which is left as it was.
pub open spec fn spec_attempted(data: MazeData, always_render: bool, overwrite: bool) -> MazeData {
    spec_published(data, data.pixels, always_render, overwrite)
}

/// The colour in which a cell is shown.
pub fn obtain_color(point: &PointState, overwrite: &Option<VisualIndicator>) -> (c: Color)
    ensures
        c == spec_obtain_color(*point, *overwrite),
{
    match overwrite {
        Some(VisualIndicator::SolvePath) => Color::from_rgb(255, 128, 0),
        Some(VisualIndicator::Searching) => Color::from_rgb(0, 0, 255),
        Some(VisualIndicator::Match) => Color::from_rgb(255, 0, 255),
        Some(VisualIndicator::End) => Color::from_rgb(0, 255, 0),
        Some(VisualIndicator::Start) => Color::from_rgb(255, 0, 0),
        Some(VisualIndicator::Custom(c)) => *c,
        None => match point {
            PointState::Passage => Color::from_rgb(255, 255, 255),
            PointState::Wall => Color::from_rgb(0, 0, 0),
        },
    }
}

/// The snapshot of the maze under its overlay, as `spec_draw` states it.
pub fn draw_maze_overwrites(
    data: &mut MazeData,
    maze: &Maze,
    visual_overwrites: &Vec<Option<VisualIndicator>>,
) -> (r: Result<(), MazeError>)
    requires
        maze@.len() <= old(data).maze_opt.size * old(data).maze_opt.size <= usize::MAX,
    ensures
        r is Ok,
        final(data).pixels@ == spec_draw(
            maze@,
            visual_overwrites@,
            old(data).maze_opt.size * old(data).maze_opt.size,
        ),
        *final(data) == (MazeData {
            pixels: final(data).pixels,
            snapshots: spec_next(old(data).snapshots),
            ..*old(data)
        }),
{
    let size: usize = data.maze_opt.size;
    let cells: usize = size * size;
    let mut buffer: Vec<Color> = Vec::with_capacity(cells);
    let mut pos: usize = 0;
    while pos < cells
        invariant
            pos <= cells,
            maze@.len() <= cells,
            buffer@ == spec_draw(maze@, visual_overwrites@, pos as int),
        decreases cells - pos,
    {
        let color = if pos < maze.len() {
            let overwrite: Option<VisualIndicator> = if pos < visual_overwrites.len() {
                visual_overwrites[pos]
            } else {
                None
            };
            obtain_color(&maze[pos], &overwrite)
        } else {
            Color::from_rgb(0, 0, 0)
        };
        buffer.push(color);
        pos = pos + 1;
        assert(buffer@ =~= spec_draw(maze@, visual_overwrites@, pos as int));
    }
    data.set_pixels(buffer);
    Ok(())
}

/// Every how many frames one is published.
pub fn frame_step(speed: u64) -> (step: u64)
    ensures
        step == spec_frame_step(speed),
        step >= 1,
{
    let rounded: u64 = speed / 1000 + if speed % 1000 >= 500 {
        1
    } else {
        0
    };
    if rounded < 1 {
        1
    } else {
        rounded
    }
}

/// One publish attempt. A requested cancellation ends it with `Terminated`
/// and nothing changed. Else the frame counter advances, and the snapshot is
/// written if this frame's turn has come or `always_render` is set; with the
/// animation off, only calls that set `always_render` or `overwrite` count at
/// all. A written frame adds its pause to what the driver owes.
pub fn update_maze_debug_overwrite(
    data: &mut MazeData,
    maze: &Maze,
    visual_overwrites: &Vec<Option<VisualIndicator>>,
    always_render: bool,
    overwrite: bool,
) -> (r: Result<(), MazeError>)
    requires
        maze@.len() <= old(data).maze_opt.size * old(data).maze_opt.size <= usize::MAX,
    ensures
        old(data).should_exit ==> r == Err::<(), MazeError>(MazeError::Terminated) && *final(data)
            == *old(data),
        !old(data).should_exit ==> r is Ok && *final(data) == spec_published(
            *old(data),
            final(data).pixels,
            always_render,
            overwrite,
        ),
        publishes(*old(data), always_render, overwrite) ==> final(data).pixels@ == spec_draw(
            maze@,
            visual_overwrites@,
            old(data).maze_opt.size * old(data).maze_opt.size,
        ),
{
    if data.should_exit() {
        return Err(MazeError::Terminated);
    }
    let show_animation = data.show_anim();
    if !show_animation && !overwrite && !always_render {
        return Ok(());
    }
    data.frame_count = if data.frame_count == u64::MAX {
        0
    } else {
        data.frame_count + 1
    };
    let speed: u64 = data.speed_anim();
    if data.frame_count % frame_step(speed) != 0 && !always_render {
        return Ok(());
    }
    draw_maze_overwrites(data, maze, visual_overwrites)?;
    if show_animation && speed < 1000 {
        let millis: u64 = (1000 - speed) * MAX_WAIT_TIME / 1000;
        data.owed_wait = if millis > u64::MAX - data.owed_wait {
            u64::MAX
        } else {
            data.owed_wait + millis
        };
    } else {
        assert(spec_capped_sum(data.owed_wait, 0) == data.owed_wait);
    }
    Ok(())
}

/// A publish attempt without an overlay.
pub fn update_maze(data: &mut MazeData, maze: &Maze, always_render: bool) -> (r: Result<
    (),
    MazeError,
>)
    requires
        maze@.len() <= old(data).maze_opt.size * old(data).maze_opt.size <= usize::MAX,
    ensures
        old(data).should_exit ==> r == Err::<(), MazeError>(MazeError::Terminated) && *final(data)
            == *old(data),
        !old(data).should_exit ==> r is Ok && *final(data) == spec_published(
            *old(data),
            final(data).pixels,
            always_render,
            false,
        ),
        publishes(*old(data), always_render, false) ==> final(data).pixels@ == spec_draw(
            maze@,
            Seq::<Option<VisualIndicator>>::empty(),
            old(data).maze_opt.size * old(data).maze_opt.size,
        ),
{
    let none: Vec<Option<VisualIndicator>> = Vec::new();
    update_maze_debug(data, maze, &none, always_render)
}

/// A publish attempt without an overlay that counts even while the
/// animation is off.
pub fn update_maze_overwrite(data: &mut MazeData, maze: &Maze, always_render: bool) -> (r: Result<
    (),
    MazeError,
>)
    requires
        maze@.len() <= old(data).maze_opt.size * old(data).maze_opt.size <= usize::MAX,
    ensures
        old(data).should_exit ==> r == Err::<(), MazeError>(MazeError::Terminated) && *final(data)
            == *old(data),
        !old(data).should_exit ==> r is Ok && *final(data) == spec_published(
            *old(data),
            final(data).pixels,
            always_render,
            true,
        ),
        publishes(*old(data), always_render, true) ==> final(data).pixels@ == spec_draw(
            maze@,
            Seq::<Option<VisualIndicator>>::empty(),
            old(data).maze_opt.size * old(data).maze_opt.size,
        ),
{
    let none: Vec<Option<VisualIndicator>> = Vec::new();
    update_maze_debug_overwrite(data, maze, &none, always_render, true)
}

/// A publish attempt with an overlay.
pub fn update_maze_debug(
    data: &mut MazeData,
    maze: &Maze,
    visual_overwrites: &Vec<Option<VisualIndicator>>,
    always_render: bool,
) -> (r: Result<(), MazeError>)
    requires
        maze@.len() <= old(data).maze_opt.size * old(data).maze_opt.size <= usize::MAX,
    ensures
        old(data).should_exit ==> r == Err::<(), MazeError>(MazeError::Terminated) && *final(data)
            == *old(data),
        !old(data).should_exit ==> r is Ok && *final(data) == spec_published(
            *old(data),
            final(data).pixels,
            always_render,
            false,
        ),
        publishes(*old(data), always_render, false) ==> final(data).pixels@ == spec_draw(
            maze@,
            visual_overwrites@,
            old(data).maze_opt.size * old(data).maze_opt.size,
        ),
{
    update_maze_debug_overwrite(data, maze, visual_overwrites, always_render, false)
}

} // verus!
