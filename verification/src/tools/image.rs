use vstd::prelude::*;
use crate::error::MazeError;
use crate::point::point_state::{Color, PointState, VisualIndicator};
use crate::tools::consts::{Maze, MazeOptions};
use crate::tools::options::MazeData;
use crate::tools::seeder::seeded_state;
use crate::tools::window::{spec_attempted, spec_draw, update_maze_debug_overwrite};

verus! {

/// The pixels as bytes, four per pixel: red, green, blue, alpha.
pub open spec fn spec_rgba(pixels: Seq<Color>) -> Seq<u8> {
    Seq::new(
        4 * pixels.len(),
        |i: int|
            {
                let c = pixels[i / 4];
                if i % 4 == 0 {
                    c.r
                } else if i % 4 == 1 {
                    c.g
                } else if i % 4 == 2 {
                    c.b
                } else {
                    c.a
                }
            },
    )
}

/// Whether the pixel `i` of an RGBA buffer is opaque black.
pub open spec fn is_black(rgba: Seq<u8>, i: int) -> bool {
    rgba[4 * i] == 0 && rgba[4 * i + 1] == 0 && rgba[4 * i + 2] == 0 && rgba[4 * i + 3] == 255
}

/// The maze that an image shows: a wall for each opaque black pixel, a
/// passage for any other.
pub open spec fn spec_img_to_maze(rgba: Seq<u8>, cells: nat) -> Seq<PointState> {
    Seq::new(
        cells,
        |i: int|
            if is_black(rgba, i) {
                PointState::Wall
            } else {
                PointState::Passage
            },
    )
}

/// The finished maze as a square RGBA image, row by row: the snapshot of the
/// maze under its overlay, which is published on the way. A requested
/// cancellation ends the call with `Terminated`.
pub fn maze_to_img(
    data: &mut MazeData,
    maze: &Maze,
    visual_overwrites: &Vec<Option<VisualIndicator>>,
) -> (r: Result<Vec<u8>, MazeError>)
    requires
        maze@.len() <= old(data).maze_opt.size * old(data).maze_opt.size,
        4 * (old(data).maze_opt.size * old(data).maze_opt.size) <= usize::MAX,
    ensures
        old(data).should_exit ==> (r matches Err(e) && e == MazeError::Terminated) && *final(data)
            == *old(data),
        !old(data).should_exit ==> (r matches Ok(bytes) && bytes@ == spec_rgba(
            spec_draw(
                maze@,
                visual_overwrites@,
                old(data).maze_opt.size * old(data).maze_opt.size,
            ),
        ) && final(data).pixels@ == spec_draw(
            maze@,
            visual_overwrites@,
            old(data).maze_opt.size * old(data).maze_opt.size,
        ) && *final(data) == (MazeData {
            pixels: final(data).pixels,
            ..spec_attempted(*old(data), true, true)
        })),
{
    update_maze_debug_overwrite(data, maze, visual_overwrites, true, true)?;
    let pixels = data.get_pixels();
    let mut out: Vec<u8> = Vec::with_capacity(4 * pixels.len());
    let mut i: usize = 0;
    while i < pixels.len()
        invariant
            i <= pixels@.len(),
            4 * pixels@.len() <= usize::MAX,
            out@ == spec_rgba(pixels@.subrange(0, i as int)),
        decreases pixels@.len() - i,
    {
        let c: Color = pixels[i];
        out.push(c.r);
        out.push(c.g);
        out.push(c.b);
        out.push(c.a);
        i = i + 1;
        assert(out@ =~= spec_rgba(pixels@.subrange(0, i as int)));
    }
    assert(pixels@.subrange(0, i as int) =~= pixels@);
    Ok(out)
}

/// Reads a maze from a square RGBA image of odd side, one pixel per cell:
/// opaque black is a wall, anything else a passage. The options that come
/// with it give the side, no decimation, and the largest seed. An image that
/// is not square, of even side, or whose buffer has not four bytes per
/// pixel is refused.
pub fn img_to_maze(width: u32, height: u32, rgba: &Vec<u8>) -> (r: Result<
    (Maze, MazeOptions),
    MazeError,
>)
    ensures
        r is Ok <==> width == height && width % 2 == 1 && rgba@.len() == 4 * (width * width)
            && width * width <= usize::MAX,
        r matches Err(e) ==> e == MazeError::InvalidOptions,
        r matches Ok((maze, opt)) ==> maze@ == spec_img_to_maze(rgba@, (width * width) as nat)
            && opt.size == width && opt.seed == u64::MAX && opt.decimate == 0
            && opt.spec_seeder_state() == seeded_state(u64::MAX),
{
    if width != height || width % 2 != 1 {
        return Err(MazeError::InvalidOptions);
    }
    assert((width as u64) * (width as u64) <= u64::MAX) by (nonlinear_arith)
        requires width <= 0xffff_ffff;
    let total: u64 = (width as u64) * (width as u64);
    if total > usize::MAX as u64 || rgba.len() as u128 != 4 * (total as u128) {
        return Err(MazeError::InvalidOptions);
    }
    assert(total == width * width) by (nonlinear_arith)
        requires total == (width as int) * (width as int);
    let size: usize = width as usize;
    let total_pixels: usize = total as usize;
    let opt = MazeOptions::new(size, u64::MAX, 0);
    let mut maze: Vec<PointState> = Vec::with_capacity(total_pixels);
    let bytes: usize = rgba.len();
    let mut i: usize = 0;
    while i < total_pixels
        invariant
            i <= total_pixels,
            rgba@.len() == 4 * total_pixels,
            rgba@.len() <= usize::MAX,
            maze@ == spec_img_to_maze(rgba@, i as nat),
        decreases total_pixels - i,
    {
        let black: bool = rgba[4 * i] == 0 && rgba[4 * i + 1] == 0 && rgba[4 * i + 2] == 0 && rgba[4
            * i + 3] == 255;
        maze.push(if black { PointState::Wall } else { PointState::Passage });
        i = i + 1;
        assert(maze@ =~= spec_img_to_maze(rgba@, i as nat));
    }
    Ok((maze, opt))
}

} // verus!
