use vstd::prelude::*;
use rand::rngs::StdRng;
use crate::error::MazeError;
use crate::point::point_state::PointState;
use crate::tools::options::MazeData;
use crate::tools::seeder::{
    clone_seeder, random_seed, seed_from_u64, seeded_state, seeder_state,
};

verus! {

/// Longest pause after a published frame, in milliseconds.
pub const MAX_WAIT_TIME: u64 = 1500;

/// A square grid of cells, stored row by row.
pub type Maze = Vec<PointState>;

/// What one run is generated from. The generator inside starts from `seed`.
pub struct MazeOptions {
    pub size: usize,
    pub seed: u64,
    pub decimate: usize,
    pub seeder: StdRng,
}

impl MazeOptions {
    /// The state of the generator that the options carry.
    pub open spec fn spec_seeder_state(&self) -> int {
        seeder_state(self.seeder)
    }

    /// Options with a generator that starts from `seed`.
    pub fn new(size: usize, seed: u64, decimate: usize) -> (opt: MazeOptions)
        ensures
            opt.size == size,
            opt.seed == seed,
            opt.decimate == decimate,
            opt.spec_seeder_state() == seeded_state(seed),
    {
        MazeOptions { size, seed, decimate, seeder: seed_from_u64(seed) }
    }

    /// A copy of the generator in its present state.
    pub fn seeder(&self) -> (seeder: StdRng)
        ensures
            seeder_state(seeder) == self.spec_seeder_state(),
    {
        clone_seeder(&self.seeder)
    }

    /// Replaces the generator, so that later draws go on where `seeder` stands.
    pub fn set_seeder(&mut self, seeder: StdRng)
        ensures
            final(self).size == old(self).size,
            final(self).seed == old(self).seed,
            final(self).decimate == old(self).decimate,
            final(self).spec_seeder_state() == seeder_state(seeder),
    {
        self.seeder = seeder;
    }

    /// A copy, generator and all.
    pub fn clone(&self) -> (opt: MazeOptions)
        ensures
            opt.size == self.size,
            opt.seed == self.seed,
            opt.decimate == self.decimate,
            opt.spec_seeder_state() == self.spec_seeder_state(),
    {
        MazeOptions {
            size: self.size,
            seed: self.seed,
            decimate: self.decimate,
            seeder: clone_seeder(&self.seeder),
        }
    }
}

impl Default for MazeOptions {
    /// Side 50 and decimation 2, with a seed picked at random.
    fn default() -> (opt: MazeOptions)
        ensures
            opt.size == 50,
            opt.decimate == 2,
            opt.spec_seeder_state() == seeded_state(opt.seed),
    {
        MazeOptions::new(50, random_seed(), 2)
    }
}

/// Whether a grid of side `size` can be carved: odd, at least 3, and small
/// enough that every cell has an index.
pub open spec fn valid_size(size: int) -> bool {
    &&& size >= 3
    &&& size % 2 == 1
    &&& size * size <= usize::MAX
}

/// The side that a requested `size` is carved with: the next odd number.
pub open spec fn normalized_size(size: int) -> int {
    if size % 2 == 0 {
        size + 1
    } else {
        size
    }
}

/// Makes the side odd: an even side grows by one.
pub fn check_size(data: &mut MazeData)
    ensures
        final(data).maze_opt.size == (if old(data).maze_opt.size % 2 == 0 {
            old(data).maze_opt.size + 1
        } else {
            old(data).maze_opt.size as int
        }),
        final(data).maze_opt.seed == old(data).maze_opt.seed,
        final(data).maze_opt.decimate == old(data).maze_opt.decimate,
        final(data).maze_opt.seeder == old(data).maze_opt.seeder,
        *final(data) == (MazeData { maze_opt: final(data).maze_opt, ..*old(data) }),
{
    if data.maze_opt.size % 2 == 0 {
        assert(usize::MAX % 2 == 1) by {
            assert(usize::MAX == 0xffff_ffff || usize::MAX == 0xffff_ffff_ffff_ffff);
        }
        data.maze_opt.size = data.maze_opt.size + 1;
    }
}

/// The side of the grid, if a grid of that side can be carved.
pub fn get_size(data: &MazeData) -> (r: Result<usize, MazeError>)
    ensures
        valid_size(data.maze_opt.size as int) ==> r == Ok::<usize, MazeError>(data.maze_opt.size),
        !valid_size(data.maze_opt.size as int) ==> r == Err::<usize, MazeError>(
            MazeError::InvalidOptions,
        ),
{
    let size: usize = data.maze_opt.size;
    if size < 3 || size % 2 == 0 || usize::MAX / size < size {
        proof {
            if size >= 3 && size % 2 == 1 {
                assert(size * size > usize::MAX) by (nonlinear_arith)
                    requires (usize::MAX as int) / (size as int) < (size as int), size > 0;
            }
        }
        return Err(MazeError::InvalidOptions);
    }
    assert(size * size <= usize::MAX) by (nonlinear_arith)
        requires (usize::MAX as int) / (size as int) >= (size as int), size > 0;
    Ok(size)
}

/// A copy of the generator that the options carry.
pub fn get_seeder(data: &MazeData) -> (seeder: StdRng)
    ensures
        seeder_state(seeder) == data.maze_opt.spec_seeder_state(),
{
    data.maze_opt.seeder()
}

/// Hands a generator to the options, so that later draws go on where it
/// stands.
pub fn set_seeder(data: &mut MazeData, seeder: StdRng)
    ensures
        final(data).maze_opt.size == old(data).maze_opt.size,
        final(data).maze_opt.seed == old(data).maze_opt.seed,
        final(data).maze_opt.decimate == old(data).maze_opt.decimate,
        final(data).maze_opt.spec_seeder_state() == seeder_state(seeder),
        *final(data) == (MazeData { maze_opt: final(data).maze_opt, ..*old(data) }),
{
    data.maze_opt.set_seeder(seeder);
}

} // verus!
