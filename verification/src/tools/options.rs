use vstd::prelude::*;
use std::time::Duration;
use crate::point::point_state::Color;
use crate::tools::consts::MazeOptions;

verus! {

/// How the run is shown. `speed` is in thousandths: 1000 publishes every
/// frame without a pause, 5000 every fifth frame, 500 every frame with a
/// pause after it.
#[derive(Clone, Copy, Debug)]
pub struct AnimOptions {
    pub show_debug: bool,
    pub show_anim: bool,
    pub speed: u64,
}

impl AnimOptions {
    /// Animation options as given. `speed` is in thousandths.
    pub fn new(show_debug: bool, show_anim: bool, speed: u64) -> (anim: AnimOptions)
        ensures
            anim == (AnimOptions { show_debug, show_anim, speed }),
    {
        AnimOptions { show_debug, show_anim, speed }
    }
}

impl Default for AnimOptions {
    fn default() -> (anim: AnimOptions)
        ensures
            anim == (AnimOptions { show_debug: true, show_anim: true, speed: 1000 }),
    {
        AnimOptions { show_debug: true, show_anim: true, speed: 1000 }
    }
}

/// Everything that the running job and the foreground share. The job writes
/// the snapshot, the progress, the completion flag and the elapsed time; the
/// foreground writes the cancellation flag, the save request and the
/// animation options.
pub struct MazeData {
    /// The last published snapshot, one colour per cell.
    pub pixels: Vec<Color>,
    /// Cancellation requested.
    pub should_exit: bool,
    pub is_done: bool,
    pub maze_opt: MazeOptions,
    pub anim: AnimOptions,
    /// Where the foreground asked the finished maze to be saved.
    pub save_requested: Option<String>,
    /// Progress of the generation in thousandths.
    pub gen_proc: u64,
    /// The time from the start of the job to its completion.
    pub time_elapsed: Option<Duration>,
    /// Publish attempts so far, the base of the throttling.
    pub frame_count: u64,
    /// Snapshots written so far.
    pub snapshots: u64,
    /// Milliseconds of pause that the published frames ask for and that the
    /// driver has not yet slept.
    pub owed_wait: u64,
}

/// `v + 1`, starting again at 0 after the largest value.
pub open spec fn spec_next(v: u64) -> u64 {
    if v == u64::MAX {
        0
    } else {
        (v + 1) as u64
    }
}

/// `a + b`, or the largest value where that does not fit.
pub open spec fn spec_capped_sum(a: u64, b: u64) -> u64 {
    if a + b > u64::MAX {
        u64::MAX
    } else {
        (a + b) as u64
    }
}

/// Whether two states of the shared data agree in everything but what a
/// running job reports: snapshot, frame counters, owed pause, progress, and
/// the generator inside the options.
pub open spec fn same_controls(a: MazeData, b: MazeData) -> bool {
    &&& a.should_exit == b.should_exit
    &&& a.is_done == b.is_done
    &&& a.anim == b.anim
    &&& a.save_requested == b.save_requested
    &&& a.time_elapsed == b.time_elapsed
    &&& a.maze_opt.size == b.maze_opt.size
    &&& a.maze_opt.seed == b.maze_opt.seed
    &&& a.maze_opt.decimate == b.maze_opt.decimate
}

impl MazeData {
    /// The shared state of a job that has not begun: nothing published,
    /// nothing requested, no progress.
    pub fn new(maze_opt: &MazeOptions, anim_opt: &AnimOptions) -> (data: MazeData)
        ensures
            data.pixels@.len() == 0,
            !data.should_exit,
            !data.is_done,
            data.maze_opt.size == maze_opt.size,
            data.maze_opt.seed == maze_opt.seed,
            data.maze_opt.decimate == maze_opt.decimate,
            data.maze_opt.spec_seeder_state() == maze_opt.spec_seeder_state(),
            data.anim == *anim_opt,
            data.save_requested is None,
            data.gen_proc == 0,
            data.time_elapsed is None,
            data.frame_count == 0,
            data.snapshots == 0,
            data.owed_wait == 0,
    {
        MazeData {
            pixels: Vec::new(),
            should_exit: false,
            is_done: false,
            maze_opt: maze_opt.clone(),
            anim: *anim_opt,
            save_requested: None,
            gen_proc: 0,
            time_elapsed: None,
            frame_count: 0,
            snapshots: 0,
            owed_wait: 0,
        }
    }

    /// A copy of the options.
    pub fn get_opt(&self) -> (opt: MazeOptions)
        ensures
            opt.size == self.maze_opt.size,
            opt.seed == self.maze_opt.seed,
            opt.decimate == self.maze_opt.decimate,
            opt.spec_seeder_state() == self.maze_opt.spec_seeder_state(),
    {
        self.maze_opt.clone()
    }

    /// Replaces the options.
    pub fn write_opt(&mut self, opt: &MazeOptions)
        ensures
            final(self).maze_opt.size == opt.size,
            final(self).maze_opt.seed == opt.seed,
            final(self).maze_opt.decimate == opt.decimate,
            final(self).maze_opt.spec_seeder_state() == opt.spec_seeder_state(),
            *final(self) == (MazeData { maze_opt: final(self).maze_opt, ..*old(self) }),
    {
        self.maze_opt = opt.clone();
    }

    pub fn set_done(&mut self, done: bool)
        ensures
            *final(self) == (MazeData { is_done: done, ..*old(self) }),
    {
        self.is_done = done;
    }

    pub fn is_done(&self) -> (done: bool)
        ensures
            done == self.is_done,
    {
        self.is_done
    }

    pub fn set_show_debug(&mut self, debug: bool)
        ensures
            *final(self) == (MazeData {
                anim: AnimOptions { show_debug: debug, ..old(self).anim },
                ..*old(self)
            }),
    {
        self.anim.show_debug = debug;
    }

    pub fn show_debug(&self) -> (debug: bool)
        ensures
            debug == self.anim.show_debug,
    {
        self.anim.show_debug
    }

    pub fn set_show_anim(&mut self, anim: bool)
        ensures
            *final(self) == (MazeData {
                anim: AnimOptions { show_anim: anim, ..old(self).anim },
                ..*old(self)
            }),
    {
        self.anim.show_anim = anim;
    }

    pub fn show_anim(&self) -> (anim: bool)
        ensures
            anim == self.anim.show_anim,
    {
        self.anim.show_anim
    }

    pub fn speed_anim(&self) -> (speed: u64)
        ensures
            speed == self.anim.speed,
    {
        self.anim.speed
    }

    pub fn set_speed_anim(&mut self, speed: u64)
        ensures
            *final(self) == (MazeData {
                anim: AnimOptions { speed: speed, ..old(self).anim },
                ..*old(self)
            }),
    {
        self.anim.speed = speed;
    }

    /// Publishes a snapshot.
    pub fn set_pixels(&mut self, pixels: Vec<Color>)
        ensures
            *final(self) == (MazeData {
                pixels: pixels,
                snapshots: spec_next(old(self).snapshots),
                ..*old(self)
            }),
    {
        self.pixels = pixels;
        self.snapshots = if self.snapshots == u64::MAX {
            0
        } else {
            self.snapshots + 1
        };
    }

    /// A copy of the last published snapshot.
    pub fn get_pixels(&self) -> (pixels: Vec<Color>)
        ensures
            pixels@ == self.pixels@,
    {
        let mut pixels: Vec<Color> = Vec::with_capacity(self.pixels.len());
        let mut i: usize = 0;
        while i < self.pixels.len()
            invariant
                i <= self.pixels@.len(),
                pixels@ == self.pixels@.subrange(0, i as int),
            decreases self.pixels@.len() - i,
        {
            pixels.push(self.pixels[i]);
            i = i + 1;
        }
        assert(self.pixels@.subrange(0, i as int) =~= self.pixels@);
        pixels
    }

    pub fn should_exit(&self) -> (exit: bool)
        ensures
            exit == self.should_exit,
    {
        self.should_exit
    }

    pub fn set_should_exit(&mut self, should_exit: bool)
        ensures
            *final(self) == (MazeData { should_exit: should_exit, ..*old(self) }),
    {
        self.should_exit = should_exit;
    }

    /// Asks for the finished maze to be saved at `path`.
    pub fn set_requested(&mut self, path: String)
        ensures
            *final(self) == (MazeData { save_requested: Some(path), ..*old(self) }),
    {
        self.save_requested = Some(path);
    }

    /// Hands out the pending save request, which is then no longer pending.
    pub fn take_requested(&mut self) -> (path: Option<String>)
        ensures
            path == old(self).save_requested,
            *final(self) == (MazeData { save_requested: None, ..*old(self) }),
    {
        self.save_requested.take()
    }

    pub fn set_gen_proc(&mut self, proc: u64)
        ensures
            *final(self) == (MazeData { gen_proc: proc, ..*old(self) }),
    {
        self.gen_proc = proc;
    }

    pub fn get_gen_proc(&self) -> (proc: u64)
        ensures
            proc == self.gen_proc,
    {
        self.gen_proc
    }

    pub fn get_time_elapsed(&self) -> (dur: Option<Duration>)
        ensures
            dur == self.time_elapsed,
    {
        self.time_elapsed
    }

    pub fn set_time_elapsed(&mut self, dur: Duration)
        ensures
            *final(self) == (MazeData { time_elapsed: Some(dur), ..*old(self) }),
    {
        self.time_elapsed = Some(dur);
    }

    /// Hands out the pause that is owed, which is then settled.
    pub fn take_wait(&mut self) -> (millis: u64)
        ensures
            millis == old(self).owed_wait,
            *final(self) == (MazeData { owed_wait: 0, ..*old(self) }),
    {
        let millis: u64 = self.owed_wait;
        self.owed_wait = 0;
        millis
    }
}

} // verus!
