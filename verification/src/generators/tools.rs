use vstd::prelude::*;
use rand::rngs::StdRng;
use crate::tools::options::MazeData;
use crate::tools::seeder::{drawn, gen_below, seeder_state};
use crate::tools::window::{frame_step, spec_frame_step};

verus! {

/// Carvings that a grid of side `size` takes: one per cell centre but the
/// first.
pub open spec fn spec_total_carvings(size: int) -> int {
    (size - 3) * (size + 1) / 4
}

/// `count` of `total` in thousandths, rounded to the nearest, halves up.
pub open spec fn spec_permille(count: int, total: int) -> int {
    (2000 * count + total) / (2 * total)
}

/// The progress to report after `count` carvings, in thousandths: none
/// unless `count` is a multiple of the frame step, the grid has anything to
/// carve, and the progress has grown by 3 thousandths since `last`.
pub open spec fn spec_count_to_percentage(speed: u64, size: int, count: u64, last: u64) -> Option<
    u64,
> {
    let total = spec_total_carvings(size);
    if count % (spec_frame_step(speed) as u64) != 0 || total <= 0 {
        None
    } else if spec_permille(count as int, total) < last + 3 || spec_permille(count as int, total)
        > u64::MAX {
        None
    } else {
        Some(spec_permille(count as int, total) as u64)
    }
}

/// The progress to report after `count` carvings, if one is due.
pub fn count_to_percentage(data: &MazeData, size: usize, count: u64, last_percentage: &mut u64) -> (r:
    Option<u64>)
    requires
        size >= 3,
        size * size <= usize::MAX,
    ensures
        *final(last_percentage) == *old(last_percentage),
        r == spec_count_to_percentage(data.anim.speed, size as int, count, *old(last_percentage)),
{
    if count % frame_step(data.speed_anim()) != 0 {
        return None;
    }
    assert((size - 3) * (size + 1) <= size * size) by (nonlinear_arith)
        requires size >= 3;
    assert((size - 3) * (size + 1) >= 0) by (nonlinear_arith)
        requires size >= 3;
    assert(size + 1 <= size * size) by (nonlinear_arith)
        requires size >= 3;
    let total: u128 = ((size - 3) * (size + 1) / 4) as u128;
    if total == 0 {
        return None;
    }
    let rounded: u128 = (2000 * (count as u128) + total) / (2 * total);
    if rounded < *last_percentage as u128 + 3 || rounded > u64::MAX as u128 {
        return None;
    }
    Some(rounded as u64)
}

/// One element of `arr`, picked by the next draw of `seeder`.
pub fn rand_el<T: Copy>(seeder: &mut StdRng, arr: &[T]) -> (el: T)
    requires
        arr@.len() > 0,
    ensures
        drawn(seeder_state(*old(seeder)), arr@.len() as u64).0 < arr@.len(),
        el == arr@[drawn(seeder_state(*old(seeder)), arr@.len() as u64).0 as int],
        seeder_state(*final(seeder)) == drawn(seeder_state(*old(seeder)), arr@.len() as u64).1,
{
    let index: u64 = gen_below(seeder, arr.len() as u64);
    arr[index as usize]
}

} // verus!
