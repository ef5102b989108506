use vstd::prelude::*;
use rand::rngs::StdRng;
use rand::Rng;
use rand::SeedableRng;

verus! {

/// `rand::rngs::StdRng`, the seeded generator that all draws come from. It is
/// carried around as it is; nothing of its inside is known here.
#[verifier::external_type_specification]
#[verifier::external_body]
pub struct ExStdRng(StdRng);

/// Where a generator stands in its stream: its key, its counter and its
/// place in the block of words that it has ready, which together decide what
/// it hands out from here on.
pub uninterp spec fn seeder_state(seeder: StdRng) -> int;

/// The state in which a generator seeded with `seed` starts.
pub uninterp spec fn seeded_state(seed: u64) -> int;

/// What a generator in state `state` draws below `bound`, and the state it is
/// left in.
pub uninterp spec fn drawn(state: int, bound: u64) -> (u64, int);

/// `SeedableRng::seed_from_u64` for `StdRng`. The seed is expanded to a key
/// by a fixed recurrence and the generator starts at the head of its
/// stream, so equal seeds give generators in equal states.
#[verifier::external_body]
pub(crate) fn seed_from_u64(seed: u64) -> (seeder: StdRng)
    ensures
        seeder_state(seeder) == seeded_state(seed),
{
    StdRng::seed_from_u64(seed)
}

/// `Rng::gen_range` on `0..bound` with `u64` bounds. The value lies below
/// `bound`. It is got by taking 64-bit words from the stream until one
/// passes a test that depends on `bound` alone, so the value and the state
/// afterwards depend on nothing but the state before and `bound`. An empty
/// range panics there, hence the `requires`.
#[verifier::external_body]
pub(crate) fn gen_below(seeder: &mut StdRng, bound: u64) -> (v: u64)
    requires
        bound > 0,
    ensures
        v < bound,
        v == drawn(seeder_state(*old(seeder)), bound).0,
        seeder_state(*final(seeder)) == drawn(seeder_state(*old(seeder)), bound).1,
{
    seeder.gen_range(0..bound)
}

/// `rand::random` for `u64`: a seed from the generator of the running
/// thread. Every call may give another one; nothing is known of it.
#[verifier::external_body]
pub(crate) fn random_seed() -> (seed: u64) {
    rand::random()
}

/// `StdRng::clone`: the copy stands where the generator it was taken from
/// stands.
#[verifier::external_body]
pub(crate) fn clone_seeder(seeder: &StdRng) -> (copy: StdRng)
    ensures
        seeder_state(copy) == seeder_state(*seeder),
{
    seeder.clone()
}

} // verus!
