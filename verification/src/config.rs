//! Integer tuning knobs of the simulation: population caps, genome growth
//! bounds, and the mutation odds.
//!
//! A chance `p` is decided by a uniform draw `m / 2^24` (with `m` the top 24
//! bits of the generator's next output) falling below `p`. For a
//! single-precision `p`, `m / 2^24 < p` holds exactly when `m` is below
//! `p * 2^24` rounded up, so each probability is kept here as that integer: its
//! odds out of `2^24`.

use vstd::prelude::*;

verus! {

/// Population cap (living molecules) that bounds the work per frame.
pub const MAX_MOLECULES: usize = 400;
/// Cap on free-floating food.
pub const MAX_FOOD: usize = 1000;
/// Target ambient food count; the world tops this up over time.
pub const AMBIENT_FOOD_TARGET: usize = 200;
/// Food atoms rained in per step while below the target.
pub const FOOD_SPAWN_PER_STEP: usize = 3;

/// Smallest genome of the initial random population.
pub const SEED_MIN_ATOMS: usize = 5;
/// Largest genome of the initial random population.
pub const SEED_MAX_ATOMS: usize = 30;
/// Mutation never grows a genome beyond this many atoms.
pub const MAX_ATOMS: usize = 48;

/// Odds out of `2^24` of re-typing an atom (probability 0.18).
pub const MUT_POINT_ODDS: u32 = 3_019_899;
/// Odds out of `2^24` of turning an atom (probability 0.20).
pub const MUT_ROTATE_ODDS: u32 = 3_355_444;
/// Odds out of `2^24` of nudging an atom's parameter (probability 0.15).
pub const MUT_PARAM_ODDS: u32 = 2_516_583;
/// Odds out of `2^24` of growing a new atom (probability 0.45).
pub const MUT_ADD_ODDS: u32 = 7_549_747;
/// Odds out of `2^24` of removing an atom (probability 0.12).
pub const MUT_REMOVE_ODDS: u32 = 2_013_266;
/// Odds out of `2^24` of an even coin flip (probability 0.5).
pub const HALF_ODDS: u32 = 8_388_608;

} // verus!
