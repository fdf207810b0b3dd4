//! The consensus parameters of proof of service.
//!
//! Every one of these is a point of departure to be fixed by simulation, not
//! a frozen constant; they are gathered here so that a change is one edit.

use vstd::prelude::*;

verus! {

/// Blocks per epoch. One hour at five seconds a block.
pub const EPOCH_BLOCKS: u64 = 720;

/// Nominal seconds between blocks. Not a consensus parameter: nothing
/// validates against it; it lets tooling turn heights into rough durations.
pub const NOMINAL_BLOCK_SECONDS: u64 = 5;

/// Committee members active at any one block.
pub const COMMITTEE_ACTIVE: u32 = 64;

/// Committee members drawn per epoch: three times the active count.
pub const COMMITTEE_SAMPLED: u32 = COMMITTEE_ACTIVE * 3;

/// Numerator of the finality threshold: strictly more than two thirds.
pub const FINALITY_NUMERATOR: u64 = 2;

/// Denominator of the finality threshold.
pub const FINALITY_DENOMINATOR: u64 = 3;

/// Bond withdrawal delay, in epochs. About three weeks.
pub const UNBONDING_EPOCHS: u64 = 504;

} // verus!
