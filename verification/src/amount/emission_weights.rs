//! How an epoch's emission is divided: the 60 / 25 / 15 of the emission
//! design.

use vstd::prelude::*;

verus! {

/// To validators: the wage of security.
pub const VALIDATORS: u64 = 60;

/// To the bootstrap fund: missions and usage credits.
pub const BOOTSTRAP: u64 = 25;

/// To the protocol treasury: bug bounties, simulation, audits.
pub const TREASURY: u64 = 15;

/// Sum of the weights.
pub const TOTAL: u64 = VALIDATORS + BOOTSTRAP + TREASURY;

} // verus!
