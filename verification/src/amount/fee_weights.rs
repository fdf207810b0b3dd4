//! How a fee is divided: the 70 / 20 / 10 of the emission design.
//!
//! Points of departure to be tested by simulation; what is frozen is the
//! shape, a majority to the worker, a slice to the context pot, and a burn.

use vstd::prelude::*;

verus! {

/// To the party that performed the service.
pub const PROVIDER: u64 = 70;

/// To the pot of the context: the corridor, the local market.
pub const POT: u64 = 20;

/// Destroyed. "La part du feu."
pub const BURN: u64 = 10;

/// Sum of the weights.
pub const TOTAL: u64 = PROVIDER + POT + BURN;

} // verus!
