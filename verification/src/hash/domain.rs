//! Domain-separation contexts: one per kind of digest, so that a digest of
//! one kind can never be presented as another.

use vstd::prelude::*;

verus! {

/// Account identifiers, derived from a root key.
pub const ACCOUNT_ID: &'static str = "vanargand v1 account id";

/// Device identifiers, derived from a device key.
pub const DEVICE_ID: &'static str = "vanargand v1 device id";

/// Transaction identifiers, over the canonical body.
pub const TXID: &'static str = "vanargand v1 txid";

/// Block identifiers, over the canonical header.
pub const BLOCK_ID: &'static str = "vanargand v1 block id";

/// The digest a block proposer signs.
pub const BLOCK_SIGNING: &'static str = "vanargand v1 block signing";

/// The digest a transaction's device key signs.
pub const TX_SIGNING: &'static str = "vanargand v1 tx signing";

/// Asset identifiers, derived from the creating transaction.
pub const ASSET_ID: &'static str = "vanargand v1 asset id";

/// Sealed name-registration commitments.
pub const NAME_COMMITMENT: &'static str = "vanargand v1 name commitment";

/// Values and keys stored in the state tree.
pub const STATE_VALUE: &'static str = "vanargand v1 state value";

/// Leaves of the sparse Merkle tree and of list trees.
pub const SMT_LEAF: &'static str = "vanargand v1 smt leaf";

/// Internal nodes of the sparse Merkle tree and of list trees.
pub const SMT_NODE: &'static str = "vanargand v1 smt node";

} // verus!
