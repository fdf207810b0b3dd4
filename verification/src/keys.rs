//! State keys: one namespace per kind of record.
//!
//! The sparse Merkle tree is a flat map from 32-byte keys to digests, holding
//! several kinds of record. Every key is derived through a namespace:
//! `H[state value](len(namespace) ‖ namespace ‖ payload)`. The length byte
//! makes the split unambiguous, so namespace `asset` with a payload starting
//! `x` and namespace `assetx` never hash the same bytes.

use vstd::prelude::*;
use vstd::utf8::encode_utf8;

use crate::bech32::push_all;
use crate::hash::{blake3_derive_key, domain, hash, Digest};
use crate::id::{AccountId, AssetId, TxId};
use crate::name::Name;

verus! {

/// Accounts.
pub const NAMESPACE_ACCOUNT: [u8; 7] = [97, 99, 99, 111, 117, 110, 116];

/// Micro-payment channels, keyed by the transaction that opened them.
pub const NAMESPACE_PURSE: [u8; 5] = [112, 117, 114, 115, 101];

/// Local assets.
pub const NAMESPACE_ASSET: [u8; 5] = [97, 115, 115, 101, 116];

/// The ticker index: a name to the asset that holds it.
pub const NAMESPACE_TICKER: [u8; 6] = [116, 105, 99, 107, 101, 114];

/// Registered human-readable names.
pub const NAMESPACE_NAME: [u8; 4] = [110, 97, 109, 101];

/// Sealed name-registration commitments, awaiting their reveal.
pub const NAMESPACE_COMMITMENT: [u8; 10] = [99, 111, 109, 109, 105, 116, 109, 101, 110, 116];

/// Recoveries in progress, keyed by the account being recovered and kept out
/// of the account namespace so that neither record overwrites the other.
pub const NAMESPACE_RECOVERY: [u8; 8] = [114, 101, 99, 111, 118, 101, 114, 121];

/// Equivocations that have already been punished.
pub const NAMESPACE_OFFENCE: [u8; 7] = [111, 102, 102, 101, 110, 99, 101];

/// Protocol counters that belong to no account.
pub const NAMESPACE_RESERVED: [u8; 8] = [114, 101, 115, 101, 114, 118, 101, 100];

/// The length byte of a namespace; a namespace longer than 255 bytes counts
/// as 255.
pub open spec fn namespace_length(namespace: Seq<u8>) -> u8 {
    if namespace.len() <= 255 {
        namespace.len() as u8
    } else {
        255
    }
}

/// The state key of `payload` in `namespace`.
pub open spec fn state_key(namespace: Seq<u8>, payload: Seq<u8>) -> Seq<u8> {
    blake3_derive_key(
        domain::STATE_VALUE@,
        seq![namespace_length(namespace)] + namespace + payload,
    )
}

/// Derives a state key.
pub fn derive(namespace: &[u8], payload: &[u8]) -> (key: Digest)
    ensures
        key@ == state_key(namespace@, payload@),
{
    let length: u8 = if namespace.len() <= 255 {
        namespace.len() as u8
    } else {
        255
    };
    let mut material: Vec<u8> = Vec::new();
    material.push(length);
    push_all(&mut material, namespace);
    push_all(&mut material, payload);
    assert(material@ =~= seq![namespace_length(namespace@)] + namespace@ + payload@);
    hash(domain::STATE_VALUE, material.as_slice())
}

/// The key an account's record lives at.
pub fn account(id: &AccountId) -> (key: Digest)
    ensures
        key@ == state_key(NAMESPACE_ACCOUNT@, id@),
{
    derive(NAMESPACE_ACCOUNT.as_slice(), id.as_bytes())
}

/// The key a channel's record lives at.
pub fn purse(id: &TxId) -> (key: Digest)
    ensures
        key@ == state_key(NAMESPACE_PURSE@, id@),
{
    derive(NAMESPACE_PURSE.as_slice(), id.as_bytes())
}

/// The key an asset's record lives at.
pub fn asset(id: &AssetId) -> (key: Digest)
    ensures
        key@ == state_key(NAMESPACE_ASSET@, id@),
{
    derive(NAMESPACE_ASSET.as_slice(), id.as_bytes())
}

/// The key a ticker reservation lives at, keyed by the name's bytes.
pub fn ticker(name: &Name) -> (key: Digest)
    ensures
        key@ == state_key(NAMESPACE_TICKER@, encode_utf8(name@)),
{
    derive(NAMESPACE_TICKER.as_slice(), name.as_str().as_bytes())
}

/// The key a registered name's owner lives at.
pub fn name(value: &Name) -> (key: Digest)
    ensures
        key@ == state_key(NAMESPACE_NAME@, encode_utf8(value@)),
{
    derive(NAMESPACE_NAME.as_slice(), value.as_str().as_bytes())
}

/// The key a sealed registration commitment lives at.
pub fn commitment(value: &Digest) -> (key: Digest)
    ensures
        key@ == state_key(NAMESPACE_COMMITMENT@, value@),
{
    derive(NAMESPACE_COMMITMENT.as_slice(), value.as_bytes())
}

/// The key a pending recovery lives at.
pub fn recovery(target: &AccountId) -> (key: Digest)
    ensures
        key@ == state_key(NAMESPACE_RECOVERY@, target@),
{
    derive(NAMESPACE_RECOVERY.as_slice(), target.as_bytes())
}

/// The key a punished equivocation is recorded at, keyed by the digest of
/// the offence itself.
pub fn offence(digest: &Digest) -> (key: Digest)
    ensures
        key@ == state_key(NAMESPACE_OFFENCE@, digest@),
{
    derive(NAMESPACE_OFFENCE.as_slice(), digest.as_bytes())
}

/// The key a reserved protocol counter lives at.
pub fn reserved(label: &[u8]) -> (key: Digest)
    ensures
        key@ == state_key(NAMESPACE_RESERVED@, label@),
{
    derive(NAMESPACE_RESERVED.as_slice(), label)
}

/// Distinct namespaces, or distinct payloads, hash distinct material: the
/// length byte fixes where the namespace ends.
pub proof fn lemma_material_unambiguous(n1: Seq<u8>, p1: Seq<u8>, n2: Seq<u8>, p2: Seq<u8>)
    requires
        n1.len() <= 255,
        n2.len() <= 255,
        n1 != n2 || p1 != p2,
    ensures
        seq![namespace_length(n1)] + n1 + p1 != seq![namespace_length(n2)] + n2 + p2,
{
    let a = seq![namespace_length(n1)] + n1 + p1;
    let b = seq![namespace_length(n2)] + n2 + p2;
    if a == b {
        assert(a[0] == namespace_length(n1) && b[0] == namespace_length(n2));
        assert(n1.len() == n2.len());
        assert(n1 =~= a.subrange(1, 1 + n1.len() as int));
        assert(n2 =~= b.subrange(1, 1 + n2.len() as int));
        assert(p1 =~= a.skip(1 + n1.len() as int));
        assert(p2 =~= b.skip(1 + n2.len() as int));
    }
}

} // verus!
