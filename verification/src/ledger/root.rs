//! The state tree: every record of the ledger under its namespaced key, and
//! the root that commits to all of them.

use vstd::prelude::*;

use crate::account::Account;
use crate::amount::Amount;
use crate::asset::AssetRecord;
use crate::codec::Encode;
use crate::hash::{blake3_derive_key, domain, hash, Digest};
use crate::id::{AccountId, AssetId};
use crate::keys::{
    state_key, NAMESPACE_ACCOUNT, NAMESPACE_ASSET, NAMESPACE_COMMITMENT, NAMESPACE_NAME,
    NAMESPACE_OFFENCE, NAMESPACE_RECOVERY, NAMESPACE_RESERVED, NAMESPACE_TICKER,
};
use crate::name::Name;
use vstd::utf8::encode_utf8;
use crate::name_book::CommitmentRecord;
use crate::recovery::PendingRecovery;
use crate::slashing::{AccountOffence, SlashingBook, ValidatorOffence};
use crate::smt::{subtree_digest, SparseMerkleTree};

verus! {

/// The label of the reserved key under which the burn, the pot and the fee
/// counters live.
pub const BURN_LABEL: [u8; 20] = [
    98,
    117,
    114,
    110,
    32,
    97,
    110,
    100,
    32,
    99,
    111,
    110,
    116,
    101,
    120,
    116,
    32,
    112,
    111,
    116,
];

/// The state-value digest of a record's bytes.
pub open spec fn state_value(bytes: Seq<u8>) -> Seq<u8> {
    blake3_derive_key(domain::STATE_VALUE@, bytes)
}

/// The leaves of the accounts: each under its account key, as the digest of
/// its encoding.
pub open spec fn account_leaves(entries: Seq<(AccountId, Account)>) -> Seq<(Seq<u8>, Seq<u8>)> {
    entries.map_values(
        |e: (AccountId, Account)| (state_key(NAMESPACE_ACCOUNT@, e.0@), state_value(e.1.spec_encode())),
    )
}

/// The leaves of the asset records.
pub open spec fn asset_leaves(entries: Seq<(AssetId, AssetRecord)>) -> Seq<(Seq<u8>, Seq<u8>)> {
    entries.map_values(
        |e: (AssetId, AssetRecord)| (state_key(NAMESPACE_ASSET@, e.0@), state_value(e.1.spec_encode())),
    )
}

/// The leaves of the ticker reservations: the asset identifier itself.
pub open spec fn ticker_leaves(entries: Seq<(Name, AssetId)>) -> Seq<(Seq<u8>, Seq<u8>)> {
    entries.map_values(
        |e: (Name, AssetId)| (state_key(NAMESPACE_TICKER@, encode_utf8(e.0@)), e.1@),
    )
}

/// The leaves of the registered names: the owner itself.
pub open spec fn name_leaves(entries: Seq<(Name, AccountId)>) -> Seq<(Seq<u8>, Seq<u8>)> {
    entries.map_values(|e: (Name, AccountId)| (state_key(NAMESPACE_NAME@, encode_utf8(e.0@)), e.1@))
}

/// The leaves of the pending name commitments.
pub open spec fn commitment_leaves(entries: Seq<(Digest, CommitmentRecord)>) -> Seq<
    (Seq<u8>, Seq<u8>),
> {
    entries.map_values(
        |e: (Digest, CommitmentRecord)|
            (state_key(NAMESPACE_COMMITMENT@, e.0@), state_value(e.1.spec_encode())),
    )
}

/// The leaves of the recoveries under way.
pub open spec fn recovery_leaves(entries: Seq<(AccountId, PendingRecovery)>) -> Seq<
    (Seq<u8>, Seq<u8>),
> {
    entries.map_values(
        |e: (AccountId, PendingRecovery)|
            (state_key(NAMESPACE_RECOVERY@, e.0@), state_value(e.1.spec_encode())),
    )
}

/// The leaves of punished offences: each offence's digest, under a key
/// derived from that digest.
pub open spec fn offence_leaves<T: Encode>(offences: Seq<T>) -> Seq<(Seq<u8>, Seq<u8>)> {
    offences.map_values(
        |o: T| (state_key(NAMESPACE_OFFENCE@, state_value(o.spec_encode())), state_value(o.spec_encode())),
    )
}

/// The leaf of the reserved counters: the burn, the pot and every fee ever
/// paid, encoded one after the other.
pub open spec fn reserved_leaf(burned: Amount, pot: Amount, fees: Amount) -> (Seq<u8>, Seq<u8>) {
    (
        state_key(NAMESPACE_RESERVED@, BURN_LABEL@),
        state_value(burned.spec_encode() + pot.spec_encode() + fees.spec_encode()),
    )
}

/// `leaves` inserted one after the other into `map`: a later leaf under the
/// same key replaces an earlier one.
pub open spec fn insert_all(map: Map<Seq<u8>, Seq<u8>>, leaves: Seq<(Seq<u8>, Seq<u8>)>) -> Map<
    Seq<u8>,
    Seq<u8>,
>
    decreases leaves.len(),
{
    if leaves.len() == 0 {
        map
    } else {
        insert_all(map, leaves.drop_last()).insert(leaves.last().0, leaves.last().1)
    }
}

/// The root of any well-formed tree holding `map`; all such trees have the
/// same root.
pub open spec fn root_of(map: Map<Seq<u8>, Seq<u8>>) -> Seq<u8> {
    subtree_digest(tree_holding(map).entry_list(), 0)
}

/// A well-formed tree holding `map`, if there is one.
pub open spec fn tree_holding(map: Map<Seq<u8>, Seq<u8>>) -> SparseMerkleTree {
    choose|tree: SparseMerkleTree| #![trigger tree@] tree.wf() && tree@ == map
}

/// The views of key-value digest pairs.
pub open spec fn leaf_views(leaves: Seq<(Digest, Digest)>) -> Seq<(Seq<u8>, Seq<u8>)> {
    leaves.map_values(|l: (Digest, Digest)| (l.0@, l.1@))
}

/// Inserts `leaves`, in order.
pub(crate) fn insert_leaves(tree: &mut SparseMerkleTree, leaves: &[(Digest, Digest)])
    requires
        old(tree).wf(),
    ensures
        final(tree).wf(),
        final(tree)@ == insert_all(old(tree)@, leaf_views(leaves@)),
{
    let mut index: usize = 0;
    while index < leaves.len()
        invariant
            tree.wf(),
            index <= leaves@.len(),
            tree@ == insert_all(old(tree)@, leaf_views(leaves@.take(index as int))),
        decreases leaves@.len() - index,
    {
        let (key, value) = leaves[index];
        tree.insert(key, value);
        proof {
            let next = leaf_views(leaves@.take(index + 1));
            assert(next.drop_last() =~= leaf_views(leaves@.take(index as int)));
            assert(next.last() == (key@, value@));
        }
        index = index + 1;
    }
    assert(leaves@.take(leaves@.len() as int) =~= leaves@);
}

/// The root of the tree that `leaves`, inserted in order into an empty
/// tree, build.
pub(crate) fn root_of_leaves(leaves: &[(Digest, Digest)]) -> (root: Digest)
    ensures
        root@ == root_of(insert_all(Map::empty(), leaf_views(leaves@))),
{
    let mut tree = SparseMerkleTree::new();
    insert_leaves(&mut tree, leaves);
    let root = tree.root();
    proof {
        let map = insert_all(Map::empty(), leaf_views(leaves@));
        assert(tree.wf() && tree@ == map);
        assert(exists|t: SparseMerkleTree| #![trigger t@] t.wf() && t@ == map);
        let chosen = tree_holding(map);
        assert(chosen.wf() && chosen@ == map);
        crate::smt::lemma_root_depends_on_contents(tree, chosen);
        assert(root_of(map) == subtree_digest(chosen.entry_list(), 0));
        assert(root@ == subtree_digest(tree.entry_list(), 0));
    }
    root
}

/// The digest under the reserved key.
pub(crate) fn reserved_value(burned: Amount, pot: Amount, fees: Amount) -> (value: Digest)
    ensures
        value@ == reserved_leaf(burned, pot, fees).1,
{
    let mut encoder = crate::codec::Encoder::new();
    burned.encode(&mut encoder);
    pot.encode(&mut encoder);
    fees.encode(&mut encoder);
    let bytes = encoder.finish();
    proof {
        assert(bytes@ =~= burned.spec_encode() + pot.spec_encode() + fees.spec_encode());
    }
    hash(domain::STATE_VALUE, bytes.as_slice())
}

/// Appends the leaves of `entries`, one by one, computed by `leaf`.
pub(crate) fn push_account_leaves(out: &mut Vec<(Digest, Digest)>, entries: &[(AccountId, Account)])
    ensures
        leaf_views(final(out)@) == leaf_views(old(out)@) + account_leaves(entries@),
{
    let mut index: usize = 0;
    while index < entries.len()
        invariant
            index <= entries@.len(),
            leaf_views(out@) == leaf_views(old(out)@) + account_leaves(entries@.take(index as int)),
        decreases entries@.len() - index,
    {
        let key = crate::keys::account(&entries[index].0);
        let value = entries[index].1.value_hash();
        let ghost before = out@;
        out.push((key, value));
        proof {
            assert(leaf_views(out@) =~= leaf_views(before) + seq![(key@, value@)]);
            assert(account_leaves(entries@.take(index + 1)) =~= account_leaves(
                entries@.take(index as int),
            ) + seq![(key@, value@)]);
        }
        index = index + 1;
    }
    assert(entries@.take(entries@.len() as int) =~= entries@);
}


/// Appends the leaves of the asset records, in order.
pub(crate) fn push_asset_leaves(out: &mut Vec<(Digest, Digest)>, entries: &[(AssetId, AssetRecord)])
    ensures
        leaf_views(final(out)@) == leaf_views(old(out)@) + asset_leaves(entries@),
{
    let mut index: usize = 0;
    while index < entries.len()
        invariant
            index <= entries@.len(),
            leaf_views(out@) == leaf_views(old(out)@) + asset_leaves(entries@.take(index as int)),
        decreases entries@.len() - index,
    {
        let key = crate::keys::asset(&entries[index].0);
        let value = entries[index].1.value_hash();
        let ghost before = out@;
        out.push((key, value));
        proof {
            assert(leaf_views(out@) =~= leaf_views(before) + seq![(key@, value@)]);
            assert(asset_leaves(entries@.take(index + 1)) =~= asset_leaves(
                entries@.take(index as int),
            ) + seq![(key@, value@)]);
        }
        index = index + 1;
    }
    assert(entries@.take(entries@.len() as int) =~= entries@);
}

/// Appends the leaves of the ticker reservations, in order.
pub(crate) fn push_ticker_leaves(out: &mut Vec<(Digest, Digest)>, entries: &[(Name, AssetId)])
    ensures
        leaf_views(final(out)@) == leaf_views(old(out)@) + ticker_leaves(entries@),
{
    let mut index: usize = 0;
    while index < entries.len()
        invariant
            index <= entries@.len(),
            leaf_views(out@) == leaf_views(old(out)@) + ticker_leaves(entries@.take(index as int)),
        decreases entries@.len() - index,
    {
        let key = crate::keys::ticker(&entries[index].0);
        let value = *entries[index].1.as_hash();
        let ghost before = out@;
        out.push((key, value));
        proof {
            assert(leaf_views(out@) =~= leaf_views(before) + seq![(key@, value@)]);
            assert(ticker_leaves(entries@.take(index + 1)) =~= ticker_leaves(
                entries@.take(index as int),
            ) + seq![(key@, value@)]);
        }
        index = index + 1;
    }
    assert(entries@.take(entries@.len() as int) =~= entries@);
}

/// Appends the leaves of the registered names, in order.
pub(crate) fn push_name_leaves(out: &mut Vec<(Digest, Digest)>, entries: &[(Name, AccountId)])
    ensures
        leaf_views(final(out)@) == leaf_views(old(out)@) + name_leaves(entries@),
{
    let mut index: usize = 0;
    while index < entries.len()
        invariant
            index <= entries@.len(),
            leaf_views(out@) == leaf_views(old(out)@) + name_leaves(entries@.take(index as int)),
        decreases entries@.len() - index,
    {
        let key = crate::keys::name(&entries[index].0);
        let value = *entries[index].1.as_hash();
        let ghost before = out@;
        out.push((key, value));
        proof {
            assert(leaf_views(out@) =~= leaf_views(before) + seq![(key@, value@)]);
            assert(name_leaves(entries@.take(index + 1)) =~= name_leaves(
                entries@.take(index as int),
            ) + seq![(key@, value@)]);
        }
        index = index + 1;
    }
    assert(entries@.take(entries@.len() as int) =~= entries@);
}

/// Appends the leaves of the pending commitments, in order.
pub(crate) fn push_commitment_leaves(out: &mut Vec<(Digest, Digest)>, entries: &[(Digest, CommitmentRecord)])
    ensures
        leaf_views(final(out)@) == leaf_views(old(out)@) + commitment_leaves(entries@),
{
    let mut index: usize = 0;
    while index < entries.len()
        invariant
            index <= entries@.len(),
            leaf_views(out@) == leaf_views(old(out)@) + commitment_leaves(entries@.take(index as int)),
        decreases entries@.len() - index,
    {
        let key = crate::keys::commitment(&entries[index].0);
        let value = entries[index].1.value_hash();
        let ghost before = out@;
        out.push((key, value));
        proof {
            assert(leaf_views(out@) =~= leaf_views(before) + seq![(key@, value@)]);
            assert(commitment_leaves(entries@.take(index + 1)) =~= commitment_leaves(
                entries@.take(index as int),
            ) + seq![(key@, value@)]);
        }
        index = index + 1;
    }
    assert(entries@.take(entries@.len() as int) =~= entries@);
}

/// Appends the leaves of the recoveries under way, in order.
pub(crate) fn push_recovery_leaves(out: &mut Vec<(Digest, Digest)>, entries: &[(AccountId, PendingRecovery)])
    ensures
        leaf_views(final(out)@) == leaf_views(old(out)@) + recovery_leaves(entries@),
{
    let mut index: usize = 0;
    while index < entries.len()
        invariant
            index <= entries@.len(),
            leaf_views(out@) == leaf_views(old(out)@) + recovery_leaves(entries@.take(index as int)),
        decreases entries@.len() - index,
    {
        let key = crate::keys::recovery(&entries[index].0);
        let value = entries[index].1.value_hash();
        let ghost before = out@;
        out.push((key, value));
        proof {
            assert(leaf_views(out@) =~= leaf_views(before) + seq![(key@, value@)]);
            assert(recovery_leaves(entries@.take(index + 1)) =~= recovery_leaves(
                entries@.take(index as int),
            ) + seq![(key@, value@)]);
        }
        index = index + 1;
    }
    assert(entries@.take(entries@.len() as int) =~= entries@);
}

/// Appends the leaves of the punished account offences, in order.
pub(crate) fn push_account_offence_leaves(out: &mut Vec<(Digest, Digest)>, entries: &[AccountOffence])
    ensures
        leaf_views(final(out)@) == leaf_views(old(out)@) + offence_leaves(entries@),
{
    let mut index: usize = 0;
    while index < entries.len()
        invariant
            index <= entries@.len(),
            leaf_views(out@) == leaf_views(old(out)@) + offence_leaves(entries@.take(index as int)),
        decreases entries@.len() - index,
    {
        let value = SlashingBook::digest(&entries[index]);
        let key = crate::keys::offence(&value);
        let ghost before = out@;
        out.push((key, value));
        proof {
            assert(leaf_views(out@) =~= leaf_views(before) + seq![(key@, value@)]);
            assert(offence_leaves(entries@.take(index + 1)) =~= offence_leaves(
                entries@.take(index as int),
            ) + seq![(key@, value@)]);
        }
        index = index + 1;
    }
    assert(entries@.take(entries@.len() as int) =~= entries@);
}

/// Appends the leaves of the punished validator offences, in order.
pub(crate) fn push_validator_offence_leaves(out: &mut Vec<(Digest, Digest)>, entries: &[ValidatorOffence])
    ensures
        leaf_views(final(out)@) == leaf_views(old(out)@) + offence_leaves(entries@),
{
    let mut index: usize = 0;
    while index < entries.len()
        invariant
            index <= entries@.len(),
            leaf_views(out@) == leaf_views(old(out)@) + offence_leaves(entries@.take(index as int)),
        decreases entries@.len() - index,
    {
        let value = SlashingBook::digest(&entries[index]);
        let key = crate::keys::offence(&value);
        let ghost before = out@;
        out.push((key, value));
        proof {
            assert(leaf_views(out@) =~= leaf_views(before) + seq![(key@, value@)]);
            assert(offence_leaves(entries@.take(index + 1)) =~= offence_leaves(
                entries@.take(index as int),
            ) + seq![(key@, value@)]);
        }
        index = index + 1;
    }
    assert(entries@.take(entries@.len() as int) =~= entries@);
}

} // verus!
