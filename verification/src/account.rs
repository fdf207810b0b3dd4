//! What the ledger knows about an account.
//!
//! Every collection here is held in key order: the record is encoded and
//! hashed into the state root, so its order is consensus. A balance that
//! reaches zero is removed rather than stored, and an account that holds
//! nothing is deleted rather than kept empty: the ledger keeps current
//! obligations, not the memory of paid debts.

use vstd::prelude::*;

use crate::amount::{sum_ulf, Amount};
use crate::bech32::push_all;
use crate::codec::{concat_encodings, concat_pairs, varint_bytes, Encode, Encoder};
use crate::hash::{blake3_derive_key, domain, hash, Digest};
use crate::id::{AccountId, AssetId, DeviceId};
use crate::name::Name;
use crate::nonce::{Lane, LaneState};
use crate::sign::VerifyingKey;
use crate::sorted_map::{entry_keys, SortKey, SortedMap};

verus! {

/// One device subkey of an account, with its share of the account's offline
/// credit: each device can only overspend against itself.
#[derive(Debug, Clone, PartialEq, Eq)]
pub struct Device {
    /// The device's public key.
    pub key: VerifyingKey,
    /// Its nonce lane. Unique within the account, never reused.
    pub lane: Lane,
    /// Its share of the account's offline credit.
    pub nomad_share: Amount,
    /// How much of that share has been spent since the last finalised
    /// settlement.
    pub nomad_spent: Amount,
}

impl Device {
    /// How much this device may still spend while the chain is partitioned:
    /// its share less what it has spent, and never below zero.
    pub fn nomad_remaining(&self) -> (remaining: Amount)
        ensures
            remaining@ == if self.nomad_share@ >= self.nomad_spent@ {
                self.nomad_share@ - self.nomad_spent@
            } else {
                0
            },
    {
        match self.nomad_share.checked_sub(self.nomad_spent) {
            Some(remaining) => remaining,
            None => Amount::from_ulf(0),
        }
    }
}

impl Encode for Device {
    open spec fn spec_encode(&self) -> Seq<u8> {
        self.key.spec_encode() + self.lane.spec_encode() + self.nomad_share.spec_encode()
            + self.nomad_spent.spec_encode()
    }

    fn encode(&self, out: &mut Encoder) {
        self.key.encode(out);
        self.lane.encode(out);
        self.nomad_share.encode(out);
        self.nomad_spent.encode(out);
        assert(out@ =~= old(out)@ + self.spec_encode());
    }
}

/// The asset a balance is held in, as a map key: the native asset is the
/// absence of an identifier, and sorts first.
impl SortKey for Option<AssetId> {
    open spec fn sort_key(&self) -> Seq<u8> {
        match self {
            None => seq![0u8],
            Some(id) => seq![1u8] + id@,
        }
    }

    fn sort_bytes(&self) -> (bytes: Vec<u8>) {
        let mut bytes: Vec<u8> = Vec::new();
        match self {
            None => {
                bytes.push(0);
            },
            Some(id) => {
                bytes.push(1);
                push_all(&mut bytes, id.as_bytes());
            },
        }
        assert(bytes@ =~= self.sort_key());
        bytes
    }
}

/// The shares of the devices in `entries`, in order.
pub open spec fn device_shares(entries: Seq<(DeviceId, Device)>) -> Seq<Amount> {
    entries.map_values(|entry: (DeviceId, Device)| entry.1.nomad_share)
}

/// An account record.
#[derive(Debug, Clone, PartialEq, Eq)]
pub struct Account {
    /// Balances by asset; the key `None` is VAN itself.
    pub balances: SortedMap<Option<AssetId>, Amount>,
    /// Total offline credit declared by this account, in VAN.
    pub nomad_credit: Amount,
    /// Optional bonded margin behind the credit, seized on a proved
    /// equivocation.
    pub nomad_margin: Amount,
    /// The account's devices.
    pub devices: SortedMap<DeviceId, Device>,
    /// Devices that have been revoked, kept for ever and never reused.
    pub revoked_devices: SortedMap<DeviceId, ()>,
    /// The next lane index to hand out.
    pub next_lane: Lane,
    /// Per-lane sequence counters.
    pub lanes: LaneState,
    /// Guardians for social recovery.
    pub guardians: SortedMap<AccountId, ()>,
    /// How many guardians must approve a recovery.
    pub guardian_threshold: u32,
    /// Stake bonded as a validator candidate.
    pub bonded: Amount,
    /// The registered human-readable name, if any.
    pub name: Option<Name>,
}

impl Account {
    /// Every map is held in key order.
    pub open spec fn wf(self) -> bool {
        &&& self.balances.wf()
        &&& self.devices.wf()
        &&& self.revoked_devices.wf()
        &&& self.lanes.wf()
        &&& self.guardians.wf()
    }

    /// The balance of `asset`, in ulf: zero when none is held.
    pub open spec fn balance_of(self, asset: Option<AssetId>) -> nat {
        if self.balances.map().contains_key(asset.sort_key()) {
            self.balances.map()[asset.sort_key()]@ as nat
        } else {
            0
        }
    }

    /// `other` differs from this account in its balances alone.
    pub open spec fn same_but_balances(self, other: Account) -> bool {
        &&& other.nomad_credit == self.nomad_credit
        &&& other.nomad_margin == self.nomad_margin
        &&& other.devices == self.devices
        &&& other.revoked_devices == self.revoked_devices
        &&& other.next_lane == self.next_lane
        &&& other.lanes == self.lanes
        &&& other.guardians == self.guardians
        &&& other.guardian_threshold == self.guardian_threshold
        &&& other.bonded == self.bonded
        &&& other.name == self.name
    }

    /// An account with nothing in it.
    pub fn new() -> (account: Self)
        ensures
            account.wf(),
            account.balances.map() == Map::<Seq<u8>, Amount>::empty(),
            account.devices.map() == Map::<Seq<u8>, Device>::empty(),
            account.revoked_devices.map() == Map::<Seq<u8>, ()>::empty(),
            account.guardians.map() == Map::<Seq<u8>, ()>::empty(),
            account.lanes.counters() == Map::<u32, u64>::empty(),
            account.nomad_credit@ == 0,
            account.nomad_margin@ == 0,
            account.next_lane@ == 0,
            account.guardian_threshold == 0,
            account.bonded@ == 0,
            account.name is None,
    {
        Account {
            balances: SortedMap::new(),
            nomad_credit: Amount::from_ulf(0),
            nomad_margin: Amount::from_ulf(0),
            devices: SortedMap::new(),
            revoked_devices: SortedMap::new(),
            next_lane: Lane::first(),
            lanes: LaneState::new(),
            guardians: SortedMap::new(),
            guardian_threshold: 0,
            bonded: Amount::from_ulf(0),
            name: None,
        }
    }

    /// The balance of `asset`, or zero.
    pub fn balance(&self, asset: Option<AssetId>) -> (balance: Amount)
        requires
            self.wf(),
        ensures
            balance@ == self.balance_of(asset),
    {
        match self.balances.get(&asset) {
            Some(amount) => *amount,
            None => Amount::from_ulf(0),
        }
    }

    /// Adds to a balance, or returns `None` and changes nothing on overflow.
    pub fn credit(&mut self, asset: Option<AssetId>, amount: Amount) -> (result: Option<()>)
        requires
            old(self).wf(),
        ensures
            final(self).wf(),
            old(self).same_but_balances(*final(self)),
            old(self).balance_of(asset) + amount@ <= u64::MAX ==> result is Some
                && final(self).balances.map().dom() == old(self).balances.map().dom().insert(
                asset.sort_key(),
            ) && final(self).balances.map()[asset.sort_key()]@ == old(self).balance_of(asset)
                + amount@ && forall|key: Seq<u8>|
                key != asset.sort_key() && #[trigger] old(self).balances.map().contains_key(key)
                    ==> final(self).balances.map()[key] == old(self).balances.map()[key],
            old(self).balance_of(asset) + amount@ > u64::MAX ==> result is None && *final(self)
                == *old(self),
    {
        let updated = match self.balance(asset).checked_add(amount) {
            Some(updated) => updated,
            None => {
                return None;
            },
        };
        self.balances.insert(asset, updated);
        Some(())
    }

    /// Subtracts from a balance, or returns `None` and changes nothing when
    /// there is not enough. A balance that reaches zero is removed rather
    /// than stored.
    pub fn debit(&mut self, asset: Option<AssetId>, amount: Amount) -> (result: Option<()>)
        requires
            old(self).wf(),
        ensures
            final(self).wf(),
            old(self).same_but_balances(*final(self)),
            old(self).balance_of(asset) == amount@ ==> result is Some && final(self).balances.map()
                == old(self).balances.map().remove(asset.sort_key()),
            old(self).balance_of(asset) > amount@ ==> result is Some
                && final(self).balances.map().dom() == old(self).balances.map().dom()
                && final(self).balances.map()[asset.sort_key()]@ == old(self).balance_of(asset)
                - amount@ && forall|key: Seq<u8>|
                key != asset.sort_key() && #[trigger] old(self).balances.map().contains_key(key)
                    ==> final(self).balances.map()[key] == old(self).balances.map()[key],
            old(self).balance_of(asset) < amount@ ==> result is None && *final(self) == *old(
                self,
            ),
    {
        let updated = match self.balance(asset).checked_sub(amount) {
            Some(updated) => updated,
            None => {
                return None;
            },
        };
        if updated.is_zero() {
            self.balances.remove(&asset);
        } else {
            self.balances.insert(asset, updated);
            assert(self.balances.map().dom() =~= old(self).balances.map().dom());
        }
        Some(())
    }

    /// The sum of every device's declared share, or `None` on overflow.
    pub fn allocated_nomad(&self) -> (total: Option<Amount>)
        ensures
            sum_ulf(device_shares(self.devices.entries())) <= u64::MAX ==> (total matches Some(t)
                && t@ == sum_ulf(device_shares(self.devices.entries()))),
            sum_ulf(device_shares(self.devices.entries())) > u64::MAX ==> total is None,
    {
        let entries = self.devices.as_slice();
        let mut shares: Vec<Amount> = Vec::new();
        let mut index: usize = 0;
        while index < entries.len()
            invariant
                index <= entries@.len(),
                entries@ == self.devices.entries(),
                shares@ == device_shares(entries@.take(index as int)),
            decreases entries@.len() - index,
        {
            shares.push(entries[index].1.nomad_share);
            assert(shares@ =~= device_shares(entries@.take(index + 1)));
            index = index + 1;
        }
        assert(entries@.take(entries@.len() as int) =~= entries@);
        Amount::checked_sum(shares.as_slice())
    }

    /// The digest of this account as stored in the sparse Merkle tree: the
    /// state-value digest of its canonical encoding.
    pub fn value_hash(&self) -> (digest: Digest)
        ensures
            digest@ == blake3_derive_key(domain::STATE_VALUE@, self.spec_encode()),
    {
        let bytes = self.to_canonical_bytes();
        hash(domain::STATE_VALUE, bytes.as_slice())
    }

    /// Whether this account holds nothing the ledger needs to remember.
    pub fn is_vacant(&self) -> (vacant: bool)
        ensures
            vacant == (self.balances.entries().len() == 0 && self.devices.entries().len() == 0
                && self.revoked_devices.entries().len() == 0 && self.guardians.entries().len() == 0
                && self.bonded@ == 0 && self.nomad_credit@ == 0 && self.nomad_margin@ == 0
                && self.name is None),
    {
        self.balances.len() == 0 && self.devices.len() == 0 && self.revoked_devices.len() == 0
            && self.guardians.len() == 0 && self.bonded.is_zero() && self.nomad_credit.is_zero()
            && self.nomad_margin.is_zero() && self.name.is_none()
    }
}

impl Encode for Account {
    open spec fn spec_encode(&self) -> Seq<u8> {
        varint_bytes(self.balances.entries().len()) + concat_pairs(self.balances.entries())
            + self.nomad_credit.spec_encode() + self.nomad_margin.spec_encode() + varint_bytes(
            self.devices.entries().len(),
        ) + concat_pairs(self.devices.entries()) + varint_bytes(
            self.revoked_devices.entries().len(),
        ) + concat_encodings(entry_keys(self.revoked_devices.entries()))
            + self.next_lane.spec_encode() + varint_bytes(self.lanes.lane_list().len())
            + concat_pairs(self.lanes.lane_list()) + varint_bytes(self.guardians.entries().len())
            + concat_encodings(entry_keys(self.guardians.entries())) + varint_bytes(
            self.guardian_threshold as nat,
        ) + self.bonded.spec_encode() + self.name.spec_encode()
    }

    fn encode(&self, out: &mut Encoder) {
        out.write_pairs(self.balances.as_slice());
        self.nomad_credit.encode(out);
        self.nomad_margin.encode(out);
        out.write_pairs(self.devices.as_slice());
        out.write_ordered_set(&self.revoked_devices);
        self.next_lane.encode(out);
        let lanes = self.lanes.lanes();
        out.write_pairs(lanes.as_slice());
        out.write_ordered_set(&self.guardians);
        out.write_varint(self.guardian_threshold as u64);
        self.bonded.encode(out);
        self.name.encode(out);
        assert(out@ =~= old(out)@ + self.spec_encode());
    }
}

} // verus!
