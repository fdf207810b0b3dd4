//! What a block tells the ledger while its transactions are applied, and
//! what applying one of them did.

use vstd::prelude::*;

pub mod root;
pub mod state;

pub use state::Ledger;

use vstd::string::StringExecFns;

use crate::account::{device_shares, Account, Device};
use crate::amount::{amount_text, sum_ulf, Amount, FeeSplit};
use crate::asset::{asset_error_text, AssetError};
use crate::block::FinalityRung;
use crate::digits::{decimal, decimal_string, decimal_text};
use crate::hash::{blake3_derive_key, domain, hex_bytes};
use crate::id::{AccountId, AssetId, ChainId, DeviceId};
use crate::sign::VerifyingKey;
use crate::name_book::{name_book_error_text, NameError};
use crate::nonce::Lane;
use crate::recovery::{recovery_error_text, RecoveryError};
use crate::slashing::SlashingError;
use crate::sorted_map::SortKey;
use crate::tx::{kind_allowed_in_provisional, kind_name, tx_error_text, TxBody, TxError, TxKind, TX_VERSION};

verus! {

/// What a block says about itself while its transactions are applied.
#[derive(Debug, Clone, Copy, PartialEq, Eq)]
pub struct BlockContext {
    /// Which chain.
    pub chain: ChainId,
    /// This block's height.
    pub height: u64,
    /// The most recent rung-2 height this block builds on. Every deadline is
    /// measured against this and never against `height`: a partition raises
    /// `height` freely and cannot move this number, which freezes every
    /// contestation clock.
    pub finalized_height: u64,
    /// Whether this block claims provisional or chain finality.
    pub rung: FinalityRung,
    /// The proposer, who receives the provider share of every fee.
    pub proposer: AccountId,
}

/// What applying a transaction did.
#[derive(Debug, Clone, Copy, PartialEq, Eq)]
pub struct Applied {
    /// How the fee was divided.
    pub fee: FeeSplit,
    /// How much of the account's offline credit this consumed: zero outside a
    /// provisional block, since the credit only exists while the chain cannot
    /// finalise.
    pub nomad_consumed: Amount,
}

/// What the signature scheme answered of the evidence a transaction
/// carries. The ledger checks the evidence's shape and the accused's state;
/// verifying a signature is the scheme's work, done before the ledger is
/// asked.
#[derive(Debug, Clone, Copy, PartialEq, Eq)]
pub struct EvidenceVerdict {
    /// What verifying the two transactions of an account equivocation, the
    /// first and then the second, under the accused device's key answered.
    pub account: Result<(), TxError>,
    /// Whether the key of some device of the accused verifies the
    /// signatures of both headers of a validator equivocation.
    pub validator_signed: bool,
}

/// Why a transaction could not be applied to the ledger. Channel errors are
/// not among them: the channel book lives outside this library.
#[derive(Debug, Clone, PartialEq, Eq)]
pub enum StateError {
    /// The transaction names a different chain.
    WrongChain,
    /// Unsupported transaction version.
    UnsupportedVersion(u16),
    /// The validity window has closed, in finalised height.
    Expired {
        /// The window's end.
        valid_until: u64,
        /// The current finalised height.
        finalized_height: u64,
    },
    /// This kind is grammatically illegal in a provisional block.
    ForbiddenInProvisional {
        /// Which kind.
        kind: &'static str,
    },
    /// No such account.
    NoSuchAccount(AccountId),
    /// The account has no such device.
    NoSuchDevice(DeviceId),
    /// The device has been revoked.
    DeviceRevoked(DeviceId),
    /// The transaction used a lane that is not this device's.
    WrongLane {
        /// The lane the device owns.
        expected: Lane,
        /// The lane the transaction used.
        got: Lane,
    },
    /// The nonce is not the next one this lane expects.
    BadNonce {
        /// What the lane expects.
        expected: u64,
        /// What the transaction carried.
        got: u64,
    },
    /// Not enough of an asset.
    InsufficientBalance {
        /// Which asset, `None` for VAN.
        asset: Option<AssetId>,
        /// What was needed.
        needed: Amount,
        /// What was there.
        available: Amount,
    },
    /// The offline credit for this device is exhausted.
    NomadCreditExhausted {
        /// The device.
        device: DeviceId,
        /// What the transaction would have spent.
        needed: Amount,
        /// What remained of the device's share.
        remaining: Amount,
    },
    /// The per-device shares would exceed the account's declared credit.
    NomadOverAllocated {
        /// The sum of the shares.
        allocated: Amount,
        /// The declared credit.
        credit: Amount,
    },
    /// A lane index was reused.
    LaneAlreadyUsed(Lane),
    /// A device identifier that was revoked cannot be added again.
    DeviceWasRevoked(DeviceId),
    /// The device is already registered.
    DeviceAlreadyExists(DeviceId),
    /// A channel's tranche value was zero.
    ZeroTrancheValue,
    /// Evidence that does not show what it claims to show.
    BadEvidence(TxError),
    /// The accused account has no device matching the evidence.
    UnknownAccusedDevice(DeviceId),
    /// No device of the accused validator signed both blocks.
    NotTheValidator(AccountId),
    /// The asset registry refused.
    Asset(AssetError),
    /// The name registry refused.
    Name(NameError),
    /// The recovery machinery refused.
    Recovery(RecoveryError),
    /// This equivocation has already been punished.
    Slashing(SlashingError),
    /// Arithmetic overflowed.
    Overflow,
    /// This transaction kind has no implementation yet.
    NotImplemented {
        /// Which kind.
        kind: &'static str,
    },
}

/// How an identifier is displayed: lowercase hex.
pub open spec fn id_text(bytes: Seq<u8>) -> Seq<char> {
    hex_bytes(bytes).map_values(|b: u8| b as char)
}

/// How a lane is displayed: `lane N`.
pub open spec fn lane_text(lane: Lane) -> Seq<char> {
    "lane "@ + decimal_text(lane@ as nat)
}

/// How a ledger error reads.
pub open spec fn state_error_text(error: StateError) -> Seq<char> {
    match error {
        StateError::WrongChain => "the transaction is for another chain"@,
        StateError::UnsupportedVersion(version) => "unsupported version "@ + decimal_text(
            version as nat,
        ),
        StateError::Expired { valid_until, finalized_height } => "expired: valid until finalised height "@
            + decimal_text(valid_until as nat) + ", now "@ + decimal_text(finalized_height as nat),
        StateError::ForbiddenInProvisional { kind } => kind@
            + " is not permitted in a provisional block"@,
        StateError::NoSuchAccount(id) => "no such account "@ + id_text(id@),
        StateError::NoSuchDevice(id) => "no such device "@ + id_text(id@),
        StateError::DeviceRevoked(id) => "device "@ + id_text(id@) + " is revoked"@,
        StateError::WrongLane { expected, got } => "device owns "@ + lane_text(expected)
            + ", transaction used "@ + lane_text(got),
        StateError::BadNonce { expected, got } => "lane expects sequence "@ + decimal_text(
            expected as nat,
        ) + ", got "@ + decimal_text(got as nat),
        StateError::InsufficientBalance { needed, available, .. } => "needed "@ + amount_text(
            needed,
        ) + ", available "@ + amount_text(available),
        StateError::NomadCreditExhausted { device, needed, remaining } => "device "@ + id_text(
            device@,
        ) + " would spend "@ + amount_text(needed) + " offline with "@ + amount_text(remaining)
            + " of its credit left"@,
        StateError::NomadOverAllocated { allocated, credit } => "device shares total "@
            + amount_text(allocated) + ", declared credit is "@ + amount_text(credit),
        StateError::LaneAlreadyUsed(lane) => lane_text(lane) + " is already allocated"@,
        StateError::DeviceWasRevoked(id) => "device "@ + id_text(id@)
            + " was revoked and cannot return"@,
        StateError::DeviceAlreadyExists(id) => "device "@ + id_text(id@) + " already exists"@,
        StateError::ZeroTrancheValue => "a channel tranche cannot be worth nothing"@,
        StateError::BadEvidence(error) => tx_error_text(error),
        StateError::UnknownAccusedDevice(id) => "the accused holds no device "@ + id_text(id@),
        StateError::NotTheValidator(id) => "no device of "@ + id_text(id@)
            + " signed both blocks"@,
        StateError::Asset(error) => asset_error_text(error),
        StateError::Name(error) => name_book_error_text(error),
        StateError::Recovery(error) => recovery_error_text(error),
        StateError::Slashing(_) => "this equivocation has already been punished"@,
        StateError::Overflow => "arithmetic overflow"@,
        StateError::NotImplemented { kind } => kind@ + " is not implemented yet"@,
    }
}

impl StateError {
    /// The error as it is displayed.
    pub fn to_string(&self) -> (text: String)
        ensures
            text@ == state_error_text(*self),
    {
        match self {
            StateError::WrongChain => String::from_str("the transaction is for another chain"),
            StateError::UnsupportedVersion(version) => {
                let mut text = String::from_str("unsupported version ");
                text.append(decimal_string(*version as u64).as_str());
                text
            },
            StateError::Expired { valid_until, finalized_height } => {
                let mut text = String::from_str("expired: valid until finalised height ");
                text.append(decimal_string(*valid_until).as_str());
                text.append(", now ");
                text.append(decimal_string(*finalized_height).as_str());
                text
            },
            StateError::ForbiddenInProvisional { kind } => {
                let mut text = String::from_str(kind);
                text.append(" is not permitted in a provisional block");
                text
            },
            StateError::NoSuchAccount(id) => {
                let mut text = String::from_str("no such account ");
                text.append(id.to_hex().as_str());
                text
            },
            StateError::NoSuchDevice(id) => {
                let mut text = String::from_str("no such device ");
                text.append(id.to_hex().as_str());
                text
            },
            StateError::DeviceRevoked(id) => {
                let mut text = String::from_str("device ");
                text.append(id.to_hex().as_str());
                text.append(" is revoked");
                text
            },
            StateError::WrongLane { expected, got } => {
                let mut text = String::from_str("device owns ");
                text.append(lane_string(*expected).as_str());
                text.append(", transaction used ");
                text.append(lane_string(*got).as_str());
                text
            },
            StateError::BadNonce { expected, got } => {
                let mut text = String::from_str("lane expects sequence ");
                text.append(decimal_string(*expected).as_str());
                text.append(", got ");
                text.append(decimal_string(*got).as_str());
                text
            },
            StateError::InsufficientBalance { needed, available, .. } => {
                let mut text = String::from_str("needed ");
                text.append(needed.to_string().as_str());
                text.append(", available ");
                text.append(available.to_string().as_str());
                text
            },
            StateError::NomadCreditExhausted { device, needed, remaining } => {
                let mut text = String::from_str("device ");
                text.append(device.to_hex().as_str());
                text.append(" would spend ");
                text.append(needed.to_string().as_str());
                text.append(" offline with ");
                text.append(remaining.to_string().as_str());
                text.append(" of its credit left");
                text
            },
            StateError::NomadOverAllocated { allocated, credit } => {
                let mut text = String::from_str("device shares total ");
                text.append(allocated.to_string().as_str());
                text.append(", declared credit is ");
                text.append(credit.to_string().as_str());
                text
            },
            StateError::LaneAlreadyUsed(lane) => {
                let mut text = lane_string(*lane);
                text.append(" is already allocated");
                text
            },
            StateError::DeviceWasRevoked(id) => {
                let mut text = String::from_str("device ");
                text.append(id.to_hex().as_str());
                text.append(" was revoked and cannot return");
                text
            },
            StateError::DeviceAlreadyExists(id) => {
                let mut text = String::from_str("device ");
                text.append(id.to_hex().as_str());
                text.append(" already exists");
                text
            },
            StateError::ZeroTrancheValue => String::from_str(
                "a channel tranche cannot be worth nothing",
            ),
            StateError::BadEvidence(error) => error.to_string(),
            StateError::UnknownAccusedDevice(id) => {
                let mut text = String::from_str("the accused holds no device ");
                text.append(id.to_hex().as_str());
                text
            },
            StateError::NotTheValidator(id) => {
                let mut text = String::from_str("no device of ");
                text.append(id.to_hex().as_str());
                text.append(" signed both blocks");
                text
            },
            StateError::Asset(error) => error.to_string(),
            StateError::Name(error) => error.to_string(),
            StateError::Recovery(error) => error.to_string(),
            StateError::Slashing(error) => error.to_string(),
            StateError::Overflow => String::from_str("arithmetic overflow"),
            StateError::NotImplemented { kind } => {
                let mut text = String::from_str(kind);
                text.append(" is not implemented yet");
                text
            },
        }
    }
}

fn lane_string(lane: Lane) -> (text: String)
    ensures
        text@ == lane_text(lane),
{
    let text = lane.to_string();
    proof {
        reveal_strlit("lane ");
        assert(text@ =~= lane_text(lane));
    }
    text
}

/// What a device may still spend while the chain is partitioned: its share
/// less what it has spent, never below zero.
pub open spec fn remaining_credit(device: Device) -> nat {
    if device.nomad_share@ >= device.nomad_spent@ {
        (device.nomad_share@ - device.nomad_spent@) as nat
    } else {
        0
    }
}

/// Checks that a device of `account` may spend `outflow` of VAN while the
/// chain is partitioned: the device must exist, and `outflow` must not
/// exceed what remains of its share of the offline credit.
pub fn check_nomad(account: &Account, device: DeviceId, outflow: Amount) -> (result: Result<
    (),
    StateError,
>)
    requires
        account.wf(),
    ensures
        !account.devices.map().contains_key(device@) ==> result == Err::<(), StateError>(
            StateError::NoSuchDevice(device),
        ),
        account.devices.map().contains_key(device@) && outflow@ <= remaining_credit(
            account.devices.map()[device@],
        ) ==> result is Ok,
        account.devices.map().contains_key(device@) && outflow@ > remaining_credit(
            account.devices.map()[device@],
        ) ==> (result matches Err(StateError::NomadCreditExhausted { device: d, needed, remaining })
            && d == device && needed == outflow && remaining@ == remaining_credit(
            account.devices.map()[device@],
        )),
{
    let entry = account.devices.get(&device);
    match entry {
        None => Err(StateError::NoSuchDevice(device)),
        Some(held) => {
            let remaining = held.nomad_remaining();
            if outflow.as_ulf() > remaining.as_ulf() {
                Err(StateError::NomadCreditExhausted { device, needed: outflow, remaining })
            } else {
                Ok(())
            }
        },
    }
}

/// What the envelope checks find, in the order they are made: the version,
/// the chain, the validity window in finalised height, and the partition
/// grammar when the block is provisional.
pub open spec fn envelope_check(ctx: BlockContext, body: TxBody) -> Result<(), StateError> {
    if body.version != TX_VERSION {
        Err(StateError::UnsupportedVersion(body.version))
    } else if body.chain@ != ctx.chain@ {
        Err(StateError::WrongChain)
    } else if body.valid_until_finalized is Some && ctx.finalized_height
        > body.valid_until_finalized->0 {
        Err(
            StateError::Expired {
                valid_until: body.valid_until_finalized->0,
                finalized_height: ctx.finalized_height,
            },
        )
    } else if ctx.rung is Provisional && !kind_allowed_in_provisional(body.kind) {
        Err(StateError::ForbiddenInProvisional { kind: kind_name(body.kind) })
    } else {
        Ok(())
    }
}

/// A transaction passes the envelope exactly when it has the current format
/// version, names the block's chain, has not expired by the block's
/// finalised height, and, in a provisional block, is a transfer, a channel
/// opening or a cooperative channel closure.
pub proof fn lemma_envelope_admits(ctx: BlockContext, body: TxBody)
    ensures
        envelope_check(ctx, body) is Ok <==> {
            &&& body.version == 1
            &&& body.chain@ == ctx.chain@
            &&& body.valid_until_finalized matches Some(until) ==> ctx.finalized_height <= until
            &&& ctx.rung is Provisional ==> (body.kind is Transfer || body.kind is PurseOpen
                || body.kind is PurseCloseCooperative)
        },
{
}

/// The checks on a transaction that need nothing but the block it is in.
pub fn check_envelope(ctx: &BlockContext, body: &TxBody) -> (result: Result<(), StateError>)
    ensures
        result == envelope_check(*ctx, *body),
{
    if body.version != TX_VERSION {
        return Err(StateError::UnsupportedVersion(body.version));
    }
    if !body.chain.same_as(&ctx.chain) {
        return Err(StateError::WrongChain);
    }
    if let Some(valid_until) = body.valid_until_finalized {
        if ctx.finalized_height > valid_until {
            return Err(
                StateError::Expired { valid_until, finalized_height: ctx.finalized_height },
            );
        }
    }
    if matches!(ctx.rung, FinalityRung::Provisional) && !body.kind.allowed_in_provisional() {
        return Err(StateError::ForbiddenInProvisional { kind: body.kind.name() });
    }
    Ok(())
}

/// The VAN a kind takes out of the signing account on top of the fee: a
/// native transfer's amount, a native channel's deposit, a bond.
pub open spec fn extra_outflow(kind: TxKind) -> nat {
    match kind {
        TxKind::Transfer { asset, amount, .. } => if asset is None {
            amount@ as nat
        } else {
            0
        },
        TxKind::PurseOpen { asset, deposit, .. } => if asset is None {
            deposit@ as nat
        } else {
            0
        },
        TxKind::Bond { amount, .. } => amount@ as nat,
        _ => 0,
    }
}

/// What a transaction takes out of its account in VAN: the fee, and on top of
/// it whatever the kind moves out. This is what the offline credit is
/// measured against; it includes the fee.
pub fn native_outflow(body: &TxBody) -> (result: Result<Amount, StateError>)
    ensures
        body.fee@ + extra_outflow(body.kind) <= u64::MAX ==> (result matches Ok(outflow)
            && outflow@ == body.fee@ + extra_outflow(body.kind)),
        body.fee@ + extra_outflow(body.kind) > u64::MAX ==> result == Err::<Amount, StateError>(
            StateError::Overflow,
        ),
{
    let extra = match &body.kind {
        TxKind::Transfer { asset: None, amount, .. } => *amount,
        TxKind::PurseOpen { asset: None, deposit, .. } => *deposit,
        TxKind::Bond { amount, .. } => *amount,
        _ => Amount::from_ulf(0),
    };
    match body.fee.checked_add(extra) {
        Some(outflow) => Ok(outflow),
        None => Err(StateError::Overflow),
    }
}

/// What the authority checks on an account find, in the order they are
/// made: the signing device is not revoked, is registered, signs on its own
/// lane, and carries exactly the next sequence of that lane. On success,
/// the device's lane and identifier.
pub open spec fn authority_check(account: Account, body: TxBody) -> Result<
    (Lane, DeviceId),
    StateError,
> {
    let device = body.device@;
    if account.revoked_devices.map().contains_key(device) {
        Err(StateError::DeviceRevoked(body.device))
    } else if !account.devices.map().contains_key(device) {
        Err(StateError::NoSuchDevice(body.device))
    } else if account.devices.map()[device].lane@ != body.nonce.lane@ {
        Err(
            StateError::WrongLane {
                expected: account.devices.map()[device].lane,
                got: body.nonce.lane,
            },
        )
    } else if body.nonce.sequence != account.lanes.expected(body.nonce.lane@) {
        Err(
            StateError::BadNonce {
                expected: account.lanes.expected(body.nonce.lane@),
                got: body.nonce.sequence,
            },
        )
    } else {
        Ok((account.devices.map()[device].lane, body.device))
    }
}

/// A transaction is authorised exactly when its device belongs to the
/// account and was never revoked, it signs on that device's own lane, and its
/// sequence is the next the lane expects: zero on a fresh lane, else one past
/// the last sequence consumed there. What comes back is that lane and device.
pub proof fn lemma_authority_admits(account: Account, body: TxBody)
    ensures
        authority_check(account, body) is Ok <==> {
            &&& !account.revoked_devices.map().contains_key(body.device@)
            &&& account.devices.map().contains_key(body.device@)
            &&& account.devices.map()[body.device@].lane@ == body.nonce.lane@
            &&& body.nonce.sequence == if account.lanes.counters().contains_key(body.nonce.lane@) {
                account.lanes.counters()[body.nonce.lane@]
            } else {
                0
            }
        },
        authority_check(account, body) matches Ok((lane, device)) ==> lane@ == body.nonce.lane@
            && device == body.device,
{
}

/// What remains of a device's offline credit is its share less what it has
/// spent, and never less than nothing: spending more than the remainder is
/// spending beyond the share.
pub proof fn lemma_remaining_credit(device: Device, outflow: nat)
    ensures
        device.nomad_spent@ <= device.nomad_share@ ==> remaining_credit(device)
            + device.nomad_spent@ == device.nomad_share@,
        device.nomad_spent@ > device.nomad_share@ ==> remaining_credit(device) == 0,
        outflow <= remaining_credit(device) ==> device.nomad_spent@ + outflow
            <= device.nomad_share@ || outflow == 0,
{
}

/// Checks that `body` is authorised by a live device of `account`, on its
/// own lane, at the lane's next sequence.
pub fn check_authority(account: &Account, body: &TxBody) -> (result: Result<
    (Lane, DeviceId),
    StateError,
>)
    requires
        account.wf(),
    ensures
        result == authority_check(*account, *body),
{
    if account.revoked_devices.contains(&body.device) {
        return Err(StateError::DeviceRevoked(body.device));
    }
    let device = match account.devices.get(&body.device) {
        Some(device) => device,
        None => {
            return Err(StateError::NoSuchDevice(body.device));
        },
    };
    if device.lane.index() != body.nonce.lane.index() {
        return Err(StateError::WrongLane { expected: device.lane, got: body.nonce.lane });
    }
    if !account.lanes.accepts(body.nonce) {
        return Err(
            StateError::BadNonce {
                expected: account.lanes.next_sequence(body.nonce.lane),
                got: body.nonce.sequence,
            },
        );
    }
    Ok((device.lane, body.device))
}

/// Declares an account's offline credit and bonded margin. The credit may not
/// fall below what its devices' shares already add up to.
pub fn nomad_set(account: &mut Account, credit: Amount, margin: Amount) -> (result: Result<
    (),
    StateError,
>)
    requires
        old(account).wf(),
    ensures
        final(account).wf(),
        ({
            let allocated = sum_ulf(device_shares(old(account).devices.entries()));
            &&& allocated > u64::MAX ==> result == Err::<(), StateError>(StateError::Overflow)
                && *final(account) == *old(account)
            &&& allocated <= u64::MAX && allocated > credit@ ==> (result matches Err(
                StateError::NomadOverAllocated { allocated: total, credit: declared },
            ) && total@ == allocated && declared == credit) && *final(account) == *old(account)
            &&& allocated <= credit@ ==> result is Ok && *final(account) == (Account {
                nomad_credit: credit,
                nomad_margin: margin,
                ..*old(account)
            })
        }),
{
    let allocated = match account.allocated_nomad() {
        Some(allocated) => allocated,
        None => {
            return Err(StateError::Overflow);
        },
    };
    if allocated.as_ulf() > credit.as_ulf() {
        return Err(StateError::NomadOverAllocated { allocated, credit });
    }
    account.nomad_credit = credit;
    account.nomad_margin = margin;
    Ok(())
}

/// Revokes a device: it leaves the device list and is remembered as revoked
/// for ever.
pub fn device_revoke(account: &mut Account, device: DeviceId) -> (result: Result<(), StateError>)
    requires
        old(account).wf(),
    ensures
        final(account).wf(),
        !old(account).devices.map().contains_key(device@) ==> result == Err::<(), StateError>(
            StateError::NoSuchDevice(device),
        ) && *final(account) == *old(account),
        old(account).devices.map().contains_key(device@) ==> result is Ok
            && final(account).devices.map() == old(account).devices.map().remove(device@)
            && final(account).revoked_devices.map() == old(account).revoked_devices.map().insert(
            device@,
            (),
        ) && final(account).balances == old(account).balances && final(account).nomad_credit
            == old(account).nomad_credit && final(account).nomad_margin == old(account).nomad_margin
            && final(account).next_lane == old(account).next_lane && final(account).lanes == old(
            account,
        ).lanes && final(account).guardians == old(account).guardians
            && final(account).guardian_threshold == old(account).guardian_threshold
            && final(account).bonded == old(account).bonded && final(account).name == old(
            account,
        ).name,
{
    if !account.devices.contains(&device) {
        return Err(StateError::NoSuchDevice(device));
    }
    account.devices.remove(&device);
    account.revoked_devices.insert(device, ());
    Ok(())
}

/// Whether `after` is the account `before` handed by a recovery to the key
/// whose view is `key`: every device it had is revoked, the key is its only
/// device, on the lane that was next, with no share of the offline credit,
/// and the offline credit is gone; nothing else moves.
pub open spec fn recovered(before: Account, after: Account, key: (u8, Seq<u8>)) -> bool {
    let device = blake3_derive_key(domain::DEVICE_ID@, seq![key.0] + key.1);
    &&& after.devices.map().dom() == set![device]
    &&& after.devices.map()[device].key@ == key
    &&& after.devices.map()[device].lane == before.next_lane
    &&& after.devices.map()[device].nomad_share@ == 0
    &&& after.devices.map()[device].nomad_spent@ == 0
    &&& after.revoked_devices.map().dom() == before.revoked_devices.map().dom()
        + before.devices.map().dom()
    &&& after.next_lane@ == before.next_lane@ + 1
    &&& after.nomad_credit@ == 0
    &&& after.balances == before.balances
    &&& after.nomad_margin == before.nomad_margin
    &&& after.lanes == before.lanes
    &&& after.guardians == before.guardians
    &&& after.guardian_threshold == before.guardian_threshold
    &&& after.bonded == before.bonded
    &&& after.name == before.name
}

/// Completes a recovery on the account: its devices are all revoked and the
/// recovered key becomes its only device, on the next lane. Refused, and
/// nothing changed, when no lane is left for it.
pub fn recovery_reset(account: &mut Account, key: VerifyingKey) -> (result: Result<(), StateError>)
    requires
        old(account).wf(),
    ensures
        final(account).wf(),
        old(account).next_lane@ == u32::MAX ==> result == Err::<(), StateError>(
            StateError::Overflow,
        ) && *final(account) == *old(account),
        old(account).next_lane@ < u32::MAX ==> result is Ok && recovered(
            *old(account),
            *final(account),
            key@,
        ),
{
    let lane = account.next_lane;
    let next = match lane.next() {
        Some(next) => next,
        None => {
            return Err(StateError::Overflow);
        },
    };
    let ghost old_revoked = account.revoked_devices.map().dom();
    let mut revoked = account.revoked_devices.duplicate();
    let entries = account.devices.as_slice();
    let mut i: usize = 0;
    while i < entries.len()
        invariant
            revoked.wf(),
            entries@ == account.devices.entries(),
            0 <= i <= entries.len(),
            revoked.map().dom() == old_revoked + Set::new(
                |k: Seq<u8>| exists|j: int| 0 <= j < i && #[trigger] entries@[j].0@ == k,
            ),
        decreases entries.len() - i,
    {
        let ghost before = revoked.map().dom();
        revoked.insert(entries[i].0, ());
        proof {
            assert(revoked.map().dom() =~= old_revoked + Set::new(
                |k: Seq<u8>| exists|j: int| 0 <= j < i + 1 && #[trigger] entries@[j].0@ == k,
            )) by {
                assert forall|k: Seq<u8>| revoked.map().dom().contains(k) <==> (old_revoked.contains(k)
                    || exists|j: int| 0 <= j < i + 1 && #[trigger] entries@[j].0@ == k) by {
                    if exists|j: int| 0 <= j < i + 1 && #[trigger] entries@[j].0@ == k {
                        let j = choose|j: int| 0 <= j < i + 1 && #[trigger] entries@[j].0@ == k;
                        if j < i {
                            assert(before.contains(k));
                        }
                    }
                }
            }
        }
        i = i + 1;
    }
    proof {
        assert(revoked.map().dom() =~= old_revoked + account.devices.map().dom()) by {
            assert forall|k: Seq<u8>| account.devices.map().dom().contains(k) <==> exists|j: int|
                0 <= j < entries@.len() && #[trigger] entries@[j].0@ == k by {
                if account.devices.map().dom().contains(k) {
                    let j = choose|j: int| 0 <= j < entries@.len() && #[trigger] entries@[j].0.sort_key() == k;
                    assert(entries@[j].0@ == k);
                }
                if exists|j: int| 0 <= j < entries@.len() && #[trigger] entries@[j].0@ == k {
                    let j = choose|j: int| 0 <= j < entries@.len() && #[trigger] entries@[j].0@ == k;
                    assert(entries@[j].0.sort_key() == k);
                }
            }
        }
    }
    let device = DeviceId::of_device_key(&key);
    let mut devices = crate::sorted_map::SortedMap::new();
    devices.insert(device, Device { key, lane, nomad_share: Amount::from_ulf(0), nomad_spent: Amount::from_ulf(0) });
    account.devices = devices;
    account.revoked_devices = revoked;
    account.next_lane = next;
    account.nomad_credit = Amount::from_ulf(0);
    proof {
        assert(account.devices.map().dom() =~= set![device@]);
    }
    Ok(())
}

/// Locks VAN as a validator bond: it leaves the balance and joins the bond.
pub fn bond(account: &mut Account, amount: Amount) -> (result: Result<(), StateError>)
    requires
        old(account).wf(),
    ensures
        final(account).wf(),
        old(account).balance_of(None) < amount@ ==> (result matches Err(
            StateError::InsufficientBalance { asset: None, needed, available },
        ) && needed == amount && available@ == old(account).balance_of(None)) && *final(account)
            == *old(account),
        old(account).balance_of(None) >= amount@ && old(account).bonded@ + amount@ > u64::MAX
            ==> result == Err::<(), StateError>(StateError::Overflow) && *final(account) == *old(
            account,
        ),
        old(account).balance_of(None) >= amount@ && old(account).bonded@ + amount@ <= u64::MAX
            ==> result is Ok && final(account).balance_of(None) == old(account).balance_of(None)
            - amount@ && final(account).bonded@ == old(account).bonded@ + amount@ && (forall|
            key: Seq<u8>,
        |
            key != None::<AssetId>.sort_key() ==> (#[trigger] final(account).balances.map().contains_key(key)
                == old(account).balances.map().contains_key(key)) && (old(account).balances.map().contains_key(key)
                ==> final(account).balances.map()[key] == old(account).balances.map()[key])) && (Account {
            balances: old(account).balances,
            bonded: old(account).bonded,
            ..*final(account)
        }) == *old(account),
{
    let available = account.balance(None);
    if available.as_ulf() < amount.as_ulf() {
        return Err(StateError::InsufficientBalance { asset: None, needed: amount, available });
    }
    let bonded = match account.bonded.checked_add(amount) {
        Some(bonded) => bonded,
        None => {
            return Err(StateError::Overflow);
        },
    };
    let debited = account.debit(None, amount);
    account.bonded = bonded;
    proof {
        let k = None::<AssetId>.sort_key();
        assert forall|key: Seq<u8>| key != k implies (#[trigger] account.balances.map().contains_key(
            key,
        ) == old(account).balances.map().contains_key(key)) && (old(
            account,
        ).balances.map().contains_key(key) ==> account.balances.map()[key] == old(
            account,
        ).balances.map()[key]) by {
            if old(account).balance_of(None) == amount@ {
                assert(account.balances.map() == old(account).balances.map().remove(k));
            }
        }
    }
    Ok(())
}

/// Releases part of a validator bond back to the balance. The unbonding
/// delay is a consensus matter; this is the accounting alone.
pub fn unbond(account: &mut Account, amount: Amount) -> (result: Result<(), StateError>)
    requires
        old(account).wf(),
    ensures
        final(account).wf(),
        old(account).bonded@ < amount@ ==> (result matches Err(
            StateError::InsufficientBalance { asset: None, needed, available },
        ) && needed == amount && available == old(account).bonded) && *final(account) == *old(
            account,
        ),
        old(account).bonded@ >= amount@ && old(account).balance_of(None) + amount@ > u64::MAX
            ==> result == Err::<(), StateError>(StateError::Overflow) && *final(account) == *old(
            account,
        ),
        old(account).bonded@ >= amount@ && old(account).balance_of(None) + amount@ <= u64::MAX
            ==> result is Ok && final(account).balance_of(None) == old(account).balance_of(None)
            + amount@ && final(account).bonded@ == old(account).bonded@ - amount@ && (forall|
            key: Seq<u8>,
        |
            key != None::<AssetId>.sort_key() ==> (#[trigger] final(account).balances.map().contains_key(key)
                == old(account).balances.map().contains_key(key)) && (old(account).balances.map().contains_key(key)
                ==> final(account).balances.map()[key] == old(account).balances.map()[key])) && (Account {
            balances: old(account).balances,
            bonded: old(account).bonded,
            ..*final(account)
        }) == *old(account),
{
    let bonded = match account.bonded.checked_sub(amount) {
        Some(bonded) => bonded,
        None => {
            return Err(
                StateError::InsufficientBalance {
                    asset: None,
                    needed: amount,
                    available: account.bonded,
                },
            );
        },
    };
    let available = account.balance(None);
    if available.checked_add(amount).is_none() {
        return Err(StateError::Overflow);
    }
    let credited = account.credit(None, amount);
    account.bonded = bonded;
    proof {
        let k = None::<AssetId>.sort_key();
        assert forall|key: Seq<u8>| key != k implies (#[trigger] account.balances.map().contains_key(
            key,
        ) == old(account).balances.map().contains_key(key)) && (old(
            account,
        ).balances.map().contains_key(key) ==> account.balances.map()[key] == old(
            account,
        ).balances.map()[key]) by {}
    }
    Ok(())
}

} // verus!
