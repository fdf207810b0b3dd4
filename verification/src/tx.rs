//! Transactions: the kinds and their canonical encoding, the body and its
//! identifier, the structural checks that need no chain state, account
//! equivocation evidence, the partition grammar of provisional blocks, and
//! the identifiers and commitments derived from transactions.

use vstd::prelude::*;
use vstd::string::StringExecFns;

use crate::amount::Amount;
use crate::bech32::push_all;
use crate::block::ValidatorEquivocation;
use crate::codec::{concat_encodings, u16_bytes, varint_bytes, Encode, Encoder};
use crate::digits::{decimal_string, decimal_text};
use crate::hash::{blake3_derive_key, domain, hash, Digest};
use crate::id::{AccountId, AssetId, ChainId, DeviceId, TxId};
use crate::name::Name;
use crate::nonce::{Lane, Nonce};
use crate::sign::{Signature, VerifyingKey};
use crate::recovery::saturating_count;
use crate::sorted_map::{entry_keys, SortedMap};

verus! {

/// The transaction format version this build writes.
pub const TX_VERSION: u16 = 1;

/// What a transaction does.
///
/// Each kind has a frozen wire discriminant, from 1 to 21 in declaration
/// order; zero is reserved and never selects a kind.
#[derive(Debug, PartialEq, Eq)]
pub enum TxKind {
    /// Move value.
    Transfer {
        /// Recipient.
        to: AccountId,
        /// Which asset, or `None` for VAN itself.
        asset: Option<AssetId>,
        /// How much.
        amount: Amount,
    },
    /// Declare the offline credit, and optionally bond a margin behind it.
    NomadSet {
        /// The offline credit.
        credit: Amount,
        /// Bonded margin behind it; zero for the unbonded form.
        margin: Amount,
    },
    /// Add a device subkey, with its own lane and share of the nomad credit.
    DeviceAdd {
        /// The device's public key.
        key: VerifyingKey,
        /// The lane this device will use.
        lane: Lane,
        /// This device's share of the account's nomad credit.
        nomad_share: Amount,
    },
    /// Revoke a device subkey.
    DeviceRevoke {
        /// Which device.
        device: DeviceId,
    },
    /// First half of a name registration: a sealed commitment.
    NameCommit {
        /// The commitment, as [`name_commitment`] computes it.
        commitment: Digest,
    },
    /// Second half: open the commitment.
    NameReveal {
        /// The name.
        name: Name,
        /// The salt used in the commitment.
        salt: [u8; 32],
    },
    /// Set the guardians and threshold for social recovery.
    GuardianSet {
        /// The guardians, a set: none counts twice.
        guardians: SortedMap<AccountId, ()>,
        /// How many must co-sign.
        threshold: u32,
    },
    /// Begin recovery of an account onto a new root key.
    RecoveryStart {
        /// The account being recovered.
        account: AccountId,
        /// Its proposed new root key.
        new_root_key: VerifyingKey,
    },
    /// Cancel a recovery in progress.
    RecoveryCancel {
        /// The account.
        account: AccountId,
    },
    /// Complete a recovery whose window has elapsed in finalised height.
    RecoveryFinalise {
        /// The account.
        account: AccountId,
    },
    /// Become a validator candidate: lock a bond and seal a commitment chain.
    Bond {
        /// How much to lock.
        amount: Amount,
        /// Root of the sealed commitment chain.
        commitment_root: Digest,
    },
    /// Begin withdrawing a bond.
    Unbond {
        /// How much to withdraw.
        amount: Amount,
    },
    /// Open a two-party payment channel.
    PurseOpen {
        /// The other party.
        counterparty: AccountId,
        /// Which asset, or `None` for VAN.
        asset: Option<AssetId>,
        /// Amount locked by the opener.
        deposit: Amount,
        /// Root of the payer's PayWord chain.
        payword_root: Digest,
        /// What one PayWord token is worth.
        tranche_value: Amount,
        /// Expiry, in finalised height.
        expiry_finalized_height: u64,
    },
    /// Close a channel with both parties' agreement.
    PurseCloseCooperative {
        /// The channel, identified by the transaction that opened it.
        purse: TxId,
        /// Final balance to the opener.
        payer_balance: Amount,
        /// Final balance to the counterparty.
        payee_balance: Amount,
        /// The counterparty's signature over the same final state.
        counterparty_signature: Signature,
    },
    /// Close a channel unilaterally, claiming a number of spent tranches.
    PurseCloseUnilateral {
        /// The channel.
        purse: TxId,
        /// How many tranches the closer admits receiving.
        tranches_claimed: u32,
        /// The PayWord token proving it.
        payword_token: Digest,
    },
    /// Contest a unilateral closure with a later PayWord token.
    PurseDispute {
        /// The channel.
        purse: TxId,
        /// The larger number of tranches actually spent.
        tranches_claimed: u32,
        /// The later PayWord token.
        payword_token: Digest,
    },
    /// Create a local asset.
    AssetCreate {
        /// The ticker, unique in state.
        ticker: Name,
        /// Decimal places.
        decimals: u8,
        /// Whether the issuer may mint again after creation.
        reissuable: bool,
    },
    /// Mint units of an asset.
    AssetMint {
        /// Which asset.
        asset: AssetId,
        /// Recipient.
        to: AccountId,
        /// How much.
        amount: Amount,
    },
    /// Destroy units of an asset held by the signer.
    AssetBurn {
        /// Which asset.
        asset: AssetId,
        /// How much.
        amount: Amount,
    },
    /// Proof that one device signed two transactions in the same slot.
    AccountEquivocation(Box<AccountEquivocation>),
    /// Proof that a validator signed two blocks at one height.
    ValidatorEquivocation(Box<ValidatorEquivocation>),
}

/// The frozen wire discriminant of a kind.
pub open spec fn kind_discriminant(kind: TxKind) -> u64 {
    match kind {
        TxKind::Transfer { .. } => 1,
        TxKind::NomadSet { .. } => 2,
        TxKind::DeviceAdd { .. } => 3,
        TxKind::DeviceRevoke { .. } => 4,
        TxKind::NameCommit { .. } => 5,
        TxKind::NameReveal { .. } => 6,
        TxKind::GuardianSet { .. } => 7,
        TxKind::RecoveryStart { .. } => 8,
        TxKind::RecoveryCancel { .. } => 9,
        TxKind::RecoveryFinalise { .. } => 10,
        TxKind::Bond { .. } => 11,
        TxKind::Unbond { .. } => 12,
        TxKind::PurseOpen { .. } => 13,
        TxKind::PurseCloseCooperative { .. } => 14,
        TxKind::PurseCloseUnilateral { .. } => 15,
        TxKind::PurseDispute { .. } => 16,
        TxKind::AssetCreate { .. } => 17,
        TxKind::AssetMint { .. } => 18,
        TxKind::AssetBurn { .. } => 19,
        TxKind::AccountEquivocation(_) => 20,
        TxKind::ValidatorEquivocation(_) => 21,
    }
}

/// The short name of a kind.
pub open spec fn kind_name(kind: TxKind) -> &'static str {
    match kind {
        TxKind::Transfer { .. } => "transfer",
        TxKind::NomadSet { .. } => "nomad_set",
        TxKind::DeviceAdd { .. } => "device_add",
        TxKind::DeviceRevoke { .. } => "device_revoke",
        TxKind::NameCommit { .. } => "name_commit",
        TxKind::NameReveal { .. } => "name_reveal",
        TxKind::GuardianSet { .. } => "guardian_set",
        TxKind::RecoveryStart { .. } => "recovery_start",
        TxKind::RecoveryCancel { .. } => "recovery_cancel",
        TxKind::RecoveryFinalise { .. } => "recovery_finalise",
        TxKind::Bond { .. } => "bond",
        TxKind::Unbond { .. } => "unbond",
        TxKind::PurseOpen { .. } => "purse_open",
        TxKind::PurseCloseCooperative { .. } => "purse_close_cooperative",
        TxKind::PurseCloseUnilateral { .. } => "purse_close_unilateral",
        TxKind::PurseDispute { .. } => "purse_dispute",
        TxKind::AssetCreate { .. } => "asset_create",
        TxKind::AssetMint { .. } => "asset_mint",
        TxKind::AssetBurn { .. } => "asset_burn",
        TxKind::AccountEquivocation(_) => "account_equivocation",
        TxKind::ValidatorEquivocation(_) => "validator_equivocation",
    }
}

/// The partition grammar: the kinds that may appear in a provisional block
/// are transfers, channel openings and cooperative channel closures, and no
/// others.
pub open spec fn kind_allowed_in_provisional(kind: TxKind) -> bool {
    ||| kind is Transfer
    ||| kind is PurseOpen
    ||| kind is PurseCloseCooperative
}

/// Whether a kind carries nested evidence.
pub open spec fn kind_is_evidence(kind: TxKind) -> bool {
    kind is AccountEquivocation || kind is ValidatorEquivocation
}

impl TxKind {
    /// The frozen wire discriminant.
    pub fn discriminant(&self) -> (discriminant: u64)
        ensures
            discriminant == kind_discriminant(*self),
    {
        match self {
            TxKind::Transfer { .. } => 1,
            TxKind::NomadSet { .. } => 2,
            TxKind::DeviceAdd { .. } => 3,
            TxKind::DeviceRevoke { .. } => 4,
            TxKind::NameCommit { .. } => 5,
            TxKind::NameReveal { .. } => 6,
            TxKind::GuardianSet { .. } => 7,
            TxKind::RecoveryStart { .. } => 8,
            TxKind::RecoveryCancel { .. } => 9,
            TxKind::RecoveryFinalise { .. } => 10,
            TxKind::Bond { .. } => 11,
            TxKind::Unbond { .. } => 12,
            TxKind::PurseOpen { .. } => 13,
            TxKind::PurseCloseCooperative { .. } => 14,
            TxKind::PurseCloseUnilateral { .. } => 15,
            TxKind::PurseDispute { .. } => 16,
            TxKind::AssetCreate { .. } => 17,
            TxKind::AssetMint { .. } => 18,
            TxKind::AssetBurn { .. } => 19,
            TxKind::AccountEquivocation(_) => 20,
            TxKind::ValidatorEquivocation(_) => 21,
        }
    }

    /// A short name, for logs, errors and the provisional grammar.
    pub fn name(&self) -> (name: &'static str)
        ensures
            name == kind_name(*self),
    {
        match self {
            TxKind::Transfer { .. } => "transfer",
            TxKind::NomadSet { .. } => "nomad_set",
            TxKind::DeviceAdd { .. } => "device_add",
            TxKind::DeviceRevoke { .. } => "device_revoke",
            TxKind::NameCommit { .. } => "name_commit",
            TxKind::NameReveal { .. } => "name_reveal",
            TxKind::GuardianSet { .. } => "guardian_set",
            TxKind::RecoveryStart { .. } => "recovery_start",
            TxKind::RecoveryCancel { .. } => "recovery_cancel",
            TxKind::RecoveryFinalise { .. } => "recovery_finalise",
            TxKind::Bond { .. } => "bond",
            TxKind::Unbond { .. } => "unbond",
            TxKind::PurseOpen { .. } => "purse_open",
            TxKind::PurseCloseCooperative { .. } => "purse_close_cooperative",
            TxKind::PurseCloseUnilateral { .. } => "purse_close_unilateral",
            TxKind::PurseDispute { .. } => "purse_dispute",
            TxKind::AssetCreate { .. } => "asset_create",
            TxKind::AssetMint { .. } => "asset_mint",
            TxKind::AssetBurn { .. } => "asset_burn",
            TxKind::AccountEquivocation(_) => "account_equivocation",
            TxKind::ValidatorEquivocation(_) => "validator_equivocation",
        }
    }

    /// Whether this kind may appear in a provisional block. Every kind is
    /// answered by name, with no catch-all: a new kind must be placed on one
    /// side of the line before it compiles.
    pub fn allowed_in_provisional(&self) -> (allowed: bool)
        ensures
            allowed == kind_allowed_in_provisional(*self),
    {
        match self {
            TxKind::Transfer { .. } => true,
            TxKind::PurseOpen { .. } => true,
            TxKind::PurseCloseCooperative { .. } => true,
            TxKind::PurseCloseUnilateral { .. } => false,
            TxKind::PurseDispute { .. } => false,
            TxKind::NomadSet { .. } => false,
            TxKind::DeviceAdd { .. } => false,
            TxKind::DeviceRevoke { .. } => false,
            TxKind::GuardianSet { .. } => false,
            TxKind::RecoveryStart { .. } => false,
            TxKind::RecoveryCancel { .. } => false,
            TxKind::RecoveryFinalise { .. } => false,
            TxKind::Bond { .. } => false,
            TxKind::Unbond { .. } => false,
            TxKind::NameCommit { .. } => false,
            TxKind::NameReveal { .. } => false,
            TxKind::AssetCreate { .. } => false,
            TxKind::AssetMint { .. } => false,
            TxKind::AssetBurn { .. } => false,
            TxKind::AccountEquivocation(_) => false,
            TxKind::ValidatorEquivocation(_) => false,
        }
    }

    /// Whether this kind carries nested evidence.
    pub fn is_evidence(&self) -> (evidence: bool)
        ensures
            evidence == kind_is_evidence(*self),
    {
        matches!(self, TxKind::AccountEquivocation(_) | TxKind::ValidatorEquivocation(_))
    }
}

/// Every discriminant lies in `1..=21`, so none is the reserved zero; a
/// discriminant determines the kind's name, so no two kinds share one; and
/// the evidence kinds hold the last two.
pub proof fn lemma_discriminants_frozen(a: TxKind, b: TxKind)
    ensures
        1 <= kind_discriminant(a) <= 21,
        kind_discriminant(a) == kind_discriminant(b) ==> kind_name(a) == kind_name(b),
        kind_is_evidence(a) <==> kind_discriminant(a) >= 20,
{
}

/// A kind's encoding opens with its discriminant as a single byte, so a
/// zeroed buffer never selects a kind.
pub proof fn lemma_encoding_opens_with_discriminant(kind: TxKind)
    ensures
        kind_bytes(kind).len() >= 1,
        kind_bytes(kind)[0] == kind_discriminant(kind),
        kind_bytes(kind)[0] != 0,
{
    let d = kind_discriminant(kind) as nat;
    assert(varint_bytes(d) == seq![d as u8]);
}

/// The provisional whitelist is exactly the kinds with discriminants 1, 13
/// and 14, and no evidence is ever admitted to a provisional block.
pub proof fn lemma_provisional_whitelist(kind: TxKind)
    ensures
        kind_allowed_in_provisional(kind) <==> (kind_discriminant(kind) == 1 || kind_discriminant(
            kind,
        ) == 13 || kind_discriminant(kind) == 14),
        kind_is_evidence(kind) ==> !kind_allowed_in_provisional(kind),
{
}

/// The canonical encoding of a kind: its discriminant as a varint, then its
/// fields in declaration order.
pub open spec fn kind_bytes(kind: TxKind) -> Seq<u8>
    decreases kind,
{
    varint_bytes(kind_discriminant(kind) as nat) + match kind {
        TxKind::Transfer { to, asset, amount } => to.spec_encode() + asset.spec_encode()
            + amount.spec_encode(),
        TxKind::NomadSet { credit, margin } => credit.spec_encode() + margin.spec_encode(),
        TxKind::DeviceAdd { key, lane, nomad_share } => key.spec_encode() + lane.spec_encode()
            + nomad_share.spec_encode(),
        TxKind::DeviceRevoke { device } => device.spec_encode(),
        TxKind::NameCommit { commitment } => commitment.spec_encode(),
        TxKind::NameReveal { name, salt } => name.spec_encode() + salt@,
        TxKind::GuardianSet { guardians, threshold } => varint_bytes(guardians.entries().len())
            + concat_encodings(entry_keys(guardians.entries())) + varint_bytes(threshold as nat),
        TxKind::RecoveryStart { account, new_root_key } => account.spec_encode()
            + new_root_key.spec_encode(),
        TxKind::RecoveryCancel { account } => account.spec_encode(),
        TxKind::RecoveryFinalise { account } => account.spec_encode(),
        TxKind::Bond { amount, commitment_root } => amount.spec_encode()
            + commitment_root.spec_encode(),
        TxKind::Unbond { amount } => amount.spec_encode(),
        TxKind::PurseOpen {
            counterparty,
            asset,
            deposit,
            payword_root,
            tranche_value,
            expiry_finalized_height,
        } => counterparty.spec_encode() + asset.spec_encode() + deposit.spec_encode()
            + payword_root.spec_encode() + tranche_value.spec_encode() + varint_bytes(
            expiry_finalized_height as nat,
        ),
        TxKind::PurseCloseCooperative {
            purse,
            payer_balance,
            payee_balance,
            counterparty_signature,
        } => purse.spec_encode() + payer_balance.spec_encode() + payee_balance.spec_encode()
            + counterparty_signature.spec_encode(),
        TxKind::PurseCloseUnilateral { purse, tranches_claimed, payword_token } =>
            purse.spec_encode() + varint_bytes(tranches_claimed as nat)
            + payword_token.spec_encode(),
        TxKind::PurseDispute { purse, tranches_claimed, payword_token } => purse.spec_encode()
            + varint_bytes(tranches_claimed as nat) + payword_token.spec_encode(),
        TxKind::AssetCreate { ticker, decimals, reissuable } => ticker.spec_encode()
            + varint_bytes(decimals as nat) + seq![if reissuable { 1u8 } else { 0u8 }],
        TxKind::AssetMint { asset, to, amount } => asset.spec_encode() + to.spec_encode()
            + amount.spec_encode(),
        TxKind::AssetBurn { asset, amount } => asset.spec_encode() + amount.spec_encode(),
        TxKind::AccountEquivocation(evidence) => account_evidence_bytes(*evidence),
        TxKind::ValidatorEquivocation(evidence) => evidence.spec_encode(),
    }
}

/// The canonical encoding of account equivocation evidence: the accused
/// device, then the two transactions.
pub open spec fn account_evidence_bytes(evidence: AccountEquivocation) -> Seq<u8>
    decreases evidence,
{
    evidence.device.spec_encode() + transaction_bytes(evidence.first) + transaction_bytes(
        evidence.second,
    )
}

/// The canonical encoding of a transaction: its body, then its signature.
pub open spec fn transaction_bytes(transaction: Transaction) -> Seq<u8>
    decreases transaction,
{
    body_bytes(transaction.body) + transaction.signature.spec_encode()
}

/// The canonical encoding of an optional validity deadline.
pub open spec fn valid_until_bytes(valid_until: Option<u64>) -> Seq<u8> {
    match valid_until {
        None => seq![0u8],
        Some(height) => seq![1u8] + varint_bytes(height as nat),
    }
}

/// The canonical encoding of a transaction body, field by field.
pub open spec fn body_bytes(body: TxBody) -> Seq<u8>
    decreases body,
{
    body.version.spec_encode() + body.chain.spec_encode() + body.account.spec_encode()
        + body.device.spec_encode() + body.nonce.spec_encode() + body.fee.spec_encode()
        + valid_until_bytes(body.valid_until_finalized) + kind_bytes(body.kind)
}

fn write_kind(kind: &TxKind, out: &mut Encoder)
    ensures
        final(out)@ == old(out)@ + kind_bytes(*kind),
    decreases kind,
{
    out.write_varint(kind.discriminant());
    let ghost start = out@;
    match kind {
        TxKind::Transfer { to, asset, amount } => {
            to.encode(out);
            asset.encode(out);
            amount.encode(out);
        },
        TxKind::NomadSet { credit, margin } => {
            credit.encode(out);
            margin.encode(out);
        },
        TxKind::DeviceAdd { key, lane, nomad_share } => {
            key.encode(out);
            lane.encode(out);
            nomad_share.encode(out);
        },
        TxKind::DeviceRevoke { device } => device.encode(out),
        TxKind::NameCommit { commitment } => commitment.encode(out),
        TxKind::NameReveal { name, salt } => {
            name.encode(out);
            out.write_raw(salt.as_slice());
        },
        TxKind::GuardianSet { guardians, threshold } => {
            out.write_ordered_set(guardians);
            out.write_varint(*threshold as u64);
        },
        TxKind::RecoveryStart { account, new_root_key } => {
            account.encode(out);
            new_root_key.encode(out);
        },
        TxKind::RecoveryCancel { account } => account.encode(out),
        TxKind::RecoveryFinalise { account } => account.encode(out),
        TxKind::Bond { amount, commitment_root } => {
            amount.encode(out);
            commitment_root.encode(out);
        },
        TxKind::Unbond { amount } => amount.encode(out),
        TxKind::PurseOpen {
            counterparty,
            asset,
            deposit,
            payword_root,
            tranche_value,
            expiry_finalized_height,
        } => {
            counterparty.encode(out);
            asset.encode(out);
            deposit.encode(out);
            payword_root.encode(out);
            tranche_value.encode(out);
            out.write_varint(*expiry_finalized_height);
        },
        TxKind::PurseCloseCooperative {
            purse,
            payer_balance,
            payee_balance,
            counterparty_signature,
        } => {
            purse.encode(out);
            payer_balance.encode(out);
            payee_balance.encode(out);
            counterparty_signature.encode(out);
        },
        TxKind::PurseCloseUnilateral { purse, tranches_claimed, payword_token } => {
            purse.encode(out);
            out.write_varint(*tranches_claimed as u64);
            payword_token.encode(out);
        },
        TxKind::PurseDispute { purse, tranches_claimed, payword_token } => {
            purse.encode(out);
            out.write_varint(*tranches_claimed as u64);
            payword_token.encode(out);
        },
        TxKind::AssetCreate { ticker, decimals, reissuable } => {
            ticker.encode(out);
            out.write_varint(*decimals as u64);
            out.write_bool(*reissuable);
        },
        TxKind::AssetMint { asset, to, amount } => {
            asset.encode(out);
            to.encode(out);
            amount.encode(out);
        },
        TxKind::AssetBurn { asset, amount } => {
            asset.encode(out);
            amount.encode(out);
        },
        TxKind::AccountEquivocation(evidence) => write_account_evidence(evidence, out),
        TxKind::ValidatorEquivocation(evidence) => evidence.encode(out),
    }
    assert(out@ =~= old(out)@ + kind_bytes(*kind));
}

fn write_account_evidence(evidence: &AccountEquivocation, out: &mut Encoder)
    ensures
        final(out)@ == old(out)@ + account_evidence_bytes(*evidence),
    decreases evidence,
{
    evidence.device.encode(out);
    write_transaction(&evidence.first, out);
    write_transaction(&evidence.second, out);
    assert(out@ =~= old(out)@ + account_evidence_bytes(*evidence));
}

fn write_transaction(transaction: &Transaction, out: &mut Encoder)
    ensures
        final(out)@ == old(out)@ + transaction_bytes(*transaction),
    decreases transaction,
{
    write_body(&transaction.body, out);
    transaction.signature.encode(out);
    assert(out@ =~= old(out)@ + transaction_bytes(*transaction));
}

fn write_body(body: &TxBody, out: &mut Encoder)
    ensures
        final(out)@ == old(out)@ + body_bytes(*body),
    decreases body,
{
    body.version.encode(out);
    body.chain.encode(out);
    body.account.encode(out);
    body.device.encode(out);
    body.nonce.encode(out);
    body.fee.encode(out);
    match body.valid_until_finalized {
        None => {
            out.write_u8(0);
        },
        Some(height) => {
            out.write_u8(1);
            out.write_varint(height);
        },
    }
    write_kind(&body.kind, out);
    assert(out@ =~= old(out)@ + body_bytes(*body));
}

impl Encode for TxKind {
    open spec fn spec_encode(&self) -> Seq<u8> {
        kind_bytes(*self)
    }

    fn encode(&self, out: &mut Encoder) {
        write_kind(self, out);
    }
}

/// The signed part of a transaction. The identifier is computed over the
/// body alone, so it does not depend on the signature.
#[derive(Debug, PartialEq, Eq)]
pub struct TxBody {
    /// Format version.
    pub version: u16,
    /// Which chain.
    pub chain: ChainId,
    /// The account this transaction acts for.
    pub account: AccountId,
    /// The device subkey that signs it.
    pub device: DeviceId,
    /// Lane and sequence.
    pub nonce: Nonce,
    /// Fee offered.
    pub fee: Amount,
    /// Latest finalised height at which this remains valid.
    pub valid_until_finalized: Option<u64>,
    /// What it does.
    pub kind: TxKind,
}

impl Encode for TxBody {
    open spec fn spec_encode(&self) -> Seq<u8> {
        body_bytes(*self)
    }

    fn encode(&self, out: &mut Encoder) {
        write_body(self, out);
    }
}

/// A body's transaction identifier: the txid digest of its encoding.
pub open spec fn body_id(body: TxBody) -> Seq<u8> {
    blake3_derive_key(domain::TXID@, body_bytes(body))
}

/// The digest a device signs: the signing digest of the chain followed by
/// the transaction identifier.
pub open spec fn body_signing_digest(body: TxBody) -> Seq<u8> {
    blake3_derive_key(domain::TX_SIGNING@, body.chain@ + body_id(body))
}

/// What the structural checks of a body find: the first mistake, in the
/// order they are checked, or success.
pub open spec fn body_check(body: TxBody) -> Result<(), TxError> {
    if body.version != TX_VERSION {
        Err(TxError::UnsupportedVersion(body.version))
    } else {
        match body.kind {
            TxKind::GuardianSet { guardians, threshold } => {
                let count = saturating_count(guardians.entries().len());
                if threshold == 0 {
                    Err(TxError::ZeroThreshold)
                } else if threshold > count {
                    Err(TxError::ThresholdAboveGuardians { threshold, guardians: count })
                } else {
                    Ok(())
                }
            },
            TxKind::PurseOpen { counterparty, .. } => {
                if counterparty@ == body.account@ {
                    Err(TxError::SelfCounterparty)
                } else {
                    Ok(())
                }
            },
            TxKind::Transfer { to, amount, .. } => {
                if to@ == body.account@ {
                    Err(TxError::SelfCounterparty)
                } else if amount@ == 0 {
                    Err(TxError::ZeroAmount)
                } else {
                    Ok(())
                }
            },
            TxKind::AccountEquivocation(evidence) => {
                if kind_is_evidence(evidence.first.body.kind) || kind_is_evidence(
                    evidence.second.body.kind,
                ) {
                    Err(TxError::EvidenceAboutEvidence)
                } else {
                    Ok(())
                }
            },
            _ => Ok(()),
        }
    }
}

/// The structural rules a transaction meets exactly: the current format
/// version; a guardian threshold of at least one and at most the number of
/// guardians; no transfer or channel to oneself; no transfer of nothing; no
/// equivocation evidence whose transactions are themselves evidence.
pub proof fn lemma_body_rules(body: TxBody)
    ensures
        body_check(body) is Ok <==> {
            &&& body.version == 1
            &&& body.kind matches TxKind::GuardianSet { guardians, threshold } ==> 1 <= threshold
                && threshold <= guardians.entries().len()
            &&& body.kind matches TxKind::PurseOpen { counterparty, .. } ==> counterparty@
                != body.account@
            &&& body.kind matches TxKind::Transfer { to, amount, .. } ==> to@ != body.account@
                && amount@ > 0
            &&& body.kind matches TxKind::AccountEquivocation(evidence) ==> !(
            evidence.first.body.kind is AccountEquivocation
                || evidence.first.body.kind is ValidatorEquivocation
                || evidence.second.body.kind is AccountEquivocation
                || evidence.second.body.kind is ValidatorEquivocation)
        },
{
}

impl TxBody {
    /// This transaction's identifier.
    pub fn id(&self) -> (id: TxId)
        ensures
            id@ == body_id(*self),
    {
        let bytes = self.to_canonical_bytes();
        TxId::from_hash(hash(domain::TXID, bytes.as_slice()))
    }

    /// The digest the device signs.
    pub fn signing_digest(&self) -> (digest: Digest)
        ensures
            digest@ == body_signing_digest(*self),
    {
        let id = self.id();
        let mut material: Vec<u8> = Vec::new();
        push_all(&mut material, self.chain.as_bytes());
        push_all(&mut material, id.as_bytes());
        hash(domain::TX_SIGNING, material.as_slice())
    }

    /// Structural checks that need no chain state.
    pub fn check_self_consistent(&self) -> (result: Result<(), TxError>)
        ensures
            result == body_check(*self),
    {
        if self.version != TX_VERSION {
            return Err(TxError::UnsupportedVersion(self.version));
        }
        match &self.kind {
            TxKind::GuardianSet { guardians, threshold } => {
                let count: u32 = if guardians.len() <= u32::MAX as usize {
                    guardians.len() as u32
                } else {
                    u32::MAX
                };
                if *threshold == 0 {
                    return Err(TxError::ZeroThreshold);
                }
                if *threshold > count {
                    return Err(
                        TxError::ThresholdAboveGuardians { threshold: *threshold, guardians: count },
                    );
                }
            },
            TxKind::PurseOpen { counterparty, .. } => {
                if counterparty.same_as(&self.account) {
                    return Err(TxError::SelfCounterparty);
                }
            },
            TxKind::Transfer { to, amount, .. } => {
                if to.same_as(&self.account) {
                    return Err(TxError::SelfCounterparty);
                }
                if amount.is_zero() {
                    return Err(TxError::ZeroAmount);
                }
            },
            TxKind::AccountEquivocation(evidence) => {
                if evidence.first.body.kind.is_evidence() || evidence.second.body.kind.is_evidence() {
                    return Err(TxError::EvidenceAboutEvidence);
                }
            },
            _ => {},
        }
        Ok(())
    }
}

/// A transaction: a body and the signature of the device that authorised it.
#[derive(Debug, PartialEq, Eq)]
pub struct Transaction {
    /// What is signed.
    pub body: TxBody,
    /// The device subkey's signature over the body's signing digest.
    pub signature: Signature,
}

impl Transaction {
    /// This transaction's identifier: that of its body.
    pub fn id(&self) -> (id: TxId)
        ensures
            id@ == body_id(self.body),
    {
        self.body.id()
    }
}

impl Encode for Transaction {
    open spec fn spec_encode(&self) -> Seq<u8> {
        transaction_bytes(*self)
    }

    fn encode(&self, out: &mut Encoder) {
        write_transaction(self, out);
    }
}

/// Two transactions with one body have one identifier, whatever their
/// signatures: re-wrapping a transaction cannot change what it is called.
pub proof fn lemma_id_ignores_signature(a: Transaction, b: Transaction)
    requires
        a.body == b.body,
    ensures
        body_id(a.body) == body_id(b.body),
{
}

/// Proof that one device signed two different transactions in the same slot.
#[derive(Debug, PartialEq, Eq)]
pub struct AccountEquivocation {
    /// The accused device subkey.
    pub device: DeviceId,
    /// One transaction.
    pub first: Transaction,
    /// The other.
    pub second: Transaction,
}

/// What checking the shape of account equivocation evidence gives: the
/// first reason, in the order they are checked, that it shows no
/// equivocation, or success.
pub open spec fn account_evidence_check(
    evidence: AccountEquivocation,
    signatures: Result<(), TxError>,
) -> Result<(), TxError> {
    let first = evidence.first.body;
    let second = evidence.second.body;
    if kind_is_evidence(first.kind) || kind_is_evidence(second.kind) {
        Err(TxError::EvidenceAboutEvidence)
    } else if first.chain@ != second.chain@ {
        Err(TxError::NotEquivocation { why: "different chains" })
    } else if first.account@ != second.account@ {
        Err(TxError::NotEquivocation { why: "different accounts" })
    } else if first.device@ != evidence.device@ || second.device@ != evidence.device@ {
        Err(TxError::NotEquivocation { why: "not both by the accused device" })
    } else if !(first.nonce.lane@ == second.nonce.lane@ && first.nonce.sequence
        == second.nonce.sequence) {
        Err(TxError::NotEquivocation { why: "nonces do not collide" })
    } else if body_id(first) == body_id(second) {
        Err(TxError::NotEquivocation { why: "the same transaction twice" })
    } else {
        signatures
    }
}

/// Evidence convicts exactly when it shows one device of one account
/// signing two different transactions on one chain for one slot, neither of
/// them evidence, and both signatures verify; a signature that does not
/// verify is what the check answers once the shape holds.
pub proof fn lemma_account_evidence_convicts(evidence: AccountEquivocation, signatures: Result<(), TxError>)
    ensures
        account_evidence_check(evidence, signatures) is Ok <==> {
            &&& !(evidence.first.body.kind is AccountEquivocation
                || evidence.first.body.kind is ValidatorEquivocation)
            &&& !(evidence.second.body.kind is AccountEquivocation
                || evidence.second.body.kind is ValidatorEquivocation)
            &&& evidence.first.body.chain@ == evidence.second.body.chain@
            &&& evidence.first.body.account@ == evidence.second.body.account@
            &&& evidence.first.body.device@ == evidence.device@
            &&& evidence.second.body.device@ == evidence.device@
            &&& evidence.first.body.nonce.lane@ == evidence.second.body.nonce.lane@
            &&& evidence.first.body.nonce.sequence == evidence.second.body.nonce.sequence
            &&& body_id(evidence.first.body) != body_id(evidence.second.body)
            &&& signatures is Ok
        },
        signatures is Err && account_evidence_check(evidence, Ok(())) is Ok ==> account_evidence_check(
            evidence,
            signatures,
        ) == signatures,
{
}

impl AccountEquivocation {
    /// Checks that this really is equivocation: no nested evidence, one
    /// chain, one account, the accused device behind both, one slot, two
    /// different transactions, and then the two signatures. Verifying a
    /// signature is the signature scheme's work: `signatures` is what
    /// verifying the first and then the second under the device's key
    /// answered, and it is what comes back once the shape holds.
    pub fn check(&self, signatures: Result<(), TxError>) -> (result: Result<(), TxError>)
        ensures
            result == account_evidence_check(*self, signatures),
    {
        let first = &self.first.body;
        let second = &self.second.body;
        if first.kind.is_evidence() || second.kind.is_evidence() {
            return Err(TxError::EvidenceAboutEvidence);
        }
        if !first.chain.same_as(&second.chain) {
            return Err(TxError::NotEquivocation { why: "different chains" });
        }
        if !first.account.same_as(&second.account) {
            return Err(TxError::NotEquivocation { why: "different accounts" });
        }
        if !first.device.same_as(&self.device) || !second.device.same_as(&self.device) {
            return Err(TxError::NotEquivocation { why: "not both by the accused device" });
        }
        if !first.nonce.collides_with(second.nonce) {
            return Err(TxError::NotEquivocation { why: "nonces do not collide" });
        }
        if self.first.id().same_as(&self.second.id()) {
            return Err(TxError::NotEquivocation { why: "the same transaction twice" });
        }
        signatures
    }
}

impl Encode for AccountEquivocation {
    open spec fn spec_encode(&self) -> Seq<u8> {
        account_evidence_bytes(*self)
    }

    fn encode(&self, out: &mut Encoder) {
        write_account_evidence(self, out);
    }
}

/// Derives an asset identifier from its creating transaction: the asset-id
/// digest of the creator followed by the transaction identifier.
pub fn asset_id_of(creator: AccountId, creating_tx: TxId) -> (id: AssetId)
    ensures
        id@ == blake3_derive_key(domain::ASSET_ID@, creator@ + creating_tx@),
{
    let mut material: Vec<u8> = Vec::new();
    push_all(&mut material, creator.as_bytes());
    push_all(&mut material, creating_tx.as_bytes());
    AssetId::from_hash(hash(domain::ASSET_ID, material.as_slice()))
}

/// The commitment to a name registration: the name-commitment digest of the
/// name's canonical (length-prefixed) encoding, the salt, and the account.
pub open spec fn commitment_of(name: Seq<u8>, salt: Seq<u8>, account: Seq<u8>) -> Seq<u8> {
    blake3_derive_key(domain::NAME_COMMITMENT@, name + salt + account)
}

/// Computes a name registration commitment.
pub fn name_commitment(name: &Name, salt: &[u8; 32], account: AccountId) -> (commitment: Digest)
    ensures
        commitment@ == commitment_of(name.spec_encode(), salt@, account@),
{
    let mut material = name.to_canonical_bytes();
    push_all(&mut material, salt.as_slice());
    push_all(&mut material, account.as_bytes());
    hash(domain::NAME_COMMITMENT, material.as_slice())
}

/// Why a transaction or a piece of transaction evidence was rejected.
#[derive(Debug, Clone, Copy, PartialEq, Eq)]
pub enum TxError {
    /// The transaction format version is not one this build understands.
    UnsupportedVersion(u16),
    /// The signature did not verify.
    BadSignature,
    /// The supplied key is not the device the body names.
    WrongDeviceKey,
    /// A test algorithm was used on a production chain.
    TestAlgorithmOnLiveChain,
    /// A guardian threshold of zero.
    ZeroThreshold,
    /// A threshold larger than the guardian list.
    ThresholdAboveGuardians {
        /// The threshold asked for.
        threshold: u32,
        /// How many guardians there are.
        guardians: u32,
    },
    /// An account named itself as counterparty or recipient.
    SelfCounterparty,
    /// A transfer of nothing.
    ZeroAmount,
    /// Evidence whose subject is itself evidence.
    EvidenceAboutEvidence,
    /// This kind is grammatically illegal in a provisional block.
    ForbiddenInProvisional {
        /// Which kind.
        kind: &'static str,
    },
    /// Evidence that does not show what it claims to show.
    NotEquivocation {
        /// Which requirement failed.
        why: &'static str,
    },
}

/// How a transaction error reads.
pub open spec fn tx_error_text(error: TxError) -> Seq<char> {
    match error {
        TxError::UnsupportedVersion(version) => "unsupported transaction version "@ + decimal_text(
            version as nat,
        ),
        TxError::BadSignature => "signature verification failed"@,
        TxError::WrongDeviceKey => "the key is not the device this transaction names"@,
        TxError::TestAlgorithmOnLiveChain => "a test algorithm was used on a production chain"@,
        TxError::ZeroThreshold => "a guardian threshold of zero recovers nothing"@,
        TxError::ThresholdAboveGuardians { threshold, guardians } => "threshold "@ + decimal_text(
            threshold as nat,
        ) + " exceeds "@ + decimal_text(guardians as nat) + " guardians"@,
        TxError::SelfCounterparty => "an account cannot transact with itself"@,
        TxError::ZeroAmount => "a transfer of zero"@,
        TxError::EvidenceAboutEvidence => "evidence about evidence"@,
        TxError::ForbiddenInProvisional { kind } => kind@
            + " is not permitted in a provisional block"@,
        TxError::NotEquivocation { why } => "not equivocation: "@ + why@,
    }
}

impl TxError {
    /// The error as it is displayed.
    pub fn to_string(&self) -> (text: String)
        ensures
            text@ == tx_error_text(*self),
    {
        match self {
            TxError::UnsupportedVersion(version) => {
                let mut text = String::from_str("unsupported transaction version ");
                text.append(decimal_string(*version as u64).as_str());
                text
            },
            TxError::BadSignature => String::from_str("signature verification failed"),
            TxError::WrongDeviceKey => String::from_str(
                "the key is not the device this transaction names",
            ),
            TxError::TestAlgorithmOnLiveChain => String::from_str(
                "a test algorithm was used on a production chain",
            ),
            TxError::ZeroThreshold => String::from_str(
                "a guardian threshold of zero recovers nothing",
            ),
            TxError::ThresholdAboveGuardians { threshold, guardians } => {
                let mut text = String::from_str("threshold ");
                text.append(decimal_string(*threshold as u64).as_str());
                text.append(" exceeds ");
                text.append(decimal_string(*guardians as u64).as_str());
                text.append(" guardians");
                text
            },
            TxError::SelfCounterparty => String::from_str("an account cannot transact with itself"),
            TxError::ZeroAmount => String::from_str("a transfer of zero"),
            TxError::EvidenceAboutEvidence => String::from_str("evidence about evidence"),
            TxError::ForbiddenInProvisional { kind } => {
                let mut text = String::from_str(kind);
                text.append(" is not permitted in a provisional block");
                text
            },
            TxError::NotEquivocation { why } => {
                let mut text = String::from_str("not equivocation: ");
                text.append(why);
                text
            },
        }
    }
}

/// Checks a provisional block's transactions against the partition grammar,
/// returning the first offender. A block with one forbidden transaction is
/// invalid as a whole.
pub fn check_provisional_grammar(transactions: &[TxBody]) -> (result: Result<(), TxError>)
    ensures
        match result {
            Ok(()) => forall|i: int|
                0 <= i < transactions@.len() ==> kind_allowed_in_provisional(
                    #[trigger] transactions@[i].kind,
                ),
            Err(error) => exists|i: int|
                0 <= i < transactions@.len() && !kind_allowed_in_provisional(
                    #[trigger] transactions@[i].kind,
                ) && (forall|j: int|
                    0 <= j < i ==> kind_allowed_in_provisional(transactions@[j].kind)) && error
                    == TxError::ForbiddenInProvisional { kind: kind_name(transactions@[i].kind) },
        },
{
    let mut index: usize = 0;
    while index < transactions.len()
        invariant
            index <= transactions@.len(),
            forall|j: int| 0 <= j < index ==> kind_allowed_in_provisional(transactions@[j].kind),
        decreases transactions@.len() - index,
    {
        let body = &transactions[index];
        if !body.kind.allowed_in_provisional() {
            return Err(TxError::ForbiddenInProvisional { kind: body.kind.name() });
        }
        index += 1;
    }
    Ok(())
}

} // verus!
