//! The ledger itself, and the application of a transaction to it, entirely
//! or not at all.

use vstd::prelude::*;

use crate::account::{device_shares, Account};
use crate::amount::fee_weights;
use crate::amount::{sum_ulf, Amount, FeeSplit, Ratio};
use crate::asset::{
    burn_result, burned, create_result, created, mint_result, minted, AssetRegistry,
};
use crate::block::FinalityRung;
use crate::id::{AccountId, AssetId, DeviceId};
use crate::ledger::{
    authority_check, bond, recovery_reset, check_authority, check_envelope, check_nomad, device_revoke,
    envelope_check, extra_outflow, native_outflow, nomad_set, remaining_credit, unbond, Applied,
    BlockContext, EvidenceVerdict, StateError,
};
use crate::name_book::{expired, expired_keys, reveal_result, NameBook, NameError};
use crate::block::ContestationWindow;
use crate::recovery::{approval_result, finalise_result, RecoveryBook, RecoveryError, RECOVERY_WINDOW_FINALIZED_BLOCKS};
use crate::slashing::{AccountOffence, Penalty, SlashingBook, SlashingError, ValidatorOffence};
use crate::sorted_map::{SortKey, SortedMap};
use crate::hash::{blake3_derive_key, domain, Digest};
use crate::keys::{state_key, NAMESPACE_ACCOUNT, NAMESPACE_RESERVED, NAMESPACE_TICKER};
use crate::ledger::root::{
    account_leaves, asset_leaves, commitment_leaves, insert_all, insert_leaves, leaf_views,
    name_leaves, offence_leaves, push_account_leaves, push_account_offence_leaves,
    push_asset_leaves, push_commitment_leaves, push_name_leaves, push_recovery_leaves,
    push_ticker_leaves, push_validator_offence_leaves, recovery_leaves, reserved_leaf,
    reserved_value, root_of, root_of_leaves, ticker_leaves, tree_holding, BURN_LABEL,
};
use crate::name::Name;
use crate::codec::Encode;
use crate::smt::{digest_views, leaf_view, walk_siblings, walk_terminal, SmtProof, SparseMerkleTree};
use vstd::utf8::encode_utf8;
use crate::nonce::Lane;
use crate::sign::VerifyingKey;
use crate::tx::{
    account_evidence_check, asset_id_of, body_id, commitment_of, kind_name, AccountEquivocation,
    TxBody, TxKind,
};
use crate::block::{validator_evidence_check, ValidatorEquivocation};

verus! {

/// The three parts `FeeSplit::of` divides a fee into.
pub open spec fn fee_split_spec(fee: Amount) -> FeeSplit {
    let provider = (fee@ * fee_weights::PROVIDER) / (fee_weights::TOTAL as int);
    let pot = (fee@ * fee_weights::POT) / (fee_weights::TOTAL as int);
    FeeSplit {
        provider: Amount::from_spec(provider as u64),
        pot: Amount::from_spec(pot as u64),
        burn: Amount::from_spec((fee@ - provider - pot) as u64),
    }
}

/// The three parts are what their formulas say, each at most the fee, and
/// together exactly the fee.
pub proof fn lemma_fee_split_spec(fee: Amount)
    ensures
        fee_split_spec(fee).provider@ == (fee@ * fee_weights::PROVIDER) / (fee_weights::TOTAL as int),
        fee_split_spec(fee).pot@ == (fee@ * fee_weights::POT) / (fee_weights::TOTAL as int),
        fee_split_spec(fee).provider@ + fee_split_spec(fee).pot@ + fee_split_spec(fee).burn@ == fee@,
        forall|split: FeeSplit|
            split.provider@ == (fee@ * fee_weights::PROVIDER) / (fee_weights::TOTAL as int) && split.pot@
                == (fee@ * fee_weights::POT) / (fee_weights::TOTAL as int) && split.provider@ + split.pot@
                + split.burn@ == fee@ ==> split == fee_split_spec(fee),
{
    let f = fee@ as int;
    assert(fee_weights::PROVIDER == 70 && fee_weights::POT == 20 && fee_weights::TOTAL == 100);
    assert((f * 70) / 100 <= f && (f * 20) / 100 <= f && (f * 70) / 100 + (f * 20) / 100 <= f)
        by (nonlinear_arith)
        requires
            f >= 0,
    ;
    assert(0 <= (f * 70) / 100 && 0 <= (f * 20) / 100) by (nonlinear_arith)
        requires
            f >= 0,
    ;
    let p = ((f * 70) / 100) as u64;
    let q = ((f * 20) / 100) as u64;
    let b = (f - (f * 70) / 100 - (f * 20) / 100) as u64;
    Amount::lemma_from_spec(p);
    Amount::lemma_from_spec(q);
    Amount::lemma_from_spec(b);
}

/// The balance `accounts` give account `id` in `asset`: zero for an account
/// that does not exist.
pub open spec fn balance_in(accounts: Map<Seq<u8>, Account>, id: Seq<u8>, asset: Option<AssetId>) -> nat {
    if accounts.contains_key(id) {
        accounts[id].balance_of(asset)
    } else {
        0
    }
}

/// Every account and every book of the ledger, and its three counters.
#[derive(Debug, Clone, PartialEq, Eq)]
pub struct Ledger {
    accounts: SortedMap<AccountId, Account>,
    assets: AssetRegistry,
    names: NameBook,
    recoveries: RecoveryBook,
    offences: SlashingBook,
    burned: Amount,
    context_pot: Amount,
    fees_collected: Amount,
}

impl Ledger {
    /// The accounts, by identifier bytes.
    pub closed spec fn account_map(self) -> Map<Seq<u8>, Account> {
        self.accounts.map()
    }

    /// The asset registry.
    pub closed spec fn asset_book(self) -> AssetRegistry {
        self.assets
    }

    /// The name registry.
    pub closed spec fn name_book(self) -> NameBook {
        self.names
    }

    /// The recoveries under way.
    pub closed spec fn recovery_book(self) -> RecoveryBook {
        self.recoveries
    }

    /// The punished offences.
    pub closed spec fn offence_book(self) -> SlashingBook {
        self.offences
    }

    /// Total VAN destroyed, in ulf.
    pub closed spec fn burned_ulf(self) -> u64 {
        self.burned@
    }

    /// The context pot, in ulf.
    pub closed spec fn pot_ulf(self) -> u64 {
        self.context_pot@
    }

    /// Every fee ever paid, in ulf.
    pub closed spec fn fees_ulf(self) -> u64 {
        self.fees_collected@
    }

    /// Every map is in key order and every account and book is well formed.
    pub closed spec fn wf(self) -> bool {
        &&& self.accounts.wf()
        &&& forall|id: Seq<u8>| #[trigger]
            self.accounts.map().contains_key(id) ==> self.accounts.map()[id].wf()
        &&& self.assets.wf()
        &&& self.names.wf()
        &&& self.recoveries.wf()
        &&& self.offences.wf()
    }

    /// An empty ledger.
    pub fn new() -> (ledger: Self)
        ensures
            ledger.wf(),
            ledger.account_map() == Map::<Seq<u8>, Account>::empty(),
            ledger.asset_book()@.0 == Map::<Seq<u8>, crate::asset::RecordView>::empty(),
            ledger.asset_book()@.1 == Map::<Seq<u8>, Seq<u8>>::empty(),
            ledger.name_book()@.0 == Map::<Seq<u8>, Seq<u8>>::empty(),
            ledger.name_book()@.1 == Map::<Seq<u8>, (Seq<u8>, u64)>::empty(),
            ledger.recovery_book()@ == Map::<Seq<u8>, crate::recovery::PendingView>::empty(),
            ledger.offence_book()@.0 == Set::<Seq<u8>>::empty(),
            ledger.offence_book()@.1 == Set::<Seq<u8>>::empty(),
            ledger.burned_ulf() == 0,
            ledger.pot_ulf() == 0,
            ledger.fees_ulf() == 0,
    {
        Ledger {
            accounts: SortedMap::new(),
            assets: AssetRegistry::new(),
            names: NameBook::new(),
            recoveries: RecoveryBook::new(),
            offences: SlashingBook::new(),
            burned: Amount::from_ulf(0),
            context_pot: Amount::from_ulf(0),
            fees_collected: Amount::from_ulf(0),
        }
    }
}

/// The guardians of the account a recovery names, once the fee has been
/// charged: those the account holds, none for the proposer's account that the
/// fee has just opened.
pub open spec fn guardians_of(accounts: Map<Seq<u8>, Account>, target: Seq<u8>) -> Set<Seq<u8>> {
    if accounts.contains_key(target) {
        accounts[target].guardians.map().dom()
    } else {
        Set::empty()
    }
}

/// The guardian threshold of the account a recovery names: its own, or a
/// blank account's.
pub open spec fn threshold_of(accounts: Map<Seq<u8>, Account>, target: Seq<u8>) -> u32 {
    if accounts.contains_key(target) {
        accounts[target].guardian_threshold
    } else {
        0
    }
}

/// The next lane of the account a recovery names: its own, or a blank
/// account's.
pub open spec fn next_lane_of(accounts: Map<Seq<u8>, Account>, target: Seq<u8>) -> nat {
    if accounts.contains_key(target) {
        accounts[target].next_lane@ as nat
    } else {
        0
    }
}

/// The devices the account a recovery names has ever had: those revoked and
/// those it holds.
pub open spec fn retired_of(accounts: Map<Seq<u8>, Account>, target: Seq<u8>) -> Set<Seq<u8>> {
    if accounts.contains_key(target) {
        accounts[target].revoked_devices.map().dom() + accounts[target].devices.map().dom()
    } else {
        Set::empty()
    }
}

/// The key, by its view, that completing the recovery of `target` installs.
pub open spec fn finalised_key(ledger: Ledger, ctx: BlockContext, target: Seq<u8>) -> (u8, Seq<u8>) {
    finalise_result(
        ledger.recovery_book()@,
        target,
        threshold_of(ledger.account_map(), target),
        ctx.finalized_height,
    )->Ok_0
}

/// Whether `after` holds what completing the recovery of `target` leaves:
/// every device it had revoked, the recovered key its only device, on the
/// lane that was next, with no share of the offline credit, and no offline
/// credit.
pub open spec fn recovery_done(ledger: Ledger, ctx: BlockContext, target: Seq<u8>, after: Account) -> bool {
    let key = finalised_key(ledger, ctx, target);
    let device = blake3_derive_key(domain::DEVICE_ID@, seq![key.0] + key.1);
    &&& after.devices.map().dom() == set![device]
    &&& after.devices.map()[device].key@ == key
    &&& after.devices.map()[device].lane@ == next_lane_of(ledger.account_map(), target)
    &&& after.devices.map()[device].nomad_share@ == 0
    &&& after.devices.map()[device].nomad_spent@ == 0
    &&& after.revoked_devices.map().dom() == retired_of(ledger.account_map(), target)
    &&& after.next_lane@ == next_lane_of(ledger.account_map(), target) + 1
    &&& after.nomad_credit@ == 0
}

/// What the recoveries under way become when `body`, a recovery start,
/// approves.
pub open spec fn approval_outcome(ledger: Ledger, ctx: BlockContext, body: TxBody, target: AccountId, key: VerifyingKey) -> Result<
    Map<Seq<u8>, crate::recovery::PendingView>,
    RecoveryError,
> {
    approval_result(
        ledger.recovery_book()@,
        target@,
        key@,
        body.account,
        guardians_of(ledger.account_map(), target@),
        (ctx.finalized_height, RECOVERY_WINDOW_FINALIZED_BLOCKS),
    )
}

/// Whether one of `devices` already signs on `lane`.
pub open spec fn lane_in_use(devices: Seq<(DeviceId, crate::account::Device)>, lane: Lane) -> bool {
    exists|i: int| 0 <= i < devices.len() && (#[trigger] devices[i]).1.lane@ == lane@
}

/// The native balance of account `id` once the fee has been charged: the
/// payer has paid it, and the proposer has received the provider share.
pub open spec fn native_after_fee(ledger: Ledger, ctx: BlockContext, body: TxBody, id: Seq<u8>) -> int {
    let before = balance_in(ledger.account_map(), id, None) as int;
    let debited = if id == body.account@ {
        before - body.fee@
    } else {
        before
    };
    if id == ctx.proposer@ {
        debited + fee_split_spec(body.fee).provider@
    } else {
        debited
    }
}

/// The account an equivocation accuses.
pub open spec fn accused_of(kind: TxKind) -> Seq<u8> {
    match kind {
        TxKind::AccountEquivocation(evidence) => evidence.first.body.account@,
        TxKind::ValidatorEquivocation(evidence) => evidence.validator@,
        _ => Seq::empty(),
    }
}

/// The offence an account equivocation proves: the slot spent twice.
pub open spec fn account_offence_of(evidence: AccountEquivocation) -> AccountOffence {
    AccountOffence {
        account: evidence.first.body.account,
        device: evidence.device,
        lane: evidence.first.body.nonce.lane,
        sequence: evidence.first.body.nonce.sequence,
    }
}

/// The offence a validator equivocation proves: the height signed twice.
pub open spec fn validator_offence_of(evidence: ValidatorEquivocation) -> ValidatorOffence {
    ValidatorOffence { validator: evidence.validator, height: evidence.first.header.height }
}

/// What an equivocation seizes from the accused: the margin bonded against
/// its offline credit, or its validator bond; nothing for other kinds.
pub open spec fn seized_by(ledger: Ledger, body: TxBody) -> nat {
    let accounts = ledger.account_map();
    let accused = accused_of(body.kind);
    if !accounts.contains_key(accused) {
        0
    } else {
        match body.kind {
            TxKind::AccountEquivocation(_) => accounts[accused].nomad_margin@ as nat,
            TxKind::ValidatorEquivocation(_) => accounts[accused].bonded@ as nat,
            _ => 0,
        }
    }
}

/// The half of a seizure that goes to whoever published the proof.
pub open spec fn penalty_reward(ledger: Ledger, body: TxBody) -> nat {
    seized_by(ledger, body) / 2
}

/// The rest of a seizure, which goes to the fire.
pub open spec fn penalty_burn(ledger: Ledger, body: TxBody) -> nat {
    (seized_by(ledger, body) - seized_by(ledger, body) / 2) as nat
}

/// Whether a seizure can be paid out: nothing to do when nothing is seized,
/// else the burn counter and the denouncer's balance must hold their share.
pub open spec fn penalty_result(ledger: Ledger, ctx: BlockContext, body: TxBody) -> Result<(), StateError> {
    if seized_by(ledger, body) == 0 {
        Ok(())
    } else if ledger.burned_ulf() + fee_split_spec(body.fee).burn@ + penalty_burn(ledger, body)
        > u64::MAX {
        Err(StateError::Overflow)
    } else if native_after_fee(ledger, ctx, body, body.account@) + penalty_reward(ledger, body)
        > u64::MAX {
        Err(StateError::Overflow)
    } else {
        Ok(())
    }
}

/// Whether `after` is the offence book that applying `body` leaves of
/// `before`: an equivocation adds its offence, nothing else moves it.
pub open spec fn offences_moved(before: SlashingBook, after: SlashingBook, body: TxBody) -> bool {
    match body.kind {
        TxKind::AccountEquivocation(evidence) => after@ == (
            before@.0.insert(account_offence_of(*evidence).sort_key()),
            before@.1,
        ),
        TxKind::ValidatorEquivocation(evidence) => after@ == (
            before@.0,
            before@.1.insert(validator_offence_of(*evidence).sort_key()),
        ),
        _ => after == before,
    }
}

/// Whether the accused's account holds what an equivocation leaves it: no
/// margin, or no bond.
pub open spec fn stripped(account: Account, kind: TxKind) -> bool {
    match kind {
        TxKind::AccountEquivocation(_) => account.nomad_margin@ == 0,
        TxKind::ValidatorEquivocation(_) => account.bonded@ == 0,
        _ => true,
    }
}

/// What the kind's own rules say, once the envelope, the authority, the
/// offline credit and the fee have all passed: the refusal, or success.
/// Evidence is judged with `verdict`, what the signature scheme answered of
/// its signatures; without one it is not applied, and neither are channel
/// kinds.
pub open spec fn kind_result(ledger: Ledger, ctx: BlockContext, body: TxBody, verdict: Option<
    EvidenceVerdict,
>) -> Result<(), StateError> {
    let accounts = ledger.account_map();
    let payer = body.account@;
    let account = accounts[payer];
    match body.kind {
        TxKind::Transfer { to, asset, amount } => {
            let available = if asset is None {
                native_after_fee(ledger, ctx, body, payer)
            } else {
                account.balance_of(asset) as int
            };
            if available < amount@ {
                Err(
                    StateError::InsufficientBalance {
                        asset,
                        needed: amount,
                        available: Amount::from_spec(available as u64),
                    },
                )
            } else {
                let received = if to@ == payer {
                    available - amount@
                } else if asset is None {
                    native_after_fee(ledger, ctx, body, to@)
                } else {
                    balance_in(accounts, to@, asset) as int
                };
                if received + amount@ > u64::MAX {
                    Err(StateError::Overflow)
                } else {
                    Ok(())
                }
            }
        },
        TxKind::NomadSet { credit, .. } => {
            let allocated = sum_ulf(device_shares(account.devices.entries()));
            if allocated > u64::MAX {
                Err(StateError::Overflow)
            } else if allocated > credit@ {
                Err(
                    StateError::NomadOverAllocated {
                        allocated: Amount::from_spec(allocated as u64),
                        credit,
                    },
                )
            } else {
                Ok(())
            }
        },
        TxKind::DeviceRevoke { device } => {
            if account.devices.map().contains_key(device@) {
                Ok(())
            } else {
                Err(StateError::NoSuchDevice(device))
            }
        },
        TxKind::Bond { amount, .. } => {
            let available = native_after_fee(ledger, ctx, body, payer);
            if available < amount@ {
                Err(
                    StateError::InsufficientBalance {
                        asset: None,
                        needed: amount,
                        available: Amount::from_spec(available as u64),
                    },
                )
            } else if account.bonded@ + amount@ > u64::MAX {
                Err(StateError::Overflow)
            } else {
                Ok(())
            }
        },
        TxKind::Unbond { amount } => {
            if account.bonded@ < amount@ {
                Err(
                    StateError::InsufficientBalance {
                        asset: None,
                        needed: amount,
                        available: account.bonded,
                    },
                )
            } else if native_after_fee(ledger, ctx, body, payer) + amount@ > u64::MAX {
                Err(StateError::Overflow)
            } else {
                Ok(())
            }
        },
        TxKind::DeviceAdd { key, lane, nomad_share } => {
            let device = DeviceId::of_key_spec(key);
            let allocated = sum_ulf(device_shares(account.devices.entries()));
            if account.revoked_devices.map().contains_key(device@) {
                Err(StateError::DeviceWasRevoked(device))
            } else if account.devices.map().contains_key(device@) {
                Err(StateError::DeviceAlreadyExists(device))
            } else if lane_in_use(account.devices.entries(), lane) || lane@ < account.next_lane@ {
                Err(StateError::LaneAlreadyUsed(lane))
            } else if allocated + nomad_share@ > u64::MAX {
                Err(StateError::Overflow)
            } else if allocated + nomad_share@ > account.nomad_credit@ {
                Err(
                    StateError::NomadOverAllocated {
                        allocated: Amount::from_spec((allocated + nomad_share@) as u64),
                        credit: account.nomad_credit,
                    },
                )
            } else if lane@ == u32::MAX {
                Err(StateError::Overflow)
            } else {
                Ok(())
            }
        },
        TxKind::GuardianSet { .. } => Ok(()),
        TxKind::NameCommit { commitment } => {
            if ledger.name_book()@.1.contains_key(commitment@) {
                Err(StateError::Name(NameError::CommitmentExists))
            } else {
                Ok(())
            }
        },
        TxKind::RecoveryStart { account: target, new_root_key } => {
            if !accounts.contains_key(target@) && target@ != ctx.proposer@ {
                Err(StateError::NoSuchAccount(target))
            } else {
                match approval_outcome(ledger, ctx, body, target, new_root_key) {
                    Ok(_) => Ok(()),
                    Err(error) => Err(StateError::Recovery(error)),
                }
            }
        },
        TxKind::RecoveryCancel { account: target } => {
            if target@ != payer || !ledger.recovery_book()@.contains_key(target@) {
                Err(StateError::Recovery(RecoveryError::NotRecovering))
            } else {
                Ok(())
            }
        },
        TxKind::AssetCreate { ticker, .. } => match create_result(
            ledger.asset_book()@,
            created_asset(body),
            ticker,
        ) {
            Err(error) => Err(StateError::Asset(error)),
            Ok(()) => Ok(()),
        },
        TxKind::AssetBurn { asset, amount } => {
            let held = account.balance_of(Some(asset));
            if held < amount@ {
                Err(
                    StateError::InsufficientBalance {
                        asset: Some(asset),
                        needed: amount,
                        available: Amount::from_spec(held as u64),
                    },
                )
            } else {
                match burn_result(ledger.asset_book()@, asset, amount) {
                    Err(error) => Err(StateError::Asset(error)),
                    Ok(()) => Ok(()),
                }
            }
        },
        TxKind::AssetMint { asset, to, amount } => match mint_result(
            ledger.asset_book()@,
            asset,
            body.account,
            amount,
        ) {
            Err(error) => Err(StateError::Asset(error)),
            Ok(()) => if held_before_mint(ledger, body, to@, asset) + amount@ > u64::MAX {
                Err(StateError::Overflow)
            } else {
                Ok(())
            },
        },
        TxKind::NameReveal { name, salt } => match reveal_result(
            ledger.name_book()@,
            name,
            salt,
            body.account,
            ctx.finalized_height,
        ) {
            Err(error) => Err(StateError::Name(error)),
            Ok(()) => Ok(()),
        },
        TxKind::RecoveryFinalise { account: target } => {
            if !accounts.contains_key(target@) && target@ != ctx.proposer@ {
                Err(StateError::NoSuchAccount(target))
            } else {
                match finalise_result(
                    ledger.recovery_book()@,
                    target@,
                    threshold_of(accounts, target@),
                    ctx.finalized_height,
                ) {
                    Err(error) => Err(StateError::Recovery(error)),
                    Ok(_) => if next_lane_of(accounts, target@) == u32::MAX {
                        Err(StateError::Overflow)
                    } else {
                        Ok(())
                    },
                }
            }
        },
        TxKind::AccountEquivocation(evidence) => match verdict {
            None => Err(StateError::NotImplemented { kind: kind_name(body.kind) }),
            Some(verdict) => {
                let accused = evidence.first.body.account;
                if !accounts.contains_key(accused@) && accused@ != ctx.proposer@ {
                    Err(StateError::NoSuchAccount(accused))
                } else if !accounts.contains_key(accused@)
                    || !accounts[accused@].devices.map().contains_key(evidence.device@) {
                    Err(StateError::UnknownAccusedDevice(evidence.device))
                } else if account_evidence_check(*evidence, verdict.account) is Err {
                    Err(StateError::BadEvidence(account_evidence_check(*evidence, verdict.account)->Err_0))
                } else if ledger.offence_book()@.0.contains(account_offence_of(*evidence).sort_key()) {
                    Err(StateError::Slashing(SlashingError::AlreadyPunished))
                } else {
                    penalty_result(ledger, ctx, body)
                }
            },
        },
        TxKind::ValidatorEquivocation(evidence) => match verdict {
            None => Err(StateError::NotImplemented { kind: kind_name(body.kind) }),
            Some(verdict) => {
                let accused = evidence.validator;
                if !accounts.contains_key(accused@) && accused@ != ctx.proposer@ {
                    Err(StateError::NoSuchAccount(accused))
                } else if !(accounts.contains_key(accused@) && accounts[accused@].devices.map().dom()
                    != Set::<Seq<u8>>::empty() && validator_evidence_check(*evidence, Ok(())) is Ok
                    && verdict.validator_signed) {
                    Err(StateError::NotTheValidator(accused))
                } else if ledger.offence_book()@.1.contains(validator_offence_of(*evidence).sort_key()) {
                    Err(StateError::Slashing(SlashingError::AlreadyPunished))
                } else {
                    penalty_result(ledger, ctx, body)
                }
            },
        },
        _ => Err(StateError::NotImplemented { kind: kind_name(body.kind) }),
    }
}

/// The VAN a transaction takes from the device's offline credit: all of its
/// outflow in a provisional block, nothing otherwise.
pub open spec fn nomad_consumed_spec(ctx: BlockContext, body: TxBody) -> nat {
    if ctx.rung is Provisional {
        (body.fee@ + extra_outflow(body.kind)) as nat
    } else {
        0
    }
}

/// What applying `body` to `ledger` in the block `ctx` answers, without a
/// verdict on evidence.
pub open spec fn ledger_result(ledger: Ledger, ctx: BlockContext, body: TxBody) -> Result<
    Applied,
    StateError,
> {
    ledger_outcome(ledger, ctx, body, None)
}

/// What applying `body` to `ledger` in the block `ctx` answers, evidence
/// judged with `verdict`: the checks in the order they are made (envelope,
/// account, authority, outflow, offline credit, fee, the kind's own rules,
/// the nonce), the first refusal, or the fee split and the offline credit
/// consumed.
pub open spec fn ledger_outcome(ledger: Ledger, ctx: BlockContext, body: TxBody, verdict: Option<
    EvidenceVerdict,
>) -> Result<Applied, StateError> {
    let accounts = ledger.account_map();
    let payer = body.account@;
    if envelope_check(ctx, body) is Err {
        Err(envelope_check(ctx, body)->Err_0)
    } else if !accounts.contains_key(payer) {
        Err(StateError::NoSuchAccount(body.account))
    } else if authority_check(accounts[payer], body) is Err {
        Err(authority_check(accounts[payer], body)->Err_0)
    } else if body.fee@ + extra_outflow(body.kind) > u64::MAX {
        Err(StateError::Overflow)
    } else {
        let outflow = body.fee@ + extra_outflow(body.kind);
        let device = accounts[payer].devices.map()[body.device@];
        let split = fee_split_spec(body.fee);
        let balance = accounts[payer].balance_of(None);
        let proposer_before = if ctx.proposer@ == payer {
            balance - body.fee@
        } else {
            balance_in(accounts, ctx.proposer@, None) as int
        };
        if ctx.rung is Provisional && outflow > remaining_credit(device) {
            Err(
                StateError::NomadCreditExhausted {
                    device: body.device,
                    needed: Amount::from_spec(outflow as u64),
                    remaining: Amount::from_spec(remaining_credit(device) as u64),
                },
            )
        } else if balance < body.fee@ {
            Err(
                StateError::InsufficientBalance {
                    asset: None,
                    needed: body.fee,
                    available: Amount::from_spec(balance as u64),
                },
            )
        } else if ledger.burned_ulf() + split.burn@ > u64::MAX {
            Err(StateError::Overflow)
        } else if ledger.pot_ulf() + split.pot@ > u64::MAX {
            Err(StateError::Overflow)
        } else if ledger.fees_ulf() + body.fee@ > u64::MAX {
            Err(StateError::Overflow)
        } else if proposer_before + split.provider@ > u64::MAX {
            Err(StateError::Overflow)
        } else if kind_result(ledger, ctx, body, verdict) is Err {
            Err(kind_result(ledger, ctx, body, verdict)->Err_0)
        } else if body.nonce.sequence == u64::MAX {
            Err(StateError::BadNonce { expected: u64::MAX, got: u64::MAX })
        } else {
            Ok(
                Applied {
                    fee: split,
                    nomad_consumed: Amount::from_spec(nomad_consumed_spec(ctx, body) as u64),
                },
            )
        }
    }
}

/// The native balance of account `id` once the whole transaction has been
/// applied: after the fee, and after whatever VAN the kind moves.
pub open spec fn native_final(ledger: Ledger, ctx: BlockContext, body: TxBody, id: Seq<u8>) -> int {
    let after = native_after_fee(ledger, ctx, body, id);
    let payer = body.account@;
    match body.kind {
        TxKind::Transfer { to, asset, amount } => if asset is None {
            after - (if id == payer {
                amount@ as int
            } else {
                0
            }) + (if id == to@ {
                amount@ as int
            } else {
                0
            })
        } else {
            after
        },
        TxKind::Bond { amount, .. } => if id == payer {
            after - amount@
        } else {
            after
        },
        TxKind::Unbond { amount } => if id == payer {
            after + amount@
        } else {
            after
        },
        TxKind::AccountEquivocation(_) => if id == payer {
            after + penalty_reward(ledger, body)
        } else {
            after
        },
        TxKind::ValidatorEquivocation(_) => if id == payer {
            after + penalty_reward(ledger, body)
        } else {
            after
        },
        _ => after,
    }
}

/// Whether an account is one that applying `body` in `ctx` may touch: the
/// payer, the proposer, and a transfer's recipient.
pub open spec fn touched(ctx: BlockContext, body: TxBody, id: Seq<u8>) -> bool {
    ||| id == body.account@
    ||| id == ctx.proposer@
    ||| (body.kind matches TxKind::Transfer { to, .. } && id == to@)
    ||| (body.kind matches TxKind::RecoveryFinalise { account } && id == account@)
    ||| (body.kind matches TxKind::AssetMint { to, .. } && id == to@)
    ||| (body.kind is AccountEquivocation && id == accused_of(body.kind))
    ||| (body.kind is ValidatorEquivocation && id == accused_of(body.kind))
}

/// No device of any account has spent more of its offline credit than its
/// share.
pub open spec fn within_credit(accounts: Map<Seq<u8>, Account>) -> bool {
    forall|id: Seq<u8>, device: Seq<u8>|
        #![trigger accounts[id].devices.map()[device]]
        accounts.contains_key(id) && accounts[id].devices.map().contains_key(device)
            ==> accounts[id].devices.map()[device].nomad_spent@
            <= accounts[id].devices.map()[device].nomad_share@
}

/// How the devices stand after a successful application: every device is
/// either new and has spent nothing, or was there before with the same share
/// and the same spending, save the signing device, whose spending grew by
/// what the transaction consumed of the offline credit.
pub open spec fn devices_moved(old: Ledger, new: Ledger, ctx: BlockContext, body: TxBody) -> bool {
    forall|id: Seq<u8>, d: Seq<u8>|
        #![trigger new.account_map()[id].devices.map()[d]]
        new.account_map().contains_key(id) && new.account_map()[id].devices.map().contains_key(d)
            ==> {
            let now = new.account_map()[id].devices.map()[d];
            ||| now.nomad_spent@ == 0
            ||| {
                &&& old.account_map().contains_key(id)
                &&& old.account_map()[id].devices.map().contains_key(d)
                &&& now.nomad_share == old.account_map()[id].devices.map()[d].nomad_share
                &&& now.nomad_spent@ == old.account_map()[id].devices.map()[d].nomad_spent@ + (
                if id == body.account@ && d == body.device@ {
                    nomad_consumed_spec(ctx, body)
                } else {
                    0
                })
            }
        }
}

/// The asset a creation makes: the one whose identifier is derived from
/// the creator and the creating transaction.
pub open spec fn created_asset(body: TxBody) -> AssetId {
    AssetId::from_view(blake3_derive_key(domain::ASSET_ID@, body.account@ + body_id(body)))
}

/// Whether `after` is the registry that applying `body` leaves of `before`:
/// a creation adds its asset, a mint or a burn moves its asset's supply,
/// nothing else moves it.
pub open spec fn registry_moved(before: AssetRegistry, after: AssetRegistry, body: TxBody) -> bool {
    match body.kind {
        TxKind::AssetCreate { ticker, decimals, reissuable } => after@ == created(
            before@,
            created_asset(body),
            body.account,
            ticker,
            decimals,
            reissuable,
        ),
        TxKind::AssetMint { asset, amount, .. } => after@ == minted(before@, asset, amount),
        TxKind::AssetBurn { asset, amount } => after@ == burned(before@, asset, amount),
        _ => after == before,
    }
}

/// The balance of asset `asset` that the recipient of a mint holds before
/// it: the payer's own, whom the fee does not touch in that asset, or the
/// recipient's.
pub open spec fn held_before_mint(ledger: Ledger, body: TxBody, to: Seq<u8>, asset: AssetId) -> nat {
    if to == body.account@ {
        ledger.account_map()[to].balance_of(Some(asset))
    } else {
        balance_in(ledger.account_map(), to, Some(asset))
    }
}

/// The account, besides the payer and the proposer, whose VAN a
/// transaction may move: a transfer's or a mint's recipient, or the account
/// a recovery completes; the payer for every other kind.
pub open spec fn third_party(body: TxBody) -> Seq<u8> {
    match body.kind {
        TxKind::Transfer { to, .. } => to@,
        TxKind::AssetMint { to, .. } => to@,
        TxKind::RecoveryFinalise { account } => account@,
        TxKind::AccountEquivocation(_) => accused_of(body.kind),
        TxKind::ValidatorEquivocation(_) => accused_of(body.kind),
        _ => body.account@,
    }
}

/// What the native balance of `id` gained from `old` to `new`.
pub open spec fn native_gain(old: Ledger, new: Ledger, id: Seq<u8>) -> int {
    balance_in(new.account_map(), id, None) - balance_in(old.account_map(), id, None)
}

/// What the accounts a transaction touches gained in VAN, each counted once.
pub open spec fn touched_gain(old: Ledger, new: Ledger, ctx: BlockContext, body: TxBody) -> int {
    let p = body.account@;
    let q = ctx.proposer@;
    let r = third_party(body);
    native_gain(old, new, p) + (if q != p {
        native_gain(old, new, q)
    } else {
        0
    }) + (if r != p && r != q {
        native_gain(old, new, r)
    } else {
        0
    })
}

/// The VAN a transaction locks away, in the validator bond or the margin,
/// or releases from them: a bond, an unbond, or a seizure.
pub open spec fn locked_flow(old: Ledger, body: TxBody) -> int {
    match body.kind {
        TxKind::Bond { amount, .. } => amount@ as int,
        TxKind::Unbond { amount } => -(amount@ as int),
        TxKind::AccountEquivocation(_) => -(seized_by(old, body) as int),
        TxKind::ValidatorEquivocation(_) => -(seized_by(old, body) as int),
        _ => 0,
    }
}

/// Value is conserved except for the fire: when a transaction is applied,
/// what the accounts it touches gain in VAN, with what goes to the fire, to
/// the context pot and into the bond or the margin, adds up to nothing, and
/// no other account moves.
pub proof fn lemma_value_conserved(old: Ledger, new: Ledger, ctx: BlockContext, body: TxBody)
    requires
        applied_effect(old, new, ctx, body),
    ensures
        touched_gain(old, new, ctx, body) + (new.burned_ulf() - old.burned_ulf()) + (new.pot_ulf()
            - old.pot_ulf()) + locked_flow(old, body) == 0,
        forall|id: Seq<u8>|
            !touched(ctx, body, id) ==> #[trigger] native_gain(old, new, id) == 0,
{
    let p = body.account@;
    let q = ctx.proposer@;
    let r = third_party(body);
    lemma_fee_split_spec(body.fee);
    assert(touched(ctx, body, p));
    assert(touched(ctx, body, q));
    assert(touched(ctx, body, r));
    assert(balance_in(new.account_map(), p, None) == native_final(old, ctx, body, p));
    assert(balance_in(new.account_map(), q, None) == native_final(old, ctx, body, q));
    assert(balance_in(new.account_map(), r, None) == native_final(old, ctx, body, r));
    assert forall|id: Seq<u8>| !touched(ctx, body, id) implies #[trigger] native_gain(old, new, id)
        == 0 by {
        assert(new.account_map().contains_key(id) == old.account_map().contains_key(id));
    }
}

/// Through the ledger too, a recovery completes only once at least as many
/// distinct guardians as the account's threshold have approved it.
pub proof fn lemma_recovery_needs_threshold(
    ledger: Ledger,
    ctx: BlockContext,
    body: TxBody,
    verdict: Option<EvidenceVerdict>,
)
    ensures
        match body.kind {
            TxKind::RecoveryFinalise { account } => ledger_outcome(ledger, ctx, body, verdict) is Ok
                ==> {
                &&& ledger.recovery_book()@.contains_key(account@)
                &&& ledger.account_map().contains_key(account@) ==> ledger.recovery_book()@[account@].1.len()
                    >= ledger.account_map()[account@].guardian_threshold
            },
            _ => true,
        },
{
    match body.kind {
        TxKind::RecoveryFinalise { account } => {
            crate::recovery::lemma_finalise_needs_threshold(
                ledger.recovery_book()@,
                account@,
                threshold_of(ledger.account_map(), account@),
                ctx.finalized_height,
            );
        },
        _ => {},
    }
}

/// What each kind's own rules admit, said directly: a transfer or a bond
/// never takes more than the payer holds once the fee is paid, an unbond
/// never more than is bonded; a device is revoked only if held, and added
/// only if never held or revoked, on an unused lane not below the next one,
/// with its share within the declared credit; the credit is never set below
/// what the devices already share; a commitment is staked once; only the
/// account itself cancels its recovery, and only one under way; a burn never
/// takes more than the payer holds or the asset's supply; a mint is the
/// issuer's; channel kinds are never admitted.
pub proof fn lemma_kind_rules(ledger: Ledger, ctx: BlockContext, body: TxBody, verdict: Option<EvidenceVerdict>)
    ensures
        kind_result(ledger, ctx, body, verdict) is Ok ==> {
            let account = ledger.account_map()[body.account@];
            let allocated = sum_ulf(device_shares(account.devices.entries()));
            match body.kind {
                TxKind::Transfer { asset, amount, .. } => if asset is None {
                    amount@ <= native_after_fee(ledger, ctx, body, body.account@)
                } else {
                    amount@ <= account.balance_of(asset)
                },
                TxKind::Bond { amount, .. } => amount@ <= native_after_fee(
                    ledger,
                    ctx,
                    body,
                    body.account@,
                ) && account.bonded@ + amount@ <= u64::MAX,
                TxKind::Unbond { amount } => amount@ <= account.bonded@,
                TxKind::DeviceRevoke { device } => account.devices.map().contains_key(device@),
                TxKind::NomadSet { credit, .. } => allocated <= credit@,
                TxKind::DeviceAdd { key, lane, nomad_share } => {
                    let device = DeviceId::of_key_spec(key)@;
                    &&& !account.revoked_devices.map().contains_key(device)
                    &&& !account.devices.map().contains_key(device)
                    &&& account.next_lane@ <= lane@ < u32::MAX
                    &&& forall|i: int|
                        0 <= i < account.devices.entries().len() ==> (
                        #[trigger] account.devices.entries()[i]).1.lane@ != lane@
                    &&& allocated + nomad_share@ <= account.nomad_credit@
                },
                TxKind::NameCommit { commitment } => !ledger.name_book()@.1.contains_key(
                    commitment@,
                ),
                TxKind::RecoveryCancel { account: target } => target@ == body.account@
                    && ledger.recovery_book()@.contains_key(target@),
                TxKind::AssetBurn { asset, amount } => {
                    &&& 0 < amount@ <= account.balance_of(Some(asset))
                    &&& ledger.asset_book()@.0.contains_key(asset@)
                    &&& amount@ <= ledger.asset_book()@.0[asset@].4
                },
                TxKind::AssetMint { asset, .. } => ledger.asset_book()@.0.contains_key(asset@)
                    && ledger.asset_book()@.0[asset@].0 == body.account@,
                TxKind::PurseOpen { .. } => false,
                TxKind::PurseCloseCooperative { .. } => false,
                TxKind::PurseCloseUnilateral { .. } => false,
                TxKind::PurseDispute { .. } => false,
                _ => true,
            }
        },
{
}

/// What one call of `Ledger::apply` leaves of `old`, as its contract puts
/// it: a refused transaction leaves the ledger as it was, an accepted one
/// moves the devices as `devices_moved` says.
pub open spec fn apply_step(old: Ledger, ctx: BlockContext, body: TxBody, verdict: Option<
    EvidenceVerdict,
>, new: Ledger) -> bool {
    if ledger_outcome(old, ctx, body, verdict) is Ok {
        devices_moved(old, new, ctx, body)
    } else {
        new == old
    }
}

/// A run of applications: `states[i + 1]` is what applying `bodies[i]` in
/// the block `ctxs[i]`, evidence judged with `verdicts[i]`, left of
/// `states[i]`.
pub open spec fn apply_run(
    states: Seq<Ledger>,
    ctxs: Seq<BlockContext>,
    bodies: Seq<TxBody>,
    verdicts: Seq<Option<EvidenceVerdict>>,
) -> bool {
    &&& states.len() == bodies.len() + 1
    &&& ctxs.len() == bodies.len()
    &&& verdicts.len() == bodies.len()
    &&& forall|i: int|
        0 <= i < bodies.len() ==> #[trigger] apply_step(
            states[i],
            ctxs[i],
            bodies[i],
            verdicts[i],
            states[i + 1],
        )
}

/// One accepted transaction keeps every device within its share of the
/// offline credit.
pub proof fn lemma_step_within_credit(
    old: Ledger,
    new: Ledger,
    ctx: BlockContext,
    body: TxBody,
    verdict: Option<EvidenceVerdict>,
)
    requires
        ledger_outcome(old, ctx, body, verdict) is Ok,
        devices_moved(old, new, ctx, body),
        within_credit(old.account_map()),
    ensures
        within_credit(new.account_map()),
{
    assert forall|id: Seq<u8>, d: Seq<u8>|
        new.account_map().contains_key(id) && new.account_map()[id].devices.map().contains_key(
            d,
        ) implies #[trigger] new.account_map()[id].devices.map()[d].nomad_spent@
        <= new.account_map()[id].devices.map()[d].nomad_share@ by {
        let now = new.account_map()[id].devices.map()[d];
        if now.nomad_spent@ != 0 {
            let was = old.account_map()[id].devices.map()[d];
            assert(was.nomad_spent@ <= was.nomad_share@);
        }
    }
}

/// The offline credit's ceiling: from a ledger where no device has spent
/// more than its share, no run of applications, provisional or not, ever
/// lets a device spend more than its share.
pub proof fn lemma_nomad_ceiling(
    states: Seq<Ledger>,
    ctxs: Seq<BlockContext>,
    bodies: Seq<TxBody>,
    verdicts: Seq<Option<EvidenceVerdict>>,
)
    requires
        apply_run(states, ctxs, bodies, verdicts),
        within_credit(states[0].account_map()),
    ensures
        forall|i: int| 0 <= i < states.len() ==> within_credit(#[trigger] states[i].account_map()),
    decreases bodies.len(),
{
    if bodies.len() > 0 {
        let n = bodies.len() - 1;
        let head = states.take(n + 1);
        assert(apply_run(head, ctxs.take(n), bodies.take(n), verdicts.take(n))) by {
            assert forall|i: int| 0 <= i < n implies #[trigger] apply_step(
                head[i],
                ctxs.take(n)[i],
                bodies.take(n)[i],
                verdicts.take(n)[i],
                head[i + 1],
            ) by {
                assert(apply_step(states[i], ctxs[i], bodies[i], verdicts[i], states[i + 1]));
            }
        }
        lemma_nomad_ceiling(head, ctxs.take(n), bodies.take(n), verdicts.take(n));
        assert(within_credit(head[n].account_map()));
        assert(apply_step(states[n], ctxs[n], bodies[n], verdicts[n], states[n + 1]));
        if ledger_outcome(states[n], ctxs[n], bodies[n], verdicts[n]) is Ok {
            lemma_step_within_credit(states[n], states[n + 1], ctxs[n], bodies[n], verdicts[n]);
        }
        assert forall|i: int| 0 <= i < states.len() implies within_credit(
            #[trigger] states[i].account_map(),
        ) by {
            if i <= n {
                assert(within_credit(head[i].account_map()));
            }
        }
    }
}

/// What a successful application does to the ledger.
pub open spec fn applied_effect(old: Ledger, new: Ledger, ctx: BlockContext, body: TxBody) -> bool {
    let split = fee_split_spec(body.fee);
    let payer = body.account@;
    let before = old.account_map()[payer];
    let after = new.account_map()[payer];
    &&& new.burned_ulf() == old.burned_ulf() + split.burn@ + penalty_burn(old, body)
    &&& new.pot_ulf() == old.pot_ulf() + split.pot@
    &&& new.fees_ulf() == old.fees_ulf() + body.fee@
    &&& registry_moved(old.asset_book(), new.asset_book(), body)
    &&& offences_moved(old.offence_book(), new.offence_book(), body)
    &&& stripped(new.account_map()[accused_of(body.kind)], body.kind)
    &&& new.name_book()@ == match body.kind {
        TxKind::NameCommit { commitment } => (
            old.name_book()@.0,
            old.name_book()@.1.insert(commitment@, (payer, ctx.finalized_height)),
        ),
        TxKind::NameReveal { name, salt } => (
            old.name_book()@.0.insert(name.sort_key(), payer),
            old.name_book()@.1.remove(commitment_of(name.spec_encode(), salt@, payer)),
        ),
        _ => old.name_book()@,
    }
    &&& new.recovery_book()@ == match body.kind {
        TxKind::RecoveryCancel { account } => old.recovery_book()@.remove(account@),
        TxKind::RecoveryFinalise { account } => old.recovery_book()@.remove(account@),
        TxKind::RecoveryStart { account, new_root_key } => approval_outcome(
            old,
            ctx,
            body,
            account,
            new_root_key,
        )->Ok_0,
        _ => old.recovery_book()@,
    }
    &&& forall|id: Seq<u8>|
        !touched(ctx, body, id) ==> (#[trigger] new.account_map().contains_key(id)
            == old.account_map().contains_key(id) && (old.account_map().contains_key(id)
            ==> new.account_map()[id] == old.account_map()[id]))
    &&& new.account_map().contains_key(payer)
    &&& new.account_map().contains_key(ctx.proposer@)
    &&& forall|id: Seq<u8>|
        touched(ctx, body, id) ==> #[trigger] balance_in(new.account_map(), id, None)
            == native_final(old, ctx, body, id)
    &&& match body.kind {
        TxKind::Transfer { to, asset, amount } => asset is Some && to@ != payer ==> balance_in(
            new.account_map(),
            payer,
            asset,
        ) == before.balance_of(asset) - amount@ && balance_in(new.account_map(), to@, asset)
            == balance_in(old.account_map(), to@, asset) + amount@,
        TxKind::AssetBurn { asset, amount } => balance_in(new.account_map(), payer, Some(asset))
            == before.balance_of(Some(asset)) - amount@,
        TxKind::AssetMint { asset, to, amount } => balance_in(new.account_map(), to@, Some(asset))
            == held_before_mint(old, body, to@, asset) + amount@,
        _ => true,
    }
    &&& after.lanes.counters() == before.lanes.counters().insert(
        body.nonce.lane@,
        (body.nonce.sequence + 1) as u64,
    )
    &&& body.kind !is RecoveryFinalise && after.devices.map().contains_key(body.device@)
        ==> after.devices.map()[body.device@].nomad_spent@
        == before.devices.map()[body.device@].nomad_spent@ + nomad_consumed_spec(ctx, body)
    &&& match body.kind {
        TxKind::NomadSet { credit, margin } => after.nomad_credit == credit && after.nomad_margin
            == margin,
        TxKind::Bond { amount, .. } => after.bonded@ == before.bonded@ + amount@,
        TxKind::Unbond { amount } => after.bonded@ == before.bonded@ - amount@,
        TxKind::DeviceRevoke { device } => after.devices.map() == before.devices.map().remove(
            device@,
        ) && after.revoked_devices.map() == before.revoked_devices.map().insert(device@, ()),
        TxKind::GuardianSet { guardians, threshold } => after.guardians.map().dom()
            == guardians.map().dom() && after.guardian_threshold == threshold,
        TxKind::DeviceAdd { key, lane, nomad_share } => {
            let device = DeviceId::of_key_spec(key)@;
            &&& after.devices.map().contains_key(device)
            &&& after.devices.map()[device].key@ == key@
            &&& after.devices.map()[device].lane == lane
            &&& after.devices.map()[device].nomad_share == nomad_share
            &&& after.devices.map()[device].nomad_spent@ == 0
            &&& after.next_lane@ == lane@ + 1
        },
        TxKind::RecoveryFinalise { account: target } => recovery_done(
            old,
            ctx,
            target@,
            new.account_map()[target@],
        ),
        _ => true,
    }
}

/// An account that holds no device and has never held one, with no
/// guardian threshold and its first lane next.
pub open spec fn blank(account: Account) -> bool {
    &&& account.devices.map() == Map::<Seq<u8>, crate::account::Device>::empty()
    &&& account.revoked_devices.map() == Map::<Seq<u8>, ()>::empty()
    &&& account.guardian_threshold == 0
    &&& account.next_lane@ == 0
}

/// The state once the fee has been charged, the payer being held apart
/// from the ledger: the payer has paid the fee, the proposer holds the
/// provider share, the counters have grown, and nothing else has moved.
pub open spec fn fee_charged(start: Ledger, ledger: Ledger, payer: Account, ctx: BlockContext, body: TxBody) -> bool {
    let p = body.account@;
    let q = ctx.proposer@;
    let original = start.account_map()[p];
    let split = fee_split_spec(body.fee);
    &&& ledger.wf()
    &&& payer.wf()
    &&& original.same_but_balances(payer)
    &&& payer.balance_of(None) == native_after_fee(start, ctx, body, p)
    &&& forall|a: Option<AssetId>| a is Some ==> #[trigger] payer.balance_of(a) == original.balance_of(a)
    &&& !ledger.account_map().contains_key(p)
    &&& forall|id: Seq<u8>|
        id != p && id != q ==> (#[trigger] ledger.account_map().contains_key(id)
            == start.account_map().contains_key(id) && (start.account_map().contains_key(id)
            ==> ledger.account_map()[id] == start.account_map()[id]))
    &&& q != p ==> {
        &&& ledger.account_map().contains_key(q)
        &&& balance_in(ledger.account_map(), q, None) == native_after_fee(start, ctx, body, q)
        &&& forall|a: Option<AssetId>| a is Some ==> #[trigger] balance_in(ledger.account_map(), q, a)
            == balance_in(start.account_map(), q, a)
        &&& start.account_map().contains_key(q) ==> start.account_map()[q].same_but_balances(
            ledger.account_map()[q],
        )
        &&& !start.account_map().contains_key(q) ==> blank(ledger.account_map()[q])
    }
    &&& ledger.asset_book() == start.asset_book()
    &&& ledger.name_book() == start.name_book()
    &&& ledger.recovery_book() == start.recovery_book()
    &&& ledger.offence_book() == start.offence_book()
    &&& ledger.burned_ulf() == start.burned_ulf() + split.burn@
    &&& ledger.pot_ulf() == start.pot_ulf() + split.pot@
    &&& ledger.fees_ulf() == start.fees_ulf() + body.fee@
}

/// The account `after` is `before` with a device added for `key`, on
/// `lane`, with `share` of the offline credit and nothing spent, and the
/// next lane moved past it.
pub open spec fn device_added(before: Account, after: Account, key: VerifyingKey, lane: Lane, share: Amount) -> bool {
    let device = DeviceId::of_key_spec(key)@;
    &&& after.devices.map().dom() == before.devices.map().dom().insert(device)
    &&& forall|d: Seq<u8>|
        d != device && #[trigger] before.devices.map().contains_key(d) ==> after.devices.map()[d]
            == before.devices.map()[d]
    &&& after.devices.map()[device].key@ == key@
    &&& after.devices.map()[device].lane == lane
    &&& after.devices.map()[device].nomad_share == share
    &&& after.devices.map()[device].nomad_spent@ == 0
    &&& after.next_lane@ == lane@ + 1
    &&& after.revoked_devices == before.revoked_devices
}

/// The state once the kind's own effect has been carried out, the payer
/// still held apart from the ledger.
pub open spec fn kind_applied(start: Ledger, ledger: Ledger, payer: Account, ctx: BlockContext, body: TxBody) -> bool {
    let p = body.account@;
    let original = start.account_map()[p];
    let split = fee_split_spec(body.fee);
    &&& ledger.wf()
    &&& payer.wf()
    &&& !ledger.account_map().contains_key(p)
    &&& payer.balance_of(None) == native_final(start, ctx, body, p)
    &&& forall|id: Seq<u8>|
        id != p && touched(ctx, body, id) ==> #[trigger] ledger.account_map().contains_key(id)
            && balance_in(ledger.account_map(), id, None) == native_final(start, ctx, body, id)
            && (!(body.kind matches TxKind::RecoveryFinalise { account } && id == account@) ==> {
            &&& start.account_map().contains_key(id) ==> ledger.account_map()[id].devices
                == start.account_map()[id].devices
            &&& !start.account_map().contains_key(id) ==> ledger.account_map()[id].devices.map()
                == Map::<Seq<u8>, crate::account::Device>::empty()
        })
    &&& forall|id: Seq<u8>|
        !touched(ctx, body, id) ==> (#[trigger] ledger.account_map().contains_key(id)
            == start.account_map().contains_key(id) && (start.account_map().contains_key(id)
            ==> ledger.account_map()[id] == start.account_map()[id]))
    &&& payer.lanes == original.lanes
    &&& match body.kind {
        TxKind::Transfer { to, asset, amount } => {
            &&& payer.devices == original.devices
            &&& asset is Some && to@ != p ==> payer.balance_of(asset) == original.balance_of(asset)
                - amount@ && balance_in(ledger.account_map(), to@, asset) == balance_in(
                start.account_map(),
                to@,
                asset,
            ) + amount@
        },
        TxKind::NomadSet { credit, margin } => payer.devices == original.devices
            && payer.nomad_credit == credit && payer.nomad_margin == margin,
        TxKind::Bond { amount, .. } => payer.devices == original.devices && payer.bonded@
            == original.bonded@ + amount@,
        TxKind::Unbond { amount } => payer.devices == original.devices && payer.bonded@
            == original.bonded@ - amount@,
        TxKind::DeviceRevoke { device } => payer.devices.map() == original.devices.map().remove(
            device@,
        ) && payer.revoked_devices.map() == original.revoked_devices.map().insert(device@, ()),
        TxKind::GuardianSet { guardians, threshold } => payer.devices == original.devices
            && payer.guardians.map().dom() == guardians.map().dom() && payer.guardian_threshold
            == threshold,
        TxKind::AssetBurn { asset, amount } => payer.devices == original.devices
            && payer.balance_of(Some(asset)) == original.balance_of(Some(asset)) - amount@,
        TxKind::AssetMint { asset, to, amount } => {
            &&& payer.devices == original.devices
            &&& to@ == p ==> payer.balance_of(Some(asset)) == original.balance_of(Some(asset))
                + amount@
            &&& to@ != p ==> balance_in(ledger.account_map(), to@, Some(asset)) == balance_in(
                start.account_map(),
                to@,
                Some(asset),
            ) + amount@
        },
        TxKind::DeviceAdd { key, lane, nomad_share } => device_added(
            original,
            payer,
            key,
            lane,
            nomad_share,
        ),
        TxKind::RecoveryFinalise { account: target } => {
            &&& ledger.account_map().contains_key(target@) || target@ == p
            &&& recovery_done(
                start,
                ctx,
                target@,
                if target@ == p {
                    payer
                } else {
                    ledger.account_map()[target@]
                },
            )
            &&& target@ != p ==> payer.devices == original.devices
        },
        _ => payer.devices == original.devices,
    }
    &&& registry_moved(start.asset_book(), ledger.asset_book(), body)
    &&& offences_moved(start.offence_book(), ledger.offence_book(), body)
    &&& stripped(
        if accused_of(body.kind) == p {
            payer
        } else {
            ledger.account_map()[accused_of(body.kind)]
        },
        body.kind,
    )
    &&& ledger.name_book()@ == match body.kind {
        TxKind::NameCommit { commitment } => (
            start.name_book()@.0,
            start.name_book()@.1.insert(commitment@, (p, ctx.finalized_height)),
        ),
        TxKind::NameReveal { name, salt } => (
            start.name_book()@.0.insert(name.sort_key(), p),
            start.name_book()@.1.remove(commitment_of(name.spec_encode(), salt@, p)),
        ),
        _ => start.name_book()@,
    }
    &&& ledger.recovery_book()@ == match body.kind {
        TxKind::RecoveryCancel { account } => start.recovery_book()@.remove(account@),
        TxKind::RecoveryFinalise { account } => start.recovery_book()@.remove(account@),
        TxKind::RecoveryStart { account, new_root_key } => approval_outcome(
            start,
            ctx,
            body,
            account,
            new_root_key,
        )->Ok_0,
        _ => start.recovery_book()@,
    }
    &&& ledger.burned_ulf() == start.burned_ulf() + split.burn@ + penalty_burn(start, body)
    &&& ledger.pot_ulf() == start.pot_ulf() + split.pot@
    &&& ledger.fees_ulf() == start.fees_ulf() + body.fee@
}

impl Ledger {
    /// The native balance of `id` once the fee has been charged.
    fn native_after_fee_of(&self, ctx: &BlockContext, body: &TxBody, id: &AccountId) -> (balance: u64)
        requires
            self.wf(),
            0 <= native_after_fee(*self, *ctx, *body, id@) <= u64::MAX,
            self.account_map().contains_key(body.account@) ==> balance_in(self.account_map(), body.account@, None) >= body.fee@,
            self.account_map().contains_key(body.account@),
        ensures
            balance == native_after_fee(*self, *ctx, *body, id@),
    {
        let before: u64 = match self.accounts.get(id) {
            Some(account) => {
                proof {
                    assert(self.accounts.map().contains_key(id@));
                }
                account.balance(None).as_ulf()
            },
            None => 0,
        };
        let provider = FeeSplit::of(body.fee).provider.as_ulf();
        proof {
            lemma_fee_split_spec(body.fee);
        }
        let payer = id.same_as(&body.account);
        let proposer = id.same_as(&ctx.proposer);
        proof {
            assert(id@.len() == 32) by { AccountId::lemma_len(*id); }
        }
        if payer && proposer {
            (before - body.fee.as_ulf()) + provider
        } else if payer {
            before - body.fee.as_ulf()
        } else if proposer {
            before + provider
        } else {
            before
        }
    }

    /// The kind's own rules, read without changing anything.
    #[verifier::spinoff_prover]
    #[verifier::rlimit(50)]
    fn kind_check(&self, ctx: &BlockContext, body: &TxBody, verdict: Option<EvidenceVerdict>) -> (result: Result<(), StateError>)
        requires
            self.wf(),
            self.account_map().contains_key(body.account@),
            self.account_map()[body.account@].balance_of(None) >= body.fee@,
            forall|id: Seq<u8>| 0 <= #[trigger] native_after_fee(*self, *ctx, *body, id) <= u64::MAX,
        ensures
            result == kind_result(*self, *ctx, *body, verdict),
    {
        let account = match self.accounts.get(&body.account) {
            Some(account) => account,
            None => {
                return Err(StateError::NoSuchAccount(body.account));
            },
        };
        proof {
            assert(self.accounts.map().contains_key(body.account@));
            assert(account.wf());
        }
        match &body.kind {
            TxKind::Transfer { to, asset, amount } => {
                let available: u64 = match asset {
                    None => self.native_after_fee_of(ctx, body, &body.account),
                    Some(_) => account.balance(*asset).as_ulf(),
                };
                if available < amount.as_ulf() {
                    proof {
                        Amount::lemma_from_spec(available);
                    }
                    return Err(
                        StateError::InsufficientBalance {
                            asset: *asset,
                            needed: *amount,
                            available: Amount::from_ulf(available),
                        },
                    );
                }
                let received: u64 = if to.same_as(&body.account) {
                    available - amount.as_ulf()
                } else {
                    match asset {
                        None => self.native_after_fee_of(ctx, body, to),
                        Some(_) => match self.accounts.get(to) {
                            Some(recipient) => {
                                proof {
                                    assert(self.accounts.map().contains_key(to@));
                                }
                                recipient.balance(*asset).as_ulf()
                            },
                            None => 0,
                        },
                    }
                };
                if received.checked_add(amount.as_ulf()).is_none() {
                    return Err(StateError::Overflow);
                }
                Ok(())
            },
            TxKind::NomadSet { credit, .. } => {
                let allocated = match account.allocated_nomad() {
                    Some(allocated) => allocated,
                    None => {
                        return Err(StateError::Overflow);
                    },
                };
                if allocated.as_ulf() > credit.as_ulf() {
                    proof {
                        Amount::lemma_from_spec(allocated@);
                    }
                    return Err(StateError::NomadOverAllocated { allocated, credit: *credit });
                }
                Ok(())
            },
            TxKind::DeviceRevoke { device } => {
                if account.devices.contains(device) {
                    Ok(())
                } else {
                    Err(StateError::NoSuchDevice(*device))
                }
            },
            TxKind::Bond { amount, .. } => {
                let available = self.native_after_fee_of(ctx, body, &body.account);
                if available < amount.as_ulf() {
                    proof {
                        Amount::lemma_from_spec(available);
                    }
                    return Err(
                        StateError::InsufficientBalance {
                            asset: None,
                            needed: *amount,
                            available: Amount::from_ulf(available),
                        },
                    );
                }
                if account.bonded.checked_add(*amount).is_none() {
                    return Err(StateError::Overflow);
                }
                Ok(())
            },
            TxKind::Unbond { amount } => {
                if account.bonded.as_ulf() < amount.as_ulf() {
                    return Err(
                        StateError::InsufficientBalance {
                            asset: None,
                            needed: *amount,
                            available: account.bonded,
                        },
                    );
                }
                let available = self.native_after_fee_of(ctx, body, &body.account);
                if available.checked_add(amount.as_ulf()).is_none() {
                    return Err(StateError::Overflow);
                }
                Ok(())
            },
            TxKind::DeviceAdd { key, lane, nomad_share } => {
                let device = DeviceId::of_device_key(key);
                if account.revoked_devices.contains(&device) {
                    return Err(StateError::DeviceWasRevoked(device));
                }
                if account.devices.contains(&device) {
                    return Err(StateError::DeviceAlreadyExists(device));
                }
                if lane_used(account.devices.as_slice(), *lane) || lane.index()
                    < account.next_lane.index() {
                    return Err(StateError::LaneAlreadyUsed(*lane));
                }
                let allocated = match account.allocated_nomad() {
                    Some(allocated) => allocated,
                    None => {
                        return Err(StateError::Overflow);
                    },
                };
                let total = match allocated.checked_add(*nomad_share) {
                    Some(total) => total,
                    None => {
                        return Err(StateError::Overflow);
                    },
                };
                if total.as_ulf() > account.nomad_credit.as_ulf() {
                    proof {
                        Amount::lemma_from_spec(total@);
                    }
                    return Err(
                        StateError::NomadOverAllocated {
                            allocated: total,
                            credit: account.nomad_credit,
                        },
                    );
                }
                if lane.next().is_none() {
                    return Err(StateError::Overflow);
                }
                Ok(())
            },
            TxKind::GuardianSet { .. } => Ok(()),
            TxKind::NameCommit { commitment } => {
                if self.names.has_commitment(commitment) {
                    Err(StateError::Name(NameError::CommitmentExists))
                } else {
                    Ok(())
                }
            },
            TxKind::RecoveryStart { account: target, new_root_key } => {
                let none: SortedMap<AccountId, ()> = SortedMap::new();
                let guardians = match self.accounts.get(target) {
                    Some(held) => {
                        proof {
                            assert(self.accounts.map().contains_key(target@));
                            assert(held.wf());
                        }
                        &held.guardians
                    },
                    None => {
                        if !target.same_as(&ctx.proposer) {
                            return Err(StateError::NoSuchAccount(*target));
                        }
                        proof {
                            assert(none.map().dom() =~= Set::<Seq<u8>>::empty());
                        }
                        &none
                    },
                };
                match self.recoveries.check_approval(target, new_root_key, body.account, guardians) {
                    Ok(()) => Ok(()),
                    Err(error) => {
                        proof {
                            assert(approval_outcome(*self, *ctx, *body, *target, *new_root_key) is Err);
                        }
                        Err(StateError::Recovery(error))
                    },
                }
            },
            TxKind::RecoveryCancel { account: target } => {
                if !target.same_as(&body.account) {
                    return Err(StateError::Recovery(RecoveryError::NotRecovering));
                }
                match self.recoveries.get(target) {
                    Some(_) => Ok(()),
                    None => Err(StateError::Recovery(RecoveryError::NotRecovering)),
                }
            },
            TxKind::AssetCreate { ticker, .. } => {
                let id = asset_id_of(body.account, body.id());
                proof {
                    AssetId::lemma_from_view(id);
                }
                match self.assets.check_create(&id, ticker) {
                    Ok(()) => Ok(()),
                    Err(error) => Err(StateError::Asset(error)),
                }
            },
            TxKind::AssetBurn { asset, amount } => {
                let held = account.balance(Some(*asset));
                if held.as_ulf() < amount.as_ulf() {
                    proof {
                        Amount::lemma_from_spec(held@);
                    }
                    return Err(
                        StateError::InsufficientBalance {
                            asset: Some(*asset),
                            needed: *amount,
                            available: held,
                        },
                    );
                }
                match self.assets.check_burn(asset, *amount) {
                    Ok(()) => Ok(()),
                    Err(error) => Err(StateError::Asset(error)),
                }
            },
            TxKind::AssetMint { asset, to, amount } => {
                match self.assets.check_mint(asset, body.account, *amount) {
                    Ok(()) => {},
                    Err(error) => {
                        return Err(StateError::Asset(error));
                    },
                }
                let held: u64 = if to.same_as(&body.account) {
                    account.balance(Some(*asset)).as_ulf()
                } else {
                    match self.accounts.get(to) {
                        Some(recipient) => {
                            proof {
                                assert(self.accounts.map().contains_key(to@));
                            }
                            recipient.balance(Some(*asset)).as_ulf()
                        },
                        None => 0,
                    }
                };
                if held.checked_add(amount.as_ulf()).is_none() {
                    return Err(StateError::Overflow);
                }
                Ok(())
            },
            TxKind::NameReveal { name, salt } => {
                match self.names.check_reveal(name, salt, body.account, ctx.finalized_height) {
                    Ok(()) => Ok(()),
                    Err(error) => Err(StateError::Name(error)),
                }
            },
            TxKind::RecoveryFinalise { account: target } => {
                let (threshold, lane) = match self.accounts.get(target) {
                    Some(held) => {
                        proof {
                            assert(self.accounts.map().contains_key(target@));
                        }
                        (held.guardian_threshold, held.next_lane)
                    },
                    None => {
                        if !target.same_as(&ctx.proposer) {
                            return Err(StateError::NoSuchAccount(*target));
                        }
                        (0u32, Lane::first())
                    },
                };
                match self.recoveries.check_finalise(target, threshold, ctx.finalized_height) {
                    Ok(()) => {},
                    Err(error) => {
                        return Err(StateError::Recovery(error));
                    },
                }
                if lane.next().is_none() {
                    return Err(StateError::Overflow);
                }
                Ok(())
            },
            TxKind::AccountEquivocation(evidence) => {
                let verdict = match verdict {
                    Some(verdict) => verdict,
                    None => {
                        return Err(StateError::NotImplemented { kind: body.kind.name() });
                    },
                };
                let accused = evidence.first.body.account;
                let held = match self.accounts.get(&accused) {
                    Some(held) => {
                        proof {
                            assert(self.accounts.map().contains_key(accused@));
                        }
                        held
                    },
                    None => {
                        if !accused.same_as(&ctx.proposer) {
                            return Err(StateError::NoSuchAccount(accused));
                        }
                        return Err(StateError::UnknownAccusedDevice(evidence.device));
                    },
                };
                if !held.devices.contains(&evidence.device) {
                    return Err(StateError::UnknownAccusedDevice(evidence.device));
                }
                match evidence.check(verdict.account) {
                    Ok(()) => {},
                    Err(error) => {
                        return Err(StateError::BadEvidence(error));
                    },
                }
                let offence = AccountOffence {
                    account: accused,
                    device: evidence.device,
                    lane: evidence.first.body.nonce.lane,
                    sequence: evidence.first.body.nonce.sequence,
                };
                if self.offences.knows_account(&offence) {
                    return Err(StateError::Slashing(SlashingError::AlreadyPunished));
                }
                self.penalty_check(ctx, body, held.nomad_margin)
            },
            TxKind::ValidatorEquivocation(evidence) => {
                let verdict = match verdict {
                    Some(verdict) => verdict,
                    None => {
                        return Err(StateError::NotImplemented { kind: body.kind.name() });
                    },
                };
                let accused = evidence.validator;
                let held = match self.accounts.get(&accused) {
                    Some(held) => {
                        proof {
                            assert(self.accounts.map().contains_key(accused@));
                        }
                        held
                    },
                    None => {
                        if !accused.same_as(&ctx.proposer) {
                            return Err(StateError::NoSuchAccount(accused));
                        }
                        return Err(StateError::NotTheValidator(accused));
                    },
                };
                proof {
                    let entries = held.devices.entries();
                    if entries.len() == 0 {
                        assert(held.devices.map().dom() =~= Set::<Seq<u8>>::empty());
                    } else {
                        assert(crate::sorted_map::has_key(entries, entries[0].0.sort_key()));
                        assert(held.devices.map().dom().contains(entries[0].0.sort_key()));
                    }
                }
                let signed = held.devices.len() > 0 && evidence.check(Ok(())).is_ok()
                    && verdict.validator_signed;
                if !signed {
                    return Err(StateError::NotTheValidator(accused));
                }
                let offence = ValidatorOffence { validator: accused, height: evidence.first.header.height };
                if self.offences.knows_validator(&offence) {
                    return Err(StateError::Slashing(SlashingError::AlreadyPunished));
                }
                self.penalty_check(ctx, body, held.bonded)
            },
            _ => Err(StateError::NotImplemented { kind: body.kind.name() }),
        }
    }
}

impl Ledger {
    /// Whether a seizure of `seized` can be paid out: the burn counter,
    /// after the fee's burn, and the denouncer's balance, after the fee,
    /// must hold their shares.
    fn penalty_check(&self, ctx: &BlockContext, body: &TxBody, seized: Amount) -> (result: Result<
        (),
        StateError,
    >)
        requires
            self.wf(),
            seized@ == seized_by(*self, *body),
            self.account_map().contains_key(body.account@),
            self.account_map()[body.account@].balance_of(None) >= body.fee@,
            forall|id: Seq<u8>| 0 <= #[trigger] native_after_fee(*self, *ctx, *body, id) <= u64::MAX,
        ensures
            result == penalty_result(*self, *ctx, *body),
    {
        if seized.is_zero() {
            return Ok(());
        }
        let penalty = Penalty::split(seized);
        let fee = FeeSplit::of(body.fee);
        proof {
            lemma_fee_split_spec(body.fee);
        }
        let with_fee = match self.burned.checked_add(fee.burn) {
            Some(with_fee) => with_fee,
            None => {
                return Err(StateError::Overflow);
            },
        };
        if with_fee.checked_add(penalty.burned).is_none() {
            return Err(StateError::Overflow);
        }
        let balance = self.native_after_fee_of(ctx, body, &body.account);
        if balance.checked_add(penalty.to_denouncer.as_ulf()).is_none() {
            return Err(StateError::Overflow);
        }
        Ok(())
    }
}

impl Ledger {
    /// Pays a seizure out: half to the denouncer, held apart from the
    /// ledger, the rest to the fire. Nothing happens when nothing was seized.
    fn pay_penalty(&mut self, denouncer: &mut Account, penalty: Penalty)
        requires
            old(self).wf(),
            old(denouncer).wf(),
            penalty.to_denouncer@ == penalty.seized@ / 2,
            penalty.burned@ == penalty.seized@ - penalty.seized@ / 2,
            old(self).burned_ulf() + penalty.burned@ <= u64::MAX,
            old(denouncer).balance_of(None) + penalty.to_denouncer@ <= u64::MAX,
        ensures
            final(self).wf(),
            final(denouncer).wf(),
            final(self).account_map() == old(self).account_map(),
            final(self).asset_book() == old(self).asset_book(),
            final(self).name_book() == old(self).name_book(),
            final(self).recovery_book() == old(self).recovery_book(),
            final(self).offence_book() == old(self).offence_book(),
            final(self).burned_ulf() == old(self).burned_ulf() + penalty.burned@,
            final(self).pot_ulf() == old(self).pot_ulf(),
            final(self).fees_ulf() == old(self).fees_ulf(),
            old(denouncer).same_but_balances(*final(denouncer)),
            final(denouncer).balance_of(None) == old(denouncer).balance_of(None) + penalty.to_denouncer@,
            forall|a: Option<AssetId>| a is Some ==> #[trigger] final(denouncer).balance_of(a)
                == old(denouncer).balance_of(a),
    {
        if penalty.is_empty() {
            return;
        }
        self.burned = Amount::from_ulf(self.burned.as_ulf() + penalty.burned.as_ulf());
        let _ = denouncer.credit(None, penalty.to_denouncer);
        proof {
            assert(None::<AssetId>.sort_key()[0] == 0u8);
            assert forall|a: Option<AssetId>| a is Some implies #[trigger] denouncer.balance_of(a)
                == old(denouncer).balance_of(a) by {
                assert(a.sort_key()[0] == 1u8);
            }
        }
    }
}

impl Ledger {
    /// Everything but the accounts is the same in the two ledgers.
    pub closed spec fn same_books(self, other: Ledger) -> bool {
        &&& self.assets == other.assets
        &&& self.names == other.names
        &&& self.recoveries == other.recoveries
        &&& self.offences == other.offences
        &&& self.burned == other.burned
        &&& self.context_pot == other.context_pot
        &&& self.fees_collected == other.fees_collected
    }

    /// An account, if it exists.
    pub fn account(&self, id: &AccountId) -> (account: Option<&Account>)
        requires
            self.wf(),
        ensures
            self.account_map().contains_key(id@) ==> account == Some(&self.account_map()[id@]),
            !self.account_map().contains_key(id@) ==> account is None,
    {
        self.accounts.get(id)
    }

    /// Inserts or replaces an account.
    pub fn put_account(&mut self, id: AccountId, account: Account)
        requires
            old(self).wf(),
            account.wf(),
        ensures
            final(self).wf(),
            final(self).account_map() == old(self).account_map().insert(id@, account),
            final(self).same_books(*old(self)),
    {
        self.accounts.insert(id, account);
        proof {
            assert forall|key: Seq<u8>| #[trigger]
                self.accounts.map().contains_key(key) implies self.accounts.map()[key].wf() by {
                if key != id@ {
                    assert(old(self).accounts.map().contains_key(key));
                }
            }
        }
    }

    /// Takes an account out of the ledger, or an empty one if there is none.
    fn take_account(&mut self, id: &AccountId) -> (account: Account)
        requires
            old(self).wf(),
        ensures
            final(self).wf(),
            account.wf(),
            final(self).account_map() == old(self).account_map().remove(id@),
            old(self).account_map().contains_key(id@) ==> account == old(self).account_map()[id@],
            !old(self).account_map().contains_key(id@) ==> account.balances.map() == Map::<
                Seq<u8>,
                Amount,
            >::empty() && blank(account),
            final(self).same_books(*old(self)),
    {
        let taken = self.accounts.remove(id);
        proof {
            assert forall|key: Seq<u8>| #[trigger]
                self.accounts.map().contains_key(key) implies self.accounts.map()[key].wf() by {
                assert(old(self).accounts.map().contains_key(key));
            }
        }
        match taken {
            Some(account) => {
                proof {
                    assert(old(self).accounts.map().contains_key(id@));
                }
                account
            },
            None => Account::new(),
        }
    }
}

impl Ledger {
    /// Applies one transaction, entirely or not at all: a transaction that is
    /// refused leaves the ledger exactly as it was, fee and nonce included.
    ///
    /// The signature is taken as verified by the caller. In a provisional
    /// block the device may not spend, fee included, more than what remains
    /// of its share of the offline credit, and what it spends is counted
    /// against that share. Evidence of equivocation is not applied here: its
    /// signatures are the signature scheme's to verify, and
    /// `apply_with_verdict` takes what the scheme answered.
    pub fn apply(&mut self, ctx: &BlockContext, body: &TxBody) -> (result: Result<Applied, StateError>)
        requires
            old(self).wf(),
        ensures
            final(self).wf(),
            result == ledger_result(*old(self), *ctx, *body),
            result is Err ==> *final(self) == *old(self),
            result is Ok ==> applied_effect(*old(self), *final(self), *ctx, *body),
            result is Ok && within_credit(old(self).account_map()) ==> within_credit(
                final(self).account_map(),
            ),
            result is Ok ==> devices_moved(*old(self), *final(self), *ctx, *body),
    {
        self.apply_checked(ctx, body, None)
    }

    /// Applies one transaction, entirely or not at all, as `apply` does,
    /// judging evidence of equivocation with `verdict`: what the signature
    /// scheme answered of the evidence's signatures.
    pub fn apply_with_verdict(&mut self, ctx: &BlockContext, body: &TxBody, verdict: EvidenceVerdict) -> (result:
        Result<Applied, StateError>)
        requires
            old(self).wf(),
        ensures
            final(self).wf(),
            result == ledger_outcome(*old(self), *ctx, *body, Some(verdict)),
            result is Err ==> *final(self) == *old(self),
            result is Ok ==> applied_effect(*old(self), *final(self), *ctx, *body),
            result is Ok && within_credit(old(self).account_map()) ==> within_credit(
                final(self).account_map(),
            ),
            result is Ok ==> devices_moved(*old(self), *final(self), *ctx, *body),
    {
        self.apply_checked(ctx, body, Some(verdict))
    }

    /// The checks, in order, then the transaction carried out.
    #[verifier::spinoff_prover]
    #[verifier::rlimit(50)]
    fn apply_checked(&mut self, ctx: &BlockContext, body: &TxBody, verdict: Option<EvidenceVerdict>) -> (result:
        Result<Applied, StateError>)
        requires
            old(self).wf(),
        ensures
            final(self).wf(),
            result == ledger_outcome(*old(self), *ctx, *body, verdict),
            result is Err ==> *final(self) == *old(self),
            result is Ok ==> applied_effect(*old(self), *final(self), *ctx, *body),
            result is Ok && within_credit(old(self).account_map()) ==> within_credit(
                final(self).account_map(),
            ),
            result is Ok ==> devices_moved(*old(self), *final(self), *ctx, *body),
    {
        check_envelope(ctx, body)?;
        let account = match self.accounts.get(&body.account) {
            Some(account) => account,
            None => {
                return Err(StateError::NoSuchAccount(body.account));
            },
        };
        proof {
            assert(self.accounts.map().contains_key(body.account@));
            assert(account.wf());
        }
        let (lane, device_id) = check_authority(account, body)?;
        let outflow = native_outflow(body)?;
        let provisional = matches!(ctx.rung, FinalityRung::Provisional);
        if provisional {
            match check_nomad(account, device_id, outflow) {
                Ok(()) => {},
                Err(error) => {
                    proof {
                        Amount::lemma_from_spec(outflow@);
                        match error {
                            StateError::NomadCreditExhausted { remaining, .. } => {
                                Amount::lemma_from_spec(remaining@);
                            },
                            _ => {},
                        }
                    }
                    return Err(error);
                },
            }
        }
        let fee = FeeSplit::of(body.fee);
        proof {
            lemma_fee_split_spec(body.fee);
            Amount::lemma_from_spec(outflow@);
        }
        let balance = account.balance(None);
        if balance.as_ulf() < body.fee.as_ulf() {
            proof {
                Amount::lemma_from_spec(balance@);
            }
            return Err(
                StateError::InsufficientBalance { asset: None, needed: body.fee, available: balance },
            );
        }
        let burned = match self.burned.checked_add(fee.burn) {
            Some(burned) => burned,
            None => {
                return Err(StateError::Overflow);
            },
        };
        let pot = match self.context_pot.checked_add(fee.pot) {
            Some(pot) => pot,
            None => {
                return Err(StateError::Overflow);
            },
        };
        let fees = match self.fees_collected.checked_add(body.fee) {
            Some(fees) => fees,
            None => {
                return Err(StateError::Overflow);
            },
        };
        let proposer_is_payer = ctx.proposer.same_as(&body.account);
        let proposer_before: u64 = if proposer_is_payer {
            balance.as_ulf() - body.fee.as_ulf()
        } else {
            match self.accounts.get(&ctx.proposer) {
                Some(proposer) => {
                    proof {
                        assert(self.accounts.map().contains_key(ctx.proposer@));
                    }
                    proposer.balance(None).as_ulf()
                },
                None => 0,
            }
        };
        if proposer_before.checked_add(fee.provider.as_ulf()).is_none() {
            return Err(StateError::Overflow);
        }
        proof {
            assert forall|id: Seq<u8>| 0 <= #[trigger] native_after_fee(*self, *ctx, *body, id) <= u64::MAX by {
                if self.accounts.map().contains_key(id) {
                    assert(self.accounts.map()[id].wf());
                }
            }
        }
        self.kind_check(ctx, body, verdict)?;
        if body.nonce.sequence == u64::MAX {
            return Err(StateError::BadNonce { expected: body.nonce.sequence, got: body.nonce.sequence });
        }
        let consumed = if provisional {
            outflow
        } else {
            Amount::from_ulf(0)
        };
        proof {
            Amount::lemma_from_spec(consumed@);
        }
        self.commit(ctx, body, fee, burned, pot, fees, device_id, consumed, Ghost(verdict));
        Ok(Applied { fee, nomad_consumed: consumed })
    }

    /// Carries out a transaction whose every check has passed.
    #[verifier::spinoff_prover]
    #[verifier::rlimit(50)]
    fn commit(
        &mut self,
        ctx: &BlockContext,
        body: &TxBody,
        fee: FeeSplit,
        burned: Amount,
        pot: Amount,
        fees: Amount,
        device_id: DeviceId,
        consumed: Amount,
        Ghost(verdict): Ghost<Option<EvidenceVerdict>>,
    )
        requires
            old(self).wf(),
            ledger_outcome(*old(self), *ctx, *body, verdict) is Ok,
            fee == fee_split_spec(body.fee),
            burned@ == old(self).burned_ulf() + fee.burn@,
            pot@ == old(self).pot_ulf() + fee.pot@,
            fees@ == old(self).fees_ulf() + body.fee@,
            device_id == body.device,
            consumed@ == nomad_consumed_spec(*ctx, *body),
        ensures
            final(self).wf(),
            applied_effect(*old(self), *final(self), *ctx, *body),
            within_credit(old(self).account_map()) ==> within_credit(final(self).account_map()),
            devices_moved(*old(self), *final(self), *ctx, *body),
    {
        let ghost start = *self;
        let mut payer = self.take_account(&body.account);
        self.charge_fee(&mut payer, ctx, body, fee, burned, pot, fees, Ghost(start), Ghost(verdict));
        self.apply_kind(&mut payer, ctx, body, Ghost(start), Ghost(verdict));
        let ghost before_nonce = payer;
        let _ = payer.lanes.consume(body.nonce);
        if consumed.as_ulf() > 0 {
            match payer.devices.remove(&device_id) {
                Some(held) => {
                    let spent = Amount::from_ulf(held.nomad_spent.as_ulf() + consumed.as_ulf());
                    let updated = crate::account::Device { nomad_spent: spent, ..held };
                    payer.devices.insert(device_id, updated);
                },
                None => {},
            }
        }
        self.put_account(body.account, payer);
    }

    /// Charges the fee: the payer, held outside the ledger, pays it, the
    /// proposer receives the provider share, and the counters grow.
    #[verifier::spinoff_prover]
    #[verifier::rlimit(50)]
    fn charge_fee(
        &mut self,
        payer: &mut Account,
        ctx: &BlockContext,
        body: &TxBody,
        fee: FeeSplit,
        burned: Amount,
        pot: Amount,
        fees: Amount,
        Ghost(start): Ghost<Ledger>,
        Ghost(verdict): Ghost<Option<EvidenceVerdict>>,
    )
        requires
            start.wf(),
            ledger_outcome(start, *ctx, *body, verdict) is Ok,
            old(self).wf(),
            old(self).account_map() == start.account_map().remove(body.account@),
            old(self).same_books(start),
            *old(payer) == start.account_map()[body.account@],
            old(payer).wf(),
            fee == fee_split_spec(body.fee),
            burned@ == start.burned_ulf() + fee.burn@,
            pot@ == start.pot_ulf() + fee.pot@,
            fees@ == start.fees_ulf() + body.fee@,
        ensures
            fee_charged(start, *final(self), *final(payer), *ctx, *body),
    {
        proof {
            lemma_fee_split_spec(body.fee);
        }
        let _ = payer.debit(None, body.fee);
        self.burned = burned;
        self.context_pot = pot;
        self.fees_collected = fees;
        if ctx.proposer.same_as(&body.account) {
            let _ = payer.credit(None, fee.provider);
        } else {
            let mut proposer = self.take_account(&ctx.proposer);
            let _ = proposer.credit(None, fee.provider);
            self.put_account(ctx.proposer, proposer);
        }
        proof {
            assert(None::<AssetId>.sort_key()[0] == 0u8);
            assert forall|a: Option<AssetId>| a is Some implies #[trigger] payer.balance_of(a)
                == start.account_map()[body.account@].balance_of(a) by {
                assert(a.sort_key()[0] == 1u8);
            }
            if ctx.proposer@ != body.account@ {
                assert forall|a: Option<AssetId>| a is Some implies #[trigger] balance_in(
                    self.account_map(),
                    ctx.proposer@,
                    a,
                ) == balance_in(start.account_map(), ctx.proposer@, a) by {
                    assert(a.sort_key()[0] == 1u8);
                }
            }
        }
    }
}

impl Ledger {
    /// Carries out the kind's own effect.
    #[verifier::spinoff_prover]
    #[verifier::rlimit(100)]
    fn apply_kind(
        &mut self,
        payer: &mut Account,
        ctx: &BlockContext,
        body: &TxBody,
        Ghost(start): Ghost<Ledger>,
        Ghost(verdict): Ghost<Option<EvidenceVerdict>>,
    )
        requires
            start.wf(),
            ledger_outcome(start, *ctx, *body, verdict) is Ok,
            fee_charged(start, *old(self), *old(payer), *ctx, *body),
        ensures
            kind_applied(start, *final(self), *final(payer), *ctx, *body),
    {
        proof {
            assert(None::<AssetId>.sort_key()[0] == 0u8);
            assert(start.account_map().contains_key(body.account@));
        }
        match &body.kind {
            TxKind::Transfer { to, asset, amount } => {
                proof {
                    if asset is Some {
                        assert(asset.sort_key()[0] == 1u8);
                        assert(payer.balance_of(*asset) == start.account_map()[body.account@].balance_of(*asset));
                    }
                }
                let _ = payer.debit(*asset, *amount);
                if to.same_as(&body.account) {
                    let _ = payer.credit(*asset, *amount);
                } else {
                    proof {
                        if to@ != ctx.proposer@ {
                            assert(self.account_map().contains_key(to@) == start.account_map().contains_key(to@));
                        }
                        if asset is Some {
                            assert(balance_in(self.account_map(), to@, *asset) == balance_in(start.account_map(), to@, *asset));
                        } else {
                            assert(balance_in(self.account_map(), to@, None) == native_after_fee(start, *ctx, *body, to@));
                        }
                    }
                    let ghost before = *self;
                    let mut recipient = self.take_account(to);
                    let _ = recipient.credit(*asset, *amount);
                    self.put_account(*to, recipient);
                    proof {
                        assert forall|id: Seq<u8>| !touched(*ctx, *body, id) implies (#[trigger] self.account_map().contains_key(id)
                            == start.account_map().contains_key(id) && (start.account_map().contains_key(id)
                            ==> self.account_map()[id] == start.account_map()[id])) by {
                            assert(before.account_map().contains_key(id) == start.account_map().contains_key(id));
                        }
                    }
                }
            },
            TxKind::NomadSet { credit, margin } => {
                let _ = nomad_set(payer, *credit, *margin);
            },
            TxKind::DeviceRevoke { device } => {
                let _ = device_revoke(payer, *device);
            },
            TxKind::Bond { amount, .. } => {
                let _ = bond(payer, *amount);
            },
            TxKind::Unbond { amount } => {
                let _ = unbond(payer, *amount);
            },
            TxKind::DeviceAdd { key, lane, nomad_share } => {
                let device = DeviceId::of_device_key(key);
                let added = crate::account::Device {
                    key: key.clone(),
                    lane: *lane,
                    nomad_share: *nomad_share,
                    nomad_spent: Amount::from_ulf(0),
                };
                payer.devices.insert(device, added);
                match lane.next() {
                    Some(next) => {
                        payer.next_lane = next;
                    },
                    None => {},
                }
            },
            TxKind::GuardianSet { guardians, threshold } => {
                payer.guardians = guardians.rebuilt();
                payer.guardian_threshold = *threshold;
            },
            TxKind::NameCommit { commitment } => {
                let _ = self.names.commit(*commitment, body.account, ctx.finalized_height);
            },
            TxKind::NameReveal { name, salt } => {
                let _ = self.names.reveal_name(name, salt, body.account, ctx.finalized_height);
            },
            TxKind::AssetCreate { ticker, decimals, reissuable } => {
                let id = asset_id_of(body.account, body.id());
                proof {
                    AssetId::lemma_from_view(id);
                }
                let _ = self.assets.create(id, body.account, ticker.clone(), *decimals, *reissuable);
            },
            TxKind::AssetBurn { asset, amount } => {
                proof {
                    assert(Some(*asset).sort_key()[0] == 1u8);
                    assert(payer.balance_of(Some(*asset)) == start.account_map()[body.account@].balance_of(Some(*asset)));
                }
                let _ = payer.debit(Some(*asset), *amount);
                let _ = self.assets.record_burn(asset, *amount);
            },
            TxKind::AssetMint { asset, to, amount } => {
                let _ = self.assets.authorise_mint(asset, body.account, *amount);
                proof {
                    assert(Some(*asset).sort_key()[0] == 1u8);
                }
                if to.same_as(&body.account) {
                    proof {
                        assert(payer.balance_of(Some(*asset)) == start.account_map()[body.account@].balance_of(Some(*asset)));
                    }
                    let _ = payer.credit(Some(*asset), *amount);
                } else {
                    proof {
                        if to@ != ctx.proposer@ {
                            assert(self.account_map().contains_key(to@) == start.account_map().contains_key(to@));
                        }
                        assert(balance_in(self.account_map(), to@, Some(*asset)) == balance_in(start.account_map(), to@, Some(*asset)));
                    }
                    let ghost before = *self;
                    let mut recipient = self.take_account(to);
                    let _ = recipient.credit(Some(*asset), *amount);
                    self.put_account(*to, recipient);
                    proof {
                        assert forall|id: Seq<u8>| !touched(*ctx, *body, id) implies (#[trigger] self.account_map().contains_key(id)
                            == start.account_map().contains_key(id) && (start.account_map().contains_key(id)
                            ==> self.account_map()[id] == start.account_map()[id])) by {
                            assert(before.account_map().contains_key(id) == start.account_map().contains_key(id));
                        }
                    }
                }
            },
            TxKind::RecoveryStart { account: target, new_root_key } => {
                let window = ContestationWindow {
                    opened_at_finalized: ctx.finalized_height,
                    duration: RECOVERY_WINDOW_FINALIZED_BLOCKS,
                };
                if target.same_as(&body.account) {
                    let _ = self.recoveries.approve(
                        *target,
                        new_root_key,
                        body.account,
                        &payer.guardians,
                        window,
                    );
                } else {
                    match self.accounts.get(target) {
                        Some(held) => {
                            proof {
                                assert(self.accounts.map().contains_key(target@));
                                assert(held.wf());
                            }
                            let _ = self.recoveries.approve(
                                *target,
                                new_root_key,
                                body.account,
                                &held.guardians,
                                window,
                            );
                        },
                        None => {
                            let none: SortedMap<AccountId, ()> = SortedMap::new();
                            proof {
                                assert(none.map().dom() =~= Set::<Seq<u8>>::empty());
                            }
                            let _ = self.recoveries.approve(
                                *target,
                                new_root_key,
                                body.account,
                                &none,
                                window,
                            );
                        },
                    }
                }
            },
            TxKind::RecoveryCancel { account } => {
                let _ = self.recoveries.cancel(account);
            },
            TxKind::RecoveryFinalise { account: target } => {
                proof {
                    assert(kind_result(start, *ctx, *body, verdict) is Ok);
                }
                if target.same_as(&body.account) {
                    let threshold = payer.guardian_threshold;
                    if let Ok(key) = self.recoveries.finalise(target, threshold, ctx.finalized_height) {
                        let _ = recovery_reset(payer, key);
                    }
                } else {
                    let ghost before = *self;
                    let mut held = self.take_account(target);
                    let threshold = held.guardian_threshold;
                    let ghost was = held;
                    proof {
                        if !start.account_map().contains_key(target@) {
                            assert(was.revoked_devices.map().dom() + was.devices.map().dom()
                                =~= Set::<Seq<u8>>::empty());
                        }
                        assert(was.revoked_devices.map().dom() + was.devices.map().dom()
                            == retired_of(start.account_map(), target@));
                    }
                    if let Ok(key) = self.recoveries.finalise(target, threshold, ctx.finalized_height) {
                        let _ = recovery_reset(&mut held, key);
                    }
                    self.put_account(*target, held);
                    proof {
                        assert forall|id: Seq<u8>| !touched(*ctx, *body, id) implies (#[trigger] self.account_map().contains_key(id)
                            == start.account_map().contains_key(id) && (start.account_map().contains_key(id)
                            ==> self.account_map()[id] == start.account_map()[id])) by {
                            assert(before.account_map().contains_key(id) == start.account_map().contains_key(id));
                        }
                    }
                }
            },
            TxKind::AccountEquivocation(evidence) => {
                let accused = evidence.first.body.account;
                let offence = AccountOffence {
                    account: accused,
                    device: evidence.device,
                    lane: evidence.first.body.nonce.lane,
                    sequence: evidence.first.body.nonce.sequence,
                };
                let _ = self.offences.record_account(offence);
                if accused.same_as(&body.account) {
                    let penalty = Penalty::split(payer.nomad_margin);
                    payer.nomad_margin = Amount::from_ulf(0);
                    self.pay_penalty(payer, penalty);
                } else {
                    let ghost before = *self;
                    let mut held = self.take_account(&accused);
                    let penalty = Penalty::split(held.nomad_margin);
                    held.nomad_margin = Amount::from_ulf(0);
                    self.put_account(accused, held);
                    proof {
                        assert forall|id: Seq<u8>| !touched(*ctx, *body, id) implies (#[trigger] self.account_map().contains_key(id)
                            == start.account_map().contains_key(id) && (start.account_map().contains_key(id)
                            ==> self.account_map()[id] == start.account_map()[id])) by {
                            assert(before.account_map().contains_key(id) == start.account_map().contains_key(id));
                        }
                    }
                    self.pay_penalty(payer, penalty);
                }
            },
            TxKind::ValidatorEquivocation(evidence) => {
                let accused = evidence.validator;
                let offence = ValidatorOffence { validator: accused, height: evidence.first.header.height };
                let _ = self.offences.record_validator(offence);
                if accused.same_as(&body.account) {
                    let penalty = Penalty::split(payer.bonded);
                    payer.bonded = Amount::from_ulf(0);
                    self.pay_penalty(payer, penalty);
                } else {
                    let ghost before = *self;
                    let mut held = self.take_account(&accused);
                    let penalty = Penalty::split(held.bonded);
                    held.bonded = Amount::from_ulf(0);
                    self.put_account(accused, held);
                    proof {
                        assert forall|id: Seq<u8>| !touched(*ctx, *body, id) implies (#[trigger] self.account_map().contains_key(id)
                            == start.account_map().contains_key(id) && (start.account_map().contains_key(id)
                            ==> self.account_map()[id] == start.account_map()[id])) by {
                            assert(before.account_map().contains_key(id) == start.account_map().contains_key(id));
                        }
                    }
                    self.pay_penalty(payer, penalty);
                }
            },
            _ => {},
        }
    }
}

impl Ledger {
    /// The asset registry.
    pub fn assets(&self) -> (assets: &AssetRegistry)
        ensures
            *assets == self.asset_book(),
    {
        &self.assets
    }

    /// Registered names and pending commitments.
    pub fn names(&self) -> (names: &NameBook)
        ensures
            *names == self.name_book(),
    {
        &self.names
    }

    /// Recoveries in progress.
    pub fn recoveries(&self) -> (recoveries: &RecoveryBook)
        ensures
            *recoveries == self.recovery_book(),
    {
        &self.recoveries
    }

    /// Equivocations already punished.
    pub fn offences(&self) -> (offences: &SlashingBook)
        ensures
            *offences == self.offence_book(),
    {
        &self.offences
    }

    /// How much VAN has been destroyed.
    pub fn burned(&self) -> (burned: Amount)
        ensures
            burned@ == self.burned_ulf(),
    {
        self.burned
    }

    /// The context pot's balance.
    pub fn context_pot(&self) -> (pot: Amount)
        ensures
            pot@ == self.pot_ulf(),
    {
        self.context_pot
    }

    /// Every fee ever paid, before splitting.
    pub fn total_fees(&self) -> (fees: Amount)
        ensures
            fees@ == self.fees_ulf(),
    {
        self.fees_collected
    }

    /// The health metric a header publishes: every fee ever paid over the
    /// supply emitted, as the two integers.
    pub fn fee_emission_ratio(&self, emitted_supply: Amount) -> (ratio: Ratio)
        ensures
            ratio.numerator == self.fees_ulf(),
            ratio.denominator == emitted_supply@,
    {
        Ratio::new(self.fees_collected.as_ulf(), emitted_supply.as_ulf())
    }
}

/// Whether one of `devices` already signs on `lane`.
fn lane_used(devices: &[(DeviceId, crate::account::Device)], lane: Lane) -> (used: bool)
    ensures
        used == lane_in_use(devices@, lane),
{
    let mut index: usize = 0;
    while index < devices.len()
        invariant
            index <= devices@.len(),
            forall|i: int| 0 <= i < index ==> (#[trigger] devices@[i]).1.lane@ != lane@,
        decreases devices@.len() - index,
    {
        if devices[index].1.lane.index() == lane.index() {
            return true;
        }
        index = index + 1;
    }
    false
}

/// Every leaf of the state tree, in the order the tree is built: the
/// accounts, the asset records, the ticker reservations, the registered
/// names, the pending commitments, the recoveries under way, the punished
/// account and validator offences, and last the reserved counters.
pub closed spec fn ledger_leaves(ledger: Ledger) -> Seq<(Seq<u8>, Seq<u8>)> {
    account_leaves(ledger.accounts.entries()) + asset_leaves(ledger.assets.asset_list())
        + ticker_leaves(ledger.assets.ticker_list()) + name_leaves(ledger.names.owner_list())
        + commitment_leaves(ledger.names.commitment_list()) + recovery_leaves(
        ledger.recoveries.recovery_list(),
    ) + offence_leaves(ledger.offences.account_list()) + offence_leaves(
        ledger.offences.validator_list(),
    ) + seq![reserved_leaf(ledger.burned, ledger.context_pot, ledger.fees_collected)]
}

/// What the state tree holds: every leaf, inserted in order.
pub open spec fn state_map(ledger: Ledger) -> Map<Seq<u8>, Seq<u8>> {
    insert_all(Map::empty(), ledger_leaves(ledger))
}

impl Ledger {
    /// The reserved key under which the burn, the pot and the fee counters
    /// live.
    pub fn burn_key() -> (key: Digest)
        ensures
            key@ == state_key(NAMESPACE_RESERVED@, BURN_LABEL@),
    {
        crate::keys::reserved(BURN_LABEL.as_slice())
    }

    /// Every leaf of the state tree, in order.
    fn leaves(&self) -> (leaves: Vec<(Digest, Digest)>)
        requires
            self.wf(),
        ensures
            leaf_views(leaves@) == ledger_leaves(*self),
    {
        let mut leaves: Vec<(Digest, Digest)> = Vec::new();
        push_account_leaves(&mut leaves, self.accounts.as_slice());
        push_asset_leaves(&mut leaves, self.assets.iter());
        push_ticker_leaves(&mut leaves, self.assets.tickers());
        push_name_leaves(&mut leaves, self.names.iter());
        push_commitment_leaves(&mut leaves, self.names.commitments());
        push_recovery_leaves(&mut leaves, self.recoveries.iter());
        let account_offences = self.offences.account_offences();
        push_account_offence_leaves(&mut leaves, account_offences.as_slice());
        let validator_offences = self.offences.validator_offences();
        push_validator_offence_leaves(&mut leaves, validator_offences.as_slice());
        let key = crate::keys::reserved(BURN_LABEL.as_slice());
        let value = reserved_value(self.burned, self.context_pot, self.fees_collected);
        let ghost before = leaves@;
        leaves.push((key, value));
        proof {
            assert(leaf_views(leaves@) =~= leaf_views(before) + seq![(key@, value@)]);
            assert(leaf_views(Seq::<(Digest, Digest)>::empty()) =~= Seq::<(Seq<u8>, Seq<u8>)>::empty());
            assert(leaf_views(leaves@) =~= ledger_leaves(*self));
        }
        leaves
    }

    /// The state tree.
    fn tree(&self) -> (tree: SparseMerkleTree)
        requires
            self.wf(),
        ensures
            tree.wf(),
            tree@ == state_map(*self),
    {
        let leaves = self.leaves();
        let mut tree = SparseMerkleTree::new();
        insert_leaves(&mut tree, leaves.as_slice());
        tree
    }

    /// The state root: the root of the tree holding every leaf of the ledger.
    pub fn state_root(&self) -> (root: Digest)
        requires
            self.wf(),
        ensures
            root@ == root_of(state_map(*self)),
    {
        root_of_leaves(self.leaves().as_slice())
    }

    /// A proof about one account against the state root, of its record or
    /// of its absence.
    pub fn prove_account(&self, id: &AccountId) -> (proof: SmtProof)
        requires
            self.wf(),
        ensures
            digest_views(proof.siblings@) == walk_siblings(
                tree_holding(state_map(*self)).entry_list(),
                state_key(NAMESPACE_ACCOUNT@, id@),
                0,
            ),
            leaf_view(proof.terminal) == walk_terminal(
                tree_holding(state_map(*self)).entry_list(),
                state_key(NAMESPACE_ACCOUNT@, id@),
                0,
            ),
    {
        let tree = self.tree();
        proof {
            let map = state_map(*self);
            assert(exists|t: SparseMerkleTree| #![trigger t@] t.wf() && t@ == map);
            crate::smt::lemma_root_depends_on_contents(tree, tree_holding(map));
        }
        tree.prove(&crate::keys::account(id))
    }

    /// A proof that a ticker is taken, or that it is free.
    pub fn prove_ticker(&self, name: &Name) -> (proof: SmtProof)
        requires
            self.wf(),
        ensures
            digest_views(proof.siblings@) == walk_siblings(
                tree_holding(state_map(*self)).entry_list(),
                state_key(NAMESPACE_TICKER@, encode_utf8(name@)),
                0,
            ),
            leaf_view(proof.terminal) == walk_terminal(
                tree_holding(state_map(*self)).entry_list(),
                state_key(NAMESPACE_TICKER@, encode_utf8(name@)),
                0,
            ),
    {
        let tree = self.tree();
        proof {
            let map = state_map(*self);
            assert(exists|t: SparseMerkleTree| #![trigger t@] t.wf() && t@ == map);
            crate::smt::lemma_root_depends_on_contents(tree, tree_holding(map));
        }
        tree.prove(&crate::keys::ticker(name))
    }
}

/// The state tree commits to the counters: under the reserved key it holds
/// the digest of the burn, the pot and every fee ever paid.
pub proof fn lemma_counters_committed(ledger: Ledger)
    ensures
        state_map(ledger).contains_key(state_key(NAMESPACE_RESERVED@, BURN_LABEL@)),
        state_map(ledger)[state_key(NAMESPACE_RESERVED@, BURN_LABEL@)] == reserved_leaf(
            Amount::from_spec(ledger.burned_ulf()),
            Amount::from_spec(ledger.pot_ulf()),
            Amount::from_spec(ledger.fees_ulf()),
        ).1,
{
    let leaves = ledger_leaves(ledger);
    assert(leaves.last() == reserved_leaf(ledger.burned, ledger.context_pot, ledger.fees_collected));
    Amount::lemma_from_spec(ledger.burned@);
    Amount::lemma_from_spec(ledger.context_pot@);
    Amount::lemma_from_spec(ledger.fees_collected@);
}

/// The VAN held in `entries`: every balance and every bond.
pub open spec fn native_total(entries: Seq<(AccountId, Account)>) -> nat
    decreases entries.len(),
{
    if entries.len() == 0 {
        0
    } else {
        native_total(entries.drop_last()) + entries.last().1.balance_of(None) + entries.last().1.bonded@ as nat
    }
}

impl Ledger {
    /// The VAN the accounts hold, in balances and in bonds.
    pub closed spec fn native_held(self) -> nat {
        native_total(self.accounts.entries())
    }

    /// Every VAN the ledger's accounts hold, in balances and in bonds, or
    /// `None` if the sum does not fit.
    pub fn total_native_balance(&self) -> (total: Option<Amount>)
        requires
            self.wf(),
        ensures
            self.native_held() <= u64::MAX ==> (total matches Some(t) && t@ == self.native_held()),
            self.native_held() > u64::MAX ==> total is None,
    {
        let entries = self.accounts.as_slice();
        let mut sum: u64 = 0;
        let mut index: usize = 0;
        let mut overflowed = false;
        while index < entries.len()
            invariant
                index <= entries@.len(),
                entries@ == self.accounts.entries(),
                self.wf(),
                !overflowed ==> sum == native_total(entries@.take(index as int)),
                overflowed ==> native_total(entries@.take(index as int)) > u64::MAX,
            decreases entries@.len() - index,
        {
            proof {
                assert(entries@.take(index + 1).drop_last() =~= entries@.take(index as int));
                assert(self.accounts.map().contains_key(entries@[index as int].0.sort_key())) by {
                    crate::sorted_map::lemma_entries_map_at(self.accounts.entries(), index as int);
                }
            }
            let account = &entries[index].1;
            proof {
                crate::sorted_map::lemma_entries_map_at(self.accounts.entries(), index as int);
                assert(account.wf());
            }
            let balance = account.balance(None).as_ulf();
            let bonded = account.bonded.as_ulf();
            if !overflowed {
                match sum.checked_add(balance) {
                    Some(partial) => match partial.checked_add(bonded) {
                        Some(next) => {
                            sum = next;
                        },
                        None => {
                            overflowed = true;
                        },
                    },
                    None => {
                        overflowed = true;
                    },
                }
            }
            index = index + 1;
        }
        proof {
            assert(entries@.take(entries@.len() as int) =~= entries@);
        }
        if overflowed {
            None
        } else {
            proof {
                Amount::lemma_from_spec(sum);
            }
            Some(Amount::from_ulf(sum))
        }
    }
}

/// `after` is `before` with every device's offline spending cleared.
pub open spec fn counters_cleared(before: Account, after: Account) -> bool {
    &&& after.devices.map().dom() == before.devices.map().dom()
    &&& forall|d: Seq<u8>|
        #[trigger] after.devices.map().contains_key(d) ==> after.devices.map()[d].nomad_spent@ == 0
            && after.devices.map()[d].nomad_share == before.devices.map()[d].nomad_share
            && after.devices.map()[d].lane == before.devices.map()[d].lane
            && after.devices.map()[d].key == before.devices.map()[d].key
    &&& (Account { devices: before.devices, ..after }) == before
}

/// Clears every device's offline spending of one account.
fn clear_counters(account: &mut Account)
    requires
        old(account).wf(),
    ensures
        final(account).wf(),
        counters_cleared(*old(account), *final(account)),
{
    let ids: Vec<DeviceId> = {
        let entries = account.devices.as_slice();
        let mut ids: Vec<DeviceId> = Vec::new();
        let mut index: usize = 0;
        while index < entries.len()
            invariant
                index <= entries@.len(),
                ids@ == entries@.take(index as int).map_values(|e: (DeviceId, crate::account::Device)| e.0),
            decreases entries@.len() - index,
        {
            ids.push(entries[index].0);
            index = index + 1;
            assert(ids@ =~= entries@.take(index as int).map_values(|e: (DeviceId, crate::account::Device)| e.0));
        }
        assert(entries@.take(entries@.len() as int) =~= entries@);
        ids
    };
    let ghost original = account.devices.map();
    proof {
        assert forall|d: Seq<u8>| original.contains_key(d) implies exists|i: int| 0 <= i < ids@.len() && #[trigger] ids@[i]@ == d by {
            let entries = old(account).devices.entries();
            let i = choose|i: int| 0 <= i < entries.len() && #[trigger] entries[i].0.sort_key() == d;
            assert(ids@[i] == entries[i].0);
        }
        assert forall|i: int| 0 <= i < ids@.len() implies original.contains_key((#[trigger] ids@[i])@) by {
            let entries = old(account).devices.entries();
            assert(ids@[i] == entries[i].0);
            crate::sorted_map::lemma_entries_map_at(entries, i);
        }
    }
    let mut index: usize = 0;
    while index < ids.len()
        invariant
            index <= ids@.len(),
            account.wf(),
            account.devices.map().dom() == original.dom(),
            forall|d: Seq<u8>| original.contains_key(d) ==> exists|i: int| 0 <= i < ids@.len() && #[trigger] ids@[i]@ == d,
            forall|i: int| 0 <= i < ids@.len() ==> original.contains_key((#[trigger] ids@[i])@),
            forall|d: Seq<u8>|
                #[trigger] account.devices.map().contains_key(d) ==> account.devices.map()[d].nomad_share == original[d].nomad_share
                    && account.devices.map()[d].lane == original[d].lane
                    && account.devices.map()[d].key == original[d].key
                    && ((exists|i: int| 0 <= i < index && #[trigger] ids@[i]@ == d) ==> account.devices.map()[d].nomad_spent@ == 0),
            (Account { devices: old(account).devices, ..*account }) == *old(account),
        decreases ids@.len() - index,
    {
        let id = ids[index];
        match account.devices.remove(&id) {
            Some(held) => {
                let cleared = crate::account::Device { nomad_spent: Amount::from_ulf(0), ..held };
                account.devices.insert(id, cleared);
            },
            None => {},
        }
        proof {
            assert forall|d: Seq<u8>| #[trigger] account.devices.map().contains_key(d) implies account.devices.map()[d].nomad_share == original[d].nomad_share
                    && account.devices.map()[d].lane == original[d].lane
                    && account.devices.map()[d].key == original[d].key
                    && ((exists|i: int| 0 <= i < index + 1 && #[trigger] ids@[i]@ == d) ==> account.devices.map()[d].nomad_spent@ == 0) by {
                if exists|i: int| 0 <= i < index + 1 && #[trigger] ids@[i]@ == d {
                    if d != id@ {
                        let i = choose|i: int| 0 <= i < index + 1 && #[trigger] ids@[i]@ == d;
                        assert(i < index);
                    }
                }
            }
        }
        index = index + 1;
    }
    proof {
        assert forall|d: Seq<u8>| #[trigger] account.devices.map().contains_key(d) implies account.devices.map()[d].nomad_spent@ == 0 by {
            assert(original.contains_key(d));
            let i = choose|i: int| 0 <= i < ids@.len() && #[trigger] ids@[i]@ == d;
            assert(exists|j: int| 0 <= j < index && #[trigger] ids@[j]@ == d);
        }
    }
}

impl Ledger {
    /// Drops the name commitments that expired unopened, returning how many:
    /// block housekeeping, which no transaction pays for. Nothing else moves.
    pub fn prune_expired_commitments(&mut self, current_finalized_height: u64) -> (count: usize)
        requires
            old(self).wf(),
        ensures
            final(self).wf(),
            final(self).name_book()@.0 == old(self).name_book()@.0,
            final(self).name_book()@.1 == Map::new(
                |key: Seq<u8>|
                    old(self).name_book()@.1.contains_key(key) && !expired(
                        old(self).name_book()@.1[key].1,
                        current_finalized_height,
                    ),
                |key: Seq<u8>| old(self).name_book()@.1[key],
            ),
            count == expired_keys(
                old(self).name_book().commitment_list(),
                current_finalized_height,
            ).len(),
            final(self).account_map() == old(self).account_map(),
            final(self).asset_book() == old(self).asset_book(),
            final(self).recovery_book() == old(self).recovery_book(),
            final(self).offence_book() == old(self).offence_book(),
            final(self).burned_ulf() == old(self).burned_ulf(),
            final(self).pot_ulf() == old(self).pot_ulf(),
            final(self).fees_ulf() == old(self).fees_ulf(),
    {
        self.names.prune_expired(current_finalized_height)
    }
}

impl Ledger {
    /// Clears every device's offline spending counter: the offline credit is
    /// an allowance per outage, restored when the chain finalises again.
    #[verifier::spinoff_prover]
    #[verifier::rlimit(50)]
    pub fn settle_nomad_counters(&mut self)
        requires
            old(self).wf(),
        ensures
            final(self).wf(),
            final(self).same_books(*old(self)),
            final(self).account_map().dom() == old(self).account_map().dom(),
            forall|id: Seq<u8>|
                #[trigger] final(self).account_map().contains_key(id) ==> counters_cleared(
                    old(self).account_map()[id],
                    final(self).account_map()[id],
                ),
    {
        let ids: Vec<AccountId> = {
            let entries = self.accounts.as_slice();
            let mut ids: Vec<AccountId> = Vec::new();
            let mut index: usize = 0;
            while index < entries.len()
                invariant
                    index <= entries@.len(),
                    ids@ == entries@.take(index as int).map_values(|e: (AccountId, Account)| e.0),
                decreases entries@.len() - index,
            {
                ids.push(entries[index].0);
                index = index + 1;
                assert(ids@ =~= entries@.take(index as int).map_values(|e: (AccountId, Account)| e.0));
            }
            assert(entries@.take(entries@.len() as int) =~= entries@);
            ids
        };
        let ghost original = self.account_map();
        proof {
            let entries = self.accounts.entries();
            assert forall|d: Seq<u8>| original.contains_key(d) implies exists|i: int| 0 <= i < ids@.len() && #[trigger] ids@[i]@ == d by {
                let i = choose|i: int| 0 <= i < entries.len() && #[trigger] entries[i].0.sort_key() == d;
                assert(ids@[i] == entries[i].0);
            }
            assert forall|i: int| 0 <= i < ids@.len() implies original.contains_key((#[trigger] ids@[i])@) by {
                assert(ids@[i] == entries[i].0);
                crate::sorted_map::lemma_entries_map_at(entries, i);
            }
        }
        let mut index: usize = 0;
        while index < ids.len()
            invariant
                index <= ids@.len(),
                self.wf(),
                self.same_books(*old(self)),
                original == old(self).account_map(),
                self.account_map().dom() == original.dom(),
                forall|d: Seq<u8>| original.contains_key(d) ==> exists|i: int| 0 <= i < ids@.len() && #[trigger] ids@[i]@ == d,
                forall|i: int| 0 <= i < ids@.len() ==> original.contains_key((#[trigger] ids@[i])@),
                forall|d: Seq<u8>|
                    #[trigger] self.account_map().contains_key(d) ==> ((exists|i: int| 0 <= i < index && #[trigger] ids@[i]@ == d)
                        ==> counters_cleared(original[d], self.account_map()[d])) && (!(exists|i: int| 0 <= i < index && #[trigger] ids@[i]@ == d)
                        ==> self.account_map()[d] == original[d]),
            decreases ids@.len() - index,
        {
            let id = ids[index];
            let ghost before = *self;
            let mut account = self.take_account(&id);
            clear_counters(&mut account);
            self.put_account(id, account);
            proof {
                assert forall|d: Seq<u8>|
                    #[trigger] self.account_map().contains_key(d) implies ((exists|i: int| 0 <= i < index + 1 && #[trigger] ids@[i]@ == d)
                        ==> counters_cleared(original[d], self.account_map()[d])) && (!(exists|i: int| 0 <= i < index + 1 && #[trigger] ids@[i]@ == d)
                        ==> self.account_map()[d] == original[d]) by {
                    if d != id@ {
                        if exists|i: int| 0 <= i < index + 1 && #[trigger] ids@[i]@ == d {
                            let i = choose|i: int| 0 <= i < index + 1 && #[trigger] ids@[i]@ == d;
                            assert(i < index);
                        }
                        if !(exists|i: int| 0 <= i < index + 1 && #[trigger] ids@[i]@ == d) {
                            assert(!(exists|i: int| 0 <= i < index && #[trigger] ids@[i]@ == d));
                        }
                    } else {
                        assert(ids@[index as int]@ == d);
                        if (exists|i: int| 0 <= i < index && #[trigger] ids@[i]@ == d) {
                            // Each identifier appears once, so it was not settled before.
                            assert(before.account_map().contains_key(d));
                        }
                    }
                }
            }
            index = index + 1;
        }
        proof {
            assert forall|d: Seq<u8>| #[trigger] self.account_map().contains_key(d) implies counters_cleared(
                original[d],
                self.account_map()[d],
            ) by {
                assert(original.contains_key(d));
                let i = choose|i: int| 0 <= i < ids@.len() && #[trigger] ids@[i]@ == d;
                assert(exists|j: int| 0 <= j < index && #[trigger] ids@[j]@ == d);
            }
        }
    }
}

} // verus!
