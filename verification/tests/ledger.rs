use vanargand::account::{Account, Device};
use vanargand::amount::{Amount, FeeSplit};
use vanargand::block::FinalityRung;
use vanargand::hash::Digest;
use vanargand::id::{AccountId, ChainId, DeviceId};
use vanargand::ledger::{
    bond, check_authority, check_envelope, check_nomad, device_revoke, native_outflow, nomad_set,
    unbond, Applied, BlockContext, Ledger, StateError,
};
use vanargand::nonce::{Lane, Nonce};
use vanargand::recovery::RecoveryError;
use vanargand::sign::VerifyingKey;
use vanargand::tx::{TxBody, TxError, TxKind, TX_VERSION};

#[test]
fn a_block_context_carries_both_heights() {
    let context = BlockContext {
        chain: ChainId::from_hash(Digest::from_bytes([1; 32])),
        height: 120,
        finalized_height: 100,
        rung: FinalityRung::Provisional,
        proposer: AccountId::from_hash(Digest::from_bytes([2; 32])),
    };
    let copy = context;
    assert_eq!(copy, context);
    assert!(copy.height > copy.finalized_height);
    assert!(copy.rung.claimable_by_a_header());
}

#[test]
fn applying_records_the_fee_split() {
    let fee = Amount::from_ulf(1_000_000);
    let applied = Applied { fee: FeeSplit::of(fee), nomad_consumed: Amount::from_ulf(0) };
    assert_eq!(applied.fee.total(), Some(fee));
    assert!(applied.nomad_consumed.is_zero());
}

#[test]
fn recovery_errors_carry_their_numbers() {
    let error = RecoveryError::BelowThreshold { approvals: 2, threshold: 3 };
    assert_ne!(error, RecoveryError::NoGuardians);
    assert_eq!(
        RecoveryError::WindowOpen { finalized_height: 5, closes_at: 9 },
        RecoveryError::WindowOpen { finalized_height: 5, closes_at: 9 }
    );
}

fn chain() -> ChainId {
    ChainId::from_hash(Digest::from_bytes([1; 32]))
}

fn context(rung: FinalityRung) -> BlockContext {
    BlockContext {
        chain: chain(),
        height: 120,
        finalized_height: 100,
        rung,
        proposer: AccountId::from_hash(Digest::from_bytes([2; 32])),
    }
}

fn device_id(byte: u8) -> DeviceId {
    DeviceId::from_hash(Digest::from_bytes([byte; 32]))
}

fn body(kind: TxKind) -> TxBody {
    TxBody {
        version: TX_VERSION,
        chain: chain(),
        account: AccountId::from_hash(Digest::from_bytes([3; 32])),
        device: device_id(4),
        nonce: Nonce::new(Lane::new(1), 0),
        fee: Amount::from_ulf(10),
        valid_until_finalized: Some(100),
        kind,
    }
}

/// An account holding `balance` ulf of VAN, with device 4 on lane 1 whose
/// share of the offline credit is `share`, of which `spent` is spent.
fn account(balance: u64, share: u64, spent: u64) -> Account {
    let mut account = Account::new();
    if balance > 0 {
        account.credit(None, Amount::from_ulf(balance)).unwrap();
    }
    account.devices.insert(
        device_id(4),
        Device {
            key: VerifyingKey::new(1, vec![4; 32]),
            lane: Lane::new(1),
            nomad_share: Amount::from_ulf(share),
            nomad_spent: Amount::from_ulf(spent),
        },
    );
    account.nomad_credit = Amount::from_ulf(share);
    account
}

fn transfer(amount: u64) -> TxKind {
    TxKind::Transfer {
        to: AccountId::from_hash(Digest::from_bytes([5; 32])),
        asset: None,
        amount: Amount::from_ulf(amount),
    }
}

#[test]
fn the_envelope_is_checked_in_order() {
    let online = context(FinalityRung::Chain);
    assert_eq!(check_envelope(&online, &body(transfer(1))), Ok(()));

    let mut old_version = body(transfer(1));
    old_version.version = TX_VERSION + 1;
    old_version.chain = ChainId::from_hash(Digest::from_bytes([9; 32]));
    assert_eq!(
        check_envelope(&online, &old_version),
        Err(StateError::UnsupportedVersion(TX_VERSION + 1))
    );

    let mut elsewhere = body(transfer(1));
    elsewhere.chain = ChainId::from_hash(Digest::from_bytes([9; 32]));
    assert_eq!(check_envelope(&online, &elsewhere), Err(StateError::WrongChain));

    let mut stale = body(transfer(1));
    stale.valid_until_finalized = Some(99);
    assert_eq!(
        check_envelope(&online, &stale),
        Err(StateError::Expired { valid_until: 99, finalized_height: 100 })
    );
}

#[test]
fn the_outflow_counts_the_fee_and_native_value_only() {
    assert_eq!(native_outflow(&body(transfer(90))), Ok(Amount::from_ulf(100)));
    let local = body(TxKind::Transfer {
        to: AccountId::from_hash(Digest::from_bytes([5; 32])),
        asset: Some(vanargand::id::AssetId::from_hash(Digest::from_bytes([6; 32]))),
        amount: Amount::from_ulf(90),
    });
    assert_eq!(native_outflow(&local), Ok(Amount::from_ulf(10)));
    let staking = body(TxKind::Bond { amount: Amount::from_ulf(5), commitment_root: Digest::zero() });
    assert_eq!(native_outflow(&staking), Ok(Amount::from_ulf(15)));
    let mut huge = body(transfer(u64::MAX));
    huge.fee = Amount::from_ulf(1);
    assert_eq!(native_outflow(&huge), Err(StateError::Overflow));
}

#[test]
fn authority_needs_a_live_device_on_its_own_lane_at_the_next_sequence() {
    let holder = account(1_000, 0, 0);
    assert_eq!(check_authority(&holder, &body(transfer(1))), Ok((Lane::new(1), device_id(4))));

    let mut stranger = body(transfer(1));
    stranger.device = device_id(7);
    assert_eq!(check_authority(&holder, &stranger), Err(StateError::NoSuchDevice(device_id(7))));

    let mut wrong_lane = body(transfer(1));
    wrong_lane.nonce = Nonce::new(Lane::new(2), 0);
    assert_eq!(
        check_authority(&holder, &wrong_lane),
        Err(StateError::WrongLane { expected: Lane::new(1), got: Lane::new(2) })
    );

    let mut ahead = body(transfer(1));
    ahead.nonce = Nonce::new(Lane::new(1), 1);
    assert_eq!(check_authority(&holder, &ahead), Err(StateError::BadNonce { expected: 0, got: 1 }));

    let mut revoked = account(1_000, 0, 0);
    device_revoke(&mut revoked, device_id(4)).unwrap();
    assert_eq!(check_authority(&revoked, &body(transfer(1))), Err(StateError::DeviceRevoked(device_id(4))));
}

#[test]
fn the_offline_credit_is_a_hard_ceiling() {
    let holder = account(1_000, 100, 30);
    assert_eq!(check_nomad(&holder, device_id(4), Amount::from_ulf(70)), Ok(()));
    assert_eq!(
        check_nomad(&holder, device_id(4), Amount::from_ulf(71)),
        Err(StateError::NomadCreditExhausted {
            device: device_id(4),
            needed: Amount::from_ulf(71),
            remaining: Amount::from_ulf(70),
        })
    );
    assert_eq!(
        check_nomad(&holder, device_id(8), Amount::from_ulf(0)),
        Err(StateError::NoSuchDevice(device_id(8)))
    );
    let overspent = account(1_000, 100, 150);
    assert_eq!(
        check_nomad(&overspent, device_id(4), Amount::from_ulf(1)),
        Err(StateError::NomadCreditExhausted {
            device: device_id(4),
            needed: Amount::from_ulf(1),
            remaining: Amount::from_ulf(0),
        })
    );
}

#[test]
fn the_credit_cannot_fall_below_the_device_shares() {
    let mut holder = account(1_000, 100, 0);
    assert_eq!(
        nomad_set(&mut holder, Amount::from_ulf(99), Amount::from_ulf(5)),
        Err(StateError::NomadOverAllocated {
            allocated: Amount::from_ulf(100),
            credit: Amount::from_ulf(99),
        })
    );
    assert_eq!(holder.nomad_credit, Amount::from_ulf(100));
    assert_eq!(nomad_set(&mut holder, Amount::from_ulf(500), Amount::from_ulf(5)), Ok(()));
    assert_eq!(holder.nomad_credit, Amount::from_ulf(500));
    assert_eq!(holder.nomad_margin, Amount::from_ulf(5));
}

#[test]
fn a_revoked_device_is_remembered() {
    let mut holder = account(0, 0, 0);
    assert_eq!(device_revoke(&mut holder, device_id(4)), Ok(()));
    assert_eq!(holder.devices.len(), 0);
    assert!(holder.revoked_devices.contains(&device_id(4)));
    assert_eq!(device_revoke(&mut holder, device_id(4)), Err(StateError::NoSuchDevice(device_id(4))));
}

#[test]
fn bonding_moves_value_between_balance_and_bond() {
    let mut holder = account(1_000, 0, 0);
    assert_eq!(
        bond(&mut holder, Amount::from_ulf(1_001)),
        Err(StateError::InsufficientBalance {
            asset: None,
            needed: Amount::from_ulf(1_001),
            available: Amount::from_ulf(1_000),
        })
    );
    assert_eq!(bond(&mut holder, Amount::from_ulf(400)), Ok(()));
    assert_eq!(holder.balance(None), Amount::from_ulf(600));
    assert_eq!(holder.bonded, Amount::from_ulf(400));
    assert_eq!(
        unbond(&mut holder, Amount::from_ulf(401)),
        Err(StateError::InsufficientBalance {
            asset: None,
            needed: Amount::from_ulf(401),
            available: Amount::from_ulf(400),
        })
    );
    assert_eq!(unbond(&mut holder, Amount::from_ulf(400)), Ok(()));
    assert_eq!(holder.balance(None), Amount::from_ulf(1_000));
    assert_eq!(holder.bonded, Amount::from_ulf(0));
}

#[test]
fn state_errors_read_as_sentences() {
    assert_eq!(StateError::WrongChain.to_string(), "the transaction is for another chain");
    assert_eq!(
        StateError::Expired { valid_until: 99, finalized_height: 100 }.to_string(),
        "expired: valid until finalised height 99, now 100"
    );
    assert_eq!(
        StateError::WrongLane { expected: Lane::new(1), got: Lane::new(2) }.to_string(),
        "device owns lane 1, transaction used lane 2"
    );
    assert_eq!(
        StateError::NoSuchDevice(device_id(0xab)).to_string(),
        format!("no such device {}", "ab".repeat(32))
    );
    assert_eq!(
        StateError::InsufficientBalance {
            asset: None,
            needed: Amount::from_ulf(1_500_000_000),
            available: Amount::from_ulf(0),
        }
        .to_string(),
        "needed 1.500000000 VAN, available 0.000000000 VAN"
    );
    assert_eq!(StateError::BadEvidence(TxError::EvidenceAboutEvidence).to_string(), "evidence about evidence");
    assert_eq!(
        StateError::NotImplemented { kind: "purse_open" }.to_string(),
        "purse_open is not implemented yet"
    );
}

// --- the ledger ------------------------------------------------------------

fn village_chain() -> ChainId {
    ChainId::from_hash(Digest::from_bytes([0x11; 32]))
}

fn account_id(byte: u8) -> AccountId {
    AccountId::from_hash(Digest::from_bytes([byte; 32]))
}

fn key(byte: u8) -> VerifyingKey {
    VerifyingKey::new(1, vec![byte; 32])
}

/// An account with one device, a balance, and a declared offline credit.
fn villager(device_key: &VerifyingKey, balance: u64, credit: u64, share: u64) -> Account {
    let mut account = Account::new();
    account.credit(None, Amount::from_ulf(balance)).unwrap();
    account.nomad_credit = Amount::from_ulf(credit);
    account.devices.insert(
        DeviceId::of_device_key(device_key),
        Device {
            key: device_key.clone(),
            lane: Lane::first(),
            nomad_share: Amount::from_ulf(share),
            nomad_spent: Amount::from_ulf(0),
        },
    );
    account.next_lane = Lane::new(1);
    account
}

fn village_context(rung: FinalityRung) -> BlockContext {
    BlockContext {
        chain: village_chain(),
        height: 100,
        finalized_height: if rung == FinalityRung::Chain { 100 } else { 40 },
        rung,
        proposer: account_id(0xee),
    }
}

fn signed_body(account: AccountId, device: &VerifyingKey, sequence: u64, kind: TxKind) -> TxBody {
    TxBody {
        version: TX_VERSION,
        chain: village_chain(),
        account,
        device: DeviceId::of_device_key(device),
        nonce: Nonce::new(Lane::first(), sequence),
        fee: Amount::from_ulf(10),
        valid_until_finalized: None,
        kind,
    }
}

fn pay(to: AccountId, amount: u64) -> TxKind {
    TxKind::Transfer { to, asset: None, amount: Amount::from_ulf(amount) }
}

/// A ledger with Marie (the payer) and the baker.
fn village() -> (Ledger, VerifyingKey, AccountId, AccountId) {
    let marie_key = key(1);
    let marie = account_id(0xa1);
    let baker = account_id(0xb1);
    let mut ledger = Ledger::new();
    ledger.put_account(marie, villager(&marie_key, 10_000, 500, 500));
    ledger.put_account(baker, Account::new());
    (ledger, marie_key, marie, baker)
}

#[test]
fn an_offline_payment_within_the_declared_credit_succeeds() {
    let (mut ledger, key, marie, baker) = village();
    let ctx = village_context(FinalityRung::Provisional);
    let applied = ledger
        .apply(&ctx, &signed_body(marie, &key, 0, pay(baker, 100)))
        .expect("a payment inside the declared credit must go through");
    assert_eq!(applied.nomad_consumed, Amount::from_ulf(110));
    assert_eq!(ledger.account(&baker).unwrap().balance(None), Amount::from_ulf(100));
}

#[test]
fn the_declared_credit_is_a_hard_ceiling_offline() {
    let (mut ledger, key, marie, baker) = village();
    let ctx = village_context(FinalityRung::Provisional);
    let mut sequence = 0;
    let mut spent = Amount::from_ulf(0);
    loop {
        let candidate = signed_body(marie, &key, sequence, pay(baker, 40));
        match ledger.apply(&ctx, &candidate) {
            Ok(applied) => {
                spent = spent.checked_add(applied.nomad_consumed).unwrap();
                sequence += 1;
            }
            Err(StateError::NomadCreditExhausted { remaining, needed, .. }) => {
                assert!(needed.as_ulf() > remaining.as_ulf());
                break;
            }
            Err(other) => panic!("unexpected failure: {}", other.to_string()),
        }
        assert!(sequence < 100, "the ceiling was never reached");
    }
    assert!(spent.as_ulf() <= 500, "spent {} offline against a declared credit of 500 ulf", spent.as_ulf());
    assert!(ledger.account(&marie).unwrap().balance(None).as_ulf() > 9_000);
}

#[test]
fn the_same_payment_is_unbounded_once_the_chain_finalises_again() {
    let (mut ledger, key, marie, baker) = village();
    let ctx = village_context(FinalityRung::Chain);
    let applied = ledger
        .apply(&ctx, &signed_body(marie, &key, 0, pay(baker, 5_000)))
        .expect("a payment far above the offline credit is fine when online");
    assert_eq!(applied.nomad_consumed, Amount::from_ulf(0));
    assert_eq!(ledger.account(&baker).unwrap().balance(None), Amount::from_ulf(5_000));
}

#[test]
fn two_devices_of_one_account_have_separate_allowances() {
    let phone = key(1);
    let laptop = key(2);
    let marie = account_id(0xa1);
    let baker = account_id(0xb1);
    let mut account = villager(&phone, 10_000, 500, 200);
    account.devices.insert(
        DeviceId::of_device_key(&laptop),
        Device {
            key: laptop.clone(),
            lane: Lane::new(1),
            nomad_share: Amount::from_ulf(300),
            nomad_spent: Amount::from_ulf(0),
        },
    );
    account.next_lane = Lane::new(2);
    let mut ledger = Ledger::new();
    ledger.put_account(marie, account);
    ledger.put_account(baker, Account::new());
    let ctx = village_context(FinalityRung::Provisional);

    ledger.apply(&ctx, &signed_body(marie, &phone, 0, pay(baker, 190))).unwrap();
    assert!(matches!(
        ledger.apply(&ctx, &signed_body(marie, &phone, 1, pay(baker, 50))),
        Err(StateError::NomadCreditExhausted { .. })
    ));
    let mut laptop_body = signed_body(marie, &laptop, 0, pay(baker, 250));
    laptop_body.nonce = Nonce::new(Lane::new(1), 0);
    ledger.apply(&ctx, &laptop_body).expect("the laptop's own share must be intact");
}

#[test]
fn a_local_asset_escapes_the_offline_ceiling() {
    let (mut ledger, key, marie, baker) = village();
    let asset = vanargand::id::AssetId::from_hash(Digest::from_bytes([0x77; 32]));
    let mut marie_account = ledger.account(&marie).unwrap().clone();
    marie_account.credit(Some(asset), Amount::from_ulf(1_000_000)).unwrap();
    ledger.put_account(marie, marie_account);
    let ctx = village_context(FinalityRung::Provisional);
    let huge = TxKind::Transfer { to: baker, asset: Some(asset), amount: Amount::from_ulf(1_000_000) };
    let applied = ledger.apply(&ctx, &signed_body(marie, &key, 0, huge)).expect("today this is allowed");
    assert_eq!(
        applied.nomad_consumed,
        Amount::from_ulf(10),
        "only the VAN fee counted against the offline ceiling; the token transfer did not"
    );
    assert_eq!(ledger.account(&baker).unwrap().balance(Some(asset)), Amount::from_ulf(1_000_000));
}

#[test]
fn forbidden_kinds_are_refused_in_a_provisional_block() {
    let (mut ledger, key, marie, _) = village();
    let ctx = village_context(FinalityRung::Provisional);
    let raise = signed_body(
        marie,
        &key,
        0,
        TxKind::NomadSet { credit: Amount::from_van(1_000).unwrap(), margin: Amount::from_ulf(0) },
    );
    assert_eq!(ledger.apply(&ctx, &raise), Err(StateError::ForbiddenInProvisional { kind: "nomad_set" }));
    ledger.apply(&village_context(FinalityRung::Chain), &raise).expect("legal when online");
}

#[test]
fn a_failed_transaction_changes_nothing() {
    let (mut ledger, key, marie, baker) = village();
    let ctx = village_context(FinalityRung::Chain);
    let before = ledger.clone();
    let overdraft = signed_body(marie, &key, 0, pay(baker, 1_000_000));
    assert!(matches!(ledger.apply(&ctx, &overdraft), Err(StateError::InsufficientBalance { .. })));
    assert_eq!(ledger, before, "a failed transaction mutated the ledger");
    ledger.apply(&ctx, &signed_body(marie, &key, 0, pay(baker, 1))).expect("the nonce must still be free");
}

#[test]
fn a_nonce_cannot_be_replayed() {
    let (mut ledger, key, marie, baker) = village();
    let ctx = village_context(FinalityRung::Chain);
    let payment = signed_body(marie, &key, 0, pay(baker, 100));
    ledger.apply(&ctx, &payment).unwrap();
    assert!(matches!(ledger.apply(&ctx, &payment), Err(StateError::BadNonce { .. })));
    assert_eq!(ledger.account(&baker).unwrap().balance(None), Amount::from_ulf(100));
}

#[test]
fn a_nonce_gap_is_refused() {
    let (mut ledger, key, marie, baker) = village();
    let ctx = village_context(FinalityRung::Chain);
    assert!(matches!(
        ledger.apply(&ctx, &signed_body(marie, &key, 5, pay(baker, 1))),
        Err(StateError::BadNonce { expected: 0, got: 5 })
    ));
}

#[test]
fn a_transaction_for_another_chain_is_refused() {
    let (mut ledger, key, marie, baker) = village();
    let ctx = village_context(FinalityRung::Chain);
    let mut elsewhere = signed_body(marie, &key, 0, pay(baker, 1));
    elsewhere.chain = ChainId::from_hash(Digest::from_bytes([0x99; 32]));
    assert_eq!(ledger.apply(&ctx, &elsewhere), Err(StateError::WrongChain));
}

#[test]
fn a_revoked_device_cannot_sign() {
    let (mut ledger, key, marie, baker) = village();
    let ctx = village_context(FinalityRung::Chain);
    let revoke = signed_body(marie, &key, 0, TxKind::DeviceRevoke { device: DeviceId::of_device_key(&key) });
    ledger.apply(&ctx, &revoke).unwrap();
    assert_eq!(
        ledger.apply(&ctx, &signed_body(marie, &key, 1, pay(baker, 1))),
        Err(StateError::DeviceRevoked(DeviceId::of_device_key(&key)))
    );
}

#[test]
fn lowering_the_credit_below_what_is_allocated_is_refused() {
    let (mut ledger, key, marie, _) = village();
    let ctx = village_context(FinalityRung::Chain);
    let shrink = signed_body(
        marie,
        &key,
        0,
        TxKind::NomadSet { credit: Amount::from_ulf(100), margin: Amount::from_ulf(0) },
    );
    assert!(matches!(ledger.apply(&ctx, &shrink), Err(StateError::NomadOverAllocated { .. })));
}

#[test]
fn the_fee_is_split_between_proposer_pot_and_fire() {
    let (mut ledger, key, marie, baker) = village();
    let ctx = village_context(FinalityRung::Chain);
    let mut large_fee = signed_body(marie, &key, 0, pay(baker, 7));
    large_fee.fee = Amount::from_ulf(1_000);
    let applied = ledger.apply(&ctx, &large_fee).unwrap();
    assert_eq!(applied.fee.provider, Amount::from_ulf(700));
    assert_eq!(ledger.account(&account_id(0xee)).unwrap().balance(None), Amount::from_ulf(700));
    assert_eq!(ledger.context_pot(), Amount::from_ulf(200));
    assert_eq!(ledger.burned(), Amount::from_ulf(100));
    assert_eq!(ledger.total_fees(), Amount::from_ulf(1_000));
    assert_eq!(ledger.account(&marie).unwrap().balance(None), Amount::from_ulf(10_000 - 1_000 - 7));
    assert_eq!(ledger.account(&marie).unwrap().lanes.next_sequence(Lane::first()), 1);
}

#[test]
fn bonding_moves_value_without_creating_it() {
    let (mut ledger, key, marie, _) = village();
    let ctx = village_context(FinalityRung::Chain);
    ledger
        .apply(
            &ctx,
            &signed_body(
                marie,
                &key,
                0,
                TxKind::Bond { amount: Amount::from_ulf(1_000), commitment_root: Digest::from_bytes([0xcc; 32]) },
            ),
        )
        .unwrap();
    assert_eq!(ledger.account(&marie).unwrap().bonded, Amount::from_ulf(1_000));
    assert_eq!(ledger.account(&marie).unwrap().balance(None), Amount::from_ulf(10_000 - 10 - 1_000));
    ledger
        .apply(&ctx, &signed_body(marie, &key, 1, TxKind::Unbond { amount: Amount::from_ulf(1_000) }))
        .unwrap();
    assert_eq!(ledger.account(&marie).unwrap().bonded, Amount::from_ulf(0));
    assert_eq!(ledger.account(&marie).unwrap().balance(None), Amount::from_ulf(10_000 - 20));
}

#[test]
fn every_defined_kind_is_dispatched() {
    let (mut ledger, key, marie, _) = village();
    let ctx = village_context(FinalityRung::Chain);
    let commit = signed_body(marie, &key, 0, TxKind::NameCommit { commitment: Digest::from_bytes([1; 32]) });
    assert_eq!(ledger.apply(&ctx, &commit).map(|applied| applied.nomad_consumed), Ok(Amount::from_ulf(0)));
    assert_eq!(ledger.names().commitments().len(), 1);
}

#[test]
fn channel_kinds_are_not_applied_by_this_ledger() {
    let (mut ledger, key, marie, baker) = village();
    let ctx = village_context(FinalityRung::Chain);
    let open = signed_body(
        marie,
        &key,
        0,
        TxKind::PurseOpen {
            counterparty: baker,
            asset: None,
            deposit: Amount::from_ulf(100),
            payword_root: Digest::zero(),
            tranche_value: Amount::from_ulf(1),
            expiry_finalized_height: 9_000,
        },
    );
    let before = ledger.clone();
    assert_eq!(ledger.apply(&ctx, &open), Err(StateError::NotImplemented { kind: "purse_open" }));
    assert_eq!(ledger, before);
}

#[test]
fn reconnection_restores_the_offline_allowance() {
    let (mut ledger, key, marie, baker) = village();
    let ctx = village_context(FinalityRung::Provisional);
    ledger.apply(&ctx, &signed_body(marie, &key, 0, pay(baker, 400))).unwrap();
    assert!(ledger.apply(&ctx, &signed_body(marie, &key, 1, pay(baker, 400))).is_err());
    ledger.settle_nomad_counters();
    ledger
        .apply(&ctx, &signed_body(marie, &key, 1, pay(baker, 400)))
        .expect("the allowance should be restored after reconnection");
}

#[test]
fn a_revoked_device_can_never_come_back() {
    let (mut ledger, key, marie, _) = village();
    let ctx = village_context(FinalityRung::Chain);
    let device = DeviceId::of_device_key(&key);
    let second = self::key(9);
    let mut account = ledger.account(&marie).unwrap().clone();
    account.devices.insert(
        DeviceId::of_device_key(&second),
        Device {
            key: second.clone(),
            lane: Lane::new(1),
            nomad_share: Amount::from_ulf(0),
            nomad_spent: Amount::from_ulf(0),
        },
    );
    account.next_lane = Lane::new(2);
    ledger.put_account(marie, account);
    ledger.apply(&ctx, &signed_body(marie, &key, 0, TxKind::DeviceRevoke { device })).unwrap();
    let mut readd = signed_body(
        marie,
        &second,
        0,
        TxKind::DeviceAdd { key: key.clone(), lane: Lane::new(2), nomad_share: Amount::from_ulf(0) },
    );
    readd.nonce = Nonce::new(Lane::new(1), 0);
    assert_eq!(ledger.apply(&ctx, &readd), Err(StateError::DeviceWasRevoked(device)));
}

#[test]
fn a_lane_is_never_reused() {
    let (mut ledger, key, marie, _) = village();
    let ctx = village_context(FinalityRung::Chain);
    let newcomer = self::key(7);
    let reuse = signed_body(
        marie,
        &key,
        0,
        TxKind::DeviceAdd { key: newcomer, lane: Lane::first(), nomad_share: Amount::from_ulf(0) },
    );
    assert_eq!(ledger.apply(&ctx, &reuse), Err(StateError::LaneAlreadyUsed(Lane::first())));
}

#[test]
fn device_shares_cannot_exceed_the_declared_credit() {
    let (mut ledger, key, marie, _) = village();
    let ctx = village_context(FinalityRung::Chain);
    let newcomer = self::key(8);
    let greedy = signed_body(
        marie,
        &key,
        0,
        TxKind::DeviceAdd { key: newcomer.clone(), lane: Lane::new(1), nomad_share: Amount::from_ulf(400) },
    );
    assert!(matches!(ledger.apply(&ctx, &greedy), Err(StateError::NomadOverAllocated { .. })));
    let raise = signed_body(
        marie,
        &key,
        0,
        TxKind::NomadSet { credit: Amount::from_ulf(900), margin: Amount::from_ulf(0) },
    );
    ledger.apply(&ctx, &raise).unwrap();
    let modest = signed_body(
        marie,
        &key,
        1,
        TxKind::DeviceAdd { key: newcomer.clone(), lane: Lane::new(1), nomad_share: Amount::from_ulf(400) },
    );
    ledger.apply(&ctx, &modest).expect("400 + 500 fits under 900");
    let added = ledger.account(&marie).unwrap();
    assert!(added.devices.contains(&DeviceId::of_device_key(&newcomer)));
    assert_eq!(added.next_lane, Lane::new(2));
}

#[test]
fn value_is_conserved_except_for_the_fire() {
    let (mut ledger, key, marie, baker) = village();
    let ctx = village_context(FinalityRung::Chain);
    let before = ledger.total_native_balance().unwrap();
    assert_eq!(ledger.burned(), Amount::from_ulf(0));
    for sequence in 0..5 {
        ledger.apply(&ctx, &signed_body(marie, &key, sequence, pay(baker, 7))).unwrap();
    }
    let after = ledger.total_native_balance().unwrap();
    let burned = ledger.burned();
    let pot = ledger.context_pot();
    assert_eq!(after.checked_add(burned).and_then(|total| total.checked_add(pot)), Some(before));
    assert!(!burned.is_zero(), "five fees burned nothing");
}

#[test]
fn the_state_root_changes_with_every_applied_transaction() {
    let (mut ledger, key, marie, baker) = village();
    let ctx = village_context(FinalityRung::Chain);
    let mut roots = vec![ledger.state_root()];
    for sequence in 0..6 {
        ledger.apply(&ctx, &signed_body(marie, &key, sequence, pay(baker, 3))).unwrap();
        let root = ledger.state_root();
        assert!(!roots.contains(&root), "the root repeated at nonce {sequence}");
        roots.push(root);
    }
}

#[test]
fn an_account_proves_its_balance_against_the_state_root() {
    let (mut ledger, key, marie, baker) = village();
    let ctx = village_context(FinalityRung::Chain);
    ledger.apply(&ctx, &signed_body(marie, &key, 0, pay(baker, 42))).unwrap();
    let root = ledger.state_root();
    let account = ledger.account(&baker).unwrap();
    let proof = ledger.prove_account(&baker);
    assert!(
        proof.verify(&root, &vanargand::keys::account(&baker), Some(&account.value_hash())),
        "an account could not prove its own balance"
    );
    let stranger = account_id(0xcc);
    assert!(ledger.account(&stranger).is_none());
    assert!(ledger.prove_account(&stranger).verify(&root, &vanargand::keys::account(&stranger), None));
}

#[test]
fn the_burn_counter_is_committed_to_by_the_state_root() {
    let (mut ledger, key, marie, baker) = village();
    let ctx = village_context(FinalityRung::Chain);
    let before = ledger.state_root();
    ledger.apply(&ctx, &signed_body(marie, &key, 0, pay(baker, 1))).unwrap();
    assert_ne!(ledger.state_root(), before);
    assert!(!ledger.burned().is_zero());
}
