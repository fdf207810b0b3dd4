use vanargand::account::{Account, Device};
use vanargand::amount::Amount;
use vanargand::amount::Ratio;
use vanargand::block::{BlockHeader, FinalityRung, SignedHeader, ValidatorEquivocation, HEADER_VERSION};
use vanargand::hash::Digest;
use vanargand::id::{AccountId, BlockId, ChainId, DeviceId};
use vanargand::ledger::{BlockContext, EvidenceVerdict, Ledger, StateError};
use vanargand::sign::Signature;
use vanargand::slashing::SlashingError;
use vanargand::nonce::{Lane, Nonce};
use vanargand::recovery::{RecoveryError, RECOVERY_WINDOW_FINALIZED_BLOCKS};
use vanargand::sign::VerifyingKey;
use vanargand::sorted_map::SortedMap;
use vanargand::name::Name;
use vanargand::name_book::{NameError, COMMITMENT_EXPIRY_FINALIZED_BLOCKS};
use vanargand::tx::{name_commitment, AccountEquivocation, Transaction, TxBody, TxError, TxKind, TX_VERSION};

/// A stand-in device key: the test algorithm's byte and 32 bytes of `byte`.
fn keypair(byte: u8) -> VerifyingKey {
    VerifyingKey::new(1, vec![byte; 32])
}

fn account_id(byte: u8) -> AccountId {
    AccountId::from_hash(Digest::from_bytes([byte; 32]))
}

fn chain() -> ChainId {
    ChainId::from_hash(Digest::from_bytes([0x11; 32]))
}

fn funded(key: &VerifyingKey, balance: u64, margin: u64) -> Account {
    let mut account = Account::new();
    account.credit(None, Amount::from_ulf(balance)).unwrap();
    account.nomad_credit = Amount::from_ulf(balance);
    account.nomad_margin = Amount::from_ulf(margin);
    account.devices.insert(
        DeviceId::of_device_key(key),
        Device {
            key: key.clone(),
            lane: Lane::first(),
            nomad_share: Amount::from_ulf(balance),
            nomad_spent: Amount::from_ulf(0),
        },
    );
    account.next_lane = Lane::new(1);
    account
}

fn context(finalized: u64) -> BlockContext {
    BlockContext {
        chain: chain(),
        height: finalized + 60,
        finalized_height: finalized,
        rung: FinalityRung::Chain,
        proposer: account_id(0xee),
    }
}

fn body(account: AccountId, device: &VerifyingKey, sequence: u64, kind: TxKind) -> TxBody {
    TxBody {
        version: TX_VERSION,
        chain: chain(),
        account,
        device: DeviceId::of_device_key(device),
        nonce: Nonce::new(Lane::first(), sequence),
        fee: Amount::from_ulf(10),
        valid_until_finalized: None,
        kind,
    }
}

/// Marie, her five guardians, and a ledger they can all transact on.
fn with_guardians() -> (Ledger, VerifyingKey, AccountId, Vec<(AccountId, VerifyingKey)>) {
    let marie_key = keypair(1);
    let marie = account_id(0xa1);
    let mut ledger = Ledger::new();
    ledger.put_account(marie, funded(&marie_key, 10_000, 0));

    let mut guardians = Vec::new();
    for byte in 10..15_u8 {
        let key = keypair(byte);
        let id = account_id(byte);
        ledger.put_account(id, funded(&key, 1_000, 0));
        guardians.push((id, key));
    }

    let mut set = SortedMap::new();
    for (id, _) in &guardians {
        set.insert(*id, ());
    }
    let declare = body(marie, &marie_key, 0, TxKind::GuardianSet { guardians: set, threshold: 3 });
    ledger.apply(&context(100), &declare).expect("naming guardians");
    (ledger, marie_key, marie, guardians)
}

#[test]
fn three_of_five_guardians_recover_an_account() {
    let (mut ledger, _, marie, guardians) = with_guardians();
    let new_root = keypair(99);

    for (id, key) in guardians.iter().take(3) {
        let approval = body(
            *id,
            key,
            0,
            TxKind::RecoveryStart { account: marie, new_root_key: new_root.clone() },
        );
        ledger.apply(&context(200), &approval).expect("a guardian approving");
    }
    assert_eq!(ledger.recoveries().get(&marie).unwrap().approval_count(), 3);

    // The threshold alone does not finish it.
    let finish = body(guardians[0].0, &guardians[0].1, 1, TxKind::RecoveryFinalise { account: marie });
    assert!(matches!(
        ledger.apply(&context(200), &finish),
        Err(StateError::Recovery(RecoveryError::WindowOpen { .. }))
    ));

    ledger
        .apply(&context(200 + RECOVERY_WINDOW_FINALIZED_BLOCKS), &finish)
        .expect("threshold met and window elapsed");

    // The old device is gone for good; the new key can sign.
    let recovered = ledger.account(&marie).unwrap();
    assert!(recovered.devices.contains(&DeviceId::of_device_key(&new_root)));
    assert_eq!(recovered.devices.len(), 1);
    assert_eq!(recovered.revoked_devices.len(), 1);
    assert_eq!(
        recovered.nomad_credit,
        Amount::from_ulf(0),
        "a recovered account kept an offline credit it had just proved it could not hold"
    );
}

#[test]
fn a_surviving_device_cancels_a_recovery() {
    let (mut ledger, marie_key, marie, guardians) = with_guardians();
    let new_root = keypair(99);

    for (id, key) in guardians.iter().take(3) {
        let approval = body(
            *id,
            key,
            0,
            TxKind::RecoveryStart { account: marie, new_root_key: new_root.clone() },
        );
        ledger.apply(&context(200), &approval).unwrap();
    }

    let cancel = body(marie, &marie_key, 1, TxKind::RecoveryCancel { account: marie });
    ledger.apply(&context(300), &cancel).expect("the owner objects");
    assert!(ledger.recoveries().is_empty());

    let finish = body(guardians[0].0, &guardians[0].1, 1, TxKind::RecoveryFinalise { account: marie });
    assert!(matches!(
        ledger.apply(&context(200 + RECOVERY_WINDOW_FINALIZED_BLOCKS), &finish),
        Err(StateError::Recovery(RecoveryError::NotRecovering))
    ));
    assert!(ledger.account(&marie).unwrap().devices.contains(&DeviceId::of_device_key(&marie_key)));
}

#[test]
fn a_stranger_cannot_approve_a_recovery() {
    let (mut ledger, _, marie, _) = with_guardians();
    let stranger_key = keypair(50);
    let stranger = account_id(50);
    ledger.put_account(stranger, funded(&stranger_key, 1_000, 0));

    let approval = body(
        stranger,
        &stranger_key,
        0,
        TxKind::RecoveryStart { account: marie, new_root_key: keypair(99) },
    );
    assert!(matches!(
        ledger.apply(&context(200), &approval),
        Err(StateError::Recovery(RecoveryError::NotAGuardian(_)))
    ));
    assert!(ledger.recoveries().is_empty());
}

#[test]
fn a_rogue_guardian_cannot_redirect_a_recovery_through_the_ledger() {
    let (mut ledger, _, marie, guardians) = with_guardians();
    let agreed = keypair(99);
    let rogue_choice = keypair(98);

    for (id, key) in guardians.iter().take(2) {
        let approval = body(
            *id,
            key,
            0,
            TxKind::RecoveryStart { account: marie, new_root_key: agreed.clone() },
        );
        ledger.apply(&context(200), &approval).unwrap();
    }

    let (rogue_id, rogue_key) = &guardians[2];
    let redirect = body(
        *rogue_id,
        rogue_key,
        0,
        TxKind::RecoveryStart { account: marie, new_root_key: rogue_choice },
    );
    assert!(matches!(
        ledger.apply(&context(200), &redirect),
        Err(StateError::Recovery(RecoveryError::ConflictingKey))
    ));
    assert_eq!(ledger.recoveries().get(&marie).unwrap().new_root_key, agreed);
}

#[test]
fn a_recovery_refused_for_want_of_a_lane_changes_nothing() {
    let (mut ledger, _, marie, guardians) = with_guardians();
    let new_root = keypair(99);
    for (id, key) in guardians.iter().take(3) {
        let approval = body(
            *id,
            key,
            0,
            TxKind::RecoveryStart { account: marie, new_root_key: new_root.clone() },
        );
        ledger.apply(&context(200), &approval).unwrap();
    }
    let mut exhausted = ledger.account(&marie).unwrap().clone();
    exhausted.next_lane = Lane::new(u32::MAX);
    ledger.put_account(marie, exhausted);
    let before = ledger.state_root();

    let finish = body(guardians[0].0, &guardians[0].1, 1, TxKind::RecoveryFinalise { account: marie });
    assert_eq!(
        ledger.apply(&context(200 + RECOVERY_WINDOW_FINALIZED_BLOCKS), &finish),
        Err(StateError::Overflow)
    );
    assert_eq!(ledger.state_root(), before);
    assert_eq!(ledger.recoveries().get(&marie).unwrap().approval_count(), 3);
}

#[test]
fn a_name_is_registered_through_commit_and_reveal() {
    let marie_key = keypair(1);
    let marie = account_id(0xa1);
    let mut ledger = Ledger::new();
    ledger.put_account(marie, funded(&marie_key, 10_000, 0));

    let wanted = Name::new("cafe-du-port").unwrap();
    let salt = [0x5a_u8; 32];

    let commit = body(
        marie,
        &marie_key,
        0,
        TxKind::NameCommit { commitment: name_commitment(&wanted, &salt, marie) },
    );
    ledger.apply(&context(100), &commit).expect("staking a claim");
    assert!(ledger.names().owner(&wanted).is_none(), "the name leaked from the commitment");

    let reveal = body(marie, &marie_key, 1, TxKind::NameReveal { name: wanted.clone(), salt });
    assert!(
        matches!(ledger.apply(&context(100), &reveal), Err(StateError::Name(_))),
        "a reveal in the same block was accepted; a proposer could reorder the two"
    );

    ledger.apply(&context(200), &reveal).expect("the delay has passed");
    assert_eq!(ledger.names().owner(&wanted), Some(marie));
}

#[test]
fn a_premium_name_is_refused_until_the_auction_exists() {
    let marie_key = keypair(1);
    let marie = account_id(0xa1);
    let mut ledger = Ledger::new();
    ledger.put_account(marie, funded(&marie_key, 10_000, 0));

    let short = Name::new("marie").unwrap();
    let salt = [0x5a_u8; 32];
    let commit = body(
        marie,
        &marie_key,
        0,
        TxKind::NameCommit { commitment: name_commitment(&short, &salt, marie) },
    );
    ledger.apply(&context(100), &commit).unwrap();

    let reveal = body(marie, &marie_key, 1, TxKind::NameReveal { name: short.clone(), salt });
    assert_eq!(
        ledger.apply(&context(200), &reveal),
        Err(StateError::Name(NameError::PremiumNotAuctioned { name: short }))
    );
    assert!(ledger.names().is_empty());
}

#[test]
fn a_taken_name_is_refused_through_the_ledger_and_names_its_holder() {
    let marie_key = keypair(1);
    let marie = account_id(0xa1);
    let paul_key = keypair(2);
    let paul = account_id(0xa2);
    let mut ledger = Ledger::new();
    ledger.put_account(marie, funded(&marie_key, 10_000, 0));
    ledger.put_account(paul, funded(&paul_key, 10_000, 0));

    let wanted = Name::new("cafe-du-port").unwrap();
    let salt = [0x5a_u8; 32];
    for (id, key) in [(marie, &marie_key), (paul, &paul_key)] {
        let commit = body(
            id,
            key,
            0,
            TxKind::NameCommit { commitment: name_commitment(&wanted, &salt, id) },
        );
        ledger.apply(&context(100), &commit).unwrap();
    }
    let first = body(marie, &marie_key, 1, TxKind::NameReveal { name: wanted.clone(), salt });
    ledger.apply(&context(200), &first).unwrap();
    let second = body(paul, &paul_key, 1, TxKind::NameReveal { name: wanted.clone(), salt });
    assert_eq!(
        ledger.apply(&context(200), &second),
        Err(StateError::Name(NameError::NameTaken { owner: marie }))
    );
    assert_eq!(ledger.names().owner(&wanted), Some(marie));
}

#[test]
fn an_unopened_commitment_is_pruned_once_it_expires() {
    let marie_key = keypair(1);
    let marie = account_id(0xa1);
    let mut ledger = Ledger::new();
    ledger.put_account(marie, funded(&marie_key, 10_000, 0));

    let wanted = Name::new("cafe-du-port").unwrap();
    let salt = [0x5a_u8; 32];
    let commit = body(
        marie,
        &marie_key,
        0,
        TxKind::NameCommit { commitment: name_commitment(&wanted, &salt, marie) },
    );
    ledger.apply(&context(100), &commit).unwrap();

    assert_eq!(ledger.prune_expired_commitments(100 + COMMITMENT_EXPIRY_FINALIZED_BLOCKS), 0);
    assert_eq!(ledger.names().commitments().len(), 1);
    assert_eq!(ledger.prune_expired_commitments(101 + COMMITMENT_EXPIRY_FINALIZED_BLOCKS), 1);
    assert!(ledger.names().commitments().is_empty());

    let reveal = body(marie, &marie_key, 1, TxKind::NameReveal { name: wanted, salt });
    assert_eq!(
        ledger.apply(&context(200), &reveal),
        Err(StateError::Name(NameError::NoSuchCommitment))
    );
}

/// The evidence that Marie paid two merchants from the same slot.
fn double_spend_evidence() -> AccountEquivocation {
    let marie_key = keypair(1);
    let marie = account_id(0xa1);
    let pay = |to: u8, amount: u64| Transaction {
        body: body(
            marie,
            &marie_key,
            0,
            TxKind::Transfer { to: account_id(to), asset: None, amount: Amount::from_ulf(amount) },
        ),
        signature: Signature::new(1, vec![1; 64]),
    };
    AccountEquivocation {
        device: DeviceId::of_device_key(&marie_key),
        first: pay(0xb1, 300),
        second: pay(0xb2, 400),
    }
}

/// Marie, with a margin bonded against her offline credit, a denouncer,
/// and the evidence of Marie's double spend.
fn double_spend() -> (Ledger, AccountId, AccountEquivocation) {
    let marie = account_id(0xa1);
    let mut ledger = Ledger::new();
    ledger.put_account(marie, funded(&keypair(1), 10_000, 1_001));
    ledger.put_account(account_id(0xd1), funded(&keypair(7), 1_000, 0));
    (ledger, marie, double_spend_evidence())
}

fn verified() -> EvidenceVerdict {
    EvidenceVerdict { account: Ok(()), validator_signed: true }
}

#[test]
fn a_double_spend_convicts_itself_once_its_signatures_verify() {
    let (mut ledger, marie, evidence) = double_spend();
    let denouncer = account_id(0xd1);
    let burned_before = ledger.burned();
    let publish = body(denouncer, &keypair(7), 0, TxKind::AccountEquivocation(Box::new(evidence)));

    ledger.apply_with_verdict(&context(100), &publish, verified()).expect("a genuine double spend");

    // The margin is seized: half to the denouncer, the rest to the fire.
    assert_eq!(ledger.account(&marie).unwrap().nomad_margin, Amount::from_ulf(0));
    assert_eq!(ledger.account(&denouncer).unwrap().balance(None), Amount::from_ulf(1_000 - 10 + 500));
    assert_eq!(ledger.burned(), burned_before.checked_add(Amount::from_ulf(1 + 501)).unwrap());
    assert_eq!(ledger.offences().len(), 1);

    // One crime earns one bounty.
    let again = body(
        denouncer,
        &keypair(7),
        1,
        TxKind::AccountEquivocation(Box::new(double_spend_evidence())),
    );
    assert_eq!(
        ledger.apply_with_verdict(&context(100), &again, verified()),
        Err(StateError::Slashing(SlashingError::AlreadyPunished))
    );
}

#[test]
fn evidence_whose_signatures_fail_changes_nothing() {
    let (mut ledger, _, evidence) = double_spend();
    let denouncer = account_id(0xd1);
    let before = ledger.clone();
    let publish = body(denouncer, &keypair(7), 0, TxKind::AccountEquivocation(Box::new(evidence)));
    let forged = EvidenceVerdict { account: Err(TxError::BadSignature), validator_signed: false };
    assert_eq!(
        ledger.apply_with_verdict(&context(100), &publish, forged),
        Err(StateError::BadEvidence(TxError::BadSignature))
    );
    assert_eq!(ledger, before);
}

#[test]
fn evidence_is_not_applied_without_a_verdict_on_its_signatures() {
    let (mut ledger, _, evidence) = double_spend();
    let denouncer = account_id(0xd1);
    let before = ledger.clone();
    let publish = body(denouncer, &keypair(7), 0, TxKind::AccountEquivocation(Box::new(evidence)));
    assert_eq!(
        ledger.apply(&context(100), &publish),
        Err(StateError::NotImplemented { kind: "account_equivocation" })
    );
    assert_eq!(ledger, before);
}

#[test]
fn an_unbonded_equivocation_convicts_but_seizes_nothing() {
    let (mut ledger, marie, evidence) = double_spend();
    let mut unbonded = ledger.account(&marie).unwrap().clone();
    unbonded.nomad_margin = Amount::from_ulf(0);
    ledger.put_account(marie, unbonded);
    let denouncer = account_id(0xd1);
    let burned_before = ledger.burned();
    let publish = body(denouncer, &keypair(7), 0, TxKind::AccountEquivocation(Box::new(evidence)));

    ledger.apply_with_verdict(&context(100), &publish, verified()).expect("convicted all the same");
    assert_eq!(ledger.offences().len(), 1);
    assert_eq!(ledger.account(&denouncer).unwrap().balance(None), Amount::from_ulf(1_000 - 10));
    assert_eq!(ledger.burned(), burned_before.checked_add(Amount::from_ulf(1)).unwrap());
}

/// Two different blocks that `validator` proposed at one height.
fn two_blocks(validator: AccountId) -> ValidatorEquivocation {
    let block = |state: u8| SignedHeader {
        header: BlockHeader {
            version: HEADER_VERSION,
            chain: chain(),
            height: 42,
            parent: BlockId::from_hash(Digest::from_bytes([0x22; 32])),
            rung: FinalityRung::Chain,
            finalized_height: 40,
            state_root: Digest::from_bytes([state; 32]),
            tx_root: Digest::from_bytes([0x44; 32]),
            proposer: validator,
            randomness_reveal: Digest::from_bytes([0x66; 32]),
            archive_commitment: Digest::from_bytes([0x77; 32]),
            emitted_supply: Amount::from_ulf(1_234),
            security_budget: Amount::from_ulf(5_678),
            fee_emission_ratio: Ratio::new(3, 7),
        },
        signature: Signature::new(1, vec![3; 64]),
    };
    ValidatorEquivocation { validator, first: block(0x33), second: block(0xaa) }
}

#[test]
fn a_validator_signing_two_blocks_loses_its_bond() {
    let validator_key = keypair(8);
    let validator = account_id(0xf1);
    let mut bonded = funded(&validator_key, 1_000, 0);
    bonded.bonded = Amount::from_ulf(4_000);
    let mut ledger = Ledger::new();
    ledger.put_account(validator, bonded);
    let denouncer = account_id(0xd1);
    ledger.put_account(denouncer, funded(&keypair(7), 1_000, 0));

    let publish = body(denouncer, &keypair(7), 0, TxKind::ValidatorEquivocation(Box::new(two_blocks(validator))));
    let unsigned = EvidenceVerdict { account: Ok(()), validator_signed: false };
    let before = ledger.clone();
    assert_eq!(
        ledger.apply_with_verdict(&context(100), &publish, unsigned),
        Err(StateError::NotTheValidator(validator))
    );
    assert_eq!(ledger, before);

    ledger.apply_with_verdict(&context(100), &publish, verified()).expect("a validator equivocated");
    assert_eq!(ledger.account(&validator).unwrap().bonded, Amount::from_ulf(0));
    assert_eq!(ledger.account(&denouncer).unwrap().balance(None), Amount::from_ulf(1_000 - 10 + 2_000));
    assert_eq!(ledger.offences().len(), 1);
}
