use vanargand::amount::{Amount, Ratio};
use vanargand::block::{
    BlockHeader, FinalityRung, SignedHeader, ValidatorEquivocation, HEADER_VERSION,
};
use vanargand::codec::Encode;
use vanargand::hash::Digest;
use vanargand::id::{AccountId, AssetId, BlockId, ChainId, DeviceId, TxId};
use vanargand::name::Name;
use vanargand::nonce::{Lane, Nonce};
use vanargand::sign::{Signature, VerifyingKey};
use vanargand::sorted_map::SortedMap;
use vanargand::tx::{
    asset_id_of, check_provisional_grammar, name_commitment, AccountEquivocation, Transaction,
    TxBody, TxError, TxKind, TX_VERSION,
};

fn account(byte: u8) -> AccountId {
    AccountId::from_hash(Digest::from_bytes([byte; 32]))
}

#[test]
fn asset_identifiers_are_unique_per_creating_transaction() {
    let creator = account(1);
    let first = asset_id_of(creator, TxId::from_hash(Digest::from_bytes([1; 32])));
    let second = asset_id_of(creator, TxId::from_hash(Digest::from_bytes([2; 32])));
    let elsewhere = asset_id_of(account(2), TxId::from_hash(Digest::from_bytes([1; 32])));
    assert_ne!(first, second);
    assert_ne!(first, elsewhere);
}

#[test]
fn a_name_commitment_binds_the_name_the_salt_and_the_account() {
    let name = Name::new("marie").unwrap();
    let other = Name::new("marie-b").unwrap();
    let base = name_commitment(&name, &[0; 32], account(1));
    assert_ne!(base, name_commitment(&other, &[0; 32], account(1)));
    assert_ne!(base, name_commitment(&name, &[1; 32], account(1)));
    assert_ne!(base, name_commitment(&name, &[0; 32], account(2)));
    assert_eq!(base, name_commitment(&name, &[0; 32], account(1)));
}

#[test]
fn a_length_prefixed_name_makes_the_commitment_unambiguous() {
    let short = Name::new("ab").unwrap();
    let long = Name::new("abc").unwrap();
    assert_ne!(
        name_commitment(&short, &[0; 32], account(1)),
        name_commitment(&long, &[0; 32], account(1))
    );
}

#[test]
fn an_asset_identifier_hashes_the_creator_then_the_transaction() {
    let mut material = vec![1_u8; 32];
    material.extend_from_slice(&[2; 32]);
    let expected = blake3::derive_key("vanargand v1 asset id", &material);
    let id = asset_id_of(account(1), TxId::from_hash(Digest::from_bytes([2; 32])));
    assert_eq!(id.as_bytes(), &expected);
}

#[test]
fn the_transaction_version_is_one() {
    assert_eq!(TX_VERSION, 1);
    assert_ne!(TxError::ZeroAmount, TxError::ZeroThreshold);
}

fn digest(byte: u8) -> Digest {
    Digest::from_bytes([byte; 32])
}

fn device(byte: u8) -> DeviceId {
    DeviceId::from_hash(digest(byte))
}

fn key(byte: u8) -> VerifyingKey {
    VerifyingKey::new(1, vec![byte; 32])
}

fn signature(byte: u8) -> Signature {
    Signature::new(1, vec![byte; 64])
}

fn body(kind: TxKind) -> TxBody {
    TxBody {
        version: TX_VERSION,
        chain: ChainId::from_hash(digest(0x11)),
        account: account(0x21),
        device: device(0x31),
        nonce: Nonce::new(Lane::first(), 3),
        fee: Amount::from_ulf(1_000),
        valid_until_finalized: Some(5_000),
        kind,
    }
}

fn transfer() -> TxKind {
    TxKind::Transfer { to: account(0x41), asset: None, amount: Amount::from_ulf(10) }
}

fn guardians(bytes: &[u8]) -> SortedMap<AccountId, ()> {
    let mut set = SortedMap::new();
    for byte in bytes {
        set.insert(account(*byte), ());
    }
    set
}

/// One of every variant but evidence, with two transfers.
fn every_kind() -> Vec<TxKind> {
    vec![
        transfer(),
        TxKind::Transfer {
            to: account(0x41),
            asset: Some(AssetId::from_hash(digest(0x51))),
            amount: Amount::from_ulf(10),
        },
        TxKind::NomadSet { credit: Amount::from_ulf(500), margin: Amount::from_ulf(50) },
        TxKind::DeviceAdd { key: key(1), lane: Lane::new(2), nomad_share: Amount::from_ulf(100) },
        TxKind::DeviceRevoke { device: device(0x61) },
        TxKind::NameCommit { commitment: digest(0x71) },
        TxKind::NameReveal { name: Name::new("cafe-du-port").unwrap(), salt: [0x81; 32] },
        TxKind::GuardianSet { guardians: guardians(&[1, 2, 3]), threshold: 2 },
        TxKind::RecoveryStart { account: account(0x91), new_root_key: key(1) },
        TxKind::RecoveryCancel { account: account(0x92) },
        TxKind::RecoveryFinalise { account: account(0x93) },
        TxKind::Bond { amount: Amount::from_ulf(10_000), commitment_root: digest(0xa1) },
        TxKind::Unbond { amount: Amount::from_ulf(10_000) },
        TxKind::PurseOpen {
            counterparty: account(0xb1),
            asset: None,
            deposit: Amount::from_ulf(250),
            payword_root: digest(0xc1),
            tranche_value: Amount::from_ulf(1),
            expiry_finalized_height: 9_000,
        },
        TxKind::PurseCloseCooperative {
            purse: TxId::from_hash(digest(0xd1)),
            payer_balance: Amount::from_ulf(150),
            payee_balance: Amount::from_ulf(100),
            counterparty_signature: signature(2),
        },
        TxKind::PurseCloseUnilateral {
            purse: TxId::from_hash(digest(0xd2)),
            tranches_claimed: 40,
            payword_token: digest(0xe1),
        },
        TxKind::PurseDispute {
            purse: TxId::from_hash(digest(0xd3)),
            tranches_claimed: 75,
            payword_token: digest(0xe2),
        },
        TxKind::AssetCreate { ticker: Name::new("festi").unwrap(), decimals: 2, reissuable: true },
        TxKind::AssetMint {
            asset: AssetId::from_hash(digest(0xf1)),
            to: account(0xf2),
            amount: Amount::from_ulf(1_000),
        },
        TxKind::AssetBurn { asset: AssetId::from_hash(digest(0xf3)), amount: Amount::from_ulf(10) },
    ]
}

/// A transaction for `kind` by the device `device_byte` at `nonce`, with a
/// signature standing in for the device's.
fn signed(device_byte: u8, kind: TxKind, nonce: Nonce) -> Transaction {
    let mut inner = body(kind);
    inner.device = device(device_byte);
    inner.nonce = nonce;
    Transaction { body: inner, signature: signature(device_byte) }
}

fn header(height: u64) -> BlockHeader {
    BlockHeader {
        version: HEADER_VERSION,
        chain: ChainId::from_hash(digest(0x11)),
        height,
        parent: BlockId::from_hash(digest(0x22)),
        rung: FinalityRung::Chain,
        finalized_height: height,
        state_root: digest(0x33),
        tx_root: digest(0x44),
        proposer: account(0x15),
        randomness_reveal: digest(0x66),
        archive_commitment: digest(0x77),
        emitted_supply: Amount::from_ulf(1_234),
        security_budget: Amount::from_ulf(5_678),
        fee_emission_ratio: Ratio::new(3, 7),
    }
}

#[test]
fn discriminants_are_unique_and_never_zero() {
    let mut seen_names: Vec<&str> = Vec::new();
    let mut seen_discriminants: Vec<u64> = Vec::new();
    for kind in every_kind() {
        if seen_names.contains(&kind.name()) {
            continue;
        }
        seen_names.push(kind.name());
        let discriminant = kind.discriminant();
        assert_ne!(discriminant, 0, "{} took the reserved zero", kind.name());
        assert!(
            !seen_discriminants.contains(&discriminant),
            "{} reuses discriminant {discriminant}",
            kind.name()
        );
        seen_discriminants.push(discriminant);
        assert_eq!(kind.to_canonical_bytes()[0] as u64, discriminant);
    }
}

#[test]
fn names_are_unique() {
    let mut names: Vec<&str> = every_kind().iter().map(|kind| kind.name()).collect();
    names.sort();
    names.dedup();
    assert_eq!(names.len(), every_kind().len() - 1);
}

#[test]
fn the_provisional_whitelist_is_exactly_what_r2_decided() {
    let allowed: Vec<&str> = every_kind()
        .iter()
        .filter(|kind| kind.allowed_in_provisional())
        .map(|kind| kind.name())
        .collect();
    assert_eq!(
        allowed,
        vec!["transfer", "transfer", "purse_open", "purse_close_cooperative"],
        "the provisional grammar changed"
    );
}

#[test]
fn evidence_kinds_sit_at_the_end_of_the_discriminant_space() {
    let nonce = Nonce::new(Lane::first(), 0);
    let account_evidence = TxKind::AccountEquivocation(Box::new(AccountEquivocation {
        device: device(40),
        first: signed(40, transfer(), nonce),
        second: signed(40, TxKind::Unbond { amount: Amount::from_ulf(1) }, nonce),
    }));
    assert_eq!(account_evidence.discriminant(), 20);
    assert_eq!(account_evidence.name(), "account_equivocation");
    assert!(account_evidence.is_evidence());
    assert!(
        !account_evidence.allowed_in_provisional(),
        "evidence triggers irreversible seizure and a provisional block is reversible"
    );
}

#[test]
fn validator_evidence_is_the_last_kind() {
    let evidence = TxKind::ValidatorEquivocation(Box::new(ValidatorEquivocation {
        validator: account(0x15),
        first: SignedHeader { header: header(42), signature: signature(1) },
        second: SignedHeader { header: header(43), signature: signature(1) },
    }));
    assert_eq!(evidence.discriminant(), 21);
    assert_eq!(evidence.name(), "validator_equivocation");
    assert!(evidence.is_evidence());
    assert!(!evidence.allowed_in_provisional());
    assert_eq!(evidence.to_canonical_bytes()[0], 21);
}

#[test]
fn unilateral_closure_is_grammatically_illegal_offline() {
    let stale = body(TxKind::PurseCloseUnilateral {
        purse: TxId::zero(),
        tranches_claimed: 0,
        payword_token: Digest::zero(),
    });
    assert_eq!(
        check_provisional_grammar(&[stale]),
        Err(TxError::ForbiddenInProvisional { kind: "purse_close_unilateral" })
    );
}

#[test]
fn raising_the_nomad_credit_offline_is_illegal() {
    let raise = body(TxKind::NomadSet {
        credit: Amount::from_van(1_000_000).unwrap(),
        margin: Amount::from_ulf(0),
    });
    assert_eq!(
        check_provisional_grammar(&[raise]),
        Err(TxError::ForbiddenInProvisional { kind: "nomad_set" })
    );
}

#[test]
fn recovery_and_unbonding_are_illegal_offline() {
    for kind in [
        TxKind::RecoveryStart { account: account(1), new_root_key: key(3) },
        TxKind::RecoveryCancel { account: account(1) },
        TxKind::RecoveryFinalise { account: account(1) },
        TxKind::Unbond { amount: Amount::from_ulf(1) },
    ] {
        let name = kind.name();
        assert_eq!(
            check_provisional_grammar(&[body(kind)]),
            Err(TxError::ForbiddenInProvisional { kind: name }),
            "{name} was allowed in a provisional block"
        );
    }
}

#[test]
fn a_whitelisted_block_passes() {
    let bodies = vec![
        body(transfer()),
        body(TxKind::PurseOpen {
            counterparty: account(0xb1),
            asset: None,
            deposit: Amount::from_ulf(250),
            payword_root: Digest::zero(),
            tranche_value: Amount::from_ulf(1),
            expiry_finalized_height: 9_000,
        }),
    ];
    assert_eq!(check_provisional_grammar(&bodies), Ok(()));
}

#[test]
fn the_first_offender_is_the_one_reported() {
    let bodies = vec![
        body(transfer()),
        body(TxKind::Bond { amount: Amount::from_ulf(1), commitment_root: Digest::zero() }),
        body(TxKind::Unbond { amount: Amount::from_ulf(1) }),
    ];
    assert_eq!(
        check_provisional_grammar(&bodies),
        Err(TxError::ForbiddenInProvisional { kind: "bond" })
    );
    assert_eq!(check_provisional_grammar(&[]), Ok(()));
}

#[test]
fn the_identifier_does_not_depend_on_the_signature() {
    let transaction = signed(15, transfer(), Nonce::new(Lane::first(), 0));
    let mut rewrapped = signed(15, transfer(), Nonce::new(Lane::first(), 0));
    rewrapped.signature = signature(16);
    assert_eq!(rewrapped.id(), transaction.id());
    assert_eq!(transaction.id(), transaction.body.id());
}

#[test]
fn the_identifier_is_the_txid_digest_of_the_body() {
    let inner = body(transfer());
    let bytes = inner.to_canonical_bytes();
    let expected = blake3::derive_key("vanargand v1 txid", &bytes);
    assert_eq!(inner.id().as_bytes(), &expected);
    let mut material = Vec::new();
    material.extend_from_slice(inner.chain.as_bytes());
    material.extend_from_slice(&expected);
    let signing = blake3::derive_key("vanargand v1 tx signing", &material);
    assert_eq!(inner.signing_digest().as_bytes(), &signing);
}

#[test]
fn a_body_encodes_field_by_field() {
    let inner = body(TxKind::Unbond { amount: Amount::from_ulf(7) });
    let bytes = inner.to_canonical_bytes();
    let mut expected = vec![1u8, 0];
    expected.extend_from_slice(&[0x11; 32]);
    expected.extend_from_slice(&[0x21; 32]);
    expected.extend_from_slice(&[0x31; 32]);
    expected.extend_from_slice(&Nonce::new(Lane::first(), 3).to_canonical_bytes());
    expected.extend_from_slice(&Amount::from_ulf(1_000).to_canonical_bytes());
    expected.extend_from_slice(&[1, 0x88, 0x27]);
    expected.push(12);
    expected.extend_from_slice(&Amount::from_ulf(7).to_canonical_bytes());
    assert_eq!(bytes, expected);

    let mut open_ended = body(TxKind::Unbond { amount: Amount::from_ulf(7) });
    open_ended.valid_until_finalized = None;
    assert_eq!(open_ended.to_canonical_bytes().len(), bytes.len() - 2);
}

#[test]
fn a_guardian_set_encodes_as_a_canonical_set_then_the_threshold() {
    let kind = TxKind::GuardianSet { guardians: guardians(&[3, 1, 2]), threshold: 2 };
    let bytes = kind.to_canonical_bytes();
    let mut expected = vec![7u8, 3];
    expected.extend_from_slice(&[1; 32]);
    expected.extend_from_slice(&[2; 32]);
    expected.extend_from_slice(&[3; 32]);
    expected.push(2);
    assert_eq!(bytes, expected);
}

#[test]
fn spending_the_same_slot_twice_produces_its_own_proof() {
    let nonce = Nonce::new(Lane::new(1), 7);
    let village = signed(20, transfer(), nonce);
    let town = signed(
        20,
        TxKind::Transfer { to: account(0x41), asset: None, amount: Amount::from_ulf(11) },
        nonce,
    );
    assert_ne!(village.id(), town.id());
    let evidence = AccountEquivocation { device: device(20), first: village, second: town };
    assert_eq!(evidence.check(Ok(())), Ok(()));
    // The shape alone convicts nobody: a signature that does not verify
    // under the device's key is what the check answers.
    assert_eq!(evidence.check(Err(TxError::BadSignature)), Err(TxError::BadSignature));
}

#[test]
fn two_honest_devices_in_two_partitions_are_not_equivocation() {
    let phone = signed(21, transfer(), Nonce::new(Lane::new(0), 4));
    let laptop = signed(22, transfer(), Nonce::new(Lane::new(1), 4));
    assert_ne!(phone.body.device, laptop.body.device);
    let accusing_the_phone = AccountEquivocation { device: device(21), first: phone, second: laptop };
    assert_eq!(
        accusing_the_phone.check(Ok(())),
        Err(TxError::NotEquivocation { why: "not both by the accused device" })
    );

    let across_lanes = AccountEquivocation {
        device: device(21),
        first: signed(21, transfer(), Nonce::new(Lane::new(0), 4)),
        second: signed(21, transfer(), Nonce::new(Lane::new(1), 4)),
    };
    assert_eq!(
        across_lanes.check(Ok(())),
        Err(TxError::NotEquivocation { why: "nonces do not collide" })
    );
}

#[test]
fn the_same_transaction_twice_is_not_equivocation() {
    let evidence = AccountEquivocation {
        device: device(22),
        first: signed(22, transfer(), Nonce::new(Lane::first(), 1)),
        second: signed(22, transfer(), Nonce::new(Lane::first(), 1)),
    };
    assert_eq!(
        evidence.check(Ok(())),
        Err(TxError::NotEquivocation { why: "the same transaction twice" })
    );
}

#[test]
fn evidence_across_two_chains_is_not_equivocation() {
    let nonce = Nonce::new(Lane::first(), 2);
    let here = signed(23, transfer(), nonce);
    let mut there = signed(23, transfer(), nonce);
    there.body.chain = ChainId::from_hash(digest(0x77));
    let evidence = AccountEquivocation { device: device(23), first: here, second: there };
    assert_eq!(evidence.check(Ok(())), Err(TxError::NotEquivocation { why: "different chains" }));
}

#[test]
fn evidence_across_two_accounts_is_not_equivocation() {
    let nonce = Nonce::new(Lane::first(), 2);
    let mine = signed(23, transfer(), nonce);
    let mut theirs = signed(23, transfer(), nonce);
    theirs.body.account = account(0x22);
    let evidence = AccountEquivocation { device: device(23), first: mine, second: theirs };
    assert_eq!(evidence.check(Ok(())), Err(TxError::NotEquivocation { why: "different accounts" }));
}

#[test]
fn evidence_about_evidence_is_refused() {
    let nonce = Nonce::new(Lane::first(), 0);
    let inner = || AccountEquivocation {
        device: device(25),
        first: signed(25, transfer(), nonce),
        second: signed(25, TxKind::Unbond { amount: Amount::from_ulf(1) }, nonce),
    };
    let wrapper = || {
        signed(25, TxKind::AccountEquivocation(Box::new(inner())), Nonce::new(Lane::first(), 1))
    };
    assert_eq!(wrapper().body.check_self_consistent(), Ok(()));

    let outer = AccountEquivocation { device: device(25), first: wrapper(), second: wrapper() };
    assert_eq!(outer.check(Ok(())), Err(TxError::EvidenceAboutEvidence));

    let nested = signed(
        25,
        TxKind::AccountEquivocation(Box::new(AccountEquivocation {
            device: device(25),
            first: wrapper(),
            second: signed(25, transfer(), nonce),
        })),
        Nonce::new(Lane::first(), 2),
    );
    assert_eq!(nested.body.check_self_consistent(), Err(TxError::EvidenceAboutEvidence));
}

#[test]
fn self_consistency_catches_the_structural_mistakes() {
    assert_eq!(body(transfer()).check_self_consistent(), Ok(()));

    let mut wrong_version = body(transfer());
    wrong_version.version = TX_VERSION + 1;
    assert_eq!(
        wrong_version.check_self_consistent(),
        Err(TxError::UnsupportedVersion(TX_VERSION + 1))
    );

    let zero = body(TxKind::Transfer { to: account(0x41), asset: None, amount: Amount::from_ulf(0) });
    assert_eq!(zero.check_self_consistent(), Err(TxError::ZeroAmount));

    let to_self = body(TxKind::Transfer { to: account(0x21), asset: None, amount: Amount::from_ulf(10) });
    assert_eq!(to_self.check_self_consistent(), Err(TxError::SelfCounterparty));

    let no_threshold = body(TxKind::GuardianSet { guardians: guardians(&[1, 2]), threshold: 0 });
    assert_eq!(no_threshold.check_self_consistent(), Err(TxError::ZeroThreshold));

    let impossible = body(TxKind::GuardianSet { guardians: guardians(&[1, 2]), threshold: 3 });
    assert_eq!(
        impossible.check_self_consistent(),
        Err(TxError::ThresholdAboveGuardians { threshold: 3, guardians: 2 })
    );
}

#[test]
fn a_channel_with_oneself_is_refused() {
    let with_self = body(TxKind::PurseOpen {
        counterparty: account(0x21),
        asset: None,
        deposit: Amount::from_ulf(250),
        payword_root: Digest::zero(),
        tranche_value: Amount::from_ulf(1),
        expiry_finalized_height: 9_000,
    });
    assert_eq!(with_self.check_self_consistent(), Err(TxError::SelfCounterparty));
    assert_eq!(
        TxError::ThresholdAboveGuardians { threshold: 3, guardians: 2 }.to_string(),
        "threshold 3 exceeds 2 guardians"
    );
}
