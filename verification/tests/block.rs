use vanargand::amount::{Amount, Ratio, MAX_SUPPLY};
use vanargand::block::{
    params, BlockHeader, ContestationWindow, FinalityRung, HeaderError, SignedHeader,
    ValidatorEquivocation, HEADER_VERSION,
};
use vanargand::codec::{CodecError, Decode, Encode};
use vanargand::hash::Digest;
use vanargand::id::{AccountId, BlockId, ChainId};

fn header(height: u64) -> BlockHeader {
    BlockHeader {
        version: HEADER_VERSION,
        chain: ChainId::from_hash(Digest::from_bytes([0x11; 32])),
        height,
        parent: if height == 0 { BlockId::zero() } else { BlockId::from_hash(Digest::from_bytes([0x22; 32])) },
        rung: FinalityRung::Chain,
        finalized_height: height,
        state_root: Digest::from_bytes([0x33; 32]),
        tx_root: Digest::from_bytes([0x44; 32]),
        proposer: AccountId::from_hash(Digest::from_bytes([0x55; 32])),
        randomness_reveal: Digest::from_bytes([0x66; 32]),
        archive_commitment: Digest::from_bytes([0x77; 32]),
        emitted_supply: Amount::from_ulf(1_234),
        security_budget: Amount::from_ulf(5_678),
        fee_emission_ratio: Ratio::new(3, 7),
    }
}

#[test]
fn headers_round_trip() {
    let sent = header(100);
    let bytes = sent.to_canonical_bytes();
    assert_eq!(BlockHeader::from_canonical_bytes(&bytes), Ok(sent));
}

#[test]
fn a_header_has_no_timestamp_field() {
    let bytes = header(1).to_canonical_bytes();
    assert_eq!(bytes.len(), 2 + 32 + 1 + 32 + 1 + 1 + 32 * 5 + 2 + 2 + 2, "{bytes:?}");
}

#[test]
fn the_identifier_changes_with_every_field() {
    let base = header(10);
    let baseline = base.id();

    let mut other = base.clone();
    other.height = 11;
    assert_ne!(other.id(), baseline);

    let mut other = base.clone();
    other.rung = FinalityRung::Provisional;
    assert_ne!(other.id(), baseline);

    let mut other = base.clone();
    other.emitted_supply = Amount::from_ulf(1_235);
    assert_ne!(other.id(), baseline);

    let mut other = base;
    other.fee_emission_ratio = Ratio::new(3, 8);
    assert_ne!(other.id(), baseline);
}

#[test]
fn the_signing_digest_is_bound_to_the_chain() {
    let mut a = header(5);
    let mut b = a.clone();
    b.chain = ChainId::from_hash(Digest::from_bytes([0x99; 32]));
    assert_ne!(a.signing_digest(), b.signing_digest());
    a.chain = b.chain;
    assert_eq!(a.signing_digest(), b.signing_digest());
}

#[test]
fn epochs_are_derived_from_height_alone() {
    let mut candidate = header(0);
    assert_eq!(candidate.epoch(), 0);
    candidate.height = params::EPOCH_BLOCKS - 1;
    assert_eq!(candidate.epoch(), 0);
    assert!(candidate.is_epoch_boundary());
    candidate.height = params::EPOCH_BLOCKS;
    assert_eq!(candidate.epoch(), 1);
    assert!(!candidate.is_epoch_boundary());
}

#[test]
fn self_consistency_rejects_the_obvious_lies() {
    assert_eq!(header(1).check_self_consistent(), Ok(()));

    let mut bad = header(1);
    bad.version = HEADER_VERSION + 1;
    assert_eq!(bad.check_self_consistent(), Err(HeaderError::UnsupportedVersion(HEADER_VERSION + 1)));

    let mut bad = header(1);
    bad.rung = FinalityRung::Federal;
    assert_eq!(bad.check_self_consistent(), Err(HeaderError::UnclaimableRung(FinalityRung::Federal)));

    let mut bad = header(5);
    bad.finalized_height = 6;
    assert!(matches!(bad.check_self_consistent(), Err(HeaderError::FinalizedAhead { .. })));

    let mut bad = header(0);
    bad.parent = BlockId::from_hash(Digest::from_bytes([1; 32]));
    assert_eq!(bad.check_self_consistent(), Err(HeaderError::GenesisHasParent));

    let mut bad = header(1);
    bad.parent = BlockId::zero();
    assert_eq!(bad.check_self_consistent(), Err(HeaderError::MissingParent));

    let mut bad = header(1);
    bad.emitted_supply = Amount::from_ulf(MAX_SUPPLY + 1);
    assert!(matches!(bad.check_self_consistent(), Err(HeaderError::SupplyOverCap(_))));
}

#[test]
fn a_chain_rung_block_is_its_own_finalised_tip() {
    let mut candidate = header(10);
    candidate.rung = FinalityRung::Chain;
    candidate.finalized_height = 9;
    assert!(
        matches!(candidate.check_self_consistent(), Err(HeaderError::FinalizedAhead { .. })),
        "a block claiming chain finality was allowed to point its clocks elsewhere"
    );
}

#[test]
fn a_provisional_block_may_lag_the_finalised_tip() {
    let mut candidate = header(100);
    candidate.rung = FinalityRung::Provisional;
    candidate.finalized_height = 40;
    assert_eq!(candidate.check_self_consistent(), Ok(()));
}

#[test]
fn a_contestation_window_does_not_run_during_a_partition() {
    let mut at_open = header(100);
    at_open.rung = FinalityRung::Provisional;
    at_open.finalized_height = 40;
    let window = ContestationWindow::open(&at_open, 10);

    let mut later = at_open.clone();
    later.height = 160;
    later.finalized_height = 40;
    assert!(!window.has_elapsed(later.finalized_height), "the window expired inside a partition");

    assert!(window.has_elapsed(50));
    assert!(!window.has_elapsed(49));
}

#[test]
fn a_window_whose_deadline_overflows_never_elapses() {
    let window = ContestationWindow { opened_at_finalized: u64::MAX, duration: 10 };
    assert!(!window.has_elapsed(u64::MAX), "an overflowing window expired immediately");
}

#[test]
fn an_unknown_rung_discriminant_is_rejected() {
    let mut bytes = header(1).to_canonical_bytes();
    let index = 2 + 32 + 1 + 32;
    if let Some(byte) = bytes.get_mut(index) {
        *byte = 9;
    }
    assert_eq!(
        BlockHeader::from_canonical_bytes(&bytes),
        Err(CodecError::UnknownVariant { enum_name: "FinalityRung", discriminant: 9 })
    );
}

#[test]
fn committee_oversampling_is_threefold() {
    assert_eq!(params::COMMITTEE_SAMPLED, params::COMMITTEE_ACTIVE * 3);
    assert_eq!(params::COMMITTEE_ACTIVE, 64);
    assert_eq!(params::EPOCH_BLOCKS, 720);
}

#[test]
fn only_the_first_two_rungs_can_be_claimed() {
    assert!(FinalityRung::Provisional.claimable_by_a_header());
    assert!(FinalityRung::Chain.claimable_by_a_header());
    assert!(!FinalityRung::Federal.claimable_by_a_header());
    assert_eq!(FinalityRung::Federal.number(), 3);
    for rung in [FinalityRung::Provisional, FinalityRung::Chain, FinalityRung::Federal] {
        assert_eq!(FinalityRung::from_canonical_bytes(&rung.to_canonical_bytes()), Ok(rung));
    }
}

#[test]
fn the_identifier_is_the_block_id_digest_of_the_encoding() {
    let candidate = header(3);
    let expected = blake3::derive_key("vanargand v1 block id", &candidate.to_canonical_bytes());
    assert_eq!(candidate.id().as_bytes(), &expected);
    let mut material = candidate.chain.as_bytes().to_vec();
    material.extend_from_slice(&expected);
    assert_eq!(candidate.signing_digest().as_bytes(), &blake3::derive_key("vanargand v1 block signing", &material));
}

fn stand_in_signature(byte: u8) -> vanargand::sign::Signature {
    vanargand::sign::Signature::new(1, vec![byte; 64])
}

#[test]
fn equivocation_evidence_needs_two_different_blocks() {
    let validator = AccountId::from_hash(Digest::from_bytes([0x55; 32]));

    let mut first = header(42);
    first.proposer = validator;
    let mut second = first.clone();
    second.state_root = Digest::from_bytes([0xaa; 32]);

    let sign_it = |candidate: &BlockHeader| SignedHeader {
        header: candidate.clone(),
        signature: stand_in_signature(3),
    };

    let good = ValidatorEquivocation { validator, first: sign_it(&first), second: sign_it(&second) };
    assert_eq!(good.check(Ok(())), Ok(()));
    assert_eq!(good.check(Err(HeaderError::BadSignature)), Err(HeaderError::BadSignature));

    let doubled = ValidatorEquivocation { validator, first: sign_it(&first), second: sign_it(&first) };
    assert_eq!(
        doubled.check(Ok(())),
        Err(HeaderError::EvidenceNotEquivocation { why: "the same block twice" })
    );

    let mut elsewhere = second.clone();
    elsewhere.height = 43;
    let different_height =
        ValidatorEquivocation { validator, first: sign_it(&first), second: sign_it(&elsewhere) };
    assert_eq!(
        different_height.check(Ok(())),
        Err(HeaderError::EvidenceNotEquivocation { why: "different heights" })
    );

    let other_validator = AccountId::from_hash(Digest::from_bytes([0x56; 32]));
    let misattributed = ValidatorEquivocation {
        validator: other_validator,
        first: sign_it(&first),
        second: sign_it(&second),
    };
    assert_eq!(
        misattributed.check(Ok(())),
        Err(HeaderError::EvidenceNotEquivocation { why: "not both by the accused" })
    );

    let mut other_chain = second.clone();
    other_chain.chain = ChainId::from_hash(Digest::from_bytes([0x99; 32]));
    let across_chains =
        ValidatorEquivocation { validator, first: sign_it(&first), second: sign_it(&other_chain) };
    assert_eq!(
        across_chains.check(Ok(())),
        Err(HeaderError::EvidenceNotEquivocation { why: "different chains" })
    );
}

#[test]
fn evidence_encodes_the_validator_then_both_signed_headers() {
    let validator = AccountId::from_hash(Digest::from_bytes([0x55; 32]));
    let first = header(1);
    let mut second = first.clone();
    second.tx_root = Digest::from_bytes([0xbb; 32]);
    let evidence = ValidatorEquivocation {
        validator,
        first: SignedHeader { header: first.clone(), signature: stand_in_signature(4) },
        second: SignedHeader { header: second.clone(), signature: stand_in_signature(5) },
    };
    let mut expected = vec![0x55u8; 32];
    expected.extend_from_slice(&first.to_canonical_bytes());
    expected.push(1);
    expected.extend_from_slice(&[4; 64]);
    expected.extend_from_slice(&second.to_canonical_bytes());
    expected.push(1);
    expected.extend_from_slice(&[5; 64]);
    assert_eq!(evidence.to_canonical_bytes(), expected);
}
