use vanargand::amount::{Amount, MAX_SUPPLY};
use vanargand::codec::{Decode, Encode};
use vanargand::hash::Digest;
use vanargand::id::{AccountId, DeviceId};
use vanargand::nonce::Lane;
use vanargand::slashing::{AccountOffence, Penalty, SlashingBook, SlashingError, ValidatorOffence};

fn account(byte: u8) -> AccountId {
    AccountId::from_hash(Digest::from_bytes([byte; 32]))
}

fn offence(byte: u8, sequence: u64) -> AccountOffence {
    AccountOffence {
        account: account(byte),
        device: DeviceId::from_hash(Digest::from_bytes([byte.wrapping_add(1); 32])),
        lane: Lane::first(),
        sequence,
    }
}

#[test]
fn a_seizure_is_split_in_half_with_the_remainder_burned() {
    let even = Penalty::split(Amount::from_ulf(100));
    assert_eq!(even.to_denouncer, Amount::from_ulf(50));
    assert_eq!(even.burned, Amount::from_ulf(50));
    assert_eq!(even.total(), Some(Amount::from_ulf(100)));

    let odd = Penalty::split(Amount::from_ulf(101));
    assert_eq!(odd.to_denouncer, Amount::from_ulf(50));
    assert_eq!(odd.burned, Amount::from_ulf(51), "the remainder did not go to the fire");
    assert_eq!(odd.total(), Some(Amount::from_ulf(101)));
}

#[test]
fn a_seizure_never_creates_or_loses_value() {
    for ulf in 0_u64..500 {
        let penalty = Penalty::split(Amount::from_ulf(ulf));
        assert_eq!(penalty.total(), Some(Amount::from_ulf(ulf)), "the split lost or created value at {ulf} ulf");
    }
    let whole = Penalty::split(Amount::from_ulf(MAX_SUPPLY));
    assert_eq!(whole.total(), Some(Amount::from_ulf(MAX_SUPPLY)));
}

#[test]
fn an_unbonded_equivocation_seizes_nothing_and_says_so() {
    let nothing = Penalty::split(Amount::from_ulf(0));
    assert!(nothing.is_empty());
    assert_eq!(nothing.to_denouncer, Amount::from_ulf(0));
    assert_eq!(nothing.burned, Amount::from_ulf(0));
}

#[test]
fn one_crime_earns_one_bounty() {
    let mut book = SlashingBook::new();
    assert!(book.record_account(offence(1, 7)).is_ok());
    assert_eq!(book.record_account(offence(1, 7)), Err(SlashingError::AlreadyPunished));
    assert_eq!(book.len(), 1);
}

#[test]
fn different_slots_are_different_crimes() {
    let mut book = SlashingBook::new();
    book.record_account(offence(1, 7)).expect("first");
    book.record_account(offence(1, 8)).expect("a different sequence");
    book.record_account(offence(2, 7)).expect("a different account");

    let mut other_lane = offence(1, 7);
    other_lane.lane = Lane::new(1);
    book.record_account(other_lane).expect("a different lane");

    assert_eq!(book.len(), 4);
    assert!(book.knows_account(&offence(1, 7)));
    assert!(!book.knows_account(&offence(3, 7)));
}

#[test]
fn a_validator_is_punished_once_per_height() {
    let mut book = SlashingBook::new();
    let first = ValidatorOffence { validator: account(1), height: 42 };
    assert!(book.record_validator(first).is_ok());
    assert_eq!(book.record_validator(first), Err(SlashingError::AlreadyPunished));

    let elsewhere = ValidatorOffence { validator: account(1), height: 43 };
    assert!(book.record_validator(elsewhere).is_ok());
    assert!(book.knows_validator(&first));
    assert_eq!(book.len(), 2);
}

#[test]
fn account_and_validator_offences_do_not_collide() {
    let account_offence = offence(1, 42);
    let validator_offence = ValidatorOffence { validator: account(1), height: 42 };
    assert_ne!(SlashingBook::digest(&account_offence), SlashingBook::digest(&validator_offence));
}

#[test]
fn offences_iterate_in_order() {
    let mut book = SlashingBook::new();
    for sequence in [5_u64, 1, 3] {
        book.record_account(offence(1, sequence)).expect("distinct");
    }
    let observed: Vec<u64> = book.account_offences().iter().map(|item| item.sequence).collect();
    assert_eq!(observed, vec![1, 3, 5]);
}

#[test]
fn offences_round_trip() {
    let item = offence(9, 12_345);
    assert_eq!(AccountOffence::from_canonical_bytes(&item.to_canonical_bytes()), Ok(item));

    let validator = ValidatorOffence { validator: account(3), height: u64::MAX };
    assert_eq!(ValidatorOffence::from_canonical_bytes(&validator.to_canonical_bytes()), Ok(validator));
}

#[test]
fn validator_offences_iterate_in_height_order_and_the_book_counts_both() {
    let mut book = SlashingBook::new();
    assert!(book.is_empty());
    for height in [300_u64, 2, 256] {
        book.record_validator(ValidatorOffence { validator: account(4), height }).expect("distinct");
    }
    let heights: Vec<u64> = book.validator_offences().iter().map(|item| item.height).collect();
    assert_eq!(heights, vec![2, 256, 300]);
    book.record_account(offence(4, 1)).expect("fresh");
    assert_eq!(book.len(), 4);
    assert!(!book.is_empty());
}

#[test]
fn an_offence_digest_is_the_state_value_digest_of_its_encoding() {
    let item = offence(2, 9);
    assert_eq!(
        SlashingBook::digest(&item).as_bytes(),
        &blake3::derive_key("vanargand v1 state value", &item.to_canonical_bytes())
    );
}
