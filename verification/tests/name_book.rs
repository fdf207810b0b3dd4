use vanargand::hash::Digest;
use vanargand::id::AccountId;
use vanargand::name::Name;
use vanargand::name_book::{
    CommitmentRecord, NameBook, NameError, COMMITMENT_EXPIRY_FINALIZED_BLOCKS,
    MIN_REVEAL_DELAY_FINALIZED_BLOCKS,
};
use vanargand::codec::{Decode, Encode};
use vanargand::tx::name_commitment;

fn account(byte: u8) -> AccountId {
    AccountId::from_hash(Digest::from_bytes([byte; 32]))
}

fn name(text: &str) -> Name {
    Name::new(text).expect("a valid name")
}

const SALT: [u8; 32] = [0x5a; 32];

#[test]
fn a_name_is_registered_by_commit_then_reveal() {
    let mut book = NameBook::new();
    let wanted = name("cafe-du-port");
    let commitment = name_commitment(&wanted, &SALT, account(1));

    book.commit(commitment, account(1), 100).expect("a fresh commitment");
    assert!(book.owner(&wanted).is_none(), "the name leaked from the commitment");

    book.reveal_name(&wanted, &SALT, account(1), 100 + MIN_REVEAL_DELAY_FINALIZED_BLOCKS)
        .expect("the delay has passed");
    assert_eq!(book.owner(&wanted), Some(account(1)));
    assert_eq!(book.len(), 1);
    assert_eq!(book.commitments().len(), 0, "the spent commitment stayed in state");
}

#[test]
fn a_reveal_in_the_same_block_is_refused() {
    let mut book = NameBook::new();
    let wanted = name("cafe-du-port");
    book.commit(name_commitment(&wanted, &SALT, account(1)), account(1), 100).unwrap();

    assert_eq!(
        book.reveal_name(&wanted, &SALT, account(1), 100),
        Err(NameError::TooSoon { committed_at: 100, now: 100 })
    );
    assert_eq!(
        book.reveal_name(&wanted, &SALT, account(1), 100 + MIN_REVEAL_DELAY_FINALIZED_BLOCKS - 1),
        Err(NameError::TooSoon {
            committed_at: 100,
            now: 100 + MIN_REVEAL_DELAY_FINALIZED_BLOCKS - 1
        })
    );
}

#[test]
fn a_front_runner_cannot_open_someone_elses_claim() {
    let mut book = NameBook::new();
    let wanted = name("cafe-du-port");
    book.commit(name_commitment(&wanted, &SALT, account(1)), account(1), 100).unwrap();

    assert_eq!(
        book.reveal_name(&wanted, &SALT, account(2), 200),
        Err(NameError::NoSuchCommitment),
        "a front-runner opened another account's claim"
    );
    assert!(book.owner(&wanted).is_none());

    book.reveal_name(&wanted, &SALT, account(1), 200).expect("the claim is intact");
    assert_eq!(book.owner(&wanted), Some(account(1)));
}

#[test]
fn the_wrong_salt_opens_nothing() {
    let mut book = NameBook::new();
    let wanted = name("cafe-du-port");
    book.commit(name_commitment(&wanted, &SALT, account(1)), account(1), 100).unwrap();
    assert_eq!(
        book.reveal_name(&wanted, &[0x00; 32], account(1), 200),
        Err(NameError::NoSuchCommitment)
    );
}

#[test]
fn a_taken_name_is_refused() {
    let mut book = NameBook::new();
    let wanted = name("cafe-du-port");
    book.commit(name_commitment(&wanted, &SALT, account(1)), account(1), 100).unwrap();
    book.reveal_name(&wanted, &SALT, account(1), 200).unwrap();

    book.commit(name_commitment(&wanted, &SALT, account(2)), account(2), 300).unwrap();
    assert_eq!(
        book.reveal_name(&wanted, &SALT, account(2), 400),
        Err(NameError::NameTaken { owner: account(1) })
    );
}

#[test]
fn premium_names_are_refused_until_the_auction_exists() {
    let mut book = NameBook::new();
    let short = name("marie");
    book.commit(name_commitment(&short, &SALT, account(1)), account(1), 100).unwrap();

    assert_eq!(
        book.reveal_name(&short, &SALT, account(1), 200),
        Err(NameError::PremiumNotAuctioned { name: short })
    );
    assert!(book.is_empty());
}

#[test]
fn a_commitment_expires_unopened() {
    let mut book = NameBook::new();
    let wanted = name("cafe-du-port");
    book.commit(name_commitment(&wanted, &SALT, account(1)), account(1), 100).unwrap();

    let too_late = 100 + COMMITMENT_EXPIRY_FINALIZED_BLOCKS + 1;
    assert_eq!(
        book.reveal_name(&wanted, &SALT, account(1), too_late),
        Err(NameError::CommitmentExpired { committed_at: 100, now: too_late })
    );
}

#[test]
fn expired_commitments_are_pruned() {
    let mut book = NameBook::new();
    for byte in 1..5_u8 {
        let wanted = name(&format!("name-{byte}"));
        book.commit(name_commitment(&wanted, &SALT, account(byte)), account(byte), 100).unwrap();
    }
    assert_eq!(book.commitments().len(), 4);

    assert_eq!(book.prune_expired(100), 0, "pruned a live commitment");
    assert_eq!(book.prune_expired(100 + COMMITMENT_EXPIRY_FINALIZED_BLOCKS), 0);
    assert_eq!(book.prune_expired(100 + COMMITMENT_EXPIRY_FINALIZED_BLOCKS + 1), 4);
    assert_eq!(book.commitments().len(), 0);
}

#[test]
fn a_duplicate_commitment_is_refused() {
    let mut book = NameBook::new();
    let commitment = name_commitment(&name("cafe-du-port"), &SALT, account(1));
    book.commit(commitment, account(1), 100).unwrap();
    assert_eq!(book.commit(commitment, account(1), 101), Err(NameError::CommitmentExists));
}

#[test]
fn names_iterate_in_order() {
    let mut book = NameBook::new();
    for text in ["zebra-one", "alpha-one", "milieu-un"] {
        let wanted = name(text);
        book.commit(name_commitment(&wanted, &SALT, account(1)), account(1), 100).unwrap();
        book.reveal_name(&wanted, &SALT, account(1), 200).unwrap();
    }
    let observed: Vec<String> =
        book.iter().iter().map(|(name, _)| name.to_string()).collect();
    assert_eq!(observed, vec!["alpha-one", "milieu-un", "zebra-one"]);
}

#[test]
fn the_expiry_is_twelve_epochs() {
    assert_eq!(COMMITMENT_EXPIRY_FINALIZED_BLOCKS, 12 * vanargand::block::params::EPOCH_BLOCKS);
    assert_eq!(MIN_REVEAL_DELAY_FINALIZED_BLOCKS, 10);
}

#[test]
fn a_reveal_on_the_last_live_block_succeeds() {
    let mut book = NameBook::new();
    let wanted = name("cafe-du-port");
    book.commit(name_commitment(&wanted, &SALT, account(1)), account(1), 100).unwrap();
    let deadline = 100 + COMMITMENT_EXPIRY_FINALIZED_BLOCKS;
    book.reveal_name(&wanted, &SALT, account(1), deadline).expect("still live");
    assert_eq!(book.owner(&wanted), Some(account(1)));
}

#[test]
fn a_refused_reveal_changes_nothing() {
    let mut book = NameBook::new();
    let wanted = name("cafe-du-port");
    let commitment = name_commitment(&wanted, &SALT, account(1));
    book.commit(commitment, account(1), 100).unwrap();
    let before = book.commitments().to_vec();
    assert!(book.reveal_name(&wanted, &SALT, account(1), 101).is_err());
    assert_eq!(book.commitments(), before.as_slice());
    assert!(book.is_empty());
}

#[test]
fn pruning_keeps_the_live_commitments() {
    let mut book = NameBook::new();
    let early = name_commitment(&name("early-bird"), &SALT, account(1));
    let late = name_commitment(&name("late-comer"), &SALT, account(2));
    book.commit(early, account(1), 100).unwrap();
    book.commit(late, account(2), 500).unwrap();
    assert_eq!(book.prune_expired(100 + COMMITMENT_EXPIRY_FINALIZED_BLOCKS + 1), 1);
    assert_eq!(book.commitments().len(), 1);
    assert_eq!(book.commitments()[0].0, late);
    assert_eq!(book.commitments()[0].1.committed_at_finalized, 500);
}

#[test]
fn a_commitment_record_round_trips_and_hashes_its_encoding() {
    let record = CommitmentRecord { account: account(4), committed_at_finalized: 300 };
    let bytes = record.to_canonical_bytes();
    let mut expected = vec![4_u8; 32];
    expected.extend_from_slice(&[0xac, 0x02]);
    assert_eq!(bytes, expected);
    assert_eq!(CommitmentRecord::from_canonical_bytes(&bytes), Ok(record));
    let digest = blake3::derive_key("vanargand v1 state value", &bytes);
    assert_eq!(record.value_hash().as_bytes(), &digest);
}

#[test]
fn the_commitment_hashes_the_name_the_salt_and_the_account() {
    let wanted = name("cafe-du-port");
    let mut material = vec![u8::try_from(wanted.as_str().len()).unwrap()];
    material.extend_from_slice(wanted.as_str().as_bytes());
    material.extend_from_slice(&SALT);
    material.extend_from_slice(&[1; 32]);
    let expected = blake3::derive_key("vanargand v1 name commitment", &material);
    assert_eq!(name_commitment(&wanted, &SALT, account(1)).as_bytes(), &expected);
}
