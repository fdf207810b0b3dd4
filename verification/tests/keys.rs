use std::collections::BTreeSet;

use vanargand::hash::Digest;
use vanargand::id::{AccountId, AssetId, TxId};
use vanargand::keys::{
    account, asset, commitment, name, offence, purse, recovery, reserved, ticker,
    NAMESPACE_ACCOUNT,
};
use vanargand::name::Name;

fn same_bytes() -> [u8; 32] {
    [0x5a; 32]
}

#[test]
fn identical_identifiers_land_in_different_namespaces() {
    let bytes = Digest::from_bytes(same_bytes());
    let keys: BTreeSet<Digest> = [
        account(&AccountId::from_hash(bytes)),
        purse(&TxId::from_hash(bytes)),
        asset(&AssetId::from_hash(bytes)),
        recovery(&AccountId::from_hash(bytes)),
        commitment(&bytes),
        offence(&bytes),
        reserved(&same_bytes()),
    ]
    .into_iter()
    .collect();
    assert_eq!(keys.len(), 7, "two namespaces collided on identical payloads");
}

#[test]
fn the_length_prefix_makes_the_split_unambiguous() {
    assert_ne!(vanargand::keys::derive(b"asset", b"xy"), vanargand::keys::derive(b"assetx", b"y"));
    assert_ne!(vanargand::keys::derive(b"a", b"bc"), vanargand::keys::derive(b"ab", b"c"));
}

#[test]
fn derivation_is_deterministic() {
    let id = AccountId::from_hash(Digest::from_bytes(same_bytes()));
    assert_eq!(account(&id), account(&id));
}

#[test]
fn different_payloads_give_different_keys() {
    let first = AccountId::from_hash(Digest::from_bytes([1; 32]));
    let second = AccountId::from_hash(Digest::from_bytes([2; 32]));
    assert_ne!(account(&first), account(&second));
}

#[test]
fn tickers_are_keyed_by_their_text() {
    let festival = Name::new("festi").expect("a valid name");
    let other = Name::new("festo").expect("a valid name");
    assert_eq!(ticker(&festival), ticker(&festival));
    assert_ne!(ticker(&festival), ticker(&other));
}

#[test]
fn a_reserved_key_is_not_reachable_from_an_identifier() {
    let label = b"burn and context pot";
    let as_account = account(&AccountId::from_hash(Digest::from_bytes([9; 32])));
    assert_ne!(reserved(label), as_account);
}

#[test]
fn a_key_hashes_the_length_the_namespace_and_the_payload() {
    let mut material = vec![7_u8];
    material.extend_from_slice(b"account");
    material.extend_from_slice(&[3; 32]);
    let expected = blake3::derive_key("vanargand v1 state value", &material);
    let id = AccountId::from_hash(Digest::from_bytes([3; 32]));
    assert_eq!(account(&id).as_bytes(), &expected);
    assert_eq!(&NAMESPACE_ACCOUNT, b"account");
}

#[test]
fn a_long_namespace_counts_as_the_longest_length() {
    let namespace = vec![b'n'; 300];
    let mut material = vec![255_u8];
    material.extend_from_slice(&namespace);
    material.extend_from_slice(b"p");
    let expected = blake3::derive_key("vanargand v1 state value", &material);
    assert_eq!(vanargand::keys::derive(&namespace, b"p").as_bytes(), &expected);
}

#[test]
fn names_and_tickers_are_different_keys_for_the_same_text() {
    let text = Name::new("festi").expect("a valid name");
    assert_ne!(name(&text), ticker(&text));
}
