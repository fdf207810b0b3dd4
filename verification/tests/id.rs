use vanargand::codec::{Decode, Encode};
use vanargand::hash::Digest;
use vanargand::id::{AccountId, AssetId, BlockId, ChainId, DeviceId, TxId};

#[test]
fn identifiers_are_fixed_width_with_no_length_prefix() {
    let id = AccountId::from_hash(Digest::from_bytes([0xab; 32]));
    let bytes = id.to_canonical_bytes();
    assert_eq!(bytes.len(), 32, "an identifier must not carry a length prefix");
    assert_eq!(AccountId::from_canonical_bytes(&bytes), Ok(id));
}

#[test]
fn every_identifier_round_trips() {
    let hash = Digest::from_bytes([0x5c; 32]);
    assert_eq!(
        AccountId::from_canonical_bytes(&AccountId::from_hash(hash).to_canonical_bytes()),
        Ok(AccountId::from_hash(hash))
    );
    assert_eq!(
        DeviceId::from_canonical_bytes(&DeviceId::from_hash(hash).to_canonical_bytes()),
        Ok(DeviceId::from_hash(hash))
    );
    assert_eq!(
        ChainId::from_canonical_bytes(&ChainId::from_hash(hash).to_canonical_bytes()),
        Ok(ChainId::from_hash(hash))
    );
    assert_eq!(
        TxId::from_canonical_bytes(&TxId::from_hash(hash).to_canonical_bytes()),
        Ok(TxId::from_hash(hash))
    );
    assert_eq!(
        BlockId::from_canonical_bytes(&BlockId::from_hash(hash).to_canonical_bytes()),
        Ok(BlockId::from_hash(hash))
    );
    assert_eq!(
        AssetId::from_canonical_bytes(&AssetId::from_hash(hash).to_canonical_bytes()),
        Ok(AssetId::from_hash(hash))
    );
}

#[test]
fn a_truncated_identifier_is_rejected() {
    assert!(AccountId::from_canonical_bytes(&[0xab; 31]).is_err());
    assert!(AccountId::from_canonical_bytes(&[0xab; 33]).is_err());
}

#[test]
fn the_zero_identifier_is_all_zeroes() {
    assert_eq!(AccountId::zero().as_bytes(), &[0_u8; 32]);
    assert_eq!(BlockId::zero().as_bytes(), &[0_u8; 32]);
}

#[test]
fn ordering_is_lexicographic_over_the_bytes() {
    let low = AccountId::from_hash(Digest::from_bytes([0x00; 32]));
    let high = AccountId::from_hash(Digest::from_bytes([0x01; 32]));
    assert!(low < high);
    assert!(low.to_canonical_bytes() < high.to_canonical_bytes());
}

#[test]
fn hex_is_lowercase_and_sixty_four_characters() {
    let id = ChainId::from_hash(Digest::from_bytes([0x01; 32]));
    assert_eq!(id.to_hex(), "01".repeat(32));
    let mut bytes = [0_u8; 32];
    bytes[0] = 0xab;
    bytes[31] = 0x9f;
    let text = AccountId::from_hash(Digest::from_bytes(bytes)).to_hex();
    assert_eq!(text.len(), 64);
    assert!(text.starts_with("ab00"));
    assert!(text.ends_with("009f"));
    assert!(format!("{id:?}").starts_with("ChainId("));
}

#[test]
fn identifiers_compare_by_their_bytes() {
    let a = DeviceId::from_hash(Digest::from_bytes([3; 32]));
    let b = DeviceId::from_hash(Digest::from_bytes([3; 32]));
    let c = DeviceId::from_hash(Digest::from_bytes([4; 32]));
    assert!(a.same_as(&b));
    assert!(!a.same_as(&c));
    assert_eq!(a.as_hash().as_bytes(), &[3; 32]);
}

#[test]
fn a_digest_reads_its_bits_most_significant_first() {
    let mut bytes = [0_u8; 32];
    bytes[0] = 0b1000_0001;
    bytes[31] = 1;
    let digest = Digest::from_bytes(bytes);
    assert!(digest.bit(0));
    assert!(!digest.bit(1));
    assert!(digest.bit(7));
    assert!(digest.bit(255));
    assert!(!digest.bit(254));
    assert!(Digest::zero().is_zero());
    assert!(!digest.is_zero());
}

#[test]
fn hashing_is_domain_separated_blake3() {
    let material = b"vanargand";
    let one = vanargand::hash::hash("vanargand v1 txid", material);
    let two = vanargand::hash::hash("vanargand v1 block id", material);
    assert_ne!(one, two);
    assert_eq!(one.as_bytes(), &blake3::derive_key("vanargand v1 txid", material));
    assert_ne!(one.as_bytes(), material.as_slice());
}

#[test]
fn hex_round_trips_and_debug_shows_the_type() {
    let id = ChainId::from_hash(Digest::from_bytes([0x01; 32]));
    assert_eq!(ChainId::from_hex(&id.to_hex()), Ok(id));
    assert!(format!("{id:?}").starts_with("ChainId("));
    assert!(AccountId::from_hex("not hex").is_err());
}

#[test]
fn hex_parsing_accepts_either_case_and_nothing_else() {
    let mut bytes = [0_u8; 32];
    bytes[0] = 0xab;
    bytes[31] = 0x9f;
    let lower = format!("ab{}9f", "00".repeat(30));
    let upper = lower.to_uppercase();
    let expected = TxId::from_hash(Digest::from_bytes(bytes));
    assert_eq!(TxId::from_hex(&lower), Ok(expected));
    assert_eq!(TxId::from_hex(&upper), Ok(expected));
    assert_eq!(
        BlockId::from_hex(&lower[..62]),
        Err(vanargand::codec::CodecError::Invalid { reason: "not a valid BlockId" })
    );
    let mut bad = lower.clone();
    bad.replace_range(10..11, "g");
    assert_eq!(
        AssetId::from_hex(&bad),
        Err(vanargand::codec::CodecError::Invalid { reason: "not a valid AssetId" })
    );
    assert_eq!(Digest::from_hex(&lower).map(|d| *d.as_bytes()), Some(bytes));
    assert_eq!(DeviceId::from_hex(&format!("{lower}0")).is_err(), true);
}
