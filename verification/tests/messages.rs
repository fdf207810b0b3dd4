use vanargand::address::{AddressError, Network};
use vanargand::amount::Amount;
use vanargand::asset::AssetError;
use vanargand::bech32::Bech32Error;
use vanargand::block::{FinalityRung, HeaderError};
use vanargand::codec::CodecError;
use vanargand::hash::Digest;
use vanargand::id::{AccountId, AssetId};
use vanargand::name::{Name, NameError};
use vanargand::name_book::NameError as NameBookError;
use vanargand::recovery::RecoveryError;
use vanargand::slashing::SlashingError;
use vanargand::tx::TxError;

#[test]
fn codec_errors_read_as_sentences() {
    assert_eq!(
        CodecError::UnexpectedEnd { wanted: "u8" }.to_string(),
        "input ended while reading u8"
    );
    assert_eq!(
        CodecError::TrailingBytes(3).to_string(),
        "3 trailing bytes after a complete object"
    );
    assert_eq!(CodecError::VarintTooWide.to_string(), "varint wider than 10 bytes");
    assert_eq!(
        CodecError::NonCanonicalBool(0x0a).to_string(),
        "bool must be 0x00 or 0x01, got 0x0a"
    );
    assert_eq!(
        CodecError::LimitExceeded { limit: "sequence length", max: 65_536, got: 70_000 }
            .to_string(),
        "sequence length is at most 65536, got 70000"
    );
    assert_eq!(
        CodecError::LengthBeyondInput { declared: 9, remaining: 2 }.to_string(),
        "declared length 9 exceeds 2 bytes remaining"
    );
    assert_eq!(CodecError::TooDeep.to_string(), "nesting deeper than 32");
    assert_eq!(
        CodecError::UnknownVariant { enum_name: "FinalityRung", discriminant: 7 }.to_string(),
        "unknown FinalityRung discriminant 7"
    );
    assert_eq!(
        CodecError::Invalid { reason: "not a valid name" }.to_string(),
        "invalid: not a valid name"
    );
}

#[test]
fn bech32_and_address_errors_read_as_sentences() {
    assert_eq!(Bech32Error::TooLong(91).to_string(), "91 characters, maximum is 90");
    assert_eq!(
        Bech32Error::BadHrpChar(0x7f).to_string(),
        "human-readable part contains byte 0x7f"
    );
    assert_eq!(Bech32Error::BadDataChar('b').to_string(), "'b' is not a data character");
    assert_eq!(
        AddressError::Bech32(Bech32Error::BadChecksum).to_string(),
        "checksum does not verify"
    );
    assert_eq!(
        AddressError::WrongNetwork { expected: Network::Mainnet, found: Network::Testnet }
            .to_string(),
        "this is a tvan address; expected van"
    );
    assert_eq!(
        AddressError::UnknownNetwork("bc".to_string()).to_string(),
        "'bc' is not a Vanargand address prefix"
    );
    assert_eq!(
        AddressError::BadPayloadLength(31).to_string(),
        "address payload is 31 bytes, expected 32"
    );
}

#[test]
fn header_and_rung_errors_read_as_sentences() {
    assert_eq!(FinalityRung::Federal.to_string(), "federal");
    assert_eq!(
        HeaderError::UnclaimableRung(FinalityRung::Federal).to_string(),
        "a header cannot claim federal finality"
    );
    assert_eq!(
        HeaderError::FinalizedAhead { finalized: 12, height: 10 }.to_string(),
        "finalised height 12 is inconsistent with height 10"
    );
    assert_eq!(
        HeaderError::SupplyOverCap(Amount::from_ulf(1_500_000_000)).to_string(),
        "emitted supply 1.500000000 VAN exceeds the cap"
    );
}

#[test]
fn name_errors_read_as_sentences() {
    assert_eq!(NameError::BadLength(40).to_string(), "a name is 1 to 32 characters, got 40");
    assert_eq!(
        NameError::BadCharacter('A').to_string(),
        "'A' is not allowed; names use a-z, 0-9 and '-'"
    );
    assert_eq!(
        NameBookError::TooSoon { committed_at: 100, now: 105 }.to_string(),
        "committed at finalised height 100, now 105; 10 must pass"
    );
    assert_eq!(
        NameBookError::PremiumNotAuctioned { name: Name::new("marie").unwrap() }.to_string(),
        "'marie' is short enough to be auctioned, and the auction is not built"
    );
    let owner = AccountId::from_hash(Digest::from_bytes([0xab; 32]));
    assert_eq!(
        NameBookError::NameTaken { owner }.to_string(),
        format!("that name belongs to {}", "ab".repeat(32))
    );
}

#[test]
fn issuance_recovery_and_transaction_errors_read_as_sentences() {
    let id = AssetId::from_hash(Digest::from_bytes([1; 32]));
    assert_eq!(AssetError::NoSuchAsset(id).to_string(), format!("no such asset {}", "01".repeat(32)));
    assert_eq!(
        AssetError::SupplyUnderflow { amount: Amount::from_ulf(2), supply: Amount::from_ulf(1) }
            .to_string(),
        "burning 0.000000002 VAN of a supply of 0.000000001 VAN"
    );
    assert_eq!(
        RecoveryError::BelowThreshold { approvals: 2, threshold: 3 }.to_string(),
        "2 of 3 guardians have approved"
    );
    assert_eq!(
        RecoveryError::WindowOpen { finalized_height: 5, closes_at: 9 }.to_string(),
        "the window closes at finalised height 9, now 5"
    );
    assert_eq!(
        TxError::ThresholdAboveGuardians { threshold: 4, guardians: 3 }.to_string(),
        "threshold 4 exceeds 3 guardians"
    );
    assert_eq!(
        TxError::ForbiddenInProvisional { kind: "purse_close_unilateral" }.to_string(),
        "purse_close_unilateral is not permitted in a provisional block"
    );
    assert_eq!(
        SlashingError::AlreadyPunished.to_string(),
        "this equivocation has already been punished"
    );
}
