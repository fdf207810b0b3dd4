use vanargand::amount::Amount;
use vanargand::asset::{AssetError, AssetRecord, AssetRegistry};
use vanargand::codec::{Decode, Encode};
use vanargand::hash::Digest;
use vanargand::id::{AccountId, AssetId};
use vanargand::name::Name;

fn account(byte: u8) -> AccountId {
    AccountId::from_hash(Digest::from_bytes([byte; 32]))
}

fn asset(byte: u8) -> AssetId {
    AssetId::from_hash(Digest::from_bytes([byte; 32]))
}

fn name(text: &str) -> Name {
    Name::new(text).expect("a valid ticker")
}

fn festival() -> (AssetRegistry, AssetId, AccountId) {
    let mut registry = AssetRegistry::new();
    let organiser = account(1);
    registry.create(asset(10), organiser, name("festi"), 2, true).expect("a fresh ticker");
    (registry, asset(10), organiser)
}

#[test]
fn creation_starts_with_no_supply() {
    let (registry, id, organiser) = festival();
    let record = registry.get(&id).expect("just created");
    assert_eq!(record.supply, Amount::from_ulf(0));
    assert_eq!(record.issuer, organiser);
    assert_eq!(record.decimals, 2);
    assert!(record.reissuable);
}

#[test]
fn a_ticker_is_unique_across_the_chain() {
    let (mut registry, id, _) = festival();
    assert_eq!(
        registry.create(asset(11), account(2), name("festi"), 0, true),
        Err(AssetError::TickerTaken { ticker: name("festi"), held_by: id })
    );
    assert!(registry.create(asset(11), account(2), name("festo"), 0, true).is_ok());
    assert_eq!(registry.len(), 2);
}

#[test]
fn an_identifier_is_never_silently_reused() {
    let (mut registry, id, _) = festival();
    assert_eq!(registry.create(id, account(2), name("other"), 0, true), Err(AssetError::AssetExists(id)));
}

#[test]
fn only_the_issuer_may_mint() {
    let (mut registry, id, organiser) = festival();
    assert_eq!(
        registry.authorise_mint(&id, account(9), Amount::from_ulf(100)),
        Err(AssetError::NotTheIssuer { caller: account(9), issuer: organiser })
    );
    assert!(registry.authorise_mint(&id, organiser, Amount::from_ulf(100)).is_ok());
    assert_eq!(registry.get(&id).expect("exists").supply, Amount::from_ulf(100));
}

#[test]
fn a_closed_issuance_mints_once_and_no_more() {
    let mut registry = AssetRegistry::new();
    registry.create(asset(20), account(1), name("closed"), 0, false).expect("fresh");
    assert!(registry.authorise_mint(&asset(20), account(1), Amount::from_ulf(1_000)).is_ok());
    assert_eq!(
        registry.authorise_mint(&asset(20), account(1), Amount::from_ulf(1)),
        Err(AssetError::NotReissuable(asset(20)))
    );
    assert_eq!(registry.get(&asset(20)).expect("exists").supply, Amount::from_ulf(1_000));
}

#[test]
fn burning_reduces_the_supply_and_cannot_go_below_zero() {
    let (mut registry, id, organiser) = festival();
    registry.authorise_mint(&id, organiser, Amount::from_ulf(100)).expect("issuer");
    registry.record_burn(&id, Amount::from_ulf(40)).expect("enough supply");
    assert_eq!(registry.get(&id).expect("exists").supply, Amount::from_ulf(60));
    assert_eq!(
        registry.record_burn(&id, Amount::from_ulf(61)),
        Err(AssetError::SupplyUnderflow { amount: Amount::from_ulf(61), supply: Amount::from_ulf(60) })
    );
    assert_eq!(registry.get(&id).expect("exists").supply, Amount::from_ulf(60), "a refused burn moved the supply");
}

#[test]
fn a_burn_can_reopen_a_closed_issuance_only_to_zero() {
    let mut registry = AssetRegistry::new();
    registry.create(asset(30), account(1), name("once"), 0, false).expect("fresh");
    registry.authorise_mint(&asset(30), account(1), Amount::from_ulf(10)).expect("first");
    assert!(registry.authorise_mint(&asset(30), account(1), Amount::from_ulf(1)).is_err());
    registry.record_burn(&asset(30), Amount::from_ulf(10)).expect("burn it all");
    assert!(
        registry.authorise_mint(&asset(30), account(1), Amount::from_ulf(5)).is_ok(),
        "burning to zero did not reopen issuance; the rule changed"
    );
}

#[test]
fn zero_is_not_an_amount() {
    let (mut registry, id, organiser) = festival();
    assert_eq!(registry.authorise_mint(&id, organiser, Amount::from_ulf(0)), Err(AssetError::ZeroAmount));
    assert_eq!(registry.record_burn(&id, Amount::from_ulf(0)), Err(AssetError::ZeroAmount));
}

#[test]
fn an_unknown_asset_is_rejected() {
    let mut registry = AssetRegistry::new();
    assert_eq!(
        registry.authorise_mint(&asset(99), account(1), Amount::from_ulf(1)),
        Err(AssetError::NoSuchAsset(asset(99)))
    );
    assert_eq!(registry.record_burn(&asset(99), Amount::from_ulf(1)), Err(AssetError::NoSuchAsset(asset(99))));
}

#[test]
fn records_round_trip() {
    let (mut registry, id, organiser) = festival();
    registry.authorise_mint(&id, organiser, Amount::from_ulf(12_345)).expect("issuer");
    let record = registry.get(&id).expect("exists").clone();
    let bytes = record.to_canonical_bytes();
    assert_eq!(AssetRecord::from_canonical_bytes(&bytes), Ok(record));
}

#[test]
fn the_registry_iterates_in_identifier_order() {
    let mut registry = AssetRegistry::new();
    for byte in [7_u8, 1, 5, 3] {
        registry.create(asset(byte), account(1), name(&format!("t{byte}")), 0, true).expect("fresh");
    }
    let observed: Vec<AssetId> = registry.iter().iter().map(|(id, _)| *id).collect();
    let mut expected = observed.clone();
    expected.sort_unstable();
    assert_eq!(observed, expected);
}

#[test]
fn tickers_lead_back_to_their_assets() {
    let (mut registry, id, _) = festival();
    registry.create(asset(3), account(2), name("abc"), 0, true).expect("fresh");
    assert_eq!(registry.by_ticker(&name("festi")), Some(id));
    assert_eq!(registry.by_ticker(&name("abc")), Some(asset(3)));
    assert_eq!(registry.by_ticker(&name("nope")), None);
    let tickers: Vec<&str> = registry.tickers().iter().map(|(ticker, _)| ticker.as_str()).collect();
    assert_eq!(tickers, vec!["abc", "festi"]);
    assert!(!registry.is_empty());
    assert!(AssetRegistry::new().is_empty());
}

#[test]
fn a_supply_that_would_overflow_is_refused() {
    let (mut registry, id, organiser) = festival();
    registry.authorise_mint(&id, organiser, Amount::from_ulf(u64::MAX)).expect("issuer");
    assert_eq!(registry.authorise_mint(&id, organiser, Amount::from_ulf(1)), Err(AssetError::Overflow));
    let record = registry.get(&id).expect("exists");
    assert_eq!(
        record.value_hash().as_bytes(),
        &blake3::derive_key("vanargand v1 state value", &record.to_canonical_bytes())
    );
}
