use vanargand::account::{Account, Device};
use vanargand::amount::Amount;
use vanargand::asset::AssetError;
use vanargand::block::FinalityRung;
use vanargand::hash::Digest;
use vanargand::id::{AccountId, AssetId, ChainId, DeviceId};
use vanargand::keys::ticker;
use vanargand::ledger::{BlockContext, Ledger, StateError};
use vanargand::name::Name;
use vanargand::nonce::{Lane, Nonce};
use vanargand::sign::VerifyingKey;
use vanargand::tx::{asset_id_of, TxBody, TxKind, TX_VERSION};

/// A stand-in device key: the test algorithm's byte and 32 bytes of `byte`.
fn keypair(byte: u8) -> VerifyingKey {
    VerifyingKey::new(1, vec![byte; 32])
}

fn account_id(byte: u8) -> AccountId {
    AccountId::from_hash(Digest::from_bytes([byte; 32]))
}

fn chain() -> ChainId {
    ChainId::from_hash(Digest::from_bytes([0x11; 32]))
}

fn funded(key: &VerifyingKey, balance: u64) -> Account {
    let mut account = Account::new();
    account.credit(None, Amount::from_ulf(balance)).unwrap();
    account.nomad_credit = Amount::from_ulf(balance);
    account.devices.insert(
        DeviceId::of_device_key(key),
        Device {
            key: key.clone(),
            lane: Lane::first(),
            nomad_share: Amount::from_ulf(balance),
            nomad_spent: Amount::from_ulf(0),
        },
    );
    account.next_lane = Lane::new(1);
    account
}

fn context(finalized: u64) -> BlockContext {
    BlockContext {
        chain: chain(),
        height: finalized + 60,
        finalized_height: finalized,
        rung: FinalityRung::Chain,
        proposer: account_id(0xee),
    }
}

fn body(account: AccountId, device: &VerifyingKey, sequence: u64, kind: TxKind) -> TxBody {
    TxBody {
        version: TX_VERSION,
        chain: chain(),
        account,
        device: DeviceId::of_device_key(device),
        nonce: Nonce::new(Lane::first(), sequence),
        fee: Amount::from_ulf(10),
        valid_until_finalized: None,
        kind,
    }
}

#[test]
fn a_festival_issues_its_own_token_and_the_van_stays_between_machines() {
    let organiser_key = keypair(3);
    let organiser = account_id(0xc1);
    let attendee = account_id(0xc2);

    let mut ledger = Ledger::new();
    ledger.put_account(organiser, funded(&organiser_key, 10_000));

    let create = body(
        organiser,
        &organiser_key,
        0,
        TxKind::AssetCreate { ticker: Name::new("festi").unwrap(), decimals: 2, reissuable: true },
    );
    let asset: AssetId = asset_id_of(organiser, create.id());
    ledger.apply(&context(100), &create).expect("a fresh ticker");

    assert_eq!(ledger.assets().len(), 1);
    assert_eq!(ledger.assets().get(&asset).unwrap().supply, Amount::from_ulf(0));

    let mint = body(
        organiser,
        &organiser_key,
        1,
        TxKind::AssetMint { asset, to: attendee, amount: Amount::from_ulf(5_000) },
    );
    ledger.apply(&context(100), &mint).expect("the issuer may mint");

    assert_eq!(ledger.account(&attendee).unwrap().balance(Some(asset)), Amount::from_ulf(5_000));
    assert_eq!(ledger.assets().get(&asset).unwrap().supply, Amount::from_ulf(5_000));

    // The attendee's VAN balance is untouched: the festival token is not VAN.
    assert_eq!(ledger.account(&attendee).unwrap().balance(None), Amount::from_ulf(0));
}

#[test]
fn only_the_issuer_may_mint_through_the_ledger() {
    let organiser_key = keypair(3);
    let impostor_key = keypair(4);
    let organiser = account_id(0xc1);
    let impostor = account_id(0xc3);

    let mut ledger = Ledger::new();
    ledger.put_account(organiser, funded(&organiser_key, 10_000));
    ledger.put_account(impostor, funded(&impostor_key, 10_000));

    let create = body(
        organiser,
        &organiser_key,
        0,
        TxKind::AssetCreate { ticker: Name::new("festi").unwrap(), decimals: 0, reissuable: true },
    );
    let asset = asset_id_of(organiser, create.id());
    ledger.apply(&context(100), &create).unwrap();

    let forgery = body(
        impostor,
        &impostor_key,
        0,
        TxKind::AssetMint { asset, to: impostor, amount: Amount::from_ulf(1_000_000) },
    );
    assert!(matches!(
        ledger.apply(&context(100), &forgery),
        Err(StateError::Asset(AssetError::NotTheIssuer { .. }))
    ));
    assert_eq!(ledger.assets().get(&asset).unwrap().supply, Amount::from_ulf(0));
}

#[test]
fn a_ticker_can_be_proved_free_before_it_is_claimed() {
    let organiser_key = keypair(3);
    let organiser = account_id(0xc1);
    let mut ledger = Ledger::new();
    ledger.put_account(organiser, funded(&organiser_key, 10_000));

    let wanted = Name::new("festi").unwrap();
    let root = ledger.state_root();
    assert!(
        ledger.prove_ticker(&wanted).verify(&root, &ticker(&wanted), None),
        "an unclaimed ticker could not be proved free"
    );

    let create = body(
        organiser,
        &organiser_key,
        0,
        TxKind::AssetCreate { ticker: wanted.clone(), decimals: 0, reissuable: false },
    );
    let asset = asset_id_of(organiser, create.id());
    ledger.apply(&context(100), &create).unwrap();

    let root = ledger.state_root();
    assert!(
        ledger.prove_ticker(&wanted).verify(&root, &ticker(&wanted), Some(asset.as_hash())),
        "a claimed ticker could not be proved taken"
    );
}

#[test]
fn burning_a_token_reduces_its_supply() {
    let organiser_key = keypair(3);
    let organiser = account_id(0xc1);
    let mut ledger = Ledger::new();
    ledger.put_account(organiser, funded(&organiser_key, 10_000));

    let create = body(
        organiser,
        &organiser_key,
        0,
        TxKind::AssetCreate { ticker: Name::new("festi").unwrap(), decimals: 0, reissuable: true },
    );
    let asset = asset_id_of(organiser, create.id());
    ledger.apply(&context(100), &create).unwrap();

    let mint = body(
        organiser,
        &organiser_key,
        1,
        TxKind::AssetMint { asset, to: organiser, amount: Amount::from_ulf(100) },
    );
    ledger.apply(&context(100), &mint).unwrap();

    let burn = body(organiser, &organiser_key, 2, TxKind::AssetBurn { asset, amount: Amount::from_ulf(40) });
    ledger.apply(&context(100), &burn).unwrap();

    assert_eq!(ledger.assets().get(&asset).unwrap().supply, Amount::from_ulf(60));
    assert_eq!(ledger.account(&organiser).unwrap().balance(Some(asset)), Amount::from_ulf(60));
}

#[test]
fn burning_more_than_you_hold_changes_nothing() {
    let organiser_key = keypair(3);
    let organiser = account_id(0xc1);
    let mut ledger = Ledger::new();
    ledger.put_account(organiser, funded(&organiser_key, 10_000));

    let create = body(
        organiser,
        &organiser_key,
        0,
        TxKind::AssetCreate { ticker: Name::new("festi").unwrap(), decimals: 0, reissuable: true },
    );
    let asset = asset_id_of(organiser, create.id());
    ledger.apply(&context(100), &create).unwrap();

    let before = ledger.clone();
    let burn = body(organiser, &organiser_key, 1, TxKind::AssetBurn { asset, amount: Amount::from_ulf(1) });
    assert!(matches!(
        ledger.apply(&context(100), &burn),
        Err(StateError::InsufficientBalance { .. })
    ));
    assert_eq!(ledger, before, "a failed burn mutated the ledger");
}

#[test]
fn a_taken_ticker_is_refused_and_names_its_holder() {
    let organiser_key = keypair(3);
    let organiser = account_id(0xc1);
    let rival_key = keypair(5);
    let rival = account_id(0xc4);
    let mut ledger = Ledger::new();
    ledger.put_account(organiser, funded(&organiser_key, 10_000));
    ledger.put_account(rival, funded(&rival_key, 10_000));

    let festi = Name::new("festi").unwrap();
    let create = body(
        organiser,
        &organiser_key,
        0,
        TxKind::AssetCreate { ticker: festi.clone(), decimals: 0, reissuable: true },
    );
    let asset = asset_id_of(organiser, create.id());
    ledger.apply(&context(100), &create).unwrap();

    let copy = body(rival, &rival_key, 0, TxKind::AssetCreate { ticker: festi.clone(), decimals: 0, reissuable: true });
    assert_eq!(
        ledger.apply(&context(100), &copy),
        Err(StateError::Asset(AssetError::TickerTaken { ticker: festi, held_by: asset }))
    );
    assert_eq!(ledger.assets().len(), 1);
}

#[test]
fn a_closed_issuance_mints_once_through_the_ledger() {
    let organiser_key = keypair(3);
    let organiser = account_id(0xc1);
    let mut ledger = Ledger::new();
    ledger.put_account(organiser, funded(&organiser_key, 10_000));

    let create = body(
        organiser,
        &organiser_key,
        0,
        TxKind::AssetCreate { ticker: Name::new("closed").unwrap(), decimals: 0, reissuable: false },
    );
    let asset = asset_id_of(organiser, create.id());
    ledger.apply(&context(100), &create).unwrap();

    let mint = |sequence: u64| {
        body(organiser, &organiser_key, sequence, TxKind::AssetMint { asset, to: organiser, amount: Amount::from_ulf(20) })
    };
    ledger.apply(&context(100), &mint(1)).unwrap();
    assert_eq!(
        ledger.apply(&context(100), &mint(2)),
        Err(StateError::Asset(AssetError::NotReissuable(asset)))
    );
    assert_eq!(ledger.assets().get(&asset).unwrap().supply, Amount::from_ulf(20));
}
