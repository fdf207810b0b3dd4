use vanargand::account::{Account, Device};
use vanargand::amount::Amount;
use vanargand::codec::Encode;
use vanargand::hash::Digest;
use vanargand::id::{AssetId, DeviceId};
use vanargand::nonce::{Lane, Nonce};
use vanargand::sign::VerifyingKey;

const TEST_ALGORITHM: u8 = 0xf0;

fn key(byte: u8) -> VerifyingKey {
    VerifyingKey::new(TEST_ALGORITHM, vec![byte; 32])
}

fn device_id(byte: u8) -> DeviceId {
    DeviceId::from_hash(Digest::from_bytes([byte; 32]))
}

fn asset(byte: u8) -> AssetId {
    AssetId::from_hash(Digest::from_bytes([byte; 32]))
}

fn populated() -> Account {
    let mut account = Account::new();
    account.credit(None, Amount::from_ulf(1_000)).unwrap();
    account.credit(Some(asset(1)), Amount::from_ulf(50)).unwrap();
    account.nomad_credit = Amount::from_ulf(200);
    account.nomad_margin = Amount::from_ulf(20);
    account.devices.insert(
        device_id(1),
        Device {
            key: key(1),
            lane: Lane::first(),
            nomad_share: Amount::from_ulf(120),
            nomad_spent: Amount::from_ulf(30),
        },
    );
    account.revoked_devices.insert(DeviceId::from_hash(Digest::from_bytes([9; 32])), ());
    account.next_lane = Lane::new(1);
    account.lanes.consume(Nonce::new(Lane::first(), 0));
    account.guardian_threshold = 2;
    account.bonded = Amount::from_ulf(10_000);
    account
}

#[test]
fn the_value_hash_changes_with_every_field() {
    let base = populated();
    let baseline = base.value_hash();

    let mut other = base.clone();
    other.nomad_credit = Amount::from_ulf(201);
    assert_ne!(other.value_hash(), baseline);

    let mut other = base.clone();
    other.bonded = Amount::from_ulf(10_001);
    assert_ne!(other.value_hash(), baseline);

    let mut other = base;
    other.credit(None, Amount::from_ulf(1)).unwrap();
    assert_ne!(other.value_hash(), baseline);
}

#[test]
fn a_zero_balance_is_removed_rather_than_stored() {
    let mut account = Account::new();
    account.credit(Some(asset(1)), Amount::from_ulf(10)).unwrap();
    assert_eq!(account.balances.len(), 1);
    account.debit(Some(asset(1)), Amount::from_ulf(10)).unwrap();
    assert_eq!(account.balances.len(), 0, "a zero balance was kept in state");
    assert_eq!(account.balance(Some(asset(1))), Amount::from_ulf(0));
}

#[test]
fn a_debit_beyond_the_balance_fails_and_changes_nothing() {
    let mut account = Account::new();
    account.credit(None, Amount::from_ulf(5)).unwrap();
    assert_eq!(account.debit(None, Amount::from_ulf(6)), None);
    assert_eq!(account.balance(None), Amount::from_ulf(5));
}

#[test]
fn the_native_asset_is_absence_not_a_reserved_identifier() {
    let mut account = Account::new();
    account.credit(None, Amount::from_ulf(1)).unwrap();
    account.credit(Some(asset(0)), Amount::from_ulf(2)).unwrap();
    assert_eq!(account.balance(None), Amount::from_ulf(1));
    assert_eq!(account.balance(Some(asset(0))), Amount::from_ulf(2));
    let keys: Vec<_> = account.balances.as_slice().iter().map(|(asset, _)| *asset).collect();
    assert_eq!(keys, vec![None, Some(asset(0))]);
}

#[test]
fn nomad_remaining_never_goes_negative() {
    let device = Device {
        key: key(1),
        lane: Lane::first(),
        nomad_share: Amount::from_ulf(10),
        nomad_spent: Amount::from_ulf(25),
    };
    assert_eq!(device.nomad_remaining(), Amount::from_ulf(0));
}

#[test]
fn the_allocated_share_is_summed_with_overflow_checked() {
    let mut account = Account::new();
    for byte in 1..4_u8 {
        account.devices.insert(
            device_id(byte),
            Device {
                key: key(byte),
                lane: Lane::new(u32::from(byte)),
                nomad_share: Amount::from_ulf(10),
                nomad_spent: Amount::from_ulf(0),
            },
        );
    }
    assert_eq!(account.allocated_nomad(), Some(Amount::from_ulf(30)));
    account.devices.insert(
        device_id(9),
        Device {
            key: key(9),
            lane: Lane::new(9),
            nomad_share: Amount::from_ulf(u64::MAX),
            nomad_spent: Amount::from_ulf(0),
        },
    );
    assert_eq!(account.allocated_nomad(), None);
}

#[test]
fn an_empty_account_is_vacant_and_encodes_as_zero_counts() {
    let account = Account::new();
    assert!(account.is_vacant());
    assert_eq!(account.to_canonical_bytes(), vec![0, 0, 0, 0, 0, 0, 0, 0, 0, 0, 0]);
    assert!(!populated().is_vacant());
}

#[test]
fn a_credit_that_would_overflow_changes_nothing() {
    let mut account = Account::new();
    account.credit(None, Amount::from_ulf(u64::MAX)).unwrap();
    assert_eq!(account.credit(None, Amount::from_ulf(1)), None);
    assert_eq!(account.balance(None), Amount::from_ulf(u64::MAX));
}

#[test]
fn a_device_encodes_its_key_lane_and_shares() {
    let device = Device {
        key: key(7),
        lane: Lane::new(2),
        nomad_share: Amount::from_ulf(300),
        nomad_spent: Amount::from_ulf(5),
    };
    let mut expected = vec![TEST_ALGORITHM];
    expected.extend_from_slice(&[7; 32]);
    expected.extend_from_slice(&[2, 0xac, 0x02, 5]);
    assert_eq!(device.to_canonical_bytes(), expected);
}
