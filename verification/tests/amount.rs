use core::cmp::Ordering;

use vanargand::amount::{emission_weights, fee_weights, Amount, EmissionSplit, FeeSplit, Ratio, MAX_SUPPLY, ULF_PER_VAN};
use vanargand::codec::{Decode, Encode};

fn zero() -> Amount {
    Amount::from_ulf(0)
}

fn one_ulf() -> Amount {
    Amount::from_ulf(1)
}

fn one_van() -> Amount {
    Amount::from_ulf(ULF_PER_VAN)
}

fn max() -> Amount {
    Amount::from_ulf(MAX_SUPPLY)
}

#[test]
fn the_cap_leaves_room_for_every_coin_to_be_summed() {
    assert!(MAX_SUPPLY < u64::MAX / 100, "less than 100x headroom above the cap");
    assert_eq!(MAX_SUPPLY, 100_000_000 * ULF_PER_VAN);
}

#[test]
fn subtraction_below_zero_is_none_not_a_fortune() {
    assert_eq!(zero().checked_sub(one_ulf()), None);
    assert_eq!(
        Amount::from_ulf(5).checked_sub(Amount::from_ulf(6)),
        None,
        "an overdraft wrapped instead of failing"
    );
    assert_eq!(Amount::from_ulf(5).checked_sub(Amount::from_ulf(5)), Some(zero()));
}

#[test]
fn addition_overflow_is_none() {
    let huge = Amount::from_ulf(u64::MAX);
    assert_eq!(huge.checked_add(one_ulf()), None);
    assert_eq!(huge.checked_add(zero()), Some(huge));
}

#[test]
fn from_van_rejects_overflow() {
    assert_eq!(Amount::from_van(1), Some(one_van()));
    assert_eq!(Amount::from_van(u64::MAX), None);
}

#[test]
fn mul_div_floor_never_overflows_in_the_middle() {
    let whole_supply = max();
    let seventy_percent = whole_supply.mul_div_floor(70, 100).unwrap();
    assert_eq!(seventy_percent.as_ulf(), 70_000_000 * ULF_PER_VAN);
}

#[test]
fn mul_div_floor_rounds_down_and_rejects_zero_denominators() {
    assert_eq!(Amount::from_ulf(10).mul_div_floor(1, 3), Some(Amount::from_ulf(3)));
    assert_eq!(Amount::from_ulf(2).mul_div_floor(1, 3), Some(zero()));
    assert_eq!(Amount::from_ulf(10).mul_div_floor(1, 0), None);
}

#[test]
fn a_fee_split_always_sums_to_the_fee() {
    for ulf in 0_u64..2_000 {
        let fee = Amount::from_ulf(ulf);
        let split = FeeSplit::of(fee);
        assert_eq!(split.total(), Some(fee), "fee split lost or created value at {ulf} ulf");
    }
    for fee in [one_van(), max(), Amount::from_ulf(u64::MAX)] {
        assert_eq!(FeeSplit::of(fee).total(), Some(fee));
    }
}

#[test]
fn a_fee_split_gives_the_remainder_to_the_fire() {
    let exact = FeeSplit::of(Amount::from_ulf(10));
    assert_eq!(exact.provider, Amount::from_ulf(7));
    assert_eq!(exact.pot, Amount::from_ulf(2));
    assert_eq!(exact.burn, Amount::from_ulf(1));

    let inexact = FeeSplit::of(Amount::from_ulf(11));
    assert_eq!(inexact.provider, Amount::from_ulf(7));
    assert_eq!(inexact.pot, Amount::from_ulf(2));
    assert_eq!(inexact.burn, Amount::from_ulf(2), "remainder did not go to the fire");
}

#[test]
fn every_non_zero_fee_burns_something() {
    for ulf in 1_u64..5_000 {
        let split = FeeSplit::of(Amount::from_ulf(ulf));
        assert!(!split.burn.is_zero(), "a fee of {ulf} ulf burned nothing");
    }
}

#[test]
fn fee_weights_sum_to_one_hundred() {
    assert_eq!(fee_weights::TOTAL, 100);
    assert_eq!(emission_weights::TOTAL, 100);
}

#[test]
fn an_emission_split_never_exceeds_its_budget() {
    for ulf in 0_u64..2_000 {
        let budget = Amount::from_ulf(ulf);
        let split = EmissionSplit::of(budget);
        let total = split.total().expect("emission split overflowed");
        assert!(total <= budget, "emission split minted {total:?} from a budget of {budget:?}");
        assert!(budget.checked_sub(total).unwrap().as_ulf() <= 2);
    }
}

#[test]
fn an_emission_split_of_a_round_budget_is_exact() {
    let budget = Amount::from_ulf(1_000);
    let split = EmissionSplit::of(budget);
    assert_eq!(split.validators, Amount::from_ulf(600));
    assert_eq!(split.bootstrap, Amount::from_ulf(250));
    assert_eq!(split.treasury, Amount::from_ulf(150));
    assert_eq!(split.total(), Some(budget));
}

#[test]
fn amounts_round_trip_through_the_codec() {
    for ulf in [0_u64, 1, 127, 128, ULF_PER_VAN, MAX_SUPPLY, u64::MAX] {
        let amount = Amount::from_ulf(ulf);
        let bytes = amount.to_canonical_bytes();
        assert_eq!(Amount::from_canonical_bytes(&bytes), Ok(amount));
    }
}

#[test]
fn display_shows_all_nine_decimals() {
    assert_eq!(zero().to_string(), "0.000000000 VAN");
    assert_eq!(one_van().to_string(), "1.000000000 VAN");
    assert_eq!(Amount::from_ulf(1).to_string(), "0.000000001 VAN");
    assert_eq!(Amount::from_ulf(1_500_000_000).to_string(), "1.500000000 VAN");
}

#[test]
fn ratios_compare_exactly_without_dividing() {
    assert_eq!(Ratio::new(1, 3).cmp_exact(Ratio::new(2, 6)), Some(Ordering::Equal));
    assert_eq!(
        Ratio::new(333_333, 1_000_000).cmp_exact(Ratio::new(1, 3)),
        Some(Ordering::Less),
        "a ppm-rounded ratio compared equal to the value it was rounded from"
    );
    assert_eq!(Ratio::new(1, 0).cmp_exact(Ratio::new(1, 1)), None);
}

#[test]
fn ratios_convert_to_ppm() {
    assert_eq!(Ratio::new(1, 2).to_ppm(), Some(500_000));
    assert_eq!(Ratio::new(1, 3).to_ppm(), Some(333_333));
    assert_eq!(Ratio::new(0, 1).to_ppm(), Some(0));
    assert_eq!(Ratio::new(1, 0).to_ppm(), None);
}

#[test]
fn ratios_round_trip_through_the_codec() {
    let ratio = Ratio::new(12_345, 67_890);
    assert_eq!(Ratio::from_canonical_bytes(&ratio.to_canonical_bytes()), Ok(ratio));
}

#[test]
fn a_checked_sum_adds_every_amount_or_reports_overflow() {
    let items = [Amount::from_ulf(1), Amount::from_ulf(2), Amount::from_ulf(3)];
    assert_eq!(Amount::checked_sum(&items), Some(Amount::from_ulf(6)));
    assert_eq!(Amount::checked_sum(&[]), Some(zero()));
    assert_eq!(Amount::checked_sum(&[Amount::from_ulf(u64::MAX), one_ulf()]), None);
}

#[test]
fn the_cap_and_multiplication_are_exact() {
    assert!(max().within_cap());
    assert!(!Amount::from_ulf(MAX_SUPPLY + 1).within_cap());
    assert_eq!(Amount::from_ulf(7).checked_mul(6), Some(Amount::from_ulf(42)));
    assert_eq!(Amount::from_ulf(u64::MAX).checked_mul(2), None);
    assert_eq!(Amount::from_van(3).map(|a| a.as_ulf()), Some(3 * ULF_PER_VAN));
}
