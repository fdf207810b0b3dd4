//! Quantities of value, and the splits the protocol performs on them.
//!
//! [`Amount`] implements no arithmetic operators: every operation returns an
//! `Option`, and the caller has to say what failure means. The smallest unit
//! is the ulf; one VAN is 10⁹ ulf, and the whole 100 000 000 VAN cap is 10¹⁷
//! ulf, which leaves room in a `u64` to sum every coin in existence.

pub mod emission_weights;
pub mod fee_weights;

use vstd::prelude::*;

use core::cmp::Ordering;

use crate::codec::{
    begins_with, lemma_begins_with_pieces, lemma_begins_with_varint, lemma_varint_canonical,
    parse_varint, varint_bytes, CodecError, Decode, Decoder, Encode, Encoder,
};
use crate::digits::{
    all_ascii, decimal, lemma_decimal_ascii, lemma_padded_ascii, padded, push_decimal, push_padded,
};
use crate::std_conv::ascii_string;

verus! {

/// Decimal places between one VAN and one ulf.
pub const DECIMALS: u32 = 9;

/// Ulf per VAN: 10⁹.
pub const ULF_PER_VAN: u64 = 1_000_000_000;

/// The protocol's hard cap, in ulf: 100 000 000 VAN.
pub const MAX_SUPPLY: u64 = 100_000_000 * ULF_PER_VAN;

/// A quantity of value, in ulf.
///
/// Values above [`MAX_SUPPLY`] are representable but are rejected by the state
/// layer: the type keeps arithmetic honest, the ledger keeps the cap.
#[derive(Debug, Clone, Copy, PartialEq, Eq, PartialOrd, Ord, Default)]
pub struct Amount {
    ulf: u64,
}

impl View for Amount {
    type V = u64;

    closed spec fn view(&self) -> u64 {
        self.ulf
    }
}

/// The sum, in ulf, of a sequence of amounts.
pub open spec fn sum_ulf(items: Seq<Amount>) -> nat
    decreases items.len(),
{
    if items.len() == 0 {
        0
    } else {
        sum_ulf(items.drop_last()) + items.last()@ as nat
    }
}

/// How `Amount::to_string` renders an amount: whole VAN, a point, all nine
/// decimals, and the unit.
pub open spec fn display_bytes(ulf: nat) -> Seq<u8> {
    decimal(ulf / ULF_PER_VAN as nat) + seq![46u8] + padded(ulf % ULF_PER_VAN as nat, 9)
        + seq![32u8, 86u8, 65u8, 78u8]
}

impl Amount {
    /// Builds an amount from a count of ulf.
    pub fn from_ulf(ulf: u64) -> (amount: Self)
        ensures
            amount@ == ulf,
    {
        Amount { ulf }
    }

    /// Builds an amount from whole VAN, or `None` on overflow.
    pub fn from_van(van: u64) -> (amount: Option<Self>)
        ensures
            van * ULF_PER_VAN <= u64::MAX ==> amount == Some(Amount::from_spec(
                (van * ULF_PER_VAN) as u64,
            )),
            van * ULF_PER_VAN > u64::MAX ==> amount is None,
    {
        match van.checked_mul(ULF_PER_VAN) {
            Some(ulf) => Some(Amount { ulf }),
            None => None,
        }
    }

    /// The amount holding `ulf`, in specifications.
    pub closed spec fn from_spec(ulf: u64) -> Self {
        Amount { ulf }
    }

    /// The spec constructor builds the amount it names.
    pub proof fn lemma_from_spec(ulf: u64)
        ensures
            Amount::from_spec(ulf)@ == ulf,
            forall|a: Amount| a@ == ulf ==> a == Amount::from_spec(ulf),
    {
    }

    /// The amount in ulf.
    pub fn as_ulf(self) -> (ulf: u64)
        ensures
            ulf == self@,
    {
        self.ulf
    }

    /// Whether this is zero.
    pub fn is_zero(self) -> (zero: bool)
        ensures
            zero == (self@ == 0),
    {
        self.ulf == 0
    }

    /// Whether this is within the protocol cap.
    pub fn within_cap(self) -> (within: bool)
        ensures
            within == (self@ <= MAX_SUPPLY),
    {
        self.ulf <= MAX_SUPPLY
    }

    /// Addition, or `None` on overflow.
    pub fn checked_add(self, other: Self) -> (sum: Option<Self>)
        ensures
            self@ + other@ <= u64::MAX ==> (sum matches Some(s) && s@ == self@ + other@),
            self@ + other@ > u64::MAX ==> sum is None,
    {
        match self.ulf.checked_add(other.ulf) {
            Some(ulf) => Some(Amount { ulf }),
            None => None,
        }
    }

    /// Subtraction, or `None` if it would go below zero.
    pub fn checked_sub(self, other: Self) -> (difference: Option<Self>)
        ensures
            other@ <= self@ ==> (difference matches Some(d) && d@ == self@ - other@),
            other@ > self@ ==> difference is None,
    {
        if other.ulf <= self.ulf {
            Some(Amount { ulf: self.ulf - other.ulf })
        } else {
            None
        }
    }

    /// Multiplication by a plain count, or `None` on overflow.
    pub fn checked_mul(self, factor: u64) -> (product: Option<Self>)
        ensures
            self@ * factor <= u64::MAX ==> (product matches Some(p) && p@ == self@ * factor),
            self@ * factor > u64::MAX ==> product is None,
    {
        match self.ulf.checked_mul(factor) {
            Some(ulf) => Some(Amount { ulf }),
            None => None,
        }
    }

    /// `self × numerator ÷ denominator`, rounded down, computed in 128 bits so
    /// that the intermediate product cannot overflow.
    ///
    /// `None` if the denominator is zero or the result exceeds `u64`.
    pub fn mul_div_floor(self, numerator: u64, denominator: u64) -> (result: Option<Self>)
        ensures
            denominator == 0 ==> result is None,
            denominator != 0 && (self@ * numerator) / (denominator as int) > u64::MAX ==> result
                is None,
            denominator != 0 && (self@ * numerator) / (denominator as int) <= u64::MAX ==> (
            result matches Some(r) && r@ == (self@ * numerator) / (denominator as int)),
    {
        if denominator == 0 {
            return None;
        }
        proof {
            assert(self.ulf * numerator <= u64::MAX * u64::MAX) by (nonlinear_arith);
            assert(u64::MAX * u64::MAX <= u128::MAX);
        }
        let product = (self.ulf as u128) * (numerator as u128);
        let quotient = product / (denominator as u128);
        if quotient > u64::MAX as u128 {
            return None;
        }
        Some(Amount { ulf: quotient as u64 })
    }

    /// Sums a list of amounts, or `None` on overflow.
    pub fn checked_sum(items: &[Amount]) -> (total: Option<Self>)
        ensures
            sum_ulf(items@) <= u64::MAX ==> (total matches Some(t) && t@ == sum_ulf(items@)),
            sum_ulf(items@) > u64::MAX ==> total is None,
    {
        let mut total = Amount { ulf: 0 };
        let mut index: usize = 0;
        while index < items.len()
            invariant
                index <= items@.len(),
                total@ == sum_ulf(items@.take(index as int)),
            decreases items@.len() - index,
        {
            assert(items@.take(index + 1).drop_last() =~= items@.take(index as int));
            match total.checked_add(items[index]) {
                Some(next) => {
                    total = next;
                },
                None => {
                    proof {
                        lemma_sum_prefix_monotone(items@, (index + 1) as nat);
                    }
                    return None;
                },
            }
            index = index + 1;
        }
        assert(items@.take(items@.len() as int) =~= items@);
        Some(total)
    }

    /// Renders as VAN with all nine decimals and no separators, e.g.
    /// `1.500000000 VAN`.
    pub fn to_string(&self) -> (text: String)
        ensures
            text@ == display_bytes(self@ as nat).map_values(|b: u8| b as char),
    {
        let mut bytes: Vec<u8> = Vec::new();
        push_decimal(&mut bytes, self.ulf / ULF_PER_VAN);
        bytes.push(46);
        push_padded(&mut bytes, self.ulf % ULF_PER_VAN, 9);
        bytes.push(32);
        bytes.push(86);
        bytes.push(65);
        bytes.push(78);
        proof {
            lemma_decimal_ascii((self.ulf / ULF_PER_VAN) as nat);
            lemma_padded_ascii((self.ulf % ULF_PER_VAN) as nat, 9);
            assert(bytes@ =~= display_bytes(self@ as nat));
        }
        ascii_string(bytes)
    }
}

/// A prefix sum never exceeds the whole sum.
proof fn lemma_sum_prefix_monotone(items: Seq<Amount>, n: nat)
    requires
        n <= items.len(),
    ensures
        sum_ulf(items.take(n as int)) <= sum_ulf(items),
    decreases items.len(),
{
    if n < items.len() {
        assert(items.drop_last().take(n as int) =~= items.take(n as int));
        lemma_sum_prefix_monotone(items.drop_last(), n);
    } else {
        assert(items.take(n as int) =~= items);
    }
}

impl Encode for Amount {
    open spec fn spec_encode(&self) -> Seq<u8> {
        varint_bytes(self@ as nat)
    }

    fn encode(&self, out: &mut Encoder) {
        out.write_varint(self.ulf);
    }
}

impl Decode for Amount {
    open spec fn decodable(&self, level: nat) -> bool {
        true
    }

    fn decode(input: &mut Decoder<'_>) -> (result: Result<Self, CodecError>)
        ensures
            match parse_varint(old(input).rest()) {
                Ok((value, n)) => result matches Ok(amount) && amount@ == value,
                Err(e) => result == Err::<Self, CodecError>(e),
            },
    {
        proof {
            lemma_varint_canonical(input.rest());
            assert forall|v: Amount| #[trigger]
                v.decodable(input.level()) && begins_with(input.rest(), v) implies parse_varint(
                input.rest(),
            ) == Ok::<(nat, nat), CodecError>((v@ as nat, varint_bytes(v@ as nat).len())) by {
                lemma_begins_with_varint(input.rest(), v@ as nat);
            }
        }
        let ulf = input.read_varint()?;
        Ok(Amount { ulf })
    }
}

/// An exact rational, for the health metrics a block header publishes without
/// floating point.
#[derive(Debug, Clone, Copy, PartialEq, Eq)]
pub struct Ratio {
    /// Top of the fraction.
    pub numerator: u64,
    /// Bottom of the fraction. Zero means "undefined", not "infinite".
    pub denominator: u64,
}

impl Ratio {
    /// Builds a ratio.
    pub fn new(numerator: u64, denominator: u64) -> (ratio: Self)
        ensures
            ratio.numerator == numerator,
            ratio.denominator == denominator,
    {
        Ratio { numerator, denominator }
    }

    /// The value in parts per million, rounded down, or `None` if undefined.
    pub fn to_ppm(self) -> (ppm: Option<u64>)
        ensures
            self.denominator == 0 ==> ppm is None,
            self.denominator != 0 && (self.numerator * 1_000_000) / (self.denominator as int)
                > u64::MAX ==> ppm is None,
            self.denominator != 0 && (self.numerator * 1_000_000) / (self.denominator as int)
                <= u64::MAX ==> ppm == Some(
                ((self.numerator * 1_000_000) / (self.denominator as int)) as u64,
            ),
    {
        if self.denominator == 0 {
            return None;
        }
        let scaled = (self.numerator as u128) * 1_000_000;
        let quotient = scaled / (self.denominator as u128);
        if quotient > u64::MAX as u128 {
            return None;
        }
        Some(quotient as u64)
    }

    /// The two cross products compared by [`Ratio::cmp_exact`]:
    /// `self.numerator × other.denominator` and
    /// `other.numerator × self.denominator`.
    fn cross_products(self, other: Self) -> (products: (u128, u128))
        ensures
            products.0 == self.numerator * other.denominator,
            products.1 == other.numerator * self.denominator,
    {
        proof {
            assert(self.numerator * other.denominator <= u64::MAX * u64::MAX) by (nonlinear_arith);
            assert(other.numerator * self.denominator <= u64::MAX * u64::MAX) by (nonlinear_arith);
            assert(u64::MAX * u64::MAX <= u128::MAX);
        }
        (
            (self.numerator as u128) * (other.denominator as u128),
            (other.numerator as u128) * (self.denominator as u128),
        )
    }

    /// Compares two ratios exactly, by cross-multiplication in 128 bits.
    ///
    /// No division, no rounding. Both denominators must be non-zero.
    pub fn cmp_exact(self, other: Self) -> (order: Option<Ordering>)
        ensures
            self.denominator == 0 || other.denominator == 0 ==> order is None,
            self.denominator != 0 && other.denominator != 0 ==> {
                let left = self.numerator * other.denominator;
                let right = other.numerator * self.denominator;
                &&& left < right ==> order == Some(Ordering::Less)
                &&& left > right ==> order == Some(Ordering::Greater)
                &&& left == right ==> order == Some(Ordering::Equal)
            },
    {
        if self.denominator == 0 || other.denominator == 0 {
            return None;
        }
        let (left, right) = self.cross_products(other);
        if left < right {
            Some(Ordering::Less)
        } else if left > right {
            Some(Ordering::Greater)
        } else {
            Some(Ordering::Equal)
        }
    }
}

impl Encode for Ratio {
    open spec fn spec_encode(&self) -> Seq<u8> {
        varint_bytes(self.numerator as nat) + varint_bytes(self.denominator as nat)
    }

    fn encode(&self, out: &mut Encoder) {
        out.write_varint(self.numerator);
        out.write_varint(self.denominator);
    }
}

impl Decode for Ratio {
    open spec fn decodable(&self, level: nat) -> bool {
        true
    }

    fn decode(input: &mut Decoder<'_>) -> (result: Result<Self, CodecError>) {
        let ghost s = input.rest();
        proof {
            lemma_varint_canonical(s);
            assert forall|v: Ratio| #[trigger]
                v.decodable(input.level()) && begins_with(s, v) implies ({
                let n1 = varint_bytes(v.numerator as nat).len();
                &&& parse_varint(s) == Ok::<(nat, nat), CodecError>((v.numerator as nat, n1))
                &&& parse_varint(s.skip(n1 as int)) == Ok::<(nat, nat), CodecError>(
                    (v.denominator as nat, varint_bytes(v.denominator as nat).len()),
                )
            }) by {
                let a = varint_bytes(v.numerator as nat);
                let b = varint_bytes(v.denominator as nat);
                lemma_begins_with_pieces(s, a, b);
                lemma_begins_with_varint(s, v.numerator as nat);
                lemma_begins_with_varint(s.skip(a.len() as int), v.denominator as nat);
            }
        }
        let numerator = input.read_varint()?;
        let ghost middle = input.rest();
        proof {
            lemma_varint_canonical(middle);
            assert(middle =~= s.skip(varint_bytes(numerator as nat).len() as int));
        }
        let denominator = input.read_varint()?;
        proof {
            let n1 = varint_bytes(numerator as nat).len();
            let n2 = varint_bytes(denominator as nat).len();
            assert(middle =~= s.skip(n1 as int));
            assert(s.take((n1 + n2) as int) =~= s.take(n1 as int) + middle.take(n2 as int));
        }
        Ok(Ratio { numerator, denominator })
    }
}

/// The three destinations of a fee. They sum to exactly the fee.
#[derive(Debug, Clone, Copy, PartialEq, Eq)]
pub struct FeeSplit {
    /// To the validator, storer, gateway or courier that did the work.
    pub provider: Amount,
    /// To the context pot that funds delivery bounties and finder commissions.
    pub pot: Amount,
    /// Destroyed.
    pub burn: Amount,
}

impl FeeSplit {
    /// Splits a fee: provider and pot are rounded down, and the burn takes the
    /// remainder, so the parts always sum to the fee and a non-zero fee always
    /// burns something.
    pub fn of(fee: Amount) -> (split: Self)
        ensures
            split.provider@ == (fee@ * fee_weights::PROVIDER) / (fee_weights::TOTAL as int),
            split.pot@ == (fee@ * fee_weights::POT) / (fee_weights::TOTAL as int),
            split.provider@ + split.pot@ + split.burn@ == fee@,
            fee@ > 0 ==> split.burn@ > 0,
    {
        proof {
            let f = fee@ as int;
            assert(fee_weights::PROVIDER == 70 && fee_weights::POT == 20 && fee_weights::TOTAL
                == 100);
            assert((f * 70) / 100 <= f);
            assert((f * 20) / 100 <= f);
            assert((f * 70) / 100 + (f * 20) / 100 <= f);
            assert(f > 0 ==> (f * 70) / 100 + (f * 20) / 100 < f);
        }
        let provider = match fee.mul_div_floor(fee_weights::PROVIDER, fee_weights::TOTAL) {
            Some(amount) => amount,
            None => Amount { ulf: 0 },
        };
        let pot = match fee.mul_div_floor(fee_weights::POT, fee_weights::TOTAL) {
            Some(amount) => amount,
            None => Amount { ulf: 0 },
        };
        let paid = match provider.checked_add(pot) {
            Some(amount) => amount,
            None => Amount { ulf: 0 },
        };
        let burn = match fee.checked_sub(paid) {
            Some(amount) => amount,
            None => Amount { ulf: 0 },
        };
        FeeSplit { provider, pot, burn }
    }

    /// The three parts summed, which equals the fee they were split from.
    pub fn total(self) -> (total: Option<Amount>)
        ensures
            self.provider@ + self.pot@ + self.burn@ <= u64::MAX ==> (total matches Some(t) && t@
                == self.provider@ + self.pot@ + self.burn@),
            self.provider@ + self.pot@ + self.burn@ > u64::MAX ==> total is None,
    {
        let parts = [self.provider, self.pot, self.burn];
        proof {
            assert(parts@.drop_last().drop_last().drop_last() =~= Seq::<Amount>::empty());
            assert(sum_ulf(parts@) == self.provider@ + self.pot@ + self.burn@) by {
                assert(parts@.drop_last() =~= seq![self.provider, self.pot]);
                assert(parts@.drop_last().drop_last() =~= seq![self.provider]);
                reveal_with_fuel(sum_ulf, 4);
            }
        }
        Amount::checked_sum(&parts)
    }
}

/// The three envelopes of an epoch's emission.
#[derive(Debug, Clone, Copy, PartialEq, Eq)]
pub struct EmissionSplit {
    /// Paid to validators, by weight and actual participation.
    pub validators: Amount,
    /// The bootstrap fund.
    pub bootstrap: Amount,
    /// The protocol treasury.
    pub treasury: Amount,
}

impl EmissionSplit {
    /// Splits an epoch's emission. Every envelope is rounded down and the
    /// remainder is not emitted at all: the parts never exceed the budget, and
    /// fall short of it by at most two ulf.
    pub fn of(budget: Amount) -> (split: Self)
        ensures
            split.validators@ == (budget@ * emission_weights::VALIDATORS) / (
            emission_weights::TOTAL as int),
            split.bootstrap@ == (budget@ * emission_weights::BOOTSTRAP) / (
            emission_weights::TOTAL as int),
            split.treasury@ == (budget@ * emission_weights::TREASURY) / (
            emission_weights::TOTAL as int),
            split.validators@ + split.bootstrap@ + split.treasury@ <= budget@,
            budget@ - (split.validators@ + split.bootstrap@ + split.treasury@) <= 2,
    {
        proof {
            let b = budget@ as int;
            assert(emission_weights::VALIDATORS == 60 && emission_weights::BOOTSTRAP == 25
                && emission_weights::TREASURY == 15 && emission_weights::TOTAL == 100);
            assert((b * 60) / 100 <= b);
            assert((b * 25) / 100 <= b);
            assert((b * 15) / 100 <= b);
            assert((b * 60) / 100 + (b * 25) / 100 + (b * 15) / 100 <= b);
            assert(b - ((b * 60) / 100 + (b * 25) / 100 + (b * 15) / 100) <= 2);
        }
        let validators = match budget.mul_div_floor(
            emission_weights::VALIDATORS,
            emission_weights::TOTAL,
        ) {
            Some(amount) => amount,
            None => Amount { ulf: 0 },
        };
        let bootstrap = match budget.mul_div_floor(
            emission_weights::BOOTSTRAP,
            emission_weights::TOTAL,
        ) {
            Some(amount) => amount,
            None => Amount { ulf: 0 },
        };
        let treasury = match budget.mul_div_floor(
            emission_weights::TREASURY,
            emission_weights::TOTAL,
        ) {
            Some(amount) => amount,
            None => Amount { ulf: 0 },
        };
        EmissionSplit { validators, bootstrap, treasury }
    }

    /// The three envelopes summed.
    pub fn total(self) -> (total: Option<Amount>)
        ensures
            self.validators@ + self.bootstrap@ + self.treasury@ <= u64::MAX ==> (total matches Some(
                t,
            ) && t@ == self.validators@ + self.bootstrap@ + self.treasury@),
            self.validators@ + self.bootstrap@ + self.treasury@ > u64::MAX ==> total is None,
    {
        let parts = [self.validators, self.bootstrap, self.treasury];
        proof {
            assert(parts@.drop_last() =~= seq![self.validators, self.bootstrap]);
            assert(parts@.drop_last().drop_last() =~= seq![self.validators]);
            assert(parts@.drop_last().drop_last().drop_last() =~= Seq::<Amount>::empty());
            reveal_with_fuel(sum_ulf, 4);
        }
        Amount::checked_sum(&parts)
    }
}

/// How an amount is displayed.
pub open spec fn amount_text(amount: Amount) -> Seq<char> {
    display_bytes(amount@ as nat).map_values(|b: u8| b as char)
}

} // verus!
