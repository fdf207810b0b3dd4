//! Punishing equivocation, the one fault that carries its own proof.
//!
//! Unavailability is never punished here: a crash and a deliberate silence
//! are the same observable. Two shapes of equivocation are: a validator that
//! signs two blocks at one height, and an account whose device signs two
//! transactions at one position of one lane. A seizure is split in half,
//! half to whoever published the proof and half burned, the rounding
//! remainder going to the fire.

use vstd::prelude::*;
use vstd::string::StringExecFns;

use crate::amount::Amount;
use crate::bech32::push_all;
use crate::codec::{
    begins_with, lemma_begins_with_pieces, lemma_begins_with_varint, lemma_decoded_pieces,
    lemma_varint_canonical, parse_varint, varint_bytes, CodecError, Decode, Decoder, Encode,
    Encoder,
};
use crate::hash::{blake3_derive_key, domain, hash, Digest};
use crate::id::{AccountId, DeviceId};
use crate::nonce::{be32, Lane};
use crate::sorted_map::{ascending, SortKey, SortedMap};

verus! {

/// Eight bytes, most significant first.
pub open spec fn be64(x: u64) -> Seq<u8> {
    Seq::new(8, |i: int| ((x as nat / pow256((7 - i) as nat)) % 256) as u8)
}

/// 256 to the power `n`.
pub open spec fn pow256(n: nat) -> nat
    decreases n,
{
    if n == 0 {
        1
    } else {
        256 * pow256((n - 1) as nat)
    }
}

fn push_be64(out: &mut Vec<u8>, x: u64)
    ensures
        final(out)@ == old(out)@ + be64(x),
{
    let ghost start = out@;
    let mut shift: u64 = 0x0100_0000_0000_0000;
    let mut index: usize = 0;
    proof {
        reveal_with_fuel(pow256, 8);
    }
    while index < 8
        invariant
            index <= 8,
            shift == pow256((7 - index) as nat) || index == 8,
            out@ == start + be64(x).take(index as int),
        decreases 8 - index,
    {
        proof {
            reveal_with_fuel(pow256, 8);
        }
        out.push(((x / shift) % 256) as u8);
        assert(out@ =~= start + be64(x).take(index + 1));
        if index < 7 {
            shift = shift / 256;
        }
        index = index + 1;
    }
    assert(be64(x).take(8) =~= be64(x));
}

/// The slot an account equivocated in: it identifies the offence, so two
/// evidences about one slot describe one crime and earn one bounty.
#[derive(Debug, Clone, Copy, PartialEq, Eq, PartialOrd, Ord)]
pub struct AccountOffence {
    /// The account.
    pub account: AccountId,
    /// The device subkey that signed both.
    pub device: DeviceId,
    /// The lane.
    pub lane: Lane,
    /// The sequence number within that lane.
    pub sequence: u64,
}

impl Encode for AccountOffence {
    open spec fn spec_encode(&self) -> Seq<u8> {
        self.account@ + self.device@ + self.lane.spec_encode() + varint_bytes(
            self.sequence as nat,
        )
    }

    fn encode(&self, out: &mut Encoder) {
        self.account.encode(out);
        self.device.encode(out);
        self.lane.encode(out);
        out.write_varint(self.sequence);
        assert(out@ =~= old(out)@ + self.spec_encode());
    }
}

impl Decode for AccountOffence {
    open spec fn decodable(&self, level: nat) -> bool {
        true
    }

    fn decode(input: &mut Decoder<'_>) -> (result: Result<Self, CodecError>) {
        let ghost data = input.data();
        let ghost start = input.pos() as int;
        let ghost s = input.rest();
        proof {
            assert forall|v: AccountOffence| #[trigger]
                v.decodable(input.level()) && begins_with(s, v) implies ({
                let lane = varint_bytes(v.lane@ as nat);
                &&& s.len() >= 64
                &&& s.take(32) == v.account@
                &&& s.skip(32).take(32) == v.device@
                &&& parse_varint(s.skip(64)) == Ok::<(nat, nat), CodecError>(
                    (v.lane@ as nat, lane.len()),
                )
                &&& parse_varint(s.skip((64 + lane.len()) as int)) == Ok::<(nat, nat), CodecError>(
                    (v.sequence as nat, varint_bytes(v.sequence as nat).len()),
                )
            }) by {
                let a = v.account@;
                let d = v.device@;
                let l = varint_bytes(v.lane@ as nat);
                let q = varint_bytes(v.sequence as nat);
                AccountId::lemma_len(v.account);
                DeviceId::lemma_len(v.device);
                assert(v.spec_encode() == a + d + l + q);
                lemma_begins_with_pieces(s, a + d + l, q);
                lemma_begins_with_pieces(s, a + d, l);
                lemma_begins_with_pieces(s, a, d);
                lemma_begins_with_varint(s.skip(64), v.lane@ as nat);
                lemma_begins_with_varint(s.skip((64 + l.len()) as int), v.sequence as nat);
            }
        }
        let account = AccountId::decode(input)?;
        proof {
            AccountId::lemma_len(account);
            assert(input.rest() =~= s.skip(32));
        }
        let device = DeviceId::decode(input)?;
        proof {
            DeviceId::lemma_len(device);
            assert(input.rest() =~= s.skip(64));
            lemma_decoded_pieces(data, start, account.spec_encode(), device.spec_encode());
        }
        let ghost done = account.spec_encode() + device.spec_encode();
        let lane = Lane::decode(input)?;
        proof {
            assert(input.rest() =~= s.skip((64 + lane.spec_encode().len()) as int));
            lemma_decoded_pieces(data, start, done, lane.spec_encode());
            done = done + lane.spec_encode();
            lemma_varint_canonical(input.rest());
        }
        let sequence = input.read_varint()?;
        proof {
            lemma_decoded_pieces(data, start, done, sequence.spec_encode());
        }
        let offence = AccountOffence { account, device, lane, sequence };
        assert(done + sequence.spec_encode() =~= offence.spec_encode());
        Ok(offence)
    }
}

impl SortKey for AccountOffence {
    open spec fn sort_key(&self) -> Seq<u8> {
        self.account@ + self.device@ + be32(self.lane@) + be64(self.sequence)
    }

    fn sort_bytes(&self) -> (bytes: Vec<u8>) {
        let mut bytes: Vec<u8> = Vec::new();
        push_all(&mut bytes, self.account.as_bytes());
        push_all(&mut bytes, self.device.as_bytes());
        let lane = self.lane.sort_bytes();
        push_all(&mut bytes, lane.as_slice());
        push_be64(&mut bytes, self.sequence);
        bytes
    }
}

/// The height a validator equivocated at.
#[derive(Debug, Clone, Copy, PartialEq, Eq, PartialOrd, Ord)]
pub struct ValidatorOffence {
    /// The accused.
    pub validator: AccountId,
    /// The height it signed twice at.
    pub height: u64,
}

impl Encode for ValidatorOffence {
    open spec fn spec_encode(&self) -> Seq<u8> {
        self.validator@ + varint_bytes(self.height as nat)
    }

    fn encode(&self, out: &mut Encoder) {
        self.validator.encode(out);
        out.write_varint(self.height);
        assert(out@ =~= old(out)@ + self.spec_encode());
    }
}

impl Decode for ValidatorOffence {
    open spec fn decodable(&self, level: nat) -> bool {
        true
    }

    fn decode(input: &mut Decoder<'_>) -> (result: Result<Self, CodecError>) {
        let ghost data = input.data();
        let ghost start = input.pos() as int;
        let ghost s = input.rest();
        proof {
            assert forall|v: ValidatorOffence| #[trigger]
                v.decodable(input.level()) && begins_with(s, v) implies s.len() >= 32 && s.take(32)
                == v.validator@ && parse_varint(s.skip(32)) == Ok::<(nat, nat), CodecError>(
                (v.height as nat, varint_bytes(v.height as nat).len()),
            ) by {
                AccountId::lemma_len(v.validator);
                lemma_begins_with_pieces(s, v.validator@, varint_bytes(v.height as nat));
                lemma_begins_with_varint(s.skip(32), v.height as nat);
            }
        }
        let validator = AccountId::decode(input)?;
        proof {
            AccountId::lemma_len(validator);
            assert(input.rest() =~= s.skip(32));
            lemma_varint_canonical(input.rest());
        }
        let height = input.read_varint()?;
        proof {
            lemma_decoded_pieces(data, start, validator.spec_encode(), height.spec_encode());
        }
        Ok(ValidatorOffence { validator, height })
    }
}

impl SortKey for ValidatorOffence {
    open spec fn sort_key(&self) -> Seq<u8> {
        self.validator@ + be64(self.height)
    }

    fn sort_bytes(&self) -> (bytes: Vec<u8>) {
        let mut bytes: Vec<u8> = Vec::new();
        push_all(&mut bytes, self.validator.as_bytes());
        push_be64(&mut bytes, self.height);
        bytes
    }
}

/// How a seizure is divided.
#[derive(Debug, Clone, Copy, PartialEq, Eq)]
pub struct Penalty {
    /// What was taken.
    pub seized: Amount,
    /// Paid to whoever published the proof.
    pub to_denouncer: Amount,
    /// Destroyed.
    pub burned: Amount,
}

impl Penalty {
    /// Splits a seizure in half, the remainder to the fire: the parts always
    /// sum to the seizure, and the burn is never the smaller half.
    pub fn split(seized: Amount) -> (penalty: Self)
        ensures
            penalty.seized == seized,
            penalty.to_denouncer@ == seized@ / 2,
            penalty.burned@ == seized@ - seized@ / 2,
            penalty.to_denouncer@ + penalty.burned@ == seized@,
            penalty.burned@ >= penalty.to_denouncer@,
    {
        let to_denouncer = match seized.mul_div_floor(1, 2) {
            Some(half) => half,
            None => Amount::from_ulf(0),
        };
        let burned = match seized.checked_sub(to_denouncer) {
            Some(rest) => rest,
            None => Amount::from_ulf(0),
        };
        Penalty { seized, to_denouncer, burned }
    }

    /// The two parts summed, or `None` if that overflows.
    pub fn total(self) -> (total: Option<Amount>)
        ensures
            self.to_denouncer@ + self.burned@ <= u64::MAX ==> (total matches Some(t) && t@
                == self.to_denouncer@ + self.burned@),
            self.to_denouncer@ + self.burned@ > u64::MAX ==> total is None,
    {
        self.to_denouncer.checked_add(self.burned)
    }

    /// Whether anything was actually taken.
    pub fn is_empty(self) -> (empty: bool)
        ensures
            empty == (self.seized@ == 0),
    {
        self.seized.is_zero()
    }
}

/// Why a seizure was refused.
#[derive(Debug, Clone, PartialEq, Eq)]
pub enum SlashingError {
    /// This exact offence has already been punished.
    AlreadyPunished,
}

/// Every equivocation that has been punished, each kind in ascending order.
#[derive(Debug, Clone, PartialEq, Eq)]
pub struct SlashingBook {
    accounts: SortedMap<AccountOffence, ()>,
    validators: SortedMap<ValidatorOffence, ()>,
}

impl View for SlashingBook {
    type V = (Set<Seq<u8>>, Set<Seq<u8>>);

    /// The keys of the punished account offences and validator offences.
    closed spec fn view(&self) -> (Set<Seq<u8>>, Set<Seq<u8>>) {
        (self.accounts.map().dom(), self.validators.map().dom())
    }
}

impl SlashingBook {
    /// Both records are in strictly ascending key order.
    pub closed spec fn wf(self) -> bool {
        self.accounts.wf() && self.validators.wf()
    }

    /// The punished account offences, in ascending order.
    pub closed spec fn account_list(self) -> Seq<AccountOffence> {
        self.accounts.entries().map_values(|e: (AccountOffence, ())| e.0)
    }

    /// The punished validator offences, in ascending order.
    pub closed spec fn validator_list(self) -> Seq<ValidatorOffence> {
        self.validators.entries().map_values(|e: (ValidatorOffence, ())| e.0)
    }

    /// Nothing has been punished.
    pub fn new() -> (book: Self)
        ensures
            book.wf(),
            book@.0 == Set::<Seq<u8>>::empty(),
            book@.1 == Set::<Seq<u8>>::empty(),
            book.account_list().len() == 0,
            book.validator_list().len() == 0,
    {
        SlashingBook { accounts: SortedMap::new(), validators: SortedMap::new() }
    }

    /// How many convictions are recorded.
    pub fn len(&self) -> (count: usize)
        ensures
            count == (if self.account_list().len() + self.validator_list().len() > usize::MAX {
                usize::MAX as int
            } else {
                self.account_list().len() + self.validator_list().len() as int
            }),
    {
        self.accounts.len().saturating_add(self.validators.len())
    }

    /// Whether nothing has been punished.
    pub fn is_empty(&self) -> (empty: bool)
        ensures
            empty == (self.account_list().len() == 0 && self.validator_list().len() == 0),
    {
        self.accounts.len() == 0 && self.validators.len() == 0
    }

    /// Whether an account offence is already recorded.
    pub fn knows_account(&self, offence: &AccountOffence) -> (known: bool)
        requires
            self.wf(),
        ensures
            known == self@.0.contains(offence.sort_key()),
    {
        self.accounts.contains(offence)
    }

    /// Whether a validator offence is already recorded.
    pub fn knows_validator(&self, offence: &ValidatorOffence) -> (known: bool)
        requires
            self.wf(),
        ensures
            known == self@.1.contains(offence.sort_key()),
    {
        self.validators.contains(offence)
    }

    /// Records an account equivocation, refusing a repeat: one crime earns
    /// one bounty.
    pub fn record_account(&mut self, offence: AccountOffence) -> (result: Result<(), SlashingError>)
        requires
            old(self).wf(),
        ensures
            final(self).wf(),
            old(self)@.0.contains(offence.sort_key()) ==> result == Err::<(), SlashingError>(
                SlashingError::AlreadyPunished,
            ) && *final(self) == *old(self),
            !old(self)@.0.contains(offence.sort_key()) ==> result is Ok && final(self)@ == (
                old(self)@.0.insert(offence.sort_key()),
                old(self)@.1,
            ) && final(self).account_list().len() == old(self).account_list().len() + 1
                && final(self).validator_list() == old(self).validator_list(),
    {
        if self.accounts.contains(&offence) {
            return Err(SlashingError::AlreadyPunished);
        }
        self.accounts.insert(offence, ());
        proof {
            assert(self.accounts.map().dom() =~= old(self).accounts.map().dom().insert(
                offence.sort_key(),
            ));
        }
        Ok(())
    }

    /// Records a validator equivocation, refusing a repeat.
    pub fn record_validator(&mut self, offence: ValidatorOffence) -> (result: Result<
        (),
        SlashingError,
    >)
        requires
            old(self).wf(),
        ensures
            final(self).wf(),
            old(self)@.1.contains(offence.sort_key()) ==> result == Err::<(), SlashingError>(
                SlashingError::AlreadyPunished,
            ) && *final(self) == *old(self),
            !old(self)@.1.contains(offence.sort_key()) ==> result is Ok && final(self)@ == (
                old(self)@.0,
                old(self)@.1.insert(offence.sort_key()),
            ) && final(self).validator_list().len() == old(self).validator_list().len() + 1
                && final(self).account_list() == old(self).account_list(),
    {
        if self.validators.contains(&offence) {
            return Err(SlashingError::AlreadyPunished);
        }
        self.validators.insert(offence, ());
        proof {
            assert(self.validators.map().dom() =~= old(self).validators.map().dom().insert(
                offence.sort_key(),
            ));
        }
        Ok(())
    }

    /// Every account offence, in strictly ascending key order.
    pub fn account_offences(&self) -> (offences: Vec<AccountOffence>)
        requires
            self.wf(),
        ensures
            offences@ == self.account_list(),
            forall|key: Seq<u8>|
                self@.0.contains(key) <==> exists|i: int|
                    0 <= i < offences@.len() && #[trigger] offences@[i].sort_key() == key,
            forall|i: int, j: int|
                0 <= i < j < offences@.len() ==> crate::codec::bytes_lt(
                    #[trigger] offences@[i].sort_key(),
                    #[trigger] offences@[j].sort_key(),
                ),
    {
        let entries = self.accounts.as_slice();
        let mut out: Vec<AccountOffence> = Vec::new();
        let mut index: usize = 0;
        while index < entries.len()
            invariant
                index <= entries@.len(),
                entries@ == self.accounts.entries(),
                out@ == entries@.take(index as int).map_values(|e: (AccountOffence, ())| e.0),
            decreases entries@.len() - index,
        {
            out.push(entries[index].0);
            index = index + 1;
            assert(out@ =~= entries@.take(index as int).map_values(|e: (AccountOffence, ())| e.0));
        }
        assert(entries@.take(entries@.len() as int) =~= entries@);
        assert forall|i: int, j: int| 0 <= i < j < out@.len() implies crate::codec::bytes_lt(
            #[trigger] out@[i].sort_key(),
            #[trigger] out@[j].sort_key(),
        ) by {
            assert(out@[i] == entries@[i].0 && out@[j] == entries@[j].0);
        }
        assert forall|key: Seq<u8>| self@.0.contains(key) <==> exists|i: int|
            0 <= i < out@.len() && #[trigger] out@[i].sort_key() == key by {
            if self@.0.contains(key) {
                let i = choose|i: int| 0 <= i < entries@.len() && #[trigger] entries@[i].0.sort_key() == key;
                assert(out@[i] == entries@[i].0);
            }
            if exists|i: int| 0 <= i < out@.len() && #[trigger] out@[i].sort_key() == key {
                let i = choose|i: int| 0 <= i < out@.len() && #[trigger] out@[i].sort_key() == key;
                assert(out@[i] == entries@[i].0);
                assert(entries@[i].0.sort_key() == key);
            }
        }
        out
    }

    /// Every validator offence, in strictly ascending key order.
    pub fn validator_offences(&self) -> (offences: Vec<ValidatorOffence>)
        requires
            self.wf(),
        ensures
            offences@ == self.validator_list(),
            forall|key: Seq<u8>|
                self@.1.contains(key) <==> exists|i: int|
                    0 <= i < offences@.len() && #[trigger] offences@[i].sort_key() == key,
            forall|i: int, j: int|
                0 <= i < j < offences@.len() ==> crate::codec::bytes_lt(
                    #[trigger] offences@[i].sort_key(),
                    #[trigger] offences@[j].sort_key(),
                ),
    {
        let entries = self.validators.as_slice();
        let mut out: Vec<ValidatorOffence> = Vec::new();
        let mut index: usize = 0;
        while index < entries.len()
            invariant
                index <= entries@.len(),
                entries@ == self.validators.entries(),
                out@ == entries@.take(index as int).map_values(|e: (ValidatorOffence, ())| e.0),
            decreases entries@.len() - index,
        {
            out.push(entries[index].0);
            index = index + 1;
            assert(out@ =~= entries@.take(index as int).map_values(
                |e: (ValidatorOffence, ())| e.0,
            ));
        }
        assert(entries@.take(entries@.len() as int) =~= entries@);
        assert forall|i: int, j: int| 0 <= i < j < out@.len() implies crate::codec::bytes_lt(
            #[trigger] out@[i].sort_key(),
            #[trigger] out@[j].sort_key(),
        ) by {
            assert(out@[i] == entries@[i].0 && out@[j] == entries@[j].0);
        }
        assert forall|key: Seq<u8>| self@.1.contains(key) <==> exists|i: int|
            0 <= i < out@.len() && #[trigger] out@[i].sort_key() == key by {
            if self@.1.contains(key) {
                let i = choose|i: int| 0 <= i < entries@.len() && #[trigger] entries@[i].0.sort_key() == key;
                assert(out@[i] == entries@[i].0);
            }
            if exists|i: int| 0 <= i < out@.len() && #[trigger] out@[i].sort_key() == key {
                let i = choose|i: int| 0 <= i < out@.len() && #[trigger] out@[i].sort_key() == key;
                assert(out@[i] == entries@[i].0);
                assert(entries@[i].0.sort_key() == key);
            }
        }
        out
    }

    /// The digest an offence is recorded under: the state-value digest of its
    /// canonical encoding.
    pub fn digest<T: Encode>(offence: &T) -> (digest: Digest)
        ensures
            digest@ == blake3_derive_key(domain::STATE_VALUE@, offence.spec_encode()),
    {
        let bytes = offence.to_canonical_bytes();
        hash(domain::STATE_VALUE, bytes.as_slice())
    }
}

impl SlashingError {
    /// The error as it is displayed.
    pub fn to_string(&self) -> (text: String)
        ensures
            text@ == "this equivocation has already been punished"@,
    {
        String::from_str("this equivocation has already been punished")
    }
}

} // verus!
