//! The two-dimensional nonce: `(lane, sequence)`.
//!
//! Each device subkey owns a [`Lane`], and each lane is a strictly sequential
//! counter. Within a lane there is a total order, so spending the same slot
//! twice produces its own evidence; across lanes there is no order at all, so
//! two honest devices of one account never collide.

use vstd::prelude::*;

use crate::codec::{
    begins_with, bytes_lt, lemma_begins_with_pieces, lemma_begins_with_varint,
    lemma_varint_canonical, parse_varint, varint_bytes, CodecError, Decode, Decoder, Encode,
    Encoder,
};
use crate::digits::{decimal, lemma_decimal_ascii, push_decimal};
use crate::sorted_map::{SortKey, SortedMap};
use crate::std_conv::ascii_string;

verus! {

/// A nonce lane, owned by exactly one device subkey of an account.
///
/// Lanes are never reused, even after the device is revoked.
#[derive(Debug, Clone, Copy, PartialEq, Eq, PartialOrd, Ord, Default)]
pub struct Lane(u32);

impl View for Lane {
    type V = u32;

    closed spec fn view(&self) -> u32 {
        self.0
    }
}

/// The four big-endian bytes of a lane index, which order lanes by index.
pub open spec fn be32(x: u32) -> Seq<u8> {
    seq![
        (x / 0x100_0000) as u8,
        ((x / 0x1_0000) % 256) as u8,
        ((x / 0x100) % 256) as u8,
        (x % 256) as u8,
    ]
}

/// Two lanes with the same big-endian bytes are the same lane.
#[verifier::spinoff_prover]
pub proof fn lemma_be32_injective(a: u32, b: u32)
    ensures
        be32(a) == be32(b) ==> a == b,
{
    if be32(a) == be32(b) {
        assert(be32(a)[0] == be32(b)[0]);
        assert(be32(a)[1] == be32(b)[1]);
        assert(be32(a)[2] == be32(b)[2]);
        assert(be32(a)[3] == be32(b)[3]);
        assert(a / 0x100_0000 == b / 0x100_0000);
        assert((a / 0x1_0000) % 256 == (b / 0x1_0000) % 256);
        assert((a / 0x100) % 256 == (b / 0x100) % 256);
        assert(a % 256 == b % 256);
        assert(a == b) by (bit_vector)
            requires
                a / 0x100_0000 == b / 0x100_0000,
                (a / 0x1_0000) % 256 == (b / 0x1_0000) % 256,
                (a / 0x100) % 256 == (b / 0x100) % 256,
                a % 256 == b % 256,
        ;
    }
}

/// Big-endian order is numeric order.
#[verifier::spinoff_prover]
#[verifier::rlimit(40)]
pub proof fn lemma_be32_order(a: u32, b: u32)
    ensures
        bytes_lt(be32(a), be32(b)) <==> a < b,
{
    reveal_with_fuel(bytes_lt, 5);
    let x = be32(a);
    let y = be32(b);
    assert(x.drop_first() =~= seq![x[1], x[2], x[3]]);
    assert(y.drop_first() =~= seq![y[1], y[2], y[3]]);
    assert(x.drop_first().drop_first() =~= seq![x[2], x[3]]);
    assert(y.drop_first().drop_first() =~= seq![y[2], y[3]]);
    assert(x.drop_first().drop_first().drop_first() =~= seq![x[3]]);
    assert(y.drop_first().drop_first().drop_first() =~= seq![y[3]]);
    assert(x.drop_first().drop_first().drop_first().drop_first() =~= Seq::<u8>::empty());
    assert(y.drop_first().drop_first().drop_first().drop_first() =~= Seq::<u8>::empty());
}

impl Lane {
    /// The lane of an account's first device.
    pub fn first() -> (lane: Self)
        ensures
            lane@ == 0,
    {
        Lane(0)
    }

    /// Wraps a lane index.
    pub fn new(index: u32) -> (lane: Self)
        ensures
            lane@ == index,
    {
        Lane(index)
    }

    /// The lane index.
    pub fn index(self) -> (index: u32)
        ensures
            index == self@,
    {
        self.0
    }

    /// The next lane to allocate after this one, or `None` if exhausted,
    /// never a wrapped index.
    pub fn next(self) -> (next: Option<Self>)
        ensures
            self@ < u32::MAX ==> (next matches Some(n) && n@ == self@ + 1),
            self@ == u32::MAX ==> next is None,
    {
        if self.0 == u32::MAX {
            None
        } else {
            Some(Lane(self.0 + 1))
        }
    }

    /// Renders as `lane N`.
    pub fn to_string(&self) -> (text: String)
        ensures
            text@ == (seq![108u8, 97u8, 110u8, 101u8, 32u8] + decimal(self@ as nat)).map_values(
                |b: u8| b as char,
            ),
    {
        let mut bytes: Vec<u8> = Vec::new();
        bytes.push(108);
        bytes.push(97);
        bytes.push(110);
        bytes.push(101);
        bytes.push(32);
        push_decimal(&mut bytes, self.0 as u64);
        proof {
            lemma_decimal_ascii(self@ as nat);
            assert(bytes@ =~= seq![108u8, 97u8, 110u8, 101u8, 32u8] + decimal(self@ as nat));
        }
        ascii_string(bytes)
    }
}

impl Encode for Lane {
    open spec fn spec_encode(&self) -> Seq<u8> {
        varint_bytes(self@ as nat)
    }

    fn encode(&self, out: &mut Encoder) {
        out.write_varint(self.0 as u64);
    }
}

impl Decode for Lane {
    open spec fn decodable(&self, level: nat) -> bool {
        true
    }

    fn decode(input: &mut Decoder<'_>) -> (result: Result<Self, CodecError>)
        ensures
            match parse_varint(old(input).rest()) {
                Ok((value, n)) => if value <= u32::MAX {
                    result matches Ok(lane) && lane@ == value
                } else {
                    result == Err::<Self, CodecError>(CodecError::VarintOverflow { target: "u32" })
                },
                Err(e) => result == Err::<Self, CodecError>(e),
            },
    {
        proof {
            lemma_varint_canonical(input.rest());
            assert forall|v: Lane| #[trigger]
                v.decodable(input.level()) && begins_with(input.rest(), v) implies parse_varint(
                input.rest(),
            ) == Ok::<(nat, nat), CodecError>((v@ as nat, varint_bytes(v@ as nat).len())) by {
                lemma_begins_with_varint(input.rest(), v@ as nat);
            }
        }
        let index = input.read_varint_u32()?;
        Ok(Lane(index))
    }
}

impl SortKey for Lane {
    open spec fn sort_key(&self) -> Seq<u8> {
        be32(self@)
    }

    fn sort_bytes(&self) -> (bytes: Vec<u8>) {
        let x = self.0;
        let mut bytes: Vec<u8> = Vec::new();
        bytes.push((x / 0x100_0000) as u8);
        bytes.push(((x / 0x1_0000) % 256) as u8);
        bytes.push(((x / 0x100) % 256) as u8);
        bytes.push((x % 256) as u8);
        assert(bytes@ =~= be32(x));
        bytes
    }
}

/// A two-dimensional nonce: a lane, and a position within it.
///
/// The derived order is by lane then sequence, a total order on the type that
/// says nothing about which of two lanes came first.
#[derive(Debug, Clone, Copy, PartialEq, Eq, PartialOrd, Ord, Default)]
pub struct Nonce {
    /// Which device's lane.
    pub lane: Lane,
    /// Position within that lane. Strictly sequential, no gaps.
    pub sequence: u64,
}

impl Nonce {
    /// The first nonce of a lane.
    pub fn first(lane: Lane) -> (nonce: Self)
        ensures
            nonce.lane == lane,
            nonce.sequence == 0,
    {
        Nonce { lane, sequence: 0 }
    }

    /// Builds a nonce.
    pub fn new(lane: Lane, sequence: u64) -> (nonce: Self)
        ensures
            nonce.lane == lane,
            nonce.sequence == sequence,
    {
        Nonce { lane, sequence }
    }

    /// The next nonce in the same lane, or `None` if the lane is exhausted.
    pub fn next(self) -> (next: Option<Self>)
        ensures
            self.sequence < u64::MAX ==> next == Some(
                Nonce { lane: self.lane, sequence: (self.sequence + 1) as u64 },
            ),
            self.sequence == u64::MAX ==> next is None,
    {
        if self.sequence == u64::MAX {
            None
        } else {
            Some(Nonce { lane: self.lane, sequence: self.sequence + 1 })
        }
    }

    /// Whether `self` and `other` occupy the same slot: the nonce half of an
    /// equivocation.
    pub fn collides_with(self, other: Self) -> (collides: bool)
        ensures
            collides == (self.lane@ == other.lane@ && self.sequence == other.sequence),
    {
        self.lane.index() == other.lane.index() && self.sequence == other.sequence
    }

    /// Renders as `lane/sequence`.
    pub fn to_string(&self) -> (text: String)
        ensures
            text@ == (decimal(self.lane@ as nat) + seq![47u8] + decimal(
                self.sequence as nat,
            )).map_values(|b: u8| b as char),
    {
        let mut bytes: Vec<u8> = Vec::new();
        push_decimal(&mut bytes, self.lane.index() as u64);
        bytes.push(47);
        push_decimal(&mut bytes, self.sequence);
        proof {
            lemma_decimal_ascii(self.lane@ as nat);
            lemma_decimal_ascii(self.sequence as nat);
            assert(bytes@ =~= decimal(self.lane@ as nat) + seq![47u8] + decimal(
                self.sequence as nat,
            ));
        }
        ascii_string(bytes)
    }
}

impl Encode for Nonce {
    open spec fn spec_encode(&self) -> Seq<u8> {
        varint_bytes(self.lane@ as nat) + varint_bytes(self.sequence as nat)
    }

    fn encode(&self, out: &mut Encoder) {
        self.lane.encode(out);
        out.write_varint(self.sequence);
    }
}

impl Decode for Nonce {
    open spec fn decodable(&self, level: nat) -> bool {
        true
    }

    fn decode(input: &mut Decoder<'_>) -> (result: Result<Self, CodecError>) {
        let ghost s = input.rest();
        proof {
            lemma_varint_canonical(s);
            assert forall|v: Nonce| #[trigger]
                v.decodable(input.level()) && begins_with(s, v) implies ({
                let n1 = varint_bytes(v.lane@ as nat).len();
                &&& parse_varint(s) == Ok::<(nat, nat), CodecError>((v.lane@ as nat, n1))
                &&& parse_varint(s.skip(n1 as int)) == Ok::<(nat, nat), CodecError>(
                    (v.sequence as nat, varint_bytes(v.sequence as nat).len()),
                )
            }) by {
                let a = varint_bytes(v.lane@ as nat);
                let b = varint_bytes(v.sequence as nat);
                lemma_begins_with_pieces(s, a, b);
                lemma_begins_with_varint(s, v.lane@ as nat);
                lemma_begins_with_varint(s.skip(a.len() as int), v.sequence as nat);
            }
        }
        let lane = Lane::decode(input)?;
        let ghost middle = input.rest();
        proof {
            lemma_varint_canonical(middle);
            assert(middle =~= s.skip(varint_bytes(lane@ as nat).len() as int));
        }
        let sequence = input.read_varint()?;
        proof {
            let n1 = varint_bytes(lane@ as nat).len();
            let n2 = varint_bytes(sequence as nat).len();
            assert(middle =~= s.skip(n1 as int));
            assert(s.take((n1 + n2) as int) =~= s.take(n1 as int) + middle.take(n2 as int));
        }
        Ok(Nonce { lane, sequence })
    }
}

/// The per-account record of how far each lane has advanced.
///
/// Its lanes are kept in ascending order, because the record is hashed into
/// the state root and its order is therefore consensus.
#[derive(Debug, Clone, PartialEq, Eq)]
pub struct LaneState {
    next: SortedMap<Lane, u64>,
}

impl LaneState {
    /// The lane counters are well formed.
    pub closed spec fn wf(self) -> bool {
        self.next.wf()
    }

    /// The next expected sequence of each lane that has been used, by lane
    /// index.
    pub closed spec fn counters(self) -> Map<u32, u64> {
        Map::new(
            |lane: u32| self.next.map().contains_key(be32(lane)),
            |lane: u32| self.next.map()[be32(lane)],
        )
    }

    /// The sequence the next transaction in `lane` must carry: zero for a
    /// lane never used.
    pub open spec fn expected(self, lane: u32) -> u64 {
        if self.counters().contains_key(lane) {
            self.counters()[lane]
        } else {
            0
        }
    }

    /// An account with no lanes yet.
    pub fn new() -> (state: Self)
        ensures
            state.wf(),
            state.counters() == Map::<u32, u64>::empty(),
    {
        let state = LaneState { next: SortedMap::new() };
        assert(state.counters() =~= Map::<u32, u64>::empty());
        state
    }

    /// The sequence number the next transaction in `lane` must carry.
    pub fn next_sequence(&self, lane: Lane) -> (sequence: u64)
        requires
            self.wf(),
        ensures
            sequence == self.expected(lane@),
    {
        match self.next.get(&lane) {
            Some(sequence) => *sequence,
            None => 0,
        }
    }

    /// Whether `nonce` is the one its lane is waiting for: strictly the next,
    /// never merely a later one.
    pub fn accepts(&self, nonce: Nonce) -> (accepted: bool)
        requires
            self.wf(),
        ensures
            accepted == (nonce.sequence == self.expected(nonce.lane@)),
    {
        nonce.sequence == self.next_sequence(nonce.lane)
    }

    /// Records that `nonce` has been used, advancing its lane.
    ///
    /// Returns `false` and changes nothing if the nonce was not the expected
    /// one, or if the lane is exhausted.
    pub fn consume(&mut self, nonce: Nonce) -> (consumed: bool)
        requires
            old(self).wf(),
        ensures
            final(self).wf(),
            consumed == (nonce.sequence == old(self).expected(nonce.lane@) && nonce.sequence
                < u64::MAX),
            consumed ==> final(self).counters() == old(self).counters().insert(
                nonce.lane@,
                (nonce.sequence + 1) as u64,
            ),
            !consumed ==> final(self).counters() == old(self).counters(),
    {
        if !self.accepts(nonce) {
            return false;
        }
        if nonce.sequence == u64::MAX {
            return false;
        }
        self.set_counter(nonce.lane, nonce.sequence + 1);
        true
    }

    /// The lanes that have been used, with their next expected sequence, in
    /// ascending lane order.
    pub closed spec fn lane_list(self) -> Seq<(Lane, u64)> {
        self.next.entries()
    }

    /// The lanes that have been used, with their next expected sequence, in
    /// ascending lane order.
    pub fn lanes(&self) -> (lanes: Vec<(Lane, u64)>)
        ensures
            lanes@ == self.lane_list(),
            self.wf() ==> lanes@.len() == self.counters().dom().len(),
            self.wf() ==> forall|i: int|
                0 <= i < lanes@.len() ==> self.counters().contains_key(#[trigger] lanes@[i].0@)
                    && self.counters()[lanes@[i].0@] == lanes@[i].1,
            self.wf() ==> forall|i: int, j: int|
                0 <= i < j < lanes@.len() ==> #[trigger] lanes@[i].0@ < #[trigger] lanes@[j].0@,
    {
        let entries = self.next.as_slice();
        let mut lanes: Vec<(Lane, u64)> = Vec::new();
        let mut index: usize = 0;
        while index < entries.len()
            invariant
                entries@ == self.next.entries(),
                index <= entries@.len(),
                lanes@ == entries@.take(index as int),
            decreases entries@.len() - index,
        {
            let (lane, sequence) = entries[index];
            lanes.push((lane, sequence));
            assert(lanes@ =~= entries@.take(index + 1));
            index = index + 1;
        }
        proof {
            assert(lanes@ =~= entries@);
            if self.wf() {
                self.lemma_counters_entries();
            }
        }
        lanes
    }

    /// Sets a lane's counter directly, bypassing the strict-sequence rule.
    ///
    /// For decoding a stored account and for tests; never reachable from
    /// transaction processing, where it would let a spend be replayed.
    pub fn restore(&mut self, lane: Lane, next_sequence: u64)
        requires
            old(self).wf(),
        ensures
            final(self).wf(),
            final(self).counters() == old(self).counters().insert(lane@, next_sequence),
    {
        self.set_counter(lane, next_sequence);
    }

    fn set_counter(&mut self, lane: Lane, next_sequence: u64)
        requires
            old(self).wf(),
        ensures
            final(self).wf(),
            final(self).counters() == old(self).counters().insert(lane@, next_sequence),
    {
        let ghost before = self.next.map();
        self.next.insert(lane, next_sequence);
        proof {
            assert forall|l: u32| #![trigger be32(l)] l != lane@ implies be32(l) != be32(lane@) by {
                lemma_be32_injective(l, lane@);
            }
            assert(self.counters() =~= old(self).counters().insert(lane@, next_sequence));
        }
    }

    /// The counters are exactly the sorted entries, read as lane indices.
    proof fn lemma_counters_entries(self)
        requires
            self.wf(),
        ensures
            self.counters().dom().len() == self.next.entries().len(),
            forall|i: int|
                0 <= i < self.next.entries().len() ==> self.counters().contains_key(
                    #[trigger] self.next.entries()[i].0@,
                ) && self.counters()[self.next.entries()[i].0@] == self.next.entries()[i].1,
            forall|i: int, j: int|
                0 <= i < j < self.next.entries().len() ==> #[trigger] self.next.entries()[i].0@
                    < #[trigger] self.next.entries()[j].0@,
    {
        let entries = self.next.entries();
        assert forall|i: int|
            0 <= i < entries.len() implies self.counters().contains_key(
            #[trigger] entries[i].0@,
        ) && self.counters()[entries[i].0@] == entries[i].1 by {
            crate::sorted_map::lemma_entries_map_at(entries, i);
        }
        assert forall|i: int, j: int|
            0 <= i < j < entries.len() implies #[trigger] entries[i].0@ < #[trigger] entries[j].0@ by {
            lemma_be32_order(entries[i].0@, entries[j].0@);
        }
        let indices = entries.map_values(|e: (Lane, u64)| e.0@);
        assert(indices.no_duplicates()) by {
            assert forall|i: int, j: int|
                0 <= i < indices.len() && 0 <= j < indices.len() && i != j implies indices[i]
                != indices[j] by {
                if i < j {
                    assert(entries[i].0@ < entries[j].0@);
                } else {
                    assert(entries[j].0@ < entries[i].0@);
                }
            }
        }
        assert(self.counters().dom() =~= indices.to_set()) by {
            assert forall|l: u32| #[trigger] self.counters().dom().contains(l) implies indices.to_set().contains(l) by {
                let k = crate::sorted_map::key_index(entries, be32(l));
                lemma_be32_injective(entries[k].0@, l);
                assert(indices[k] == l);
            }
            assert forall|l: u32| #[trigger] indices.to_set().contains(l) implies self.counters().dom().contains(l) by {
                let k = choose|k: int| 0 <= k < indices.len() && indices[k] == l;
                assert(entries[k].0.sort_key() == be32(l));
            }
        }
        indices.unique_seq_to_set();
    }
}

/// What consuming a nonce does to the lanes: its own lane moves on by exactly
/// one, so the same nonce is refused from then on, and every other lane
/// waits for what it waited for before.
pub proof fn lemma_consume_advances_one_lane(before: LaneState, after: LaneState, nonce: Nonce)
    requires
        nonce.sequence == before.expected(nonce.lane@),
        nonce.sequence < u64::MAX,
        after.counters() == before.counters().insert(nonce.lane@, (nonce.sequence + 1) as u64),
    ensures
        after.expected(nonce.lane@) == nonce.sequence + 1,
        nonce.sequence != after.expected(nonce.lane@),
        forall|other: u32| other != nonce.lane@ ==> #[trigger] after.expected(other) == before.expected(other),
{
}

} // verus!
