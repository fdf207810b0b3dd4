//! The 32-byte digest, and domain-separated BLAKE3.
//!
//! Every digest in the protocol is BLAKE3 in key-derivation mode, with a
//! context string naming what is being hashed (see [`domain`]).

pub mod domain;

use vstd::prelude::*;
use vstd::string::StrSliceExecFns;

use crate::codec::{begins_with, CodecError, Decode, Decoder, Encode, Encoder};
use crate::sorted_map::SortKey;
use crate::std_conv::ascii_string;

verus! {

/// BLAKE3 in key-derivation mode: the 32-byte digest of `material` under the
/// context string `context`.
pub uninterp spec fn blake3_derive_key(context: Seq<char>, material: Seq<u8>) -> Seq<u8>;

/// Wraps `blake3::derive_key`: the 32-byte digest of `material` under the
/// context string `context`. The result is what BLAKE3 computes; nothing about
/// it is stated beyond its being that function of the two arguments.
#[verifier::external_body]
fn derive_key(context: &str, material: &[u8]) -> (digest: [u8; 32])
    ensures
        digest@ == blake3_derive_key(context@, material@),
{
    blake3::derive_key(context, material)
}

/// A 32-byte digest.
#[derive(Debug, Clone, Copy, PartialEq, Eq, PartialOrd, Ord, Default)]
pub struct Digest {
    bytes: [u8; 32],
}

impl View for Digest {
    type V = Seq<u8>;

    closed spec fn view(&self) -> Seq<u8> {
        self.bytes@
    }
}

/// Bit `index` of a digest, most significant bit of the first byte first.
pub open spec fn digest_bit(bytes: Seq<u8>, index: nat) -> bool {
    (bytes[(index / 8) as int] >> ((7 - index % 8) as u8)) & 1u8 == 1u8
}

/// The all-zero digest.
pub open spec fn zero_digest() -> Seq<u8> {
    Seq::new(32, |i: int| 0u8)
}

/// Lowercase hexadecimal digit for a value below sixteen.
pub open spec fn hex_digit(nibble: u8) -> u8 {
    if nibble < 10 {
        (48 + nibble) as u8
    } else {
        (87 + nibble) as u8
    }
}

/// Lowercase hexadecimal, two characters per byte.
pub open spec fn hex_bytes(bytes: Seq<u8>) -> Seq<u8>
    decreases bytes.len(),
{
    if bytes.len() == 0 {
        Seq::<u8>::empty()
    } else {
        hex_bytes(bytes.drop_last()) + seq![
            hex_digit(bytes.last() / 16),
            hex_digit(bytes.last() % 16),
        ]
    }
}

/// The value of a hexadecimal digit, in either case, if `c` is one.
pub open spec fn hex_value(c: char) -> Option<u8> {
    if '0' <= c && c <= '9' {
        Some((c as u32 - 48) as u8)
    } else if 'a' <= c && c <= 'f' {
        Some((c as u32 - 87) as u8)
    } else if 'A' <= c && c <= 'F' {
        Some((c as u32 - 55) as u8)
    } else {
        None
    }
}

/// The 32 bytes that `text` spells when it is exactly 64 hexadecimal
/// digits, high digit first.
pub open spec fn parse_hex(text: Seq<char>) -> Option<Seq<u8>> {
    if text.len() == 64 && forall|i: int| 0 <= i < 64 ==> #[trigger] hex_value(text[i]) is Some {
        Some(
            Seq::new(
                32,
                |i: int| (hex_value(text[2 * i])->0 * 16 + hex_value(text[2 * i + 1])->0) as u8,
            ),
        )
    } else {
        None
    }
}

/// Reads one hexadecimal digit.
fn hex_digit_value(c: char) -> (value: Option<u8>)
    ensures
        value == hex_value(c),
        value matches Some(v) ==> v < 16,
{
    if '0' <= c && c <= '9' {
        Some((c as u32 - 48) as u8)
    } else if 'a' <= c && c <= 'f' {
        Some((c as u32 - 87) as u8)
    } else if 'A' <= c && c <= 'F' {
        Some((c as u32 - 55) as u8)
    } else {
        None
    }
}

/// `H[context](material)`: domain-separated BLAKE3.
pub fn hash(context: &str, material: &[u8]) -> (digest: Digest)
    ensures
        digest@ == blake3_derive_key(context@, material@),
{
    Digest { bytes: derive_key(context, material) }
}

impl Digest {
    /// The all-zero digest: not the digest of anything, a sentinel for "no
    /// such thing".
    pub fn zero() -> (digest: Self)
        ensures
            digest@ == zero_digest(),
    {
        let digest = Digest { bytes: [0u8; 32] };
        assert(digest@ =~= zero_digest());
        digest
    }

    /// A digest has 32 bytes.
    pub proof fn lemma_len(digest: Digest)
        ensures
            digest@.len() == 32,
    {
    }

    /// A digest is its bytes: two digests with the same bytes are the same.
    pub proof fn lemma_view_injective(a: Digest, b: Digest)
        requires
            a@ == b@,
        ensures
            a == b,
    {
        assert forall|i: int| 0 <= i < 32 implies a.bytes[i] == b.bytes[i] by {
            assert(a.bytes@[i] == b.bytes@[i]);
        }
        assert(a.bytes =~= b.bytes);
    }

    /// Wraps 32 bytes.
    pub fn from_bytes(bytes: [u8; 32]) -> (digest: Self)
        ensures
            digest@ == bytes@,
    {
        Digest { bytes }
    }

    /// The 32 bytes.
    pub fn as_bytes(&self) -> (bytes: &[u8; 32])
        ensures
            bytes@ == self@,
    {
        &self.bytes
    }

    /// Whether this is the all-zero digest.
    pub fn is_zero(&self) -> (zero: bool)
        ensures
            zero == (self@ == zero_digest()),
    {
        let mut index: usize = 0;
        while index < 32
            invariant
                index <= 32,
                self@.len() == 32,
                forall|j: int| 0 <= j < index ==> self@[j] == 0,
            decreases 32 - index,
        {
            if self.bytes[index] != 0 {
                assert(self@[index as int] != zero_digest()[index as int]);
                return false;
            }
            index = index + 1;
        }
        assert(self@ =~= zero_digest());
        true
    }

    /// Whether two digests are the same bytes.
    pub fn same_as(&self, other: &Digest) -> (same: bool)
        ensures
            same == (self@ == other@),
    {
        crate::codec::eq_bytes(self.bytes.as_slice(), other.bytes.as_slice())
    }

    /// Bit `index`, most significant first; what a tree path branches on.
    pub fn bit(&self, index: usize) -> (set: bool)
        requires
            index < 256,
        ensures
            set == digest_bit(self@, index as nat),
    {
        ((self.bytes[index / 8] >> ((7 - index % 8) as u8)) & 1u8) == 1u8
    }

    /// Parses 64 hexadecimal digits, in either case.
    pub fn from_hex(text: &str) -> (digest: Option<Self>)
        ensures
            match parse_hex(text@) {
                Some(bytes) => digest matches Some(d) && d@ == bytes,
                None => digest is None,
            },
    {
        let length = text.unicode_len();
        if length != 64 {
            return None;
        }
        let mut bytes: Vec<u8> = Vec::new();
        let mut index: usize = 0;
        while index < 32
            invariant
                index <= 32,
                text@.len() == 64,
                bytes@.len() == index,
                forall|j: int| 0 <= j < 2 * index ==> #[trigger] hex_value(text@[j]) is Some,
                forall|j: int|
                    0 <= j < index ==> #[trigger] bytes@[j] == (hex_value(text@[2 * j])->0 * 16
                        + hex_value(text@[2 * j + 1])->0) as u8,
            decreases 32 - index,
        {
            let high = hex_digit_value(text.get_char(2 * index));
            let low = hex_digit_value(text.get_char(2 * index + 1));
            match (high, low) {
                (Some(h), Some(l)) => {
                    bytes.push(h * 16 + l);
                },
                _ => {
                    proof {
                        if hex_value(text@[2 * index as int]) is None {
                            assert(!(hex_value(text@[2 * index as int]) is Some));
                        } else {
                            assert(!(hex_value(text@[2 * index + 1]) is Some));
                        }
                    }
                    return None;
                },
            }
            index = index + 1;
        }
        let digest = Digest { bytes: crate::std_conv::array_from_slice::<32>(bytes.as_slice()) };
        proof {
            assert(forall|i: int| 0 <= i < 64 ==> #[trigger] hex_value(text@[i]) is Some);
            assert(digest@ =~= parse_hex(text@)->0);
        }
        Some(digest)
    }

    /// Lowercase hexadecimal, 64 characters.
    pub fn to_hex(&self) -> (text: String)
        ensures
            text@ == hex_bytes(self@).map_values(|b: u8| b as char),
    {
        let mut out: Vec<u8> = Vec::new();
        let mut index: usize = 0;
        while index < 32
            invariant
                index <= 32,
                self@.len() == 32,
                out@ == hex_bytes(self@.take(index as int)),
                forall|j: int| 0 <= j < out@.len() ==> out@[j] < 128,
            decreases 32 - index,
        {
            let byte = self.bytes[index];
            let high = byte / 16;
            let low = byte % 16;
            out.push(if high < 10 { 48 + high } else { 87 + high });
            out.push(if low < 10 { 48 + low } else { 87 + low });
            assert(self@.take(index + 1).drop_last() =~= self@.take(index as int));
            index = index + 1;
        }
        assert(self@.take(32) =~= self@);
        ascii_string(out)
    }
}

impl Encode for Digest {
    open spec fn spec_encode(&self) -> Seq<u8> {
        self@
    }

    fn encode(&self, out: &mut Encoder) {
        let bytes = self.bytes.as_slice();
        assert(bytes@ == self.spec_encode());
        out.write_raw(bytes);
    }
}

impl Decode for Digest {
    open spec fn decodable(&self, level: nat) -> bool {
        true
    }

    fn decode(input: &mut Decoder<'_>) -> (result: Result<Self, CodecError>)
        ensures
            old(input).rest().len() >= 32 ==> (result matches Ok(digest) && digest@ == old(
                input,
            ).rest().take(32)),
            old(input).rest().len() < 32 ==> result == Err::<Self, CodecError>(
                CodecError::UnexpectedEnd { wanted: "fixed-width array" },
            ),
    {
        proof {
            assert forall|v: Digest| #[trigger]
                v.decodable(input.level()) && begins_with(input.rest(), v) implies input.rest().len()
                >= 32 && input.rest().take(32) == v@ by {
                Digest::lemma_len(v);
            }
        }
        let bytes = input.read_array::<32>()?;
        Ok(Digest { bytes })
    }
}

impl SortKey for Digest {
    open spec fn sort_key(&self) -> Seq<u8> {
        self@
    }

    fn sort_bytes(&self) -> (bytes: Vec<u8>) {
        let slice = self.bytes.as_slice();
        assert(slice@ == self.sort_key());
        vstd::slice::slice_to_vec(slice)
    }
}

/// Lowercase hexadecimal of `bytes`, as characters: how identifiers are
/// displayed.
pub open spec fn hex_chars(bytes: Seq<u8>) -> Seq<char> {
    hex_bytes(bytes).map_values(|b: u8| b as char)
}

} // verus!
