//! The canonical encoding.
//!
//! Bijectivity is the property this module exists to provide: every value has
//! exactly one encoding, and every accepted byte string is exactly the
//! encoding of what it decoded to. A decoder here never normalises; it accepts
//! the one encoding or it errors.

use vstd::prelude::*;
use vstd::string::StringExecFns;
use vstd::string::StringSliceAdditionalSpecFns;
use vstd::utf8::encode_utf8;
use vstd::utf8::valid_utf8;

use crate::digits::{decimal_string, decimal_text, hex_string, hex_text};
use crate::std_conv::{array_from_slice, str_from_utf8};

verus! {

/// Largest single top-level object this codec will decode.
pub const MAX_OBJECT_SIZE: usize = 1_048_576;

/// Largest element count in any sequence, set or map.
pub const MAX_SEQ_LEN: usize = 65_536;

/// Largest length-prefixed byte string or UTF-8 string.
pub const MAX_BYTES_LEN: usize = 1_048_576;

/// Deepest nesting of composite types.
pub const MAX_NESTING: usize = 32;

/// Widest legal `varint`, the width of `u64::MAX`.
pub const MAX_VARINT_BYTES: usize = 10;

/// Anything that can go wrong while decoding.
#[derive(Debug, Clone, PartialEq, Eq)]
pub enum CodecError {
    /// The input ended in the middle of a value.
    UnexpectedEnd {
        /// What was being read.
        wanted: &'static str,
    },
    /// Bytes remained after a complete top-level object was decoded.
    TrailingBytes(usize),
    /// A `varint` was encoded with more bytes than necessary.
    NonCanonicalVarint,
    /// A `varint` was wider than ten bytes.
    VarintTooWide,
    /// A `varint` decoded to a value too large for its declared field.
    VarintOverflow {
        /// The narrower type it had to fit.
        target: &'static str,
    },
    /// A `bool` was a byte other than `0x00` or `0x01`.
    NonCanonicalBool(u8),
    /// An `Option` tag was a byte other than `0x00` or `0x01`.
    BadOptionTag(u8),
    /// A declared length exceeded the limit for its kind.
    LimitExceeded {
        /// Which limit.
        limit: &'static str,
        /// The limit's value.
        max: usize,
        /// What was declared.
        got: usize,
    },
    /// A declared length exceeded the bytes actually remaining.
    LengthBeyondInput {
        /// What was declared.
        declared: usize,
        /// What remained.
        remaining: usize,
    },
    /// A `string` was not valid UTF-8.
    InvalidUtf8,
    /// Elements of a set or map were not in strictly ascending order.
    UnorderedSet {
        /// Index of the offending element.
        index: usize,
    },
    /// Composite nesting exceeded [`MAX_NESTING`].
    TooDeep,
    /// An enum discriminant is not one this version defines.
    UnknownVariant {
        /// The enum's name, for the message.
        enum_name: &'static str,
        /// The discriminant read.
        discriminant: u64,
    },
    /// A field held a structurally valid value that the schema forbids.
    Invalid {
        /// What was wrong, in words.
        reason: &'static str,
    },
}

/// How a codec error reads.
pub open spec fn codec_error_text(error: CodecError) -> Seq<char> {
    match error {
        CodecError::UnexpectedEnd { wanted } => "input ended while reading "@ + wanted@,
        CodecError::TrailingBytes(count) => decimal_text(count as nat)
            + " trailing bytes after a complete object"@,
        CodecError::NonCanonicalVarint => "varint is not in shortest form"@,
        CodecError::VarintTooWide => "varint wider than "@ + decimal_text(MAX_VARINT_BYTES as nat)
            + " bytes"@,
        CodecError::VarintOverflow { target } => "varint does not fit in "@ + target@,
        CodecError::NonCanonicalBool(byte) => "bool must be 0x00 or 0x01, got 0x"@ + hex_text(byte),
        CodecError::BadOptionTag(byte) => "option tag must be 0x00 or 0x01, got 0x"@ + hex_text(
            byte,
        ),
        CodecError::LimitExceeded { limit, max, got } => limit@ + " is at most "@ + decimal_text(
            max as nat,
        ) + ", got "@ + decimal_text(got as nat),
        CodecError::LengthBeyondInput { declared, remaining } => "declared length "@
            + decimal_text(declared as nat) + " exceeds "@ + decimal_text(remaining as nat)
            + " bytes remaining"@,
        CodecError::InvalidUtf8 => "string is not valid UTF-8"@,
        CodecError::UnorderedSet { index } => "set element "@ + decimal_text(index as nat)
            + " is not greater than its predecessor"@,
        CodecError::TooDeep => "nesting deeper than "@ + decimal_text(MAX_NESTING as nat),
        CodecError::UnknownVariant { enum_name, discriminant } => "unknown "@ + enum_name@
            + " discriminant "@ + decimal_text(discriminant as nat),
        CodecError::Invalid { reason } => "invalid: "@ + reason@,
    }
}

impl CodecError {
    /// The error as it is displayed.
    pub fn to_string(&self) -> (text: String)
        ensures
            text@ == codec_error_text(*self),
    {
        match self {
            CodecError::UnexpectedEnd { wanted } => {
                let mut text = String::from_str("input ended while reading ");
                text.append(wanted);
                text
            },
            CodecError::TrailingBytes(count) => {
                let mut text = decimal_string(*count as u64);
                text.append(" trailing bytes after a complete object");
                text
            },
            CodecError::NonCanonicalVarint => String::from_str("varint is not in shortest form"),
            CodecError::VarintTooWide => {
                let mut text = String::from_str("varint wider than ");
                text.append(decimal_string(MAX_VARINT_BYTES as u64).as_str());
                text.append(" bytes");
                text
            },
            CodecError::VarintOverflow { target } => {
                let mut text = String::from_str("varint does not fit in ");
                text.append(target);
                text
            },
            CodecError::NonCanonicalBool(byte) => {
                let mut text = String::from_str("bool must be 0x00 or 0x01, got 0x");
                text.append(hex_string(*byte).as_str());
                text
            },
            CodecError::BadOptionTag(byte) => {
                let mut text = String::from_str("option tag must be 0x00 or 0x01, got 0x");
                text.append(hex_string(*byte).as_str());
                text
            },
            CodecError::LimitExceeded { limit, max, got } => {
                let mut text = String::from_str(limit);
                text.append(" is at most ");
                text.append(decimal_string(*max as u64).as_str());
                text.append(", got ");
                text.append(decimal_string(*got as u64).as_str());
                text
            },
            CodecError::LengthBeyondInput { declared, remaining } => {
                let mut text = String::from_str("declared length ");
                text.append(decimal_string(*declared as u64).as_str());
                text.append(" exceeds ");
                text.append(decimal_string(*remaining as u64).as_str());
                text.append(" bytes remaining");
                text
            },
            CodecError::InvalidUtf8 => String::from_str("string is not valid UTF-8"),
            CodecError::UnorderedSet { index } => {
                let mut text = String::from_str("set element ");
                text.append(decimal_string(*index as u64).as_str());
                text.append(" is not greater than its predecessor");
                text
            },
            CodecError::TooDeep => {
                let mut text = String::from_str("nesting deeper than ");
                text.append(decimal_string(MAX_NESTING as u64).as_str());
                text
            },
            CodecError::UnknownVariant { enum_name, discriminant } => {
                let mut text = String::from_str("unknown ");
                text.append(enum_name);
                text.append(" discriminant ");
                text.append(decimal_string(*discriminant).as_str());
                text
            },
            CodecError::Invalid { reason } => {
                let mut text = String::from_str("invalid: ");
                text.append(reason);
                text
            },
        }
    }
}

// --- The mathematical model of the encoding ------------------------------

/// The shortest-form unsigned LEB128 encoding of `v`.
pub open spec fn varint_bytes(v: nat) -> Seq<u8>
    decreases v,
{
    if v < 128 {
        seq![v as u8]
    } else {
        seq![(v % 128 + 128) as u8] + varint_bytes(v / 128)
    }
}

/// Decoding a `varint` from byte `i` of `s` onwards, having already read `i`
/// continuation bytes: the value of the remaining groups and the index one
/// past the last byte read, or the error the decoder reports.
pub open spec fn varint_from(s: Seq<u8>, i: nat) -> Result<(nat, nat), CodecError>
    decreases 10 - i,
{
    if i >= s.len() {
        Err(CodecError::UnexpectedEnd { wanted: "u8" })
    } else {
        let b = s[i as int];
        let payload = (b % 128) as nat;
        if i >= 9 && payload > 1 {
            Err(CodecError::VarintOverflow { target: "u64" })
        } else if b < 128 {
            if i > 0 && b == 0 {
                Err(CodecError::NonCanonicalVarint)
            } else {
                Ok((payload, i + 1))
            }
        } else if i >= 9 {
            Err(CodecError::VarintTooWide)
        } else {
            match varint_from(s, i + 1) {
                Ok((rest, end)) => Ok((payload + 128 * rest, end)),
                Err(e) => Err(e),
            }
        }
    }
}

/// Decoding a `varint` at the start of `s`: the value and the bytes it took.
pub open spec fn parse_varint(s: Seq<u8>) -> Result<(nat, nat), CodecError> {
    varint_from(s, 0)
}

/// A length prefix followed by the bytes it counts.
pub open spec fn prefixed(bytes: Seq<u8>) -> Seq<u8> {
    varint_bytes(bytes.len()) + bytes
}

/// Strict lexicographic order on byte strings, the order sets are kept in.
pub open spec fn bytes_lt(a: Seq<u8>, b: Seq<u8>) -> bool
    decreases a.len(),
{
    if a.len() == 0 {
        b.len() > 0
    } else if b.len() == 0 {
        false
    } else if a[0] != b[0] {
        a[0] < b[0]
    } else {
        bytes_lt(a.drop_first(), b.drop_first())
    }
}

/// The encodings of a sequence of values, one after the other.
pub open spec fn concat_encodings<T: Encode>(items: Seq<T>) -> Seq<u8>
    decreases items.len(),
{
    if items.len() == 0 {
        Seq::<u8>::empty()
    } else {
        concat_encodings(items.drop_last()) + items.last().spec_encode()
    }
}

/// Whether the encodings of `items` are in strictly ascending byte order.
pub open spec fn encodings_ascending<T: Encode>(items: Seq<T>) -> bool {
    forall|i: int|
        #![trigger items[i]]
        0 < i < items.len() ==> bytes_lt(items[i - 1].spec_encode(), items[i].spec_encode())
}

/// The index of the first element whose encoding does not exceed its
/// predecessor's, if any.
pub open spec fn first_unordered<T: Encode>(items: Seq<T>) -> Option<nat>
    decreases items.len(),
{
    if items.len() < 2 {
        None
    } else {
        match first_unordered(items.drop_last()) {
            Some(i) => Some(i),
            None => if bytes_lt(
                items[items.len() - 2].spec_encode(),
                items[items.len() - 1].spec_encode(),
            ) {
                None
            } else {
                Some((items.len() - 1) as nat)
            },
        }
    }
}

// --- Laws ----------------------------------------------------------------

/// A `varint` encoding is one to ten bytes, the last one without the
/// continuation bit and every other one with it.
pub proof fn lemma_varint_bytes_shape(v: nat)
    ensures
        1 <= varint_bytes(v).len(),
        varint_bytes(v).last() < 128,
        forall|j: int| 0 <= j < varint_bytes(v).len() - 1 ==> varint_bytes(v)[j] >= 128,
    decreases v,
{
    if v >= 128 {
        lemma_varint_bytes_shape(v / 128);
        let tail = varint_bytes(v / 128);
        assert(varint_bytes(v) == seq![(v % 128 + 128) as u8] + tail);
        assert forall|j: int| 0 <= j < varint_bytes(v).len() - 1 implies varint_bytes(v)[j]
            >= 128 by {
            if j > 0 {
                assert(varint_bytes(v)[j] == tail[j - 1]);
            }
        }
    }
}

/// The largest value, plus one, that the groups from index `i` onwards of a
/// `varint` may still carry without overflowing a `u64`.
pub open spec fn varint_cap(i: nat) -> nat {
    if i == 0 {
        0x1_0000_0000_0000_0000
    } else if i == 1 {
        0x200_0000_0000_0000
    } else if i == 2 {
        0x4_0000_0000_0000
    } else if i == 3 {
        0x800_0000_0000
    } else if i == 4 {
        0x10_0000_0000
    } else if i == 5 {
        0x2000_0000
    } else if i == 6 {
        0x40_0000
    } else if i == 7 {
        0x8000
    } else if i == 8 {
        0x100
    } else {
        2
    }
}

proof fn lemma_varint_from_round_trip(v: nat, i: nat, s: Seq<u8>)
    requires
        i <= 9,
        v < varint_cap(i),
        s.len() >= i + varint_bytes(v).len(),
        s.subrange(i as int, (i + varint_bytes(v).len()) as int) == varint_bytes(v),
        i > 0 ==> v > 0,
    ensures
        varint_from(s, i) == Ok::<(nat, nat), CodecError>((v, i + varint_bytes(v).len())),
    decreases v,
{
    let bytes = varint_bytes(v);
    assert(s[i as int] == bytes[0]) by {
        assert(s.subrange(i as int, (i + bytes.len()) as int)[0] == s[i as int]);
    }
    if v >= 128 {
        let tail = varint_bytes(v / 128);
        assert(bytes == seq![(v % 128 + 128) as u8] + tail);
        assert(s.subrange((i + 1) as int, (i + 1 + tail.len()) as int) =~= tail) by {
            assert forall|j: int| 0 <= j < tail.len() implies s.subrange(
                (i + 1) as int,
                (i + 1 + tail.len()) as int,
            )[j] == tail[j] by {
                assert(s.subrange(i as int, (i + bytes.len()) as int)[j + 1] == bytes[j + 1]);
            }
        }
        lemma_varint_from_round_trip(v / 128, i + 1, s);
    }
}

/// Encoding then decoding a `varint` gives back the value, whatever follows
/// it, and consumes exactly its encoding.
pub proof fn lemma_varint_round_trip(v: u64, rest: Seq<u8>)
    ensures
        parse_varint(varint_bytes(v as nat) + rest) == Ok::<(nat, nat), CodecError>(
            (v as nat, varint_bytes(v as nat).len()),
        ),
{
    let bytes = varint_bytes(v as nat);
    let s = bytes + rest;
    assert(s.subrange(0, bytes.len() as int) =~= bytes);
    lemma_varint_from_round_trip(v as nat, 0, s);
}

proof fn lemma_varint_from_canonical(s: Seq<u8>, i: nat)
    requires
        i <= 9,
    ensures
        varint_from(s, i) matches Ok((v, n)) ==> {
            &&& v < varint_cap(i)
            &&& i < n <= s.len()
            &&& s.subrange(i as int, n as int) == varint_bytes(v)
            &&& i > 0 ==> v > 0
        },
    decreases 10 - i,
{
    if let Ok((v, n)) = varint_from(s, i) {
        let b = s[i as int];
        let payload = (b % 128) as nat;
        if b < 128 {
            assert(s.subrange(i as int, n as int) =~= varint_bytes(v));
        } else {
            lemma_varint_from_canonical(s, i + 1);
            let (rest, end) = varint_from(s, i + 1)->Ok_0;
            assert(v == payload + 128 * rest);
            assert(v % 128 == payload && v / 128 == rest);
            assert(varint_bytes(v) == seq![(v % 128 + 128) as u8] + varint_bytes(rest));
            assert(s.subrange(i as int, n as int) =~= seq![b] + s.subrange((i + 1) as int, n as int));
        }
    }
}

/// Whatever a `varint` decodes from is its canonical encoding: the bytes
/// consumed are exactly the shortest form of the value, and the value fits in
/// a `u64`.
pub proof fn lemma_varint_canonical(s: Seq<u8>)
    ensures
        parse_varint(s) matches Ok((v, n)) ==> {
            &&& v < 0x1_0000_0000_0000_0000
            &&& 0 < n <= s.len()
            &&& s.take(n as int) == varint_bytes(v)
        },
{
    lemma_varint_from_canonical(s, 0);
    if let Ok((v, n)) = parse_varint(s) {
        assert(s.take(n as int) =~= s.subrange(0, n as int));
    }
}

// --- Encoding ------------------------------------------------------------

/// A type with a canonical encoding.
pub trait Encode {
    /// The canonical encoding of this value.
    spec fn spec_encode(&self) -> Seq<u8>;

    /// Appends this value's canonical encoding to `out`.
    fn encode(&self, out: &mut Encoder)
        ensures
            final(out)@ == old(out)@ + self.spec_encode(),
    ;

    /// This value's canonical encoding, standalone.
    fn to_canonical_bytes(&self) -> (bytes: Vec<u8>)
        ensures
            bytes@ == self.spec_encode(),
    {
        let mut encoder = Encoder::new();
        self.encode(&mut encoder);
        encoder.finish()
    }
}

/// Accumulates canonical bytes.
#[derive(Debug, Clone)]
pub struct Encoder {
    buf: Vec<u8>,
}

impl View for Encoder {
    type V = Seq<u8>;

    closed spec fn view(&self) -> Seq<u8> {
        self.buf@
    }
}

impl Encoder {
    /// A new, empty encoder.
    pub fn new() -> (encoder: Self)
        ensures
            encoder@ == Seq::<u8>::empty(),
    {
        Encoder { buf: Vec::new() }
    }

    /// A new encoder with room reserved.
    pub fn with_capacity(capacity: usize) -> (encoder: Self)
        ensures
            encoder@ == Seq::<u8>::empty(),
    {
        Encoder { buf: Vec::with_capacity(capacity) }
    }

    /// The bytes written so far.
    pub fn as_slice(&self) -> (bytes: &[u8])
        ensures
            bytes@ == self@,
    {
        self.buf.as_slice()
    }

    /// Consumes the encoder, returning its bytes.
    pub fn finish(self) -> (bytes: Vec<u8>)
        ensures
            bytes@ == self@,
    {
        self.buf
    }

    /// Writes one raw byte.
    pub fn write_u8(&mut self, value: u8)
        ensures
            final(self)@ == old(self)@.push(value),
    {
        self.buf.push(value);
    }

    /// Writes a `u16` little-endian, fixed width.
    pub fn write_u16(&mut self, value: u16)
        ensures
            final(self)@ == old(self)@ + seq![(value % 256) as u8, (value / 256) as u8],
    {
        self.buf.push((value % 256) as u8);
        self.buf.push((value / 256) as u8);
        assert(self@ =~= old(self)@ + seq![(value % 256) as u8, (value / 256) as u8]);
    }

    /// Writes a `bool` as `0x00` or `0x01`.
    pub fn write_bool(&mut self, value: bool)
        ensures
            final(self)@ == old(self)@.push(if value { 1u8 } else { 0u8 }),
    {
        self.buf.push(if value { 1u8 } else { 0u8 });
    }

    /// Writes an unsigned LEB128 `varint` in shortest form.
    pub fn write_varint(&mut self, value: u64)
        ensures
            final(self)@ == old(self)@ + varint_bytes(value as nat),
    {
        let mut rest = value;
        while rest >= 128
            invariant
                self@ + varint_bytes(rest as nat) == old(self)@ + varint_bytes(value as nat),
            decreases rest,
        {
            let ghost before = self@;
            self.buf.push((rest % 128) as u8 + 128);
            assert(varint_bytes(rest as nat) == seq![((rest % 128) as u8 + 128) as u8]
                + varint_bytes((rest / 128) as nat));
            assert(self@ + varint_bytes((rest / 128) as nat) =~= before + varint_bytes(
                rest as nat,
            ));
            rest = rest / 128;
        }
        self.buf.push(rest as u8);
        assert(self@ =~= old(self)@ + varint_bytes(value as nat));
    }

    /// Writes a length prefix, saturating rather than wrapping.
    pub fn write_len(&mut self, length: usize)
        ensures
            final(self)@ == old(self)@ + varint_bytes(length as nat),
    {
        self.write_varint(length as u64);
    }

    /// Writes raw bytes with no length prefix. For fixed-width fields.
    pub fn write_raw(&mut self, bytes: &[u8])
        ensures
            final(self)@ == old(self)@ + bytes@,
    {
        self.buf.extend_from_slice(bytes);
    }

    /// Writes a length-prefixed byte string.
    pub fn write_bytes(&mut self, bytes: &[u8])
        ensures
            final(self)@ == old(self)@ + prefixed(bytes@),
    {
        self.write_len(bytes.len());
        self.buf.extend_from_slice(bytes);
        assert(self@ =~= old(self)@ + prefixed(bytes@));
    }

    /// Writes a length-prefixed UTF-8 string.
    pub fn write_str(&mut self, text: &str)
        ensures
            final(self)@ == old(self)@ + prefixed(encode_utf8(text@)),
    {
        self.write_bytes(text.as_bytes());
    }

    /// Writes an optional value: `0x00`, or `0x01` and the value.
    pub fn write_option<T: Encode>(&mut self, value: Option<&T>)
        ensures
            final(self)@ == old(self)@ + match value {
                None => seq![0u8],
                Some(inner) => seq![1u8] + inner.spec_encode(),
            },
    {
        match value {
            None => {
                self.write_u8(0);
            },
            Some(inner) => {
                self.write_u8(1);
                inner.encode(self);
                assert(self@ =~= old(self)@ + (seq![1u8] + inner.spec_encode()));
            },
        }
    }

    /// Writes a sequence: count, then elements in order.
    pub fn write_seq<T: Encode>(&mut self, items: &[T])
        ensures
            final(self)@ == old(self)@ + varint_bytes(items@.len()) + concat_encodings(items@),
    {
        self.write_len(items.len());
        let ghost start = self@;
        let mut index: usize = 0;
        while index < items.len()
            invariant
                index <= items@.len(),
                self@ == start + concat_encodings(items@.take(index as int)),
            decreases items@.len() - index,
        {
            items[index].encode(self);
            assert(items@.take(index + 1).drop_last() =~= items@.take(index as int));
            index = index + 1;
        }
        assert(items@.take(items@.len() as int) =~= items@);
    }

    /// Writes a set: count, then elements in strictly ascending encoded order.
    ///
    /// Returns an error rather than silently sorting.
    pub fn write_set<T: Encode>(&mut self, items: &[T]) -> (result: Result<(), CodecError>)
        ensures
            match first_unordered(items@) {
                Some(index) => result == Err::<(), CodecError>(
                    CodecError::UnorderedSet { index: index as usize },
                ) && final(self)@ == old(self)@,
                None => result is Ok && final(self)@ == old(self)@ + varint_bytes(items@.len())
                    + concat_encodings(items@),
            },
    {
        let mut previous: Option<Vec<u8>> = None;
        let mut index: usize = 0;
        while index < items.len()
            invariant
                index <= items@.len(),
                first_unordered(items@.take(index as int)) is None,
                index == 0 <==> previous is None,
                previous matches Some(p) ==> p@ == items@[index - 1].spec_encode(),
            decreases items@.len() - index,
        {
            let encoded = items[index].to_canonical_bytes();
            assert(items@.take(index + 1).drop_last() =~= items@.take(index as int));
            match previous {
                Some(last) => {
                    if !lt_bytes(last.as_slice(), encoded.as_slice()) {
                        proof {
                            lemma_first_unordered_prefix(items@, (index + 1) as nat);
                        }
                        return Err(CodecError::UnorderedSet { index });
                    }
                },
                None => {},
            }
            previous = Some(encoded);
            index = index + 1;
        }
        assert(items@.take(items@.len() as int) =~= items@);
        self.write_seq(items);
        Ok(())
    }
}

// --- Decoding ------------------------------------------------------------

/// Reading a length of kind `limit` at the start of `s`: the declared length
/// and the bytes its prefix took, checked against `max` and against what
/// remains after the prefix.
pub open spec fn parse_length(s: Seq<u8>, limit: &'static str, max: usize) -> Result<
    (nat, nat),
    CodecError,
> {
    match parse_varint(s) {
        Err(e) => Err(e),
        Ok((declared, n)) => if declared > usize::MAX {
            Err(CodecError::VarintOverflow { target: "usize" })
        } else if declared > max {
            Err(CodecError::LimitExceeded { limit, max, got: declared as usize })
        } else if declared + n > s.len() {
            Err(
                CodecError::LengthBeyondInput {
                    declared: declared as usize,
                    remaining: (s.len() - n) as usize,
                },
            )
        } else {
            Ok((declared, n))
        },
    }
}

/// Whether `s` begins with the canonical encoding of `value`.
pub open spec fn begins_with<T: Encode>(s: Seq<u8>, value: T) -> bool {
    value.spec_encode().len() <= s.len() && s.take(value.spec_encode().len() as int)
        == value.spec_encode()
}

/// Whether `s` begins with the count of `items` and then their encodings,
/// each decodable one level below `level`, within the limits a sequence
/// decoder enforces; with `ordered`, in strictly ascending encoded order.
pub open spec fn begins_with_elements<T: Decode>(
    s: Seq<u8>,
    items: Seq<T>,
    level: nat,
    ordered: bool,
) -> bool {
    let encoded = varint_bytes(items.len()) + concat_encodings(items);
    &&& items.len() <= MAX_SEQ_LEN
    &&& items.len() > 0 ==> level < MAX_NESTING
    &&& forall|i: int| 0 <= i < items.len() ==> #[trigger] items[i].decodable(level + 1)
    &&& ordered ==> encodings_ascending(items)
    &&& varint_bytes(items.len()).len() + items.len() <= s.len()
    &&& encoded.len() <= s.len()
    &&& s.take(encoded.len() as int) == encoded
}

/// The encodings of `a + b` are those of `a` followed by those of `b`.
pub proof fn lemma_concat_encodings_append<T: Encode>(a: Seq<T>, b: Seq<T>)
    ensures
        concat_encodings(a + b) == concat_encodings(a) + concat_encodings(b),
    decreases b.len(),
{
    if b.len() == 0 {
        assert(a + b =~= a);
        assert(concat_encodings(a) + concat_encodings(b) =~= concat_encodings(a));
    } else {
        lemma_concat_encodings_append(a, b.drop_last());
        assert((a + b).drop_last() =~= a + b.drop_last());
        assert((a + b).last() == b.last());
        assert(concat_encodings(a) + concat_encodings(b.drop_last()) + b.last().spec_encode()
            =~= concat_encodings(a) + (concat_encodings(b.drop_last()) + b.last().spec_encode()));
    }
}

/// Elements with the same encodings, one by one, have the same encodings
/// together.
pub proof fn lemma_concat_encodings_same<T: Encode>(a: Seq<T>, b: Seq<T>)
    requires
        a.len() == b.len(),
        forall|i: int| 0 <= i < a.len() ==> #[trigger] a[i].spec_encode() == b[i].spec_encode(),
    ensures
        concat_encodings(a) == concat_encodings(b),
    decreases a.len(),
{
    if a.len() > 0 {
        let n = a.len() - 1;
        assert(a[n].spec_encode() == b[n].spec_encode());
        assert forall|i: int| 0 <= i < a.drop_last().len() implies #[trigger] a.drop_last()[i].spec_encode()
            == b.drop_last()[i].spec_encode() by {
            assert(a[i].spec_encode() == b[i].spec_encode());
        }
        lemma_concat_encodings_same(a.drop_last(), b.drop_last());
    }
}

/// Where the count and the encodings of `items` begin `s`, what follows the
/// count and the first `i` encodings begins with the encoding of item `i`.
pub proof fn lemma_element_begins<T: Encode>(s: Seq<u8>, items: Seq<T>, i: int)
    requires
        0 <= i < items.len(),
        (varint_bytes(items.len()) + concat_encodings(items)).len() <= s.len(),
        s.take((varint_bytes(items.len()) + concat_encodings(items)).len() as int) == varint_bytes(
            items.len(),
        ) + concat_encodings(items),
    ensures
        begins_with(
            s.skip((varint_bytes(items.len()).len() + concat_encodings(items.take(i)).len()) as int),
            items[i],
        ),
{
    let head = varint_bytes(items.len());
    let before = concat_encodings(items.take(i));
    let after = concat_encodings(items.skip(i + 1));
    let item = items[i].spec_encode();
    assert(items =~= items.take(i + 1) + items.skip(i + 1));
    lemma_concat_encodings_append(items.take(i + 1), items.skip(i + 1));
    assert(items.take(i + 1).drop_last() =~= items.take(i));
    assert(concat_encodings(items.take(i + 1)) == before + item);
    assert(head + concat_encodings(items) =~= (head + before) + (item + after));
    lemma_begins_with_pieces(s, head + before, item + after);
    lemma_begins_with_pieces(s.skip((head + before).len() as int), item, after);
}

/// Where a count and then the encodings of `prefix` begin `s`, what follows
/// the count and the first `i` encodings begins with the encoding of element
/// `i`.
proof fn lemma_counted_element_begins<T: Encode>(s: Seq<u8>, count: nat, prefix: Seq<T>, i: int)
    requires
        0 <= i < prefix.len(),
        (varint_bytes(count) + concat_encodings(prefix)).len() <= s.len(),
        s.take((varint_bytes(count) + concat_encodings(prefix)).len() as int) == varint_bytes(count)
            + concat_encodings(prefix),
    ensures
        begins_with(
            s.skip((varint_bytes(count).len() + concat_encodings(prefix.take(i)).len()) as int),
            prefix[i],
        ),
{
    let head = varint_bytes(count);
    let before = concat_encodings(prefix.take(i));
    let after = concat_encodings(prefix.skip(i + 1));
    let item = prefix[i].spec_encode();
    assert(prefix =~= prefix.take(i + 1) + prefix.skip(i + 1));
    lemma_concat_encodings_append(prefix.take(i + 1), prefix.skip(i + 1));
    assert(prefix.take(i + 1).drop_last() =~= prefix.take(i));
    assert(concat_encodings(prefix.take(i + 1)) == before + item);
    assert(head + concat_encodings(prefix) =~= (head + before) + (item + after));
    lemma_begins_with_pieces(s, head + before, item + after);
    lemma_begins_with_pieces(s.skip((head + before).len() as int), item, after);
}

/// Whether `s` begins with a set's count `count` and then the encodings of
/// `prefix`, each decodable one level below `level` and within the limits a
/// set decoder enforces, where the elements are in strictly ascending encoded
/// order except the last, which does not come after the one before it: the
/// set goes out of order first at element `prefix.len() - 1`.
pub open spec fn begins_with_unordered_set<T: Decode>(
    s: Seq<u8>,
    count: nat,
    prefix: Seq<T>,
    level: nat,
) -> bool {
    let encoded = varint_bytes(count) + concat_encodings(prefix);
    &&& 2 <= prefix.len() <= count <= MAX_SEQ_LEN
    &&& level < MAX_NESTING
    &&& forall|i: int| 0 <= i < prefix.len() ==> #[trigger] prefix[i].decodable(level + 1)
    &&& encodings_ascending(prefix.drop_last())
    &&& !bytes_lt(prefix[prefix.len() - 2].spec_encode(), prefix.last().spec_encode())
    &&& varint_bytes(count).len() + count <= s.len()
    &&& encoded.len() <= s.len()
    &&& s.take(encoded.len() as int) == encoded
}

/// A type that can be decoded from its canonical encoding.
///
/// Whatever a decoder accepts is exactly the canonical encoding of the value
/// it returns: it never normalises. And it accepts the encoding of every
/// value the type admits, so encoding and decoding are each other's inverse.
pub trait Decode: Encode + Sized {
    /// Whether decoding, at nesting `level`, can give back this value: the
    /// conditions the type places on its values and the limits the decoder
    /// enforces.
    spec fn decodable(&self, level: nat) -> bool;

    /// Reads one value from `input`, leaving the cursor after it.
    fn decode(input: &mut Decoder<'_>) -> (result: Result<Self, CodecError>)
        requires
            old(input).wf(),
        ensures
            final(input).wf(),
            final(input).data() == old(input).data(),
            final(input).level() == old(input).level(),
            result matches Ok(value) ==> old(input).rest().len() >= value.spec_encode().len()
                && old(input).rest().take(value.spec_encode().len() as int) == value.spec_encode()
                && final(input).pos() == old(input).pos() + value.spec_encode().len(),
            forall|value: Self|
                #[trigger] value.decodable(old(input).level()) && begins_with(
                    old(input).rest(),
                    value,
                ) ==> (result matches Ok(decoded) && decoded.spec_encode() == value.spec_encode()),
    ;

    /// Decodes a complete object, requiring that `bytes` is consumed entirely.
    fn from_canonical_bytes(bytes: &[u8]) -> (result: Result<Self, CodecError>)
        ensures
            bytes@.len() > MAX_OBJECT_SIZE ==> result == Err::<Self, CodecError>(
                CodecError::LimitExceeded {
                    limit: "object size",
                    max: MAX_OBJECT_SIZE,
                    got: bytes@.len() as usize,
                },
            ),
            result matches Ok(value) ==> value.spec_encode() == bytes@,
            bytes@.len() <= MAX_OBJECT_SIZE && (exists|value: Self|
                #[trigger] value.decodable(0) && value.spec_encode() == bytes@) ==> result is Ok,
    {
        let mut decoder = Decoder::new(bytes)?;
        let ghost target = choose|value: Self| #[trigger]
            value.decodable(0) && value.spec_encode() == bytes@;
        proof {
            assert(decoder.rest() =~= bytes@);
            if target.decodable(0) && target.spec_encode() == bytes@ {
                assert(bytes@.take(bytes@.len() as int) =~= bytes@);
                assert(begins_with(decoder.rest(), target));
            }
        }
        let value = Self::decode(&mut decoder)?;
        decoder.finish()?;
        proof {
            assert(decoder.rest().len() == 0);
            assert(bytes@.skip(0) =~= bytes@);
            assert(bytes@.take(value.spec_encode().len() as int) =~= bytes@);
        }
        Ok(value)
    }
}

/// Reads canonical bytes.
#[derive(Debug, Clone)]
pub struct Decoder<'a> {
    input: &'a [u8],
    position: usize,
    depth: usize,
}

impl<'a> Decoder<'a> {
    /// The whole input.
    pub closed spec fn data(self) -> Seq<u8> {
        self.input@
    }

    /// How many bytes have been consumed.
    pub closed spec fn pos(self) -> nat {
        self.position as nat
    }

    /// How deep inside composite values the cursor is.
    pub closed spec fn level(self) -> nat {
        self.depth as nat
    }

    /// The cursor lies within the input.
    pub open spec fn wf(self) -> bool {
        self.pos() <= self.data().len()
    }

    /// The bytes not yet consumed.
    pub open spec fn rest(self) -> Seq<u8> {
        self.data().skip(self.pos() as int)
    }

    /// Wraps an input buffer, rejecting one larger than [`MAX_OBJECT_SIZE`].
    pub fn new(input: &'a [u8]) -> (result: Result<Self, CodecError>)
        ensures
            input@.len() > MAX_OBJECT_SIZE ==> result == Err::<Self, CodecError>(
                CodecError::LimitExceeded {
                    limit: "object size",
                    max: MAX_OBJECT_SIZE,
                    got: input@.len() as usize,
                },
            ),
            input@.len() <= MAX_OBJECT_SIZE ==> (result matches Ok(decoder) && decoder.data()
                == input@ && decoder.pos() == 0 && decoder.level() == 0),
    {
        if input.len() > MAX_OBJECT_SIZE {
            return Err(
                CodecError::LimitExceeded {
                    limit: "object size",
                    max: MAX_OBJECT_SIZE,
                    got: input.len(),
                },
            );
        }
        Ok(Decoder { input, position: 0, depth: 0 })
    }

    /// Bytes not yet consumed.
    pub fn remaining(&self) -> (count: usize)
        requires
            self.wf(),
        ensures
            count == self.rest().len(),
    {
        self.input.len() - self.position
    }

    /// How many bytes have been consumed.
    pub fn position(&self) -> (count: usize)
        ensures
            count == self.pos(),
    {
        self.position
    }

    /// Requires that the input has been consumed entirely.
    pub fn finish(&self) -> (result: Result<(), CodecError>)
        requires
            self.wf(),
        ensures
            self.rest().len() == 0 ==> result is Ok,
            self.rest().len() != 0 ==> result == Err::<(), CodecError>(
                CodecError::TrailingBytes(self.rest().len() as usize),
            ),
    {
        let remaining = self.remaining();
        if remaining == 0 {
            Ok(())
        } else {
            Err(CodecError::TrailingBytes(remaining))
        }
    }

    fn take(&mut self, count: usize, wanted: &'static str) -> (result: Result<&'a [u8], CodecError>)
        requires
            old(self).wf(),
        ensures
            final(self).wf(),
            final(self).data() == old(self).data(),
            final(self).level() == old(self).level(),
            count <= old(self).rest().len() ==> (result matches Ok(slice) && slice@ == old(
                self,
            ).rest().take(count as int) && final(self).pos() == old(self).pos() + count),
            count > old(self).rest().len() ==> result == Err::<&'a [u8], CodecError>(
                CodecError::UnexpectedEnd { wanted },
            ) && final(self).pos() == old(self).pos(),
    {
        if count > self.input.len() - self.position {
            return Err(CodecError::UnexpectedEnd { wanted });
        }
        let end = self.position + count;
        let slice = &self.input[self.position..end];
        proof {
            assert(slice@ =~= old(self).rest().take(count as int));
        }
        self.position = end;
        Ok(slice)
    }

    /// Reads one raw byte.
    pub fn read_u8(&mut self) -> (result: Result<u8, CodecError>)
        requires
            old(self).wf(),
        ensures
            final(self).wf(),
            final(self).data() == old(self).data(),
            final(self).level() == old(self).level(),
            old(self).rest().len() >= 1 ==> result == Ok::<u8, CodecError>(old(self).rest()[0])
                && final(self).pos() == old(self).pos() + 1,
            old(self).rest().len() == 0 ==> result == Err::<u8, CodecError>(
                CodecError::UnexpectedEnd { wanted: "u8" },
            ) && final(self).pos() == old(self).pos(),
    {
        let slice = self.take(1, "u8")?;
        Ok(slice[0])
    }

    /// Reads a fixed-width little-endian `u16`.
    pub fn read_u16(&mut self) -> (result: Result<u16, CodecError>)
        requires
            old(self).wf(),
        ensures
            final(self).wf(),
            final(self).data() == old(self).data(),
            final(self).level() == old(self).level(),
            old(self).rest().len() >= 2 ==> result == Ok::<u16, CodecError>(
                (old(self).rest()[0] + 256 * old(self).rest()[1]) as u16,
            ) && final(self).pos() == old(self).pos() + 2,
            old(self).rest().len() < 2 ==> result == Err::<u16, CodecError>(
                CodecError::UnexpectedEnd { wanted: "u16" },
            ) && final(self).pos() == old(self).pos(),
    {
        let slice = self.take(2, "u16")?;
        Ok(slice[0] as u16 + 256 * (slice[1] as u16))
    }

    /// Reads a `bool`, rejecting any byte but `0x00` and `0x01`.
    pub fn read_bool(&mut self) -> (result: Result<bool, CodecError>)
        requires
            old(self).wf(),
        ensures
            final(self).wf(),
            final(self).data() == old(self).data(),
            final(self).level() == old(self).level(),
            old(self).rest().len() == 0 ==> result == Err::<bool, CodecError>(
                CodecError::UnexpectedEnd { wanted: "u8" },
            ),
            old(self).rest().len() >= 1 ==> {
                let byte = old(self).rest()[0];
                &&& byte == 0 ==> result == Ok::<bool, CodecError>(false)
                &&& byte == 1 ==> result == Ok::<bool, CodecError>(true)
                &&& byte > 1 ==> result == Err::<bool, CodecError>(
                    CodecError::NonCanonicalBool(byte),
                )
                &&& final(self).pos() == old(self).pos() + 1
            },
    {
        let byte = self.read_u8()?;
        if byte == 0 {
            Ok(false)
        } else if byte == 1 {
            Ok(true)
        } else {
            Err(CodecError::NonCanonicalBool(byte))
        }
    }

    /// Reads a `varint`, enforcing shortest form, width and overflow.
    pub fn read_varint(&mut self) -> (result: Result<u64, CodecError>)
        requires
            old(self).wf(),
        ensures
            final(self).wf(),
            final(self).data() == old(self).data(),
            final(self).level() == old(self).level(),
            match parse_varint(old(self).rest()) {
                Ok((value, n)) => result == Ok::<u64, CodecError>(value as u64) && value
                    <= u64::MAX && final(self).pos() == old(self).pos() + n,
                Err(e) => result == Err::<u64, CodecError>(e),
            },
    {
        let ghost s = old(self).rest();
        let mut value: u64 = 0;
        let mut multiplier: u64 = 1;
        let mut index: usize = 0;
        proof {
            lemma_varint_from_canonical(s, 0);
        }
        loop
            invariant
                self.wf(),
                self.data() == old(self).data(),
                self.level() == old(self).level(),
                index <= 9,
                s == old(self).rest(),
                self.pos() == old(self).pos() + index,
                self.rest() == s.skip(index as int),
                multiplier == pow128(index as nat),
                value < multiplier,
                varint_from(s, 0) == match varint_from(s, index as nat) {
                    Ok((tail, end)) => Ok::<(nat, nat), CodecError>(
                        ((value + multiplier * tail) as nat, end),
                    ),
                    Err(e) => Err(e),
                },
            decreases 9 - index,
        {
            proof {
                lemma_pow128_bounds(index as nat);
            }
            let ghost before = self.rest();
            let byte = match self.read_u8() {
                Ok(byte) => byte,
                Err(e) => {
                    proof {
                        assert(s.len() <= index);
                        assert(varint_from(s, index as nat) == Err::<(nat, nat), CodecError>(e));
                        assert(parse_varint(s) == Err::<(nat, nat), CodecError>(e));
                    }
                    return Err(e);
                },
            };
            proof {
                assert(before[0] == s[index as int]);
            }
            let payload = (byte % 128) as u64;
            if index == 9 && payload > 1 {
                return Err(CodecError::VarintOverflow { target: "u64" });
            }
            proof {
                assert(multiplier * payload + value < 128 * multiplier) by (nonlinear_arith)
                    requires
                        payload < 128,
                        value < multiplier,
                ;
                if index == 9 {
                    assert(multiplier * payload + value < 2 * multiplier) by (nonlinear_arith)
                        requires
                            payload <= 1,
                            value < multiplier,
                    ;
                }
            }
            let ghost prior = value;
            value = value + multiplier * payload;
            if byte < 128 {
                if index > 0 && byte == 0 {
                    proof {
                        assert(varint_from(s, index as nat) == Err::<(nat, nat), CodecError>(
                            CodecError::NonCanonicalVarint,
                        ));
                    }
                    return Err(CodecError::NonCanonicalVarint);
                }
                proof {
                    assert(varint_from(s, index as nat) == Ok::<(nat, nat), CodecError>(
                        (payload as nat, (index + 1) as nat),
                    ));
                    assert(parse_varint(s) == Ok::<(nat, nat), CodecError>(
                        (value as nat, (index + 1) as nat),
                    ));
                }
                return Ok(value);
            }
            if index == 9 {
                return Err(CodecError::VarintTooWide);
            }
            proof {
                assert(self.rest() =~= s.skip(index + 1));
                assert(multiplier * 128 == pow128((index + 1) as nat));
                let t = varint_from(s, (index + 1) as nat);
                if let Ok((tail, end)) = t {
                    assert(value + multiplier * 128 * tail == prior
                        + multiplier * (payload + 128 * tail)) by (nonlinear_arith)
                        requires
                            value == prior + multiplier * payload,
                    ;
                }
            }
            multiplier = multiplier * 128;
            index = index + 1;
        }
    }

    /// Reads a `varint` that must fit in a `u32`.
    pub fn read_varint_u32(&mut self) -> (result: Result<u32, CodecError>)
        requires
            old(self).wf(),
        ensures
            final(self).wf(),
            final(self).data() == old(self).data(),
            final(self).level() == old(self).level(),
            match parse_varint(old(self).rest()) {
                Ok((value, n)) => if value <= u32::MAX {
                    result == Ok::<u32, CodecError>(value as u32) && final(self).pos() == old(
                        self,
                    ).pos() + n
                } else {
                    result == Err::<u32, CodecError>(CodecError::VarintOverflow { target: "u32" })
                },
                Err(e) => result == Err::<u32, CodecError>(e),
            },
    {
        let value = self.read_varint()?;
        if value > u32::MAX as u64 {
            return Err(CodecError::VarintOverflow { target: "u32" });
        }
        Ok(value as u32)
    }

    /// Reads a `varint` that must fit in a `u8`.
    pub fn read_varint_u8(&mut self) -> (result: Result<u8, CodecError>)
        requires
            old(self).wf(),
        ensures
            final(self).wf(),
            final(self).data() == old(self).data(),
            final(self).level() == old(self).level(),
            match parse_varint(old(self).rest()) {
                Ok((value, n)) => if value <= u8::MAX {
                    result == Ok::<u8, CodecError>(value as u8) && final(self).pos() == old(
                        self,
                    ).pos() + n
                } else {
                    result == Err::<u8, CodecError>(CodecError::VarintOverflow { target: "u8" })
                },
                Err(e) => result == Err::<u8, CodecError>(e),
            },
    {
        let value = self.read_varint()?;
        if value > u8::MAX as u64 {
            return Err(CodecError::VarintOverflow { target: "u8" });
        }
        Ok(value as u8)
    }
}

impl<'a> Decoder<'a> {
    /// Reads a `varint` length, checking it against a limit and against the
    /// bytes actually remaining, before anything is allocated.
    fn read_length(&mut self, limit: &'static str, max: usize) -> (result: Result<
        usize,
        CodecError,
    >)
        requires
            old(self).wf(),
        ensures
            final(self).wf(),
            final(self).data() == old(self).data(),
            final(self).level() == old(self).level(),
            match parse_length(old(self).rest(), limit, max) {
                Ok((declared, n)) => result == Ok::<usize, CodecError>(declared as usize)
                    && final(self).pos() == old(self).pos() + n,
                Err(e) => result == Err::<usize, CodecError>(e),
            },
    {
        let declared = self.read_varint()?;
        if declared > usize::MAX as u64 {
            return Err(CodecError::VarintOverflow { target: "usize" });
        }
        let declared = declared as usize;
        if declared > max {
            return Err(CodecError::LimitExceeded { limit, max, got: declared });
        }
        let remaining = self.remaining();
        if declared > remaining {
            return Err(CodecError::LengthBeyondInput { declared, remaining });
        }
        Ok(declared)
    }

    /// Reads a sequence count, checked against [`MAX_SEQ_LEN`] and against the
    /// bytes actually remaining.
    pub fn read_seq_len(&mut self) -> (result: Result<usize, CodecError>)
        requires
            old(self).wf(),
        ensures
            final(self).wf(),
            final(self).data() == old(self).data(),
            final(self).level() == old(self).level(),
            match parse_length(old(self).rest(), "sequence length", MAX_SEQ_LEN) {
                Ok((declared, n)) => result == Ok::<usize, CodecError>(declared as usize)
                    && final(self).pos() == old(self).pos() + n,
                Err(e) => result == Err::<usize, CodecError>(e),
            },
    {
        self.read_length("sequence length", MAX_SEQ_LEN)
    }

    /// Reads `count` raw bytes, with no length prefix.
    pub fn read_raw(&mut self, count: usize) -> (result: Result<&'a [u8], CodecError>)
        requires
            old(self).wf(),
        ensures
            final(self).wf(),
            final(self).data() == old(self).data(),
            final(self).level() == old(self).level(),
            count <= old(self).rest().len() ==> (result matches Ok(slice) && slice@ == old(
                self,
            ).rest().take(count as int) && final(self).pos() == old(self).pos() + count),
            count > old(self).rest().len() ==> result == Err::<&'a [u8], CodecError>(
                CodecError::LengthBeyondInput {
                    declared: count,
                    remaining: old(self).rest().len() as usize,
                },
            ) && final(self).pos() == old(self).pos(),
    {
        let remaining = self.remaining();
        if count > remaining {
            return Err(CodecError::LengthBeyondInput { declared: count, remaining });
        }
        self.take(count, "raw bytes")
    }

    /// Reads exactly `N` raw bytes.
    pub fn read_array<const N: usize>(&mut self) -> (result: Result<[u8; N], CodecError>)
        requires
            old(self).wf(),
        ensures
            final(self).wf(),
            final(self).data() == old(self).data(),
            final(self).level() == old(self).level(),
            N <= old(self).rest().len() ==> (result matches Ok(array) && array@ == old(
                self,
            ).rest().take(N as int) && final(self).pos() == old(self).pos() + N),
            N > old(self).rest().len() ==> result == Err::<[u8; N], CodecError>(
                CodecError::UnexpectedEnd { wanted: "fixed-width array" },
            ),
    {
        let slice = self.take(N, "fixed-width array")?;
        Ok(array_from_slice::<N>(slice))
    }

    /// Reads a length-prefixed byte string.
    pub fn read_bytes(&mut self) -> (result: Result<&'a [u8], CodecError>)
        requires
            old(self).wf(),
        ensures
            final(self).wf(),
            final(self).data() == old(self).data(),
            final(self).level() == old(self).level(),
            match parse_length(old(self).rest(), "byte string length", MAX_BYTES_LEN) {
                Ok((declared, n)) => result matches Ok(bytes) && bytes@ == old(
                    self,
                ).rest().subrange(n as int, (n + declared) as int) && final(self).pos() == old(
                    self,
                ).pos() + n + declared,
                Err(e) => result == Err::<&'a [u8], CodecError>(e),
            },
            result matches Ok(bytes) ==> prefixed(bytes@).len() <= old(self).rest().len() && old(
                self,
            ).rest().take(prefixed(bytes@).len() as int) == prefixed(bytes@) && final(self).pos()
                == old(self).pos() + prefixed(bytes@).len(),
    {
        let ghost s = old(self).rest();
        let length = self.read_length("byte string length", MAX_BYTES_LEN)?;
        let ghost middle = self.rest();
        let bytes = self.take(length, "byte string")?;
        proof {
            lemma_varint_canonical(s);
            let n = parse_varint(s)->Ok_0.1;
            assert(middle =~= s.skip(n as int));
            assert(bytes@ =~= s.subrange(n as int, (n + length) as int));
            assert(s.take((n + length) as int) =~= s.take(n as int) + bytes@);
        }
        Ok(bytes)
    }

    /// Reads a length-prefixed UTF-8 string.
    pub fn read_str(&mut self) -> (result: Result<&'a str, CodecError>)
        requires
            old(self).wf(),
        ensures
            final(self).wf(),
            final(self).data() == old(self).data(),
            final(self).level() == old(self).level(),
            match parse_length(old(self).rest(), "byte string length", MAX_BYTES_LEN) {
                Ok((declared, n)) => {
                    let bytes = old(self).rest().subrange(n as int, (n + declared) as int);
                    if valid_utf8(bytes) {
                        result matches Ok(text) && text.spec_bytes() == bytes
                    } else {
                        result == Err::<&'a str, CodecError>(CodecError::InvalidUtf8)
                    }
                },
                Err(e) => result == Err::<&'a str, CodecError>(e),
            },
            result matches Ok(text) ==> prefixed(encode_utf8(text@)).len() <= old(
                self,
            ).rest().len() && old(self).rest().take(prefixed(encode_utf8(text@)).len() as int)
                == prefixed(encode_utf8(text@)) && final(self).pos() == old(self).pos()
                + prefixed(encode_utf8(text@)).len(),
    {
        let bytes = self.read_bytes()?;
        match str_from_utf8(bytes) {
            Some(text) => Ok(text),
            None => Err(CodecError::InvalidUtf8),
        }
    }

    /// Reads an optional value.
    pub fn read_option<T: Decode>(&mut self) -> (result: Result<Option<T>, CodecError>)
        requires
            old(self).wf(),
        ensures
            final(self).wf(),
            final(self).data() == old(self).data(),
            final(self).level() == old(self).level(),
            old(self).rest().len() == 0 ==> result == Err::<Option<T>, CodecError>(
                CodecError::UnexpectedEnd { wanted: "u8" },
            ),
            old(self).rest().len() > 0 ==> {
                let tag = old(self).rest()[0];
                &&& tag == 0 ==> result == Ok::<Option<T>, CodecError>(None) && final(self).pos()
                    == old(self).pos() + 1
                &&& tag > 1 ==> result == Err::<Option<T>, CodecError>(
                    CodecError::BadOptionTag(tag),
                )
                &&& tag == 1 && old(self).level() >= MAX_NESTING ==> result == Err::<
                    Option<T>,
                    CodecError,
                >(CodecError::TooDeep)
            },
            result matches Ok(None) ==> old(self).rest().len() > 0 && old(self).rest()[0] == 0
                && final(self).pos() == old(self).pos() + 1,
            result matches Ok(Some(value)) ==> 1 + value.spec_encode().len() <= old(
                self,
            ).rest().len() && old(self).rest().take((1 + value.spec_encode().len()) as int) == seq![1u8]
                + value.spec_encode() && final(self).pos() == old(self).pos() + 1
                + value.spec_encode().len(),
            forall|value: T|
                #[trigger] value.decodable((old(self).level() + 1) as nat) && old(self).level()
                    < MAX_NESTING && old(self).rest().len() > 0 && old(self).rest()[0] == 1
                    && begins_with(old(self).rest().skip(1), value) ==> (result matches Ok(
                    Some(decoded),
                ) && decoded.spec_encode() == value.spec_encode()),
    {
        let ghost s = old(self).rest();
        let tag = self.read_u8()?;
        if tag == 0 {
            Ok(None)
        } else if tag == 1 {
            if self.depth >= MAX_NESTING {
                return Err(CodecError::TooDeep);
            }
            let ghost middle = self.rest();
            assert(middle =~= s.skip(1));
            self.depth = self.depth + 1;
            let decoded = T::decode(self);
            self.depth = self.depth - 1;
            let value = decoded?;
            proof {
                let len = value.spec_encode().len();
                assert(middle =~= s.skip(1));
                assert(s.take((1 + len) as int) =~= seq![1u8] + middle.take(len as int));
            }
            Ok(Some(value))
        } else {
            Err(CodecError::BadOptionTag(tag))
        }
    }

    /// Reads a sequence.
    pub fn read_seq<T: Decode>(&mut self) -> (result: Result<Vec<T>, CodecError>)
        requires
            old(self).wf(),
        ensures
            final(self).wf(),
            final(self).data() == old(self).data(),
            final(self).level() == old(self).level(),
            match parse_length(old(self).rest(), "sequence length", MAX_SEQ_LEN) {
                Ok((count, n)) => count > 0 && old(self).level() >= MAX_NESTING ==> result
                    == Err::<Vec<T>, CodecError>(CodecError::TooDeep),
                Err(e) => result == Err::<Vec<T>, CodecError>(e),
            },
            result matches Ok(items) ==> {
                let encoded = varint_bytes(items@.len()) + concat_encodings(items@);
                &&& items@.len() <= MAX_SEQ_LEN
                &&& encoded.len() <= old(self).rest().len()
                &&& old(self).rest().take(encoded.len() as int) == encoded
                &&& final(self).pos() == old(self).pos() + encoded.len()
            },
            forall|wanted: Seq<T>|
                #[trigger] begins_with_elements(old(self).rest(), wanted, old(self).level(), false)
                    ==> (result matches Ok(items) && items@.len() == wanted.len() && forall|i: int|
                    0 <= i < wanted.len() ==> #[trigger] items@[i].spec_encode()
                        == wanted[i].spec_encode()),
    {
        self.read_elements(false)
    }

    /// Reads a set, checking strictly ascending encoded order.
    ///
    /// The order check is done on the input bytes themselves.
    pub fn read_set<T: Decode>(&mut self) -> (result: Result<Vec<T>, CodecError>)
        requires
            old(self).wf(),
        ensures
            final(self).wf(),
            final(self).data() == old(self).data(),
            final(self).level() == old(self).level(),
            match parse_length(old(self).rest(), "sequence length", MAX_SEQ_LEN) {
                Ok((count, n)) => count > 0 && old(self).level() >= MAX_NESTING ==> result
                    == Err::<Vec<T>, CodecError>(CodecError::TooDeep),
                Err(e) => result == Err::<Vec<T>, CodecError>(e),
            },
            result matches Ok(items) ==> {
                let encoded = varint_bytes(items@.len()) + concat_encodings(items@);
                &&& items@.len() <= MAX_SEQ_LEN
                &&& encodings_ascending(items@)
                &&& encoded.len() <= old(self).rest().len()
                &&& old(self).rest().take(encoded.len() as int) == encoded
                &&& final(self).pos() == old(self).pos() + encoded.len()
            },
            forall|wanted: Seq<T>|
                #[trigger] begins_with_elements(old(self).rest(), wanted, old(self).level(), true)
                    ==> (result matches Ok(items) && items@.len() == wanted.len() && forall|i: int|
                    0 <= i < wanted.len() ==> #[trigger] items@[i].spec_encode()
                        == wanted[i].spec_encode()),
            forall|count: nat, prefix: Seq<T>|
                #[trigger] begins_with_unordered_set(old(self).rest(), count, prefix, old(self).level())
                    ==> result == Err::<Vec<T>, CodecError>(
                    CodecError::UnorderedSet { index: (prefix.len() - 1) as usize },
                ),
    {
        self.read_elements(true)
    }

    /// Reads a count and then that many elements, one level deeper; with
    /// `ordered`, refuses elements whose encodings are not strictly ascending.
    fn read_elements<T: Decode>(&mut self, ordered: bool) -> (result: Result<Vec<T>, CodecError>)
        requires
            old(self).wf(),
        ensures
            final(self).wf(),
            final(self).data() == old(self).data(),
            final(self).level() == old(self).level(),
            match parse_length(old(self).rest(), "sequence length", MAX_SEQ_LEN) {
                Ok((count, n)) => count > 0 && old(self).level() >= MAX_NESTING ==> result
                    == Err::<Vec<T>, CodecError>(CodecError::TooDeep),
                Err(e) => result == Err::<Vec<T>, CodecError>(e),
            },
            result matches Ok(items) ==> {
                let encoded = varint_bytes(items@.len()) + concat_encodings(items@);
                &&& items@.len() <= MAX_SEQ_LEN
                &&& ordered ==> encodings_ascending(items@)
                &&& encoded.len() <= old(self).rest().len()
                &&& old(self).rest().take(encoded.len() as int) == encoded
                &&& final(self).pos() == old(self).pos() + encoded.len()
            },
            forall|wanted: Seq<T>|
                #[trigger] begins_with_elements(old(self).rest(), wanted, old(self).level(), ordered)
                    ==> (result matches Ok(items) && items@.len() == wanted.len() && forall|
                    i: int,
                | 0 <= i < wanted.len() ==> #[trigger] items@[i].spec_encode()
                    == wanted[i].spec_encode()),
            ordered ==> forall|count: nat, prefix: Seq<T>|
                #[trigger] begins_with_unordered_set(old(self).rest(), count, prefix, old(self).level())
                    ==> result == Err::<Vec<T>, CodecError>(
                    CodecError::UnorderedSet { index: (prefix.len() - 1) as usize },
                ),
    {
        let ghost s = old(self).rest();
        let ghost level = old(self).level();
        proof {
            assert forall|wanted: Seq<T>| #[trigger]
                begins_with_elements(s, wanted, level, ordered) implies parse_length(
                s,
                "sequence length",
                MAX_SEQ_LEN,
            ) == Ok::<(nat, nat), CodecError>(
                (wanted.len(), varint_bytes(wanted.len()).len()),
            ) by {
                let head = varint_bytes(wanted.len());
                lemma_begins_with_pieces(s, head, concat_encodings(wanted));
                lemma_begins_with_varint(s, wanted.len());
            }
        }
        proof {
            assert forall|c: nat, prefix: Seq<T>| #[trigger]
                begins_with_unordered_set(s, c, prefix, level) implies parse_length(
                s,
                "sequence length",
                MAX_SEQ_LEN,
            ) == Ok::<(nat, nat), CodecError>((c, varint_bytes(c).len())) by {
                lemma_begins_with_pieces(s, varint_bytes(c), concat_encodings(prefix));
                lemma_begins_with_varint(s, c);
            }
        }
        let count = self.read_seq_len()?;
        proof {
            lemma_varint_canonical(s);
        }
        let ghost n = parse_varint(s)->Ok_0.1;
        let ghost start = self.pos();
        let mut items: Vec<T> = Vec::new();
        let mut previous: Option<&'a [u8]> = None;
        let mut index: usize = 0;
        while index < count
            invariant
                self.wf(),
                self.data() == old(self).data(),
                self.level() == old(self).level(),
                s == old(self).rest(),
                level == old(self).level(),
                start == old(self).pos() + n,
                s.take(n as int) == varint_bytes(count as nat),
                parse_length(s, "sequence length", MAX_SEQ_LEN) == Ok::<(nat, nat), CodecError>(
                    (count as nat, n),
                ),
                n == varint_bytes(count as nat).len(),
                index > 0 ==> self.level() < MAX_NESTING,
                count <= MAX_SEQ_LEN,
                index <= count,
                items@.len() == index,
                start <= self.pos(),
                self.data().subrange(start as int, self.pos() as int) == concat_encodings(items@),
                ordered ==> encodings_ascending(items@),
                index == 0 <==> previous is None,
                previous matches Some(p) ==> p@ == items@[index - 1].spec_encode(),
                forall|wanted: Seq<T>| #[trigger]
                    begins_with_elements(s, wanted, level, ordered) ==> wanted.len() == count
                        && forall|j: int|
                        0 <= j < index ==> #[trigger] items@[j].spec_encode()
                            == wanted[j].spec_encode(),
                ordered ==> forall|c: nat, prefix: Seq<T>| #[trigger]
                    begins_with_unordered_set(s, c, prefix, level) ==> c == count && index
                        < prefix.len() && forall|j: int|
                        0 <= j < index ==> #[trigger] items@[j].spec_encode()
                            == prefix[j].spec_encode(),
            decreases count - index,
        {
            if self.depth >= MAX_NESTING {
                return Err(CodecError::TooDeep);
            }
            let ghost before = *self;
            let element_start = self.position;
            self.depth = self.depth + 1;
            proof {
                assert(self.rest() =~= s.skip((n + concat_encodings(items@).len()) as int));
                assert forall|wanted: Seq<T>| #[trigger]
                    begins_with_elements(s, wanted, level, ordered) implies wanted[index as int].decodable(
                    self.level(),
                ) && begins_with(self.rest(), wanted[index as int]) by {
                    assert(wanted.len() == count);
                    assert forall|j: int| 0 <= j < index implies #[trigger] items@[j].spec_encode()
                        == wanted.take(index as int)[j].spec_encode() by {
                        assert(wanted.take(index as int)[j] == wanted[j]);
                    }
                    lemma_concat_encodings_same(items@, wanted.take(index as int));
                    lemma_element_begins(s, wanted, index as int);
                    assert(wanted[index as int].decodable(level + 1));
                }
                if ordered {
                    assert forall|c: nat, prefix: Seq<T>| #[trigger]
                        begins_with_unordered_set(s, c, prefix, level) implies prefix[index as int].decodable(
                        self.level(),
                    ) && begins_with(self.rest(), prefix[index as int]) by {
                        assert forall|j: int| 0 <= j < index implies #[trigger] items@[j].spec_encode()
                            == prefix.take(index as int)[j].spec_encode() by {
                            assert(prefix.take(index as int)[j] == prefix[j]);
                        }
                        lemma_concat_encodings_same(items@, prefix.take(index as int));
                        lemma_counted_element_begins(s, c, prefix, index as int);
                        assert(prefix[index as int].decodable(level + 1));
                    }
                }
            }
            let decoded = T::decode(self);
            self.depth = self.depth - 1;
            let item = decoded?;
            let encoded = &self.input[element_start..self.position];
            proof {
                assert(encoded@ =~= before.rest().take(item.spec_encode().len() as int));
                assert forall|wanted: Seq<T>| #[trigger]
                    begins_with_elements(s, wanted, level, ordered) implies item.spec_encode()
                    == wanted[index as int].spec_encode() by {
                    assert(wanted[index as int].decodable((level + 1) as nat));
                }
                if ordered {
                    assert forall|c: nat, prefix: Seq<T>| #[trigger]
                        begins_with_unordered_set(s, c, prefix, level) implies item.spec_encode()
                        == prefix[index as int].spec_encode() by {
                        assert(prefix[index as int].decodable((level + 1) as nat));
                    }
                }
            }
            if ordered {
                match previous {
                    Some(last) => {
                        if !lt_bytes(last, encoded) {
                            proof {
                                assert forall|wanted: Seq<T>|
                                    #[trigger] begins_with_elements(
                                        s,
                                        wanted,
                                        level,
                                        ordered,
                                    ) implies false by {
                                    assert(item.spec_encode() == wanted[index as int].spec_encode());
                                    assert(items@[index - 1].spec_encode() == wanted[index
                                        - 1].spec_encode());
                                    assert(bytes_lt(
                                        wanted[index - 1].spec_encode(),
                                        wanted[index as int].spec_encode(),
                                    ));
                                }
                                assert forall|c: nat, prefix: Seq<T>| #[trigger]
                                    begins_with_unordered_set(
                                        s,
                                        c,
                                        prefix,
                                        level,
                                    ) implies index == prefix.len() - 1 by {
                                    assert(item.spec_encode() == prefix[index as int].spec_encode());
                                    assert(items@[index - 1].spec_encode() == prefix[index
                                        - 1].spec_encode());
                                    if index < prefix.len() - 1 {
                                        let front = prefix.drop_last();
                                        assert(front[index as int] == prefix[index as int]);
                                        assert(front[index - 1] == prefix[index - 1]);
                                        assert(bytes_lt(
                                            front[index - 1].spec_encode(),
                                            front[index as int].spec_encode(),
                                        ));
                                    }
                                }
                            }
                            return Err(CodecError::UnorderedSet { index });
                        }
                    },
                    None => {},
                }
            }
            assert(ordered && previous is Some ==> bytes_lt(previous->0@, encoded@));
            let ghost old_items = items@;
            items.push(item);
            proof {
                assert(items@.drop_last() =~= old_items);
                if ordered {
                    assert forall|c: nat, prefix: Seq<T>| #[trigger]
                        begins_with_unordered_set(s, c, prefix, level) implies c == count && index
                        + 1 < prefix.len() && forall|j: int|
                        0 <= j < index + 1 ==> #[trigger] items@[j].spec_encode()
                            == prefix[j].spec_encode() by {
                        assert(item.spec_encode() == prefix[index as int].spec_encode());
                        assert forall|j: int| 0 <= j < index + 1 implies #[trigger] items@[j].spec_encode()
                            == prefix[j].spec_encode() by {
                            if j < index {
                                assert(items@[j] == old_items[j]);
                                assert(old_items[j].spec_encode() == prefix[j].spec_encode());
                            }
                        }
                        if index + 1 == prefix.len() {
                            assert(old_items[index - 1].spec_encode() == prefix[index
                                - 1].spec_encode());
                            assert(prefix.last() == prefix[index as int]);
                        }
                    }
                }
                assert(self.data().subrange(start as int, self.pos() as int) =~= self.data().subrange(
                    start as int,
                    before.pos() as int,
                ) + encoded@);
                if ordered {
                    assert forall|i: int|
                        #![trigger items@[i]]
                        0 < i < items@.len() implies bytes_lt(
                        items@[i - 1].spec_encode(),
                        items@[i].spec_encode(),
                    ) by {
                        if i < items@.len() - 1 {
                            assert(items@[i] == old_items[i]);
                            assert(items@[i - 1] == old_items[i - 1]);
                        }
                    }
                }
                assert forall|wanted: Seq<T>| #[trigger]
                    begins_with_elements(s, wanted, level, ordered) implies wanted.len() == count
                    && forall|j: int|
                    0 <= j < index + 1 ==> #[trigger] items@[j].spec_encode()
                        == wanted[j].spec_encode() by {
                    assert(item.spec_encode() == wanted[index as int].spec_encode());
                    assert forall|j: int| 0 <= j < index + 1 implies #[trigger] items@[j].spec_encode()
                        == wanted[j].spec_encode() by {
                        if j < index {
                            assert(items@[j] == old_items[j]);
                            assert(old_items[j].spec_encode() == wanted[j].spec_encode());
                        }
                    }
                }
            }
            previous = Some(encoded);
            index = index + 1;
        }
        proof {
            let enc = varint_bytes(items@.len()) + concat_encodings(items@);
            assert(s.take(enc.len() as int) =~= s.take(n as int) + self.data().subrange(
                start as int,
                self.pos() as int,
            ));
        }
        Ok(items)
    }

    /// Runs `f` one level deeper, enforcing [`MAX_NESTING`].
    pub fn nested<T>(&mut self, f: impl FnOnce(&mut Decoder<'a>) -> Result<T, CodecError>) -> (result:
        Result<T, CodecError>)
        requires
            forall|d: &mut Decoder<'a>| call_requires(f, (d,)),
            forall|d: &mut Decoder<'a>, r: Result<T, CodecError>|
                #[trigger] call_ensures(f, (d,), r) ==> final(d).level() == d.level()
                    && final(d).data() == d.data(),
        ensures
            old(self).level() >= MAX_NESTING ==> result == Err::<T, CodecError>(
                CodecError::TooDeep,
            ) && *final(self) == *old(self),
            old(self).level() < MAX_NESTING ==> exists|d: &mut Decoder<'a>|
                d.level() == old(self).level() + 1 && d.data() == old(self).data() && d.pos()
                    == old(self).pos() && final(d).pos() == final(self).pos()
                    && #[trigger] call_ensures(f, (d,), result),
            final(self).level() == old(self).level(),
            final(self).data() == old(self).data(),
    {
        if self.depth >= MAX_NESTING {
            return Err(CodecError::TooDeep);
        }
        self.depth = self.depth + 1;
        let result = f(self);
        if self.depth > 0 {
            self.depth = self.depth - 1;
        }
        result
    }
}

// --- Primitive implementations -------------------------------------------

/// The fixed-width little-endian bytes of a `u16`.
pub open spec fn u16_bytes(value: u16) -> Seq<u8> {
    seq![(value % 256) as u8, (value / 256) as u8]
}

/// Reading piece by piece: when the input after `start` begins with `done`,
/// and the input after that begins with `next`, it begins with both.
pub proof fn lemma_decoded_pieces(data: Seq<u8>, start: int, done: Seq<u8>, next: Seq<u8>)
    requires
        0 <= start,
        start + done.len() + next.len() <= data.len(),
        data.skip(start).take(done.len() as int) == done,
        data.skip(start + done.len()).take(next.len() as int) == next,
    ensures
        data.skip(start).take((done + next).len() as int) == done + next,
{
    assert forall|i: int| 0 <= i < (done + next).len() implies data.skip(start).take(
        (done + next).len() as int,
    )[i] == (done + next)[i] by {
        if i < done.len() {
            assert(data.skip(start).take(done.len() as int)[i] == done[i]);
        } else {
            assert(data.skip(start + done.len()).take(next.len() as int)[i - done.len()] == next[i
                - done.len()]);
        }
    }
    assert(data.skip(start).take((done + next).len() as int) =~= done + next);
}

/// A `varint` at the start of `s` reads back as the value it encodes.
pub proof fn lemma_begins_with_varint(s: Seq<u8>, v: nat)
    requires
        v <= u64::MAX,
        varint_bytes(v).len() <= s.len(),
        s.take(varint_bytes(v).len() as int) == varint_bytes(v),
    ensures
        parse_varint(s) == Ok::<(nat, nat), CodecError>((v, varint_bytes(v).len())),
{
    let n = varint_bytes(v).len();
    assert(s =~= varint_bytes(v) + s.skip(n as int));
    lemma_varint_round_trip(v as u64, s.skip(n as int));
}

/// When `s` begins with `a + b`, it begins with `a`, and what follows `a`
/// begins with `b`.
pub proof fn lemma_begins_with_pieces(s: Seq<u8>, a: Seq<u8>, b: Seq<u8>)
    requires
        (a + b).len() <= s.len(),
        s.take((a + b).len() as int) == a + b,
    ensures
        a.len() <= s.len(),
        s.take(a.len() as int) == a,
        b.len() <= s.skip(a.len() as int).len(),
        s.skip(a.len() as int).take(b.len() as int) == b,
{
    assert(s.take(a.len() as int) =~= s.take((a + b).len() as int).take(a.len() as int));
    assert((a + b).take(a.len() as int) =~= a);
    assert(s.skip(a.len() as int).take(b.len() as int) =~= s.take((a + b).len() as int).skip(
        a.len() as int,
    ));
    assert((a + b).skip(a.len() as int) =~= b);
}

/// A length-prefixed payload at the start of `s` reads back as itself.
pub proof fn lemma_begins_with_prefixed(
    s: Seq<u8>,
    payload: Seq<u8>,
    limit: &'static str,
    max: usize,
)
    requires
        payload.len() <= max,
        prefixed(payload).len() <= s.len(),
        s.take(prefixed(payload).len() as int) == prefixed(payload),
    ensures
        parse_length(s, limit, max) == Ok::<(nat, nat), CodecError>(
            (payload.len(), varint_bytes(payload.len()).len()),
        ),
        s.subrange(
            varint_bytes(payload.len()).len() as int,
            (varint_bytes(payload.len()).len() + payload.len()) as int,
        ) == payload,
{
    let header = varint_bytes(payload.len());
    let n = header.len();
    assert(s.take(n as int) =~= s.take(prefixed(payload).len() as int).take(n as int));
    assert(prefixed(payload).take(n as int) =~= header);
    lemma_begins_with_varint(s, payload.len());
    assert(s.subrange(n as int, (n + payload.len()) as int) =~= s.take(
        prefixed(payload).len() as int,
    ).subrange(n as int, (n + payload.len()) as int));
    assert(prefixed(payload).subrange(n as int, (n + payload.len()) as int) =~= payload);
}

impl Encode for u16 {
    open spec fn spec_encode(&self) -> Seq<u8> {
        u16_bytes(*self)
    }

    fn encode(&self, out: &mut Encoder) {
        out.write_u16(*self);
    }
}

impl Decode for u16 {
    open spec fn decodable(&self, level: nat) -> bool {
        true
    }

    fn decode(input: &mut Decoder<'_>) -> (result: Result<Self, CodecError>) {
        let ghost s = input.rest();
        let value = input.read_u16()?;
        proof {
            assert(s.take(2) =~= u16_bytes(value));
            assert forall|v: u16| #[trigger]
                v.decodable(old(input).level()) && begins_with(s, v) implies value.spec_encode()
                == v.spec_encode() by {
                assert(s.take(2)[0] == s[0] && s.take(2)[1] == s[1]);
                assert(u16_bytes(v)[0] == s[0] && u16_bytes(v)[1] == s[1]);
            }
        }
        Ok(value)
    }
}

impl Encode for u64 {
    open spec fn spec_encode(&self) -> Seq<u8> {
        varint_bytes(*self as nat)
    }

    fn encode(&self, out: &mut Encoder) {
        out.write_varint(*self);
    }
}

impl Decode for u64 {
    open spec fn decodable(&self, level: nat) -> bool {
        true
    }

    fn decode(input: &mut Decoder<'_>) -> (result: Result<Self, CodecError>) {
        proof {
            lemma_varint_canonical(input.rest());
            assert forall|v: u64| #[trigger]
                v.decodable(input.level()) && begins_with(input.rest(), v) implies parse_varint(
                input.rest(),
            ) == Ok::<(nat, nat), CodecError>((v as nat, varint_bytes(v as nat).len())) by {
                lemma_begins_with_varint(input.rest(), v as nat);
            }
        }
        input.read_varint()
    }
}

impl Encode for u32 {
    open spec fn spec_encode(&self) -> Seq<u8> {
        varint_bytes(*self as nat)
    }

    fn encode(&self, out: &mut Encoder) {
        out.write_varint(*self as u64);
    }
}

impl Decode for u32 {
    open spec fn decodable(&self, level: nat) -> bool {
        true
    }

    fn decode(input: &mut Decoder<'_>) -> (result: Result<Self, CodecError>) {
        proof {
            lemma_varint_canonical(input.rest());
            assert forall|v: u32| #[trigger]
                v.decodable(input.level()) && begins_with(input.rest(), v) implies parse_varint(
                input.rest(),
            ) == Ok::<(nat, nat), CodecError>((v as nat, varint_bytes(v as nat).len())) by {
                lemma_begins_with_varint(input.rest(), v as nat);
            }
        }
        input.read_varint_u32()
    }
}

impl Encode for u8 {
    open spec fn spec_encode(&self) -> Seq<u8> {
        varint_bytes(*self as nat)
    }

    fn encode(&self, out: &mut Encoder) {
        out.write_varint(*self as u64);
    }
}

impl Decode for u8 {
    open spec fn decodable(&self, level: nat) -> bool {
        true
    }

    fn decode(input: &mut Decoder<'_>) -> (result: Result<Self, CodecError>) {
        proof {
            lemma_varint_canonical(input.rest());
            assert forall|v: u8| #[trigger]
                v.decodable(input.level()) && begins_with(input.rest(), v) implies parse_varint(
                input.rest(),
            ) == Ok::<(nat, nat), CodecError>((v as nat, varint_bytes(v as nat).len())) by {
                lemma_begins_with_varint(input.rest(), v as nat);
            }
        }
        input.read_varint_u8()
    }
}

impl Encode for bool {
    open spec fn spec_encode(&self) -> Seq<u8> {
        seq![if *self { 1u8 } else { 0u8 }]
    }

    fn encode(&self, out: &mut Encoder) {
        out.write_bool(*self);
        assert(out@ =~= old(out)@ + self.spec_encode());
    }
}

impl Decode for bool {
    open spec fn decodable(&self, level: nat) -> bool {
        true
    }

    fn decode(input: &mut Decoder<'_>) -> (result: Result<Self, CodecError>) {
        let ghost s = input.rest();
        proof {
            assert forall|v: bool| #[trigger]
                v.decodable(input.level()) && begins_with(s, v) implies s[0] == (if v {
                1u8
            } else {
                0u8
            }) by {
                assert(s.take(1)[0] == s[0]);
            }
        }
        let value = input.read_bool()?;
        assert(s.take(1) =~= seq![if value { 1u8 } else { 0u8 }]);
        Ok(value)
    }
}

impl Encode for Vec<u8> {
    open spec fn spec_encode(&self) -> Seq<u8> {
        prefixed(self@)
    }

    fn encode(&self, out: &mut Encoder) {
        out.write_bytes(self.as_slice());
    }
}

impl Decode for Vec<u8> {
    /// At most [`MAX_BYTES_LEN`] bytes.
    open spec fn decodable(&self, level: nat) -> bool {
        self@.len() <= MAX_BYTES_LEN
    }

    fn decode(input: &mut Decoder<'_>) -> (result: Result<Self, CodecError>) {
        proof {
            assert forall|v: Vec<u8>| #[trigger]
                v.decodable(input.level()) && begins_with(input.rest(), v) implies parse_length(
                input.rest(),
                "byte string length",
                MAX_BYTES_LEN,
            ) == Ok::<(nat, nat), CodecError>((v@.len(), varint_bytes(v@.len()).len()))
                && input.rest().subrange(
                varint_bytes(v@.len()).len() as int,
                (varint_bytes(v@.len()).len() + v@.len()) as int,
            ) == v@ by {
                lemma_begins_with_prefixed(input.rest(), v@, "byte string length", MAX_BYTES_LEN);
            }
        }
        let bytes = input.read_bytes()?;
        Ok(vstd::slice::slice_to_vec(bytes))
    }
}

impl Encode for String {
    open spec fn spec_encode(&self) -> Seq<u8> {
        prefixed(encode_utf8(self@))
    }

    fn encode(&self, out: &mut Encoder) {
        out.write_str(self.as_str());
    }
}

impl Decode for String {
    /// At most [`MAX_BYTES_LEN`] bytes of UTF-8.
    open spec fn decodable(&self, level: nat) -> bool {
        encode_utf8(self@).len() <= MAX_BYTES_LEN
    }

    fn decode(input: &mut Decoder<'_>) -> (result: Result<Self, CodecError>) {
        proof {
            assert forall|v: String| #[trigger]
                v.decodable(input.level()) && begins_with(input.rest(), v) implies parse_length(
                input.rest(),
                "byte string length",
                MAX_BYTES_LEN,
            ) == Ok::<(nat, nat), CodecError>(
                (encode_utf8(v@).len(), varint_bytes(encode_utf8(v@).len()).len()),
            ) && input.rest().subrange(
                varint_bytes(encode_utf8(v@).len()).len() as int,
                (varint_bytes(encode_utf8(v@).len()).len() + encode_utf8(v@).len()) as int,
            ) == encode_utf8(v@) && valid_utf8(encode_utf8(v@)) by {
                lemma_begins_with_prefixed(
                    input.rest(),
                    encode_utf8(v@),
                    "byte string length",
                    MAX_BYTES_LEN,
                );
                vstd::utf8::encode_utf8_valid_utf8(v@);
            }
        }
        let text = input.read_str()?;
        Ok(text.to_owned())
    }
}

impl<T: Encode> Encode for Option<T> {
    open spec fn spec_encode(&self) -> Seq<u8> {
        match self {
            None => seq![0u8],
            Some(value) => seq![1u8] + value.spec_encode(),
        }
    }

    fn encode(&self, out: &mut Encoder) {
        match self {
            None => out.write_option::<T>(None),
            Some(value) => out.write_option(Some(value)),
        }
    }
}

/// The encodings of key-value pairs, one after the other, each key followed
/// by its value.
pub open spec fn concat_pairs<K: Encode, V: Encode>(pairs: Seq<(K, V)>) -> Seq<u8>
    decreases pairs.len(),
{
    if pairs.len() == 0 {
        Seq::<u8>::empty()
    } else {
        concat_pairs(pairs.drop_last()) + pairs.last().0.spec_encode()
            + pairs.last().1.spec_encode()
    }
}

impl Encoder {
    /// Writes key-value pairs: their count, then each key and its value, in
    /// the order given.
    pub fn write_pairs<K: Encode, V: Encode>(&mut self, pairs: &[(K, V)])
        ensures
            final(self)@ == old(self)@ + varint_bytes(pairs@.len()) + concat_pairs(pairs@),
    {
        self.write_len(pairs.len());
        let ghost start = self@;
        let mut index: usize = 0;
        while index < pairs.len()
            invariant
                index <= pairs@.len(),
                self@ == start + concat_pairs(pairs@.take(index as int)),
            decreases pairs@.len() - index,
        {
            let (key, value) = &pairs[index];
            key.encode(self);
            value.encode(self);
            assert(pairs@.take(index + 1).drop_last() =~= pairs@.take(index as int));
            index = index + 1;
        }
        assert(pairs@.take(pairs@.len() as int) =~= pairs@);
    }
}

/// Powers of 128.
pub open spec fn pow128(n: nat) -> nat
    decreases n,
{
    if n == 0 {
        1
    } else {
        128 * pow128((n - 1) as nat)
    }
}

/// Facts about the powers of 128 that a `varint` runs through.
proof fn lemma_pow128_bounds(i: nat)
    requires
        i <= 9,
    ensures
        pow128(i) <= 0x8000_0000_0000_0000,
        i == 9 ==> pow128(i) == 0x8000_0000_0000_0000,
        i < 9 ==> pow128(i) * 128 <= 0x8000_0000_0000_0000,
        pow128(i) > 0,
{
    reveal_with_fuel(pow128, 10);
    if i == 0 {
    } else if i == 1 {
    } else if i == 2 {
    } else if i == 3 {
    } else if i == 4 {
    } else if i == 5 {
    } else if i == 6 {
    } else if i == 7 {
    } else if i == 8 {
    } else {
    }
}

/// Strict byte order is irreflexive.
pub proof fn lemma_bytes_lt_irreflexive(a: Seq<u8>)
    ensures
        !bytes_lt(a, a),
    decreases a.len(),
{
    if a.len() > 0 {
        lemma_bytes_lt_irreflexive(a.drop_first());
    }
}

/// Strict byte order is transitive.
pub proof fn lemma_bytes_lt_transitive(a: Seq<u8>, b: Seq<u8>, c: Seq<u8>)
    requires
        bytes_lt(a, b),
        bytes_lt(b, c),
    ensures
        bytes_lt(a, c),
    decreases a.len(),
{
    if a.len() > 0 && b.len() > 0 && c.len() > 0 && a[0] == b[0] && b[0] == c[0] {
        lemma_bytes_lt_transitive(a.drop_first(), b.drop_first(), c.drop_first());
    }
}

/// Two different byte strings are ordered one way or the other.
pub proof fn lemma_bytes_lt_total(a: Seq<u8>, b: Seq<u8>)
    requires
        a != b,
    ensures
        bytes_lt(a, b) || bytes_lt(b, a),
    decreases a.len(),
{
    if a.len() > 0 && b.len() > 0 && a[0] == b[0] {
        if a.drop_first() == b.drop_first() {
            assert(a =~= seq![a[0]] + a.drop_first());
            assert(b =~= seq![b[0]] + b.drop_first());
        }
        lemma_bytes_lt_total(a.drop_first(), b.drop_first());
    } else if a.len() == 0 && b.len() == 0 {
        assert(a =~= b);
    }
}

/// Whether two byte strings are equal.
pub fn eq_bytes(a: &[u8], b: &[u8]) -> (eq: bool)
    ensures
        eq == (a@ == b@),
{
    if a.len() != b.len() {
        return false;
    }
    let mut i: usize = 0;
    while i < a.len()
        invariant
            a@.len() == b@.len(),
            i <= a@.len(),
            a@.take(i as int) == b@.take(i as int),
        decreases a@.len() - i,
    {
        if a[i] != b[i] {
            assert(a@[i as int] != b@[i as int]);
            return false;
        }
        assert(a@.take(i + 1) =~= a@.take(i as int).push(a@[i as int]));
        assert(b@.take(i + 1) =~= b@.take(i as int).push(b@[i as int]));
        i = i + 1;
    }
    assert(a@ =~= a@.take(i as int));
    assert(b@ =~= b@.take(i as int));
    true
}

/// The first unordered position of a prefix is the first of the whole, when
/// the prefix is already out of order.
proof fn lemma_first_unordered_prefix<T: Encode>(items: Seq<T>, n: nat)
    requires
        2 <= n <= items.len(),
        first_unordered(items.take(n - 1)) is None,
        !bytes_lt(items[n - 2].spec_encode(), items[n - 1].spec_encode()),
    ensures
        first_unordered(items) == Some((n - 1) as nat),
    decreases items.len(),
{
    if items.len() == n {
        assert(items.drop_last() =~= items.take(n - 1));
    } else {
        let shorter = items.drop_last();
        assert(shorter.take(n - 1) =~= items.take(n - 1));
        lemma_first_unordered_prefix(shorter, n);
    }
}

/// Strict lexicographic comparison of two byte strings.
pub fn lt_bytes(a: &[u8], b: &[u8]) -> (lt: bool)
    ensures
        lt == bytes_lt(a@, b@),
{
    let mut i: usize = 0;
    assert(a@.skip(0) =~= a@);
    assert(b@.skip(0) =~= b@);
    while i < a.len() && i < b.len()
        invariant
            i <= a@.len(),
            i <= b@.len(),
            bytes_lt(a@, b@) == bytes_lt(a@.skip(i as int), b@.skip(i as int)),
        decreases a@.len() - i,
    {
        if a[i] != b[i] {
            return a[i] < b[i];
        }
        assert(a@.skip(i as int).drop_first() =~= a@.skip(i + 1));
        assert(b@.skip(i as int).drop_first() =~= b@.skip(i + 1));
        i = i + 1;
    }
    i == a.len() && i < b.len()
}

} // verus!
