//! Bech32m, the text encoding for addresses.
//!
//! Bech32m only: the older Bech32 checksum constant is recognised so that it
//! can be refused with a precise error, never accepted. Everything here is
//! strict, because an address is retyped by people and the checksum exists to
//! fail loudly rather than route money somewhere plausible.

use vstd::prelude::*;
use vstd::string::StringExecFns;
use vstd::string::StringSliceAdditionalSpecFns;
use vstd::string::StrSliceExecFns;
use vstd::utf8::encode_scalar;
use vstd::utf8::encode_utf8;
use vstd::utf8::has_width_1_encoding;

use crate::digits::{decimal_string, decimal_text, hex_string, hex_text};
use crate::std_conv::{ascii_string, char_string};

pub mod round_trip;

verus! {

/// The Bech32 character set: five bits per character, without the easily
/// confused `1`, `b`, `i` and `o`.
pub const CHARSET: [u8; 32] = [
    113, 112, 122, 114, 121, 57, 120, 56, 103, 102, 50, 116, 118, 100, 119, 48,
    115, 51, 106, 110, 53, 52, 107, 104, 99, 101, 54, 109, 117, 97, 55, 108,
];

/// The Bech32m checksum constant.
pub const BECH32M_CONST: u32 = 0x2bc8_30a3;

/// The Bech32 constant, known only in order to be refused.
pub const BECH32_CONST: u32 = 1;

/// Maximum total length of a Bech32m string.
pub const MAX_LENGTH: usize = 90;


/// Why a Bech32m string was rejected.
#[derive(Debug, Clone, PartialEq, Eq)]
pub enum Bech32Error {
    /// The string mixes upper and lower case.
    MixedCase,
    /// The string is longer than [`MAX_LENGTH`] bytes.
    TooLong(usize),
    /// The string has no `1` separator.
    NoSeparator,
    /// The human-readable part is empty.
    EmptyHrp,
    /// The human-readable part contains a byte outside `[33, 126]` (or, when
    /// encoding, an uppercase letter).
    BadHrpChar(u8),
    /// The data part is shorter than the six checksum characters.
    DataTooShort(usize),
    /// A data character is not in [`CHARSET`].
    BadDataChar(char),
    /// The checksum did not verify.
    BadChecksum,
    /// The checksum verified as Bech32, not Bech32m.
    WrongVariantBech32,
    /// Bit conversion left non-zero padding, or five bits of padding or more.
    BadPadding,
}

/// The five-bit value a character stands for, if it is in the charset.
pub open spec fn charset_index(c: u8) -> Option<u8> {
    match c {
        113 => Some(0),
        112 => Some(1),
        122 => Some(2),
        114 => Some(3),
        121 => Some(4),
        57 => Some(5),
        120 => Some(6),
        56 => Some(7),
        103 => Some(8),
        102 => Some(9),
        50 => Some(10),
        116 => Some(11),
        118 => Some(12),
        100 => Some(13),
        119 => Some(14),
        48 => Some(15),
        115 => Some(16),
        51 => Some(17),
        106 => Some(18),
        110 => Some(19),
        53 => Some(20),
        52 => Some(21),
        107 => Some(22),
        104 => Some(23),
        99 => Some(24),
        101 => Some(25),
        54 => Some(26),
        109 => Some(27),
        117 => Some(28),
        97 => Some(29),
        55 => Some(30),
        108 => Some(31),
        _ => None,
    }
}

/// The charset and its index are inverse to each other.
pub proof fn lemma_charset_index()
    ensures
        forall|v: int| 0 <= v < 32 ==> charset_index(#[trigger] CHARSET@[v]) == Some(v as u8),
        forall|c: u8| #[trigger] charset_index(c) matches Some(v) ==> v < 32 && CHARSET@[v as int] == c,
        forall|v: int| 0 <= v < 32 ==> #[trigger] CHARSET@[v] < 128,
{
}

/// One round of the BCH checksum over GF(32).
pub open spec fn polymod_step(checksum: u32, value: u8) -> u32 {
    let top = checksum >> 25u32;
    let c = ((checksum & 0x01ff_ffffu32) << 5u32) ^ (value as u32);
    let c = if top & 1u32 == 1u32 { c ^ 0x3b6a_57b2u32 } else { c };
    let c = if (top >> 1u32) & 1u32 == 1u32 { c ^ 0x2650_8e6du32 } else { c };
    let c = if (top >> 2u32) & 1u32 == 1u32 { c ^ 0x1ea1_19fau32 } else { c };
    let c = if (top >> 3u32) & 1u32 == 1u32 { c ^ 0x3d42_33ddu32 } else { c };
    let c = if (top >> 4u32) & 1u32 == 1u32 { c ^ 0x2a14_62b3u32 } else { c };
    c
}

/// The checksum state after feeding `values`, starting from `checksum`.
pub open spec fn polymod_from(checksum: u32, values: Seq<u8>) -> u32
    decreases values.len(),
{
    if values.len() == 0 {
        checksum
    } else {
        polymod_step(polymod_from(checksum, values.drop_last()), values.last())
    }
}

/// The Bech32 checksum polynomial of `values`.
pub open spec fn polymod_spec(values: Seq<u8>) -> u32 {
    polymod_from(1, values)
}

/// The human-readable part expanded for checksumming: the high bits of
/// each byte, a zero, then the low five bits of each byte.
pub open spec fn hrp_expand_spec(hrp: Seq<u8>) -> Seq<u8> {
    hrp.map_values(|b: u8| b >> 5u8) + seq![0u8] + hrp.map_values(|b: u8| b & 31u8)
}

fn polymod(values: &[u8]) -> (checksum: u32)
    ensures
        checksum == polymod_spec(values@),
{
    let mut checksum: u32 = 1;
    let mut index: usize = 0;
    while index < values.len()
        invariant
            index <= values@.len(),
            checksum == polymod_from(1, values@.take(index as int)),
        decreases values@.len() - index,
    {
        let value = values[index];
        let top = checksum >> 25u32;
        let mut c = ((checksum & 0x01ff_ffffu32) << 5u32) ^ (value as u32);
        if top & 1u32 == 1u32 {
            c = c ^ 0x3b6a_57b2u32;
        }
        if (top >> 1u32) & 1u32 == 1u32 {
            c = c ^ 0x2650_8e6du32;
        }
        if (top >> 2u32) & 1u32 == 1u32 {
            c = c ^ 0x1ea1_19fau32;
        }
        if (top >> 3u32) & 1u32 == 1u32 {
            c = c ^ 0x3d42_33ddu32;
        }
        if (top >> 4u32) & 1u32 == 1u32 {
            c = c ^ 0x2a14_62b3u32;
        }
        proof {
            assert(values@.take(index + 1).drop_last() =~= values@.take(index as int));
        }
        checksum = c;
        index = index + 1;
    }
    proof {
        assert(values@.take(values@.len() as int) =~= values@);
    }
    checksum
}

fn hrp_expand(hrp: &[u8]) -> (expanded: Vec<u8>)
    ensures
        expanded@ == hrp_expand_spec(hrp@),
{
    let mut expanded: Vec<u8> = Vec::new();
    let mut index: usize = 0;
    while index < hrp.len()
        invariant
            index <= hrp@.len(),
            expanded@ == hrp@.take(index as int).map_values(|b: u8| b >> 5u8),
        decreases hrp@.len() - index,
    {
        expanded.push(hrp[index] >> 5u8);
        index = index + 1;
        proof {
            assert(expanded@ =~= hrp@.take(index as int).map_values(|b: u8| b >> 5u8));
        }
    }
    expanded.push(0);
    let ghost high = expanded@;
    let mut index: usize = 0;
    while index < hrp.len()
        invariant
            index <= hrp@.len(),
            expanded@ == high + hrp@.take(index as int).map_values(|b: u8| b & 31u8),
        decreases hrp@.len() - index,
    {
        expanded.push(hrp[index] & 31u8);
        index = index + 1;
        proof {
            assert(expanded@ =~= high + hrp@.take(index as int).map_values(|b: u8| b & 31u8));
        }
    }
    proof {
        assert(hrp@.take(hrp@.len() as int) =~= hrp@);
        assert(expanded@ =~= hrp_expand_spec(hrp@));
    }
    expanded
}

/// The five-bit value of a charset character, found by scanning the charset.
fn charset_value(character: u8) -> (value: Option<u8>)
    ensures
        value == charset_index(character),
{
    proof {
        lemma_charset_index();
    }
    let mut index: usize = 0;
    while index < 32
        invariant
            index <= 32,
            forall|j: int| 0 <= j < index ==> CHARSET@[j] != character,
        decreases 32 - index,
    {
        if CHARSET[index] == character {
            return Some(index as u8);
        }
        index = index + 1;
    }
    None
}


/// Index of the first byte of `s` that fails `ok`, if any.
pub open spec fn first_fail(s: Seq<u8>, ok: spec_fn(u8) -> bool) -> Option<int> {
    if exists|i: int| 0 <= i < s.len() && !ok(#[trigger] s[i]) {
        Some(
            choose|i: int|
                0 <= i < s.len() && !ok(#[trigger] s[i]) && forall|j: int|
                    0 <= j < i ==> ok(#[trigger] s[j]),
        )
    } else {
        None
    }
}

proof fn lemma_first_fail(s: Seq<u8>, ok: spec_fn(u8) -> bool, i: int)
    requires
        0 <= i <= s.len(),
        forall|j: int| 0 <= j < i ==> ok(#[trigger] s[j]),
        i < s.len() ==> !ok(s[i]),
    ensures
        first_fail(s, ok) == (if i < s.len() {
            Some(i)
        } else {
            None::<int>
        }),
{
    if i < s.len() {
        assert(0 <= i < s.len() && !ok(s[i]) && forall|j: int| 0 <= j < i ==> ok(#[trigger] s[j]));
        let k = choose|k: int|
            0 <= k < s.len() && !ok(#[trigger] s[k]) && forall|j: int| 0 <= j < k ==> ok(#[trigger] s[j]);
        if k < i {
            assert(ok(s[k]));
        }
        if k > i {
            assert(ok(s[i]));
        }
    }
}

/// No byte fails when every byte passes.
pub proof fn lemma_first_fail_none(s: Seq<u8>, ok: spec_fn(u8) -> bool)
    requires
        forall|j: int| 0 <= j < s.len() ==> ok(#[trigger] s[j]),
    ensures
        first_fail(s, ok) is None,
{
    lemma_first_fail(s, ok, s.len() as int);
}

/// A byte the encoder accepts in a human-readable part: printable ASCII,
/// and not an uppercase letter.
pub open spec fn encodable_hrp_byte(b: u8) -> bool {
    33 <= b <= 126 && !(65 <= b <= 90)
}

/// A byte the decoder accepts in a human-readable part: printable ASCII.
pub open spec fn decodable_hrp_byte(b: u8) -> bool {
    33 <= b <= 126
}

/// A byte that stands for a five-bit value.
pub open spec fn charset_byte(b: u8) -> bool {
    charset_index(b) is Some
}

/// [`encodable_hrp_byte`] as a predicate value.
pub open spec fn encodable_hrp() -> spec_fn(u8) -> bool {
    |b: u8| encodable_hrp_byte(b)
}

/// [`decodable_hrp_byte`] as a predicate value.
pub open spec fn decodable_hrp() -> spec_fn(u8) -> bool {
    |b: u8| decodable_hrp_byte(b)
}

/// [`charset_byte`] as a predicate value.
pub open spec fn in_charset() -> spec_fn(u8) -> bool {
    |b: u8| charset_byte(b)
}

/// The six five-bit groups of a checksum, most significant first.
pub open spec fn checksum_groups(checksum: u32) -> Seq<u8> {
    Seq::new(6, |i: int| ((checksum >> (5 * (5 - i)) as u32) & 31u32) as u8)
}

/// The characters for a sequence of five-bit values.
pub open spec fn charset_chars(values: Seq<u8>) -> Seq<u8> {
    values.map_values(|v: u8| CHARSET@[v as int])
}

/// The Bech32m checksum of a human-readable part and data.
pub open spec fn checksum_of(hrp: Seq<u8>, data: Seq<u8>) -> u32 {
    polymod_spec(hrp_expand_spec(hrp) + data + seq![0u8, 0u8, 0u8, 0u8, 0u8, 0u8]) ^ BECH32M_CONST
}

/// The bytes of the Bech32m string for `hrp` and `data`.
pub open spec fn encoded_bytes(hrp: Seq<u8>, data: Seq<u8>) -> Seq<u8> {
    hrp + seq![49u8] + charset_chars(data) + charset_chars(checksum_groups(checksum_of(hrp, data)))
}

/// What encoding gives: the first rule broken, in the order the rules are
/// checked, or the encoded bytes.
pub open spec fn encode_spec(hrp: Seq<u8>, data: Seq<u8>) -> Result<Seq<u8>, Bech32Error> {
    if hrp.len() == 0 {
        Err(Bech32Error::EmptyHrp)
    } else if first_fail(hrp, encodable_hrp()) is Some {
        Err(Bech32Error::BadHrpChar(hrp[first_fail(hrp, encodable_hrp())->0]))
    } else if exists|i: int| 0 <= i < data.len() && #[trigger] data[i] >= 32 {
        Err(Bech32Error::BadDataChar('?'))
    } else if hrp.len() + data.len() + 7 > MAX_LENGTH {
        Err(Bech32Error::TooLong((hrp.len() + data.len() + 7) as usize))
    } else {
        Ok(encoded_bytes(hrp, data))
    }
}

/// An ASCII lowercase letter.
pub open spec fn is_lower(b: u8) -> bool {
    97 <= b <= 122
}

/// An ASCII uppercase letter.
pub open spec fn is_upper(b: u8) -> bool {
    65 <= b <= 90
}

/// ASCII lowercasing of one byte.
pub open spec fn to_lower(b: u8) -> u8 {
    if is_upper(b) {
        (b + 32) as u8
    } else {
        b
    }
}

/// Whether some byte satisfies `p`.
pub open spec fn any_byte(s: Seq<u8>, p: spec_fn(u8) -> bool) -> bool {
    exists|i: int| 0 <= i < s.len() && p(#[trigger] s[i])
}

/// Index of the last `1`, the separator.
pub open spec fn last_separator(s: Seq<u8>) -> Option<int>
    decreases s.len(),
{
    if s.len() == 0 {
        None
    } else if s.last() == 49 {
        Some(s.len() - 1)
    } else {
        last_separator(s.drop_last())
    }
}

/// The character a rejected data byte stands for: the byte itself when it
/// is ASCII, else the character of `text` that starts there.
pub open spec fn rejected_char(text: &str, lowered: Seq<u8>, index: int) -> char {
    if lowered[index] < 128 {
        lowered[index] as char
    } else {
        text@[index]
    }
}

/// What decoding `text` gives: the first rule broken, in the order the rules
/// are checked, or the lowercased human-readable part and the payload.
pub open spec fn decode_spec(text: &str) -> Result<(Seq<u8>, Seq<u8>), Bech32Error> {
    let bytes = text.spec_bytes();
    let lowered = bytes.map_values(|b: u8| to_lower(b));
    if bytes.len() > MAX_LENGTH {
        Err(Bech32Error::TooLong(bytes.len() as usize))
    } else if any_byte(bytes, |b: u8| is_lower(b)) && any_byte(bytes, |b: u8| is_upper(b)) {
        Err(Bech32Error::MixedCase)
    } else if last_separator(lowered) is None {
        Err(Bech32Error::NoSeparator)
    } else {
        let separator = last_separator(lowered)->0;
        let hrp = lowered.take(separator);
        let data = lowered.skip(separator + 1);
        if hrp.len() == 0 {
            Err(Bech32Error::EmptyHrp)
        } else if first_fail(hrp, decodable_hrp()) is Some {
            Err(Bech32Error::BadHrpChar(hrp[first_fail(hrp, decodable_hrp())->0]))
        } else if data.len() < 6 {
            Err(Bech32Error::DataTooShort(data.len() as usize))
        } else if first_fail(data, in_charset()) is Some {
            Err(
                Bech32Error::BadDataChar(
                    rejected_char(
                        text,
                        lowered,
                        separator + 1 + first_fail(data, in_charset())->0,
                    ),
                ),
            )
        } else {
            let values = data.map_values(|b: u8| charset_index(b)->0);
            let checksum = polymod_spec(hrp_expand_spec(hrp) + values);
            let as_written = polymod_spec(hrp_expand_spec(bytes.take(separator)) + values);
            if checksum == BECH32M_CONST {
                Ok((hrp, values.take(values.len() - 6)))
            } else if checksum == BECH32_CONST || as_written == BECH32_CONST {
                Err(Bech32Error::WrongVariantBech32)
            } else {
                Err(Bech32Error::BadChecksum)
            }
        }
    }
}

pub(crate) fn push_all(out: &mut Vec<u8>, bytes: &[u8])
    ensures
        final(out)@ == old(out)@ + bytes@,
{
    let mut index: usize = 0;
    while index < bytes.len()
        invariant
            index <= bytes@.len(),
            out@ == old(out)@ + bytes@.take(index as int),
        decreases bytes@.len() - index,
    {
        out.push(bytes[index]);
        index = index + 1;
        proof {
            assert(out@ =~= old(out)@ + bytes@.take(index as int));
        }
    }
    proof {
        assert(bytes@.take(bytes@.len() as int) =~= bytes@);
    }
}

/// Encodes a human-readable part and five-bit data into a Bech32m string.
pub fn encode(hrp: &str, data: &[u8]) -> (result: Result<String, Bech32Error>)
    ensures
        match encode_spec(hrp.spec_bytes(), data@) {
            Ok(bytes) => result matches Ok(text) && text@ == bytes.map_values(|b: u8| b as char),
            Err(error) => result == Err::<String, Bech32Error>(error),
        },
{
    let h = hrp.as_bytes();
    if h.len() == 0 {
        return Err(Bech32Error::EmptyHrp);
    }
    let mut index: usize = 0;
    while index < h.len()
        invariant
            index <= h@.len(),
            h@ == hrp.spec_bytes(),
            forall|j: int| 0 <= j < index ==> encodable_hrp_byte(#[trigger] h@[j]),
        decreases h@.len() - index,
    {
        let byte = h[index];
        if !(33 <= byte && byte <= 126) || (65 <= byte && byte <= 90) {
            proof {
                lemma_first_fail(h@, encodable_hrp(), index as int);
            }
            return Err(Bech32Error::BadHrpChar(byte));
        }
        index = index + 1;
    }
    proof {
        lemma_first_fail(h@, encodable_hrp(), h@.len() as int);
    }
    let mut checksum_input = hrp_expand(h);
    push_all(&mut checksum_input, data);
    let zeros: [u8; 6] = [0u8; 6];
    push_all(&mut checksum_input, &zeros);
    proof {
        assert(zeros@ =~= seq![0u8, 0u8, 0u8, 0u8, 0u8, 0u8]);
    }
    let checksum = polymod(&checksum_input) ^ BECH32M_CONST;
    let ghost groups = checksum_groups(checksum);
    proof {
        lemma_charset_index();
    }
    let mut out: Vec<u8> = Vec::new();
    push_all(&mut out, h);
    out.push(49u8);
    let ghost prefix = out@;
    let mut index: usize = 0;
    while index < data.len()
        invariant
            index <= data@.len(),
            out@ == prefix + charset_chars(data@.take(index as int)),
            forall|j: int| 0 <= j < index ==> #[trigger] data@[j] < 32,
            h@ == hrp.spec_bytes(),
            h@.len() > 0,
            first_fail(h@, encodable_hrp()) is None,
        decreases data@.len() - index,
    {
        let value = data[index];
        if value >= 32 {
            assert(data@[index as int] >= 32);
            return Err(Bech32Error::BadDataChar('?'));
        }
        out.push(CHARSET[value as usize]);
        index = index + 1;
        proof {
            assert(out@ =~= prefix + charset_chars(data@.take(index as int)));
        }
    }
    proof {
        assert(data@.take(data@.len() as int) =~= data@);
    }
    let ghost middle = out@;
    let mut index: usize = 0;
    while index < 6
        invariant
            index <= 6,
            groups == checksum_groups(checksum),
            out@ == middle + charset_chars(groups.take(index as int)),
        decreases 6 - index,
    {
        let shift: u32 = 5 * (5 - index as u32);
        let value = (checksum >> shift) & 31u32;
        proof {
            assert(value < 32) by (bit_vector)
                requires
                    value == (checksum >> shift) & 31u32,
            ;
            assert(groups[index as int] == value as u8);
        }
        out.push(CHARSET[value as usize]);
        index = index + 1;
        proof {
            assert(out@ =~= middle + charset_chars(groups.take(index as int)));
        }
    }
    proof {
        assert(groups.take(6) =~= groups);
        assert(out@ =~= encoded_bytes(h@, data@));
    }
    if out.len() > MAX_LENGTH {
        return Err(Bech32Error::TooLong(out.len()));
    }
    proof {
        assert forall|j: int| 0 <= j < out@.len() implies out@[j] < 128 by {
            if j >= h@.len() + 1 {
                let k = j - h@.len() - 1;
                if k < data@.len() {
                    assert(out@[j] == CHARSET@[data@[k] as int]);
                } else {
                    assert(groups[k - data@.len()] < 32) by {
                        let g = checksum >> (5 * (5 - (k - data@.len()))) as u32;
                        assert(g & 31u32 < 32) by (bit_vector);
                    }
                }
            }
        }
    }
    Ok(ascii_string(out))
}


/// Where the bytes of a string start with ASCII, its characters there are
/// those bytes, and the first character after them starts at the next byte.
proof fn lemma_ascii_prefix(chars: Seq<char>, k: int)
    requires
        0 <= k < encode_utf8(chars).len(),
        forall|j: int| 0 <= j < k ==> #[trigger] encode_utf8(chars)[j] < 128,
    ensures
        k < chars.len(),
        encode_utf8(chars)[k] < 128 ==> chars[k] as u32 == encode_utf8(chars)[k] as u32,
    decreases k,
{
    let bytes = encode_utf8(chars);
    let first = chars[0] as u32;
    vstd::utf8::char_is_scalar(chars[0]);
    let head = encode_scalar(first);
    assert(bytes =~= head + encode_utf8(chars.drop_first()));
    if !has_width_1_encoding(first) {
        assert(head[0] >= 128) by {
            if vstd::utf8::has_width_2_encoding(first) {
                let y = ((first >> 6u32) & 0x1Fu32) as u8;
                assert(0xC0u8 | y >= 128u8) by (bit_vector);
            } else if vstd::utf8::has_width_3_encoding(first) {
                let y = ((first >> 12u32) & 0x0Fu32) as u8;
                assert(0xE0u8 | y >= 128u8) by (bit_vector);
            } else {
                let y = ((first >> 18u32) & 0x7u32) as u8;
                assert(0xF0u8 | y >= 128u8) by (bit_vector);
            }
        }
    }
    if k == 0 {
        if bytes[0] < 128 {
            assert(has_width_1_encoding(first));
            assert(first & 0x7Fu32 == first) by (bit_vector)
                requires
                    first <= 0x7F,
            ;
        }
    } else {
        assert(bytes[0] < 128);
        assert(head.len() == 1);
        let rest = chars.drop_first();
        assert forall|j: int| 0 <= j < k - 1 implies #[trigger] encode_utf8(rest)[j] < 128 by {
            assert(encode_utf8(rest)[j] == bytes[j + 1]);
        }
        assert(encode_utf8(rest)[k - 1] == bytes[k]);
        lemma_ascii_prefix(rest, k - 1);
    }
}

proof fn lemma_last_separator(s: Seq<u8>)
    ensures
        last_separator(s) matches Some(i) ==> 0 <= i < s.len() && s[i] == 49,
    decreases s.len(),
{
    if s.len() > 0 && s.last() != 49 {
        lemma_last_separator(s.drop_last());
    }
}

fn find_separator(lowered: &[u8]) -> (separator: Option<usize>)
    ensures
        separator matches Some(i) ==> last_separator(lowered@) == Some(i as int),
        separator is None ==> last_separator(lowered@) is None,
{
    let mut end: usize = lowered.len();
    proof {
        assert(lowered@.take(end as int) =~= lowered@);
    }
    while end > 0
        invariant
            end <= lowered@.len(),
            last_separator(lowered@) == last_separator(lowered@.take(end as int)),
        decreases end,
    {
        if lowered[end - 1] == 49u8 {
            return Some(end - 1);
        }
        proof {
            assert(lowered@.take(end as int).drop_last() =~= lowered@.take(end - 1));
        }
        end = end - 1;
    }
    None
}

/// Decodes a Bech32m string into its human-readable part, lowercased, and
/// its five-bit data without the six checksum characters.
pub fn decode(text: &str) -> (result: Result<(String, Vec<u8>), Bech32Error>)
    ensures
        match decode_spec(text) {
            Ok((hrp, data)) => result matches Ok((h, d)) && h@ == hrp.map_values(
                |b: u8| b as char,
            ) && d@ == data,
            Err(error) => result == Err::<(String, Vec<u8>), Bech32Error>(error),
        },
{
    let bytes = text.as_bytes();
    let n = bytes.len();
    if n > MAX_LENGTH {
        return Err(Bech32Error::TooLong(n));
    }
    let ghost lowered_spec = bytes@.map_values(|b: u8| to_lower(b));
    let mut has_lower = false;
    let mut has_upper = false;
    let mut lowered: Vec<u8> = Vec::new();
    let mut index: usize = 0;
    while index < n
        invariant
            index <= n,
            n == bytes@.len(),
            lowered_spec == bytes@.map_values(|b: u8| to_lower(b)),
            has_lower == any_byte(bytes@.take(index as int), |b: u8| is_lower(b)),
            has_upper == any_byte(bytes@.take(index as int), |b: u8| is_upper(b)),
            lowered@ == lowered_spec.take(index as int),
        decreases n - index,
    {
        let byte = bytes[index];
        let ghost before = bytes@.take(index as int);
        let ghost after = bytes@.take(index + 1);
        proof {
            assert(after =~= before.push(byte));
            if any_byte(before, |b: u8| is_lower(b)) {
                let j = choose|j: int| 0 <= j < before.len() && is_lower(#[trigger] before[j]);
                assert(after[j] == before[j]);
            }
            if any_byte(before, |b: u8| is_upper(b)) {
                let j = choose|j: int| 0 <= j < before.len() && is_upper(#[trigger] before[j]);
                assert(after[j] == before[j]);
            }
            if any_byte(after, |b: u8| is_lower(b)) && !is_lower(byte) {
                let j = choose|j: int| 0 <= j < after.len() && is_lower(#[trigger] after[j]);
                assert(before[j] == after[j]);
            }
            if any_byte(after, |b: u8| is_upper(b)) && !is_upper(byte) {
                let j = choose|j: int| 0 <= j < after.len() && is_upper(#[trigger] after[j]);
                assert(before[j] == after[j]);
            }
            if is_lower(byte) {
                assert(after[index as int] == byte);
            }
            if is_upper(byte) {
                assert(after[index as int] == byte);
            }
        }
        if 97 <= byte && byte <= 122 {
            has_lower = true;
        }
        if 65 <= byte && byte <= 90 {
            has_upper = true;
            lowered.push(byte + 32);
        } else {
            lowered.push(byte);
        }
        index = index + 1;
        proof {
            assert(lowered@ =~= lowered_spec.take(index as int));
        }
    }
    proof {
        assert(bytes@.take(n as int) =~= bytes@);
        assert(lowered@ =~= lowered_spec);
    }
    if has_lower && has_upper {
        return Err(Bech32Error::MixedCase);
    }
    let separator = match find_separator(lowered.as_slice()) {
        Some(separator) => separator,
        None => {
            return Err(Bech32Error::NoSeparator);
        },
    };
    proof {
        lemma_last_separator(lowered@);
    }
    let ghost hrp_spec = lowered@.take(separator as int);
    let ghost data_spec = lowered@.skip(separator + 1);
    if separator == 0 {
        return Err(Bech32Error::EmptyHrp);
    }
    let mut hrp: Vec<u8> = Vec::new();
    let mut index: usize = 0;
    while index < separator
        invariant
            index <= separator < lowered@.len(),
            hrp_spec == lowered@.take(separator as int),
            hrp@ == hrp_spec.take(index as int),
            bytes@ == text.spec_bytes(),
            n == bytes@.len(),
            n <= MAX_LENGTH,
            lowered@ == bytes@.map_values(|b: u8| to_lower(b)),
            !(any_byte(bytes@, |b: u8| is_lower(b)) && any_byte(bytes@, |b: u8| is_upper(b))),
            last_separator(lowered@) == Some(separator as int),

            forall|j: int| 0 <= j < index ==> decodable_hrp_byte(#[trigger] hrp_spec[j]),
        decreases separator - index,
    {
        let byte = lowered[index];
        if !(33 <= byte && byte <= 126) {
            proof {
                lemma_first_fail(hrp_spec, decodable_hrp(), index as int);
            }
            return Err(Bech32Error::BadHrpChar(byte));
        }
        hrp.push(byte);
        index = index + 1;
        proof {
            assert(hrp@ =~= hrp_spec.take(index as int));
        }
    }
    proof {
        lemma_first_fail(hrp_spec, decodable_hrp(), separator as int);
        assert(hrp@ =~= hrp_spec);
    }
    let data_len = n - separator - 1;
    if data_len < 6 {
        return Err(Bech32Error::DataTooShort(data_len));
    }
    proof {
        lemma_charset_index();
    }
    let mut values: Vec<u8> = Vec::new();
    let mut index: usize = 0;
    while index < data_len
        invariant
            index <= data_len,
            data_len == n - separator - 1,
            n == lowered@.len(),
            bytes@ == text.spec_bytes(),
            n == bytes@.len(),
            n <= MAX_LENGTH,
            lowered@ == bytes@.map_values(|b: u8| to_lower(b)),
            !(any_byte(bytes@, |b: u8| is_lower(b)) && any_byte(bytes@, |b: u8| is_upper(b))),
            last_separator(lowered@) == Some(separator as int),
            separator < n,
            data_spec == lowered@.skip(separator + 1),
            hrp_spec == lowered@.take(separator as int),
            forall|j: int| 0 <= j < separator ==> decodable_hrp_byte(#[trigger] hrp_spec[j]),
            lowered@[separator as int] == 49,
            separator > 0,
            data_len >= 6,
            first_fail(hrp_spec, decodable_hrp()) is None,
            forall|j: int| 0 <= j < index ==> charset_byte(#[trigger] data_spec[j]),
            values@ == data_spec.take(index as int).map_values(|b: u8| charset_index(b)->0),
        decreases data_len - index,
    {
        let byte = lowered[separator + 1 + index];
        assert(data_spec[index as int] == byte);
        match charset_value(byte) {
            Some(value) => {
                values.push(value);
            },
            None => {
                proof {
                    lemma_first_fail(data_spec, in_charset(), index as int);
                }
                let character = if byte < 128 {
                    byte as char
                } else {
                    let position = separator + 1 + index;
                    proof {
                        assert forall|j: int| 0 <= j < position implies #[trigger] bytes@[j]
                            < 128 by {
                            if j < separator {
                                assert(hrp_spec[j] == lowered@[j]);
                            } else if j > separator {
                                assert(data_spec[j - separator - 1] == lowered@[j]);
                                assert(charset_byte(data_spec[j - separator - 1]));
                            }
                        }
                        lemma_ascii_prefix(text@, position as int);
                    }
                    text.get_char(position)
                };
                return Err(Bech32Error::BadDataChar(character));
            },
        }
        index = index + 1;
        proof {
            assert(values@ =~= data_spec.take(index as int).map_values(
                |b: u8| charset_index(b)->0,
            ));
        }
    }
    proof {
        lemma_first_fail(data_spec, in_charset(), data_len as int);
        assert(data_spec.take(data_len as int) =~= data_spec);
    }
    let mut checksum_input = hrp_expand(hrp.as_slice());
    push_all(&mut checksum_input, values.as_slice());
    let checksum = polymod(checksum_input.as_slice());
    if checksum == BECH32M_CONST {
        let payload_len = values.len() - 6;
        values.truncate(payload_len);
        let hrp_text = ascii_string(hrp);
        return Ok((hrp_text, values));
    }
    if checksum == BECH32_CONST {
        return Err(Bech32Error::WrongVariantBech32);
    }
    // A string checksummed as Bech32 over its human-readable part as typed,
    // uppercase included, is still a Bech32 string rather than a typo.
    let written = vstd::slice::slice_subrange(bytes, 0, separator);
    let mut written_input = hrp_expand(written);
    push_all(&mut written_input, values.as_slice());
    if polymod(written_input.as_slice()) == BECH32_CONST {
        Err(Bech32Error::WrongVariantBech32)
    } else {
        Err(Bech32Error::BadChecksum)
    }
}


/// A regrouped value as a byte; one too wide for a byte reads as zero.
pub open spec fn group_byte(group: u32) -> u8 {
    if group < 256 {
        group as u8
    } else {
        0
    }
}

/// The largest `to`-bit group.
pub open spec fn group_mask(to: u32) -> u32 {
    ((1u32 << to) - 1) as u32
}

/// Emits every whole `to`-bit group held in the low `bits` bits of the
/// accumulator, most significant first; gives the bits left and the output.
pub open spec fn emit_groups(accumulator: u32, bits: u32, to: u32, out: Seq<u8>) -> (u32, Seq<u8>)
    decreases bits,
{
    if to == 0 || bits < to {
        (bits, out)
    } else {
        let left = (bits - to) as u32;
        emit_groups(
            accumulator,
            left,
            to,
            out.push(group_byte((accumulator >> left) & group_mask(to))),
        )
    }
}

/// The accumulator, the bits it holds, and the output, after feeding
/// `data` in `from`-bit groups; the accumulator keeps its low sixteen bits.
pub open spec fn regroup(data: Seq<u8>, from: u32, to: u32) -> (u32, u32, Seq<u8>)
    decreases data.len(),
{
    if data.len() == 0 {
        (0, 0, Seq::empty())
    } else {
        let previous = regroup(data.drop_last(), from, to);
        let accumulator = ((previous.0 << from) | (data.last() as u32)) & 0xffffu32;
        let emitted = emit_groups(accumulator, (previous.1 + from) as u32, to, previous.2);
        (accumulator, emitted.0, emitted.1)
    }
}

/// What regrouping gives: with `pad`, a final partial group zero-filled;
/// without, the leftover bits must be fewer than `from` and all zero.
pub open spec fn convert_bits_spec(data: Seq<u8>, from: u32, to: u32, pad: bool) -> Result<
    Seq<u8>,
    Bech32Error,
> {
    let state = regroup(data, from, to);
    let tail = (state.0 << (to - state.1) as u32) & group_mask(to);
    if pad {
        if state.1 > 0 {
            Ok(state.2.push(group_byte(tail)))
        } else {
            Ok(state.2)
        }
    } else if state.1 >= from || tail != 0 {
        Err(Bech32Error::BadPadding)
    } else {
        Ok(state.2)
    }
}

proof fn lemma_emit_groups_left(accumulator: u32, bits: u32, to: u32, out: Seq<u8>)
    requires
        to > 0,
    ensures
        emit_groups(accumulator, bits, to, out).0 < to,
    decreases bits,
{
    if bits >= to {
        let left = (bits - to) as u32;
        lemma_emit_groups_left(
            accumulator,
            left,
            to,
            out.push(group_byte((accumulator >> left) & group_mask(to))),
        );
    }
}

/// Regroups `data` from `from_bits`-wide groups into `to_bits`-wide groups.
///
/// With `pad`, a final partial group is zero-padded; without, a final
/// partial group must be shorter than `from_bits` and all zero.
pub fn convert_bits(data: &[u8], from_bits: u32, to_bits: u32, pad: bool) -> (result: Result<
    Vec<u8>,
    Bech32Error,
>)
    requires
        from_bits < 32,
        0 < to_bits < 32,
    ensures
        match convert_bits_spec(data@, from_bits, to_bits, pad) {
            Ok(groups) => result matches Ok(out) && out@ == groups,
            Err(error) => result == Err::<Vec<u8>, Bech32Error>(error),
        },
{
    assert((1u32 << to_bits) >= 1u32) by (bit_vector)
        requires
            to_bits < 32,
    ;
    let max_value: u32 = (1u32 << to_bits) - 1;
    let mut accumulator: u32 = 0;
    let mut bits: u32 = 0;
    let mut out: Vec<u8> = Vec::new();
    let mut index: usize = 0;
    proof {
        assert(data@.take(0) =~= Seq::<u8>::empty());
    }
    while index < data.len()
        invariant
            from_bits < 32,
            0 < to_bits < 32,
            max_value == group_mask(to_bits),
            index <= data@.len(),
            (accumulator, bits, out@) == regroup(data@.take(index as int), from_bits, to_bits),
            bits < to_bits,
        decreases data@.len() - index,
    {
        proof {
            assert(data@.take(index + 1).drop_last() =~= data@.take(index as int));
            lemma_emit_groups_left(
                ((accumulator << from_bits) | (data@[index as int] as u32)) & 0xffffu32,
                (bits + from_bits) as u32,
                to_bits,
                out@,
            );
        }
        accumulator = ((accumulator << from_bits) | (data[index] as u32)) & 0xffffu32;
        bits = bits + from_bits;
        let ghost target = emit_groups(accumulator, bits, to_bits, out@);
        while bits >= to_bits
            invariant
                0 < to_bits < 32,
                max_value == group_mask(to_bits),
                emit_groups(accumulator, bits, to_bits, out@) == target,
                bits < to_bits + 32,
            decreases bits,
        {
            bits = bits - to_bits;
            let group = (accumulator >> bits) & max_value;
            if group < 256 {
                out.push(group as u8);
            } else {
                out.push(0u8);
            }
        }
        index = index + 1;
    }
    proof {
        assert(data@.take(data@.len() as int) =~= data@);
    }
    let tail = (accumulator << (to_bits - bits)) & max_value;
    if pad {
        if bits > 0 {
            if tail < 256 {
                out.push(tail as u8);
            } else {
                out.push(0u8);
            }
        }
    } else if bits >= from_bits || tail != 0 {
        return Err(Bech32Error::BadPadding);
    }
    Ok(out)
}


proof fn lemma_step_value(c: u32, v: u8)
    by (bit_vector)
    requires
        v < 32,
    ensures
        polymod_step(c, v) == polymod_step(c, 0) ^ (v as u32),
{
}

proof fn lemma_step_linear(a: u32, b: u32)
    by (bit_vector)
    ensures
        polymod_step(a ^ b, 0) == polymod_step(a, 0) ^ polymod_step(b, 0),
{
}

proof fn lemma_step_small(x: u32)
    by (bit_vector)
    requires
        x < 0x200_0000,
    ensures
        polymod_step(x, 0) == x << 5u32,
{
}

proof fn lemma_step_bound(c: u32, v: u8)
    by (bit_vector)
    requires
        v < 32,
    ensures
        polymod_step(c, v) < 0x4000_0000,
{
}


/// Five-bit groups packed into one integer, the first group highest.
pub open spec fn pack_groups(groups: Seq<u8>) -> u32
    decreases groups.len(),
{
    if groups.len() == 0 {
        0
    } else {
        (pack_groups(groups.drop_last()) << 5u32) | (groups.last() as u32)
    }
}

/// `n` zero groups.
pub open spec fn zero_groups(n: nat) -> Seq<u8> {
    Seq::new(n, |i: int| 0u8)
}

proof fn lemma_polymod_concat(checksum: u32, a: Seq<u8>, b: Seq<u8>)
    ensures
        polymod_from(checksum, a + b) == polymod_from(polymod_from(checksum, a), b),
    decreases b.len(),
{
    if b.len() == 0 {
        assert(a + b =~= a);
    } else {
        assert((a + b).drop_last() =~= a + b.drop_last());
        assert((a + b).last() == b.last());
        lemma_polymod_concat(checksum, a, b.drop_last());
    }
}

/// The checksum is affine in the groups fed to it: feeding groups is
/// feeding zeros, then adding the groups packed.
proof fn lemma_polymod_affine(checksum: u32, groups: Seq<u8>)
    requires
        groups.len() <= 6,
        forall|i: int| 0 <= i < groups.len() ==> #[trigger] groups[i] < 32,
    ensures
        polymod_from(checksum, groups) == polymod_from(checksum, zero_groups(groups.len()))
            ^ pack_groups(groups),
        pack_groups(groups) < (1u32 << (5 * groups.len()) as u32),
    decreases groups.len(),
{
    if groups.len() == 0 {
        assert(zero_groups(0) =~= Seq::<u8>::empty());
        assert(polymod_from(checksum, zero_groups(0)) ^ 0u32 == polymod_from(checksum, zero_groups(0))) by (bit_vector);
        assert(0u32 < (1u32 << 0u32)) by (bit_vector);
    } else {
        let shorter = groups.drop_last();
        let v = groups.last();
        let n = groups.len();
        assert forall|i: int| 0 <= i < shorter.len() implies #[trigger] shorter[i] < 32 by {
            assert(shorter[i] == groups[i]);
        }
        lemma_polymod_affine(checksum, shorter);
        assert(zero_groups(n).drop_last() =~= zero_groups((n - 1) as nat));
        let z = polymod_from(checksum, zero_groups((n - 1) as nat));
        let p = pack_groups(shorter);
        let k = (5 * (n - 1)) as u32;
        assert(v < 32);
        assert(p < 0x200_0000) by {
            assert(p < (1u32 << k) && k <= 25 ==> p < 0x200_0000) by (bit_vector);
        }
        lemma_step_value(z ^ p, v);
        lemma_step_linear(z, p);
        lemma_step_small(p);
        let zz = polymod_step(z, 0);
        assert(polymod_step(z ^ p, v) == zz ^ ((p << 5u32) | (v as u32))) by {
            assert((zz ^ (p << 5u32)) ^ (v as u32) == zz ^ ((p << 5u32) | (v as u32))) by (bit_vector)
                requires
                    v < 32,
            ;
        }
        assert(zero_groups(n).last() == 0u8);
        let k2 = (5 * n) as u32;
        assert(((p << 5u32) | (v as u32)) < (1u32 << k2)) by (bit_vector)
            requires
                p < (1u32 << k),
                k <= 25,
                k2 == k + 5,
                v < 32,
        ;
    }
}

proof fn lemma_pack_checksum_groups(checksum: u32)
    requires
        checksum < 0x4000_0000,
    ensures
        pack_groups(checksum_groups(checksum)) == checksum,
{
    let g = checksum_groups(checksum);
    reveal_with_fuel(pack_groups, 7);
    assert(g.take(5).drop_last() =~= g.take(4));
    assert(g.take(4).drop_last() =~= g.take(3));
    assert(g.take(3).drop_last() =~= g.take(2));
    assert(g.take(2).drop_last() =~= g.take(1));
    assert(g.take(1).drop_last() =~= g.take(0));
    assert(g.drop_last() =~= g.take(5));
    let g0 = (checksum >> 25u32) & 31u32;
    let g1 = (checksum >> 20u32) & 31u32;
    let g2 = (checksum >> 15u32) & 31u32;
    let g3 = (checksum >> 10u32) & 31u32;
    let g4 = (checksum >> 5u32) & 31u32;
    let g5 = (checksum >> 0u32) & 31u32;
    assert(g0 < 32 && g1 < 32 && g2 < 32 && g3 < 32 && g4 < 32 && g5 < 32) by (bit_vector)
        requires
            g0 == (checksum >> 25u32) & 31u32,
            g1 == (checksum >> 20u32) & 31u32,
            g2 == (checksum >> 15u32) & 31u32,
            g3 == (checksum >> 10u32) & 31u32,
            g4 == (checksum >> 5u32) & 31u32,
            g5 == (checksum >> 0u32) & 31u32,
    ;
    assert(g[0] as u32 == g0 && g[1] as u32 == g1 && g[2] as u32 == g2);
    assert(g[3] as u32 == g3 && g[4] as u32 == g4 && g[5] as u32 == g5);
    assert(pack_groups(g.take(0)) == 0);
    assert(pack_groups(g.take(1)) == (0u32 << 5u32) | g0);
    assert(pack_groups(g.take(2)) == (pack_groups(g.take(1)) << 5u32) | g1);
    assert(pack_groups(g.take(3)) == (pack_groups(g.take(2)) << 5u32) | g2);
    assert(pack_groups(g.take(4)) == (pack_groups(g.take(3)) << 5u32) | g3);
    assert(pack_groups(g.take(5)) == (pack_groups(g.take(4)) << 5u32) | g4);
    assert(pack_groups(g) == (pack_groups(g.take(5)) << 5u32) | g5);
    assert((0u32 << 5u32) | g0 == g0) by (bit_vector);
    let q2 = (g0 << 5u32) | g1;
    let q3 = (q2 << 5u32) | g2;
    let q4 = (q3 << 5u32) | g3;
    let q5 = (q4 << 5u32) | g4;
    assert((q5 << 5u32) | g5 == checksum) by (bit_vector)
        requires
            q2 == (g0 << 5u32) | g1,
            q3 == (q2 << 5u32) | g2,
            q4 == (q3 << 5u32) | g3,
            q5 == (q4 << 5u32) | g4,
            checksum < 0x4000_0000,
            g0 == (checksum >> 25u32) & 31u32,
            g1 == (checksum >> 20u32) & 31u32,
            g2 == (checksum >> 15u32) & 31u32,
            g3 == (checksum >> 10u32) & 31u32,
            g4 == (checksum >> 5u32) & 31u32,
            g5 == (checksum >> 0u32) & 31u32,
    ;
}

/// Appending the six checksum groups computed over `prefix` makes the
/// checksum polynomial come out to the Bech32m constant.
pub proof fn lemma_checksum_closes(prefix: Seq<u8>)
    ensures
        polymod_spec(
            prefix + checksum_groups(
                polymod_spec(prefix + seq![0u8, 0u8, 0u8, 0u8, 0u8, 0u8]) ^ BECH32M_CONST,
            ),
        ) == BECH32M_CONST,
{
    let zeros = seq![0u8, 0u8, 0u8, 0u8, 0u8, 0u8];
    assert(zeros =~= zero_groups(6));
    let r = polymod_from(1, prefix);
    lemma_polymod_concat(1, prefix, zeros);
    let z6 = polymod_from(r, zeros);
    assert(zeros.drop_last() =~= zero_groups(5));
    lemma_step_bound(polymod_from(r, zero_groups(5)), 0);
    let checksum = z6 ^ BECH32M_CONST;
    assert(checksum < 0x4000_0000) by (bit_vector)
        requires
            z6 < 0x4000_0000,
            checksum == z6 ^ 0x2bc8_30a3u32,
    ;
    let groups = checksum_groups(checksum);
    assert forall|i: int| 0 <= i < groups.len() implies #[trigger] groups[i] < 32 by {
        let shift = (5 * (5 - i)) as u32;
        let g = (checksum >> shift) & 31u32;
        assert(g < 32) by (bit_vector)
            requires
                g == (checksum >> shift) & 31u32,
        ;
    }
    lemma_polymod_affine(r, groups);
    lemma_pack_checksum_groups(checksum);
    lemma_polymod_concat(1, prefix, groups);
    assert(z6 ^ (z6 ^ 0x2bc8_30a3u32) == 0x2bc8_30a3u32) by (bit_vector);
}


/// The UTF-8 encoding of ASCII characters is their bytes.
pub proof fn lemma_ascii_utf8(bytes: Seq<u8>)
    requires
        forall|i: int| 0 <= i < bytes.len() ==> #[trigger] bytes[i] < 128,
    ensures
        encode_utf8(bytes.map_values(|b: u8| b as char)) == bytes,
    decreases bytes.len(),
{
    let chars = bytes.map_values(|b: u8| b as char);
    if bytes.len() > 0 {
        let rest = bytes.drop_first();
        assert forall|i: int| 0 <= i < rest.len() implies #[trigger] rest[i] < 128 by {
            assert(rest[i] == bytes[i + 1]);
        }
        lemma_ascii_utf8(rest);
        assert(chars.drop_first() =~= rest.map_values(|b: u8| b as char));
        let b = bytes[0];
        let x = chars[0] as u32;
        assert(x == b as u32);
        assert((x & 0x7Fu32) as u8 == b) by (bit_vector)
            requires
                x == b as u32,
                b < 128,
        ;
        assert(encode_scalar(x) =~= seq![b]);
        assert(encode_utf8(chars) =~= bytes);
    }
}

/// Every charset character is a lowercase letter or a digit other than `1`.
proof fn lemma_charset_shape()
    ensures
        forall|v: int| 0 <= v < 32 ==> {
            let c = #[trigger] CHARSET@[v];
            &&& c < 128
            &&& c != 49
            &&& !is_upper(c)
            &&& 33 <= c <= 126
        },
{
}

proof fn lemma_last_separator_at(s: Seq<u8>, i: int)
    requires
        0 <= i < s.len(),
        s[i] == 49,
        forall|j: int| i < j < s.len() ==> #[trigger] s[j] != 49,
    ensures
        last_separator(s) == Some(i),
    decreases s.len(),
{
    if s.len() - 1 > i {
        assert(s.last() != 49);
        assert forall|j: int| i < j < s.drop_last().len() implies #[trigger] s.drop_last()[j] != 49 by {
            assert(s.drop_last()[j] == s[j]);
        }
        lemma_last_separator_at(s.drop_last(), i);
    }
}

/// Decoding ignores case: a string that decodes, written again in one case
/// throughout (its uppercase, say), decodes to the same human-readable part
/// and payload.
pub proof fn lemma_decode_ignores_case(text: &str, recased: &str)
    requires
        decode_spec(text) is Ok,
        recased.spec_bytes().map_values(|b: u8| to_lower(b)) == text.spec_bytes().map_values(
            |b: u8| to_lower(b),
        ),
        !(any_byte(recased.spec_bytes(), |b: u8| is_lower(b)) && any_byte(
            recased.spec_bytes(),
            |b: u8| is_upper(b),
        )),
    ensures
        decode_spec(recased) == decode_spec(text),
{
    let a = text.spec_bytes();
    let b = recased.spec_bytes();
    assert(a.map_values(|x: u8| to_lower(x)).len() == b.map_values(|x: u8| to_lower(x)).len());
    assert(a.len() == b.len());
}

/// Decoding what encoding produced gives back the human-readable part and
/// the data: for every `hrp` and `data` that encode, the string made of the
/// encoded bytes decodes to exactly them.
pub proof fn lemma_decode_encode(text: &str, hrp: Seq<u8>, data: Seq<u8>)
    requires
        encode_spec(hrp, data) is Ok,
        text@ == encode_spec(hrp, data)->Ok_0.map_values(|b: u8| b as char),
    ensures
        decode_spec(text) == Ok::<(Seq<u8>, Seq<u8>), Bech32Error>((hrp, data)),
{
    let bytes = encoded_bytes(hrp, data);
    let checksum = checksum_of(hrp, data);
    let groups = checksum_groups(checksum);
    let h = hrp.len();
    let d = data.len();
    lemma_charset_index();
    lemma_charset_shape();
    lemma_first_fail(hrp, encodable_hrp(), h as int);
    assert(!(exists|i: int| 0 <= i < data.len() && #[trigger] data[i] >= 32));
    assert forall|i: int| 0 <= i < groups.len() implies #[trigger] groups[i] < 32 by {
        let shift = (5 * (5 - i)) as u32;
        let g = (checksum >> shift) & 31u32;
        assert(g < 32) by (bit_vector)
            requires
                g == (checksum >> shift) & 31u32,
        ;
    }
    assert(bytes.len() == h + 1 + d + 6);
    // Where each byte comes from.
    assert forall|j: int| 0 <= j < bytes.len() implies {
        &&& #[trigger] bytes[j] < 128
        &&& !is_upper(bytes[j])
        &&& (j > h ==> bytes[j] != 49 && charset_byte(bytes[j]))
        &&& (j > h && j < h + 1 + d ==> charset_index(bytes[j])->0 == data[j - h - 1])
        &&& (j >= h + 1 + d ==> charset_index(bytes[j])->0 == groups[j - h - 1 - d])
    } by {
        if j < h {
            assert(bytes[j] == hrp[j]);
            assert(encodable_hrp_byte(hrp[j]));
        } else if j == h {
            assert(bytes[j] == 49);
        } else if j < h + 1 + d {
            assert(bytes[j] == CHARSET@[data[j - h - 1] as int]);
        } else {
            assert(bytes[j] == CHARSET@[groups[j - h - 1 - d] as int]);
        }
    }
    lemma_ascii_utf8(bytes);
    assert(text.spec_bytes() == bytes);
    assert(!any_byte(bytes, |b: u8| is_upper(b)));
    let lowered = bytes.map_values(|b: u8| to_lower(b));
    assert(lowered =~= bytes);
    lemma_last_separator_at(bytes, h as int);
    assert(bytes.take(h as int) =~= hrp);
    let rest = bytes.skip(h + 1 as int);
    assert forall|j: int| 0 <= j < h implies decodable_hrp_byte(#[trigger] hrp[j]) by {
        assert(encodable_hrp_byte(hrp[j]));
    }
    lemma_first_fail(hrp, decodable_hrp(), h as int);
    assert forall|j: int| 0 <= j < rest.len() implies charset_byte(#[trigger] rest[j]) by {
        assert(rest[j] == bytes[j + h + 1]);
    }
    lemma_first_fail(rest, in_charset(), rest.len() as int);
    let values = rest.map_values(|b: u8| charset_index(b)->0);
    assert(values =~= data + groups) by {
        assert forall|j: int| 0 <= j < values.len() implies values[j] == (data + groups)[j] by {
            assert(rest[j] == bytes[j + h + 1]);
        }
    }
    lemma_checksum_closes(hrp_expand_spec(hrp) + data);
    assert(hrp_expand_spec(hrp) + values =~= (hrp_expand_spec(hrp) + data) + groups);
    assert((hrp_expand_spec(hrp) + data) + seq![0u8, 0u8, 0u8, 0u8, 0u8, 0u8] =~= hrp_expand_spec(hrp)
        + data + seq![0u8, 0u8, 0u8, 0u8, 0u8, 0u8]);
    assert(values.take(values.len() - 6) =~= data);
}


proof fn lemma_checksum_groups_of_pack(g: Seq<u8>)
    requires
        g.len() == 6,
        forall|i: int| 0 <= i < 6 ==> #[trigger] g[i] < 32,
    ensures
        checksum_groups(pack_groups(g)) == g,
{
    reveal_with_fuel(pack_groups, 7);
    assert(g.take(5).drop_last() =~= g.take(4));
    assert(g.take(4).drop_last() =~= g.take(3));
    assert(g.take(3).drop_last() =~= g.take(2));
    assert(g.take(2).drop_last() =~= g.take(1));
    assert(g.take(1).drop_last() =~= g.take(0));
    assert(g.drop_last() =~= g.take(5));
    let g0 = g[0] as u32;
    let g1 = g[1] as u32;
    let g2 = g[2] as u32;
    let g3 = g[3] as u32;
    let g4 = g[4] as u32;
    let g5 = g[5] as u32;
    assert(pack_groups(g.take(0)) == 0);
    assert(pack_groups(g.take(1)) == (0u32 << 5u32) | g0);
    assert(pack_groups(g.take(2)) == (pack_groups(g.take(1)) << 5u32) | g1);
    assert(pack_groups(g.take(3)) == (pack_groups(g.take(2)) << 5u32) | g2);
    assert(pack_groups(g.take(4)) == (pack_groups(g.take(3)) << 5u32) | g3);
    assert(pack_groups(g.take(5)) == (pack_groups(g.take(4)) << 5u32) | g4);
    assert(pack_groups(g) == (pack_groups(g.take(5)) << 5u32) | g5);
    let p = pack_groups(g);
    let p1 = (0u32 << 5u32) | g0;
    let p2 = (p1 << 5u32) | g1;
    let p3 = (p2 << 5u32) | g2;
    let p4 = (p3 << 5u32) | g3;
    let p5 = (p4 << 5u32) | g4;
    assert({
        &&& (p >> 25u32) & 31u32 == g0
        &&& (p >> 20u32) & 31u32 == g1
        &&& (p >> 15u32) & 31u32 == g2
        &&& (p >> 10u32) & 31u32 == g3
        &&& (p >> 5u32) & 31u32 == g4
        &&& (p >> 0u32) & 31u32 == g5
    }) by (bit_vector)
        requires
            p1 == (0u32 << 5u32) | g0,
            p2 == (p1 << 5u32) | g1,
            p3 == (p2 << 5u32) | g2,
            p4 == (p3 << 5u32) | g3,
            p5 == (p4 << 5u32) | g4,
            p == (p5 << 5u32) | g5,
            g0 < 32,
            g1 < 32,
            g2 < 32,
            g3 < 32,
            g4 < 32,
            g5 < 32,
    ;
    assert(checksum_groups(p) =~= g);
}

/// Encoding what decoding produced gives back the string, lowercased: for
/// every string that decodes, re-encoding its parts yields its bytes with
/// ASCII uppercase folded to lowercase.
pub proof fn lemma_encode_decode(text: &str)
    requires
        decode_spec(text) is Ok,
    ensures
        encode_spec(decode_spec(text)->Ok_0.0, decode_spec(text)->Ok_0.1) == Ok::<
            Seq<u8>,
            Bech32Error,
        >(text.spec_bytes().map_values(|b: u8| to_lower(b))),
{
    let bytes = text.spec_bytes();
    let lowered = bytes.map_values(|b: u8| to_lower(b));
    let separator = last_separator(lowered)->0;
    lemma_last_separator(lowered);
    let hrp = lowered.take(separator);
    let rest = lowered.skip(separator + 1);
    lemma_charset_index();
    lemma_charset_shape();
    lemma_first_fail(hrp, decodable_hrp(), hrp.len() as int);
    lemma_first_fail(rest, in_charset(), rest.len() as int);
    let values = rest.map_values(|b: u8| charset_index(b)->0);
    let data = values.take(values.len() - 6);
    let tail = values.skip(values.len() - 6);
    assert(values =~= data + tail);
    assert forall|j: int| 0 <= j < hrp.len() implies encodable_hrp_byte(#[trigger] hrp[j]) by {
        assert(decodable_hrp_byte(hrp[j]));
        assert(hrp[j] == to_lower(bytes[j]));
    }
    lemma_first_fail(hrp, encodable_hrp(), hrp.len() as int);
    assert forall|j: int| 0 <= j < values.len() implies #[trigger] values[j] < 32 by {
        assert(charset_byte(rest[j]));
    }
    assert(!(exists|i: int| 0 <= i < data.len() && #[trigger] data[i] >= 32)) by {
        assert forall|i: int| 0 <= i < data.len() implies #[trigger] data[i] < 32 by {
            assert(data[i] == values[i]);
        }
    }
    assert forall|i: int| 0 <= i < 6 implies #[trigger] tail[i] < 32 by {
        assert(tail[i] == values[i + values.len() - 6]);
    }
    // The tail is the checksum of the rest.
    let prefix = hrp_expand_spec(hrp) + data;
    let r = polymod_from(1, prefix);
    assert(hrp_expand_spec(hrp) + values =~= prefix + tail);
    lemma_polymod_concat(1, prefix, tail);
    lemma_polymod_affine(r, tail);
    let zeros = seq![0u8, 0u8, 0u8, 0u8, 0u8, 0u8];
    assert(zeros =~= zero_groups(6));
    lemma_polymod_concat(1, prefix, zeros);
    let z6 = polymod_from(r, zeros);
    let p = pack_groups(tail);
    assert(z6 ^ p == 0x2bc8_30a3u32 ==> p == z6 ^ 0x2bc8_30a3u32) by (bit_vector);
    lemma_checksum_groups_of_pack(tail);
    assert(checksum_groups(checksum_of(hrp, data)) == tail);
    let encoded = encoded_bytes(hrp, data);
    assert(encoded =~= lowered) by {
        assert forall|j: int| 0 <= j < lowered.len() implies encoded[j] == lowered[j] by {
            if j < separator {
                assert(encoded[j] == hrp[j]);
            } else if j == separator {
            } else {
                let k = j - separator - 1;
                assert(rest[k] == lowered[j]);
                assert(charset_byte(rest[k]));
                if k < data.len() {
                    assert(encoded[j] == CHARSET@[data[k] as int]);
                    assert(data[k] == values[k]);
                } else {
                    assert(encoded[j] == CHARSET@[tail[k - data.len()] as int]);
                    assert(tail[k - data.len()] == values[k]);
                }
            }
        }
    }
}


proof fn lemma_emit_groups_shape(accumulator: u32, bits: u32, to: u32, out: Seq<u8>)
    requires
        0 < to <= 8,
    ensures
        ({
            let emitted = emit_groups(accumulator, bits, to, out);
            &&& emitted.1.len() >= out.len()
            &&& emitted.1.len() * to + emitted.0 == out.len() * to + bits
            &&& emitted.1.take(out.len() as int) == out
            &&& forall|i: int|
                out.len() <= i < emitted.1.len() ==> #[trigger] emitted.1[i] <= group_mask(to)
        }),
    decreases bits,
{
    if bits >= to {
        let left = (bits - to) as u32;
        let group = (accumulator >> left) & group_mask(to);
        let pushed = out.push(group_byte(group));
        let m = group_mask(to);
        assert(m < 256 && group <= m) by (bit_vector)
            requires
                0 < to <= 8,
                m == ((1u32 << to) - 1) as u32,
                group == (accumulator >> left) & m,
        ;
        lemma_emit_groups_shape(accumulator, left, to, pushed);
        let emitted = emit_groups(accumulator, left, to, pushed);
        assert(emitted.1.take(out.len() as int) =~= emitted.1.take(pushed.len() as int).take(
            out.len() as int,
        ));
        assert(pushed.take(out.len() as int) =~= out);
        assert(pushed.len() * to == out.len() * to + to) by (nonlinear_arith)
            requires
                pushed.len() == out.len() + 1,
        ;
        assert forall|i: int| out.len() <= i < emitted.1.len() implies #[trigger] emitted.1[i]
            <= group_mask(to) by {
            if i == out.len() {
                assert(emitted.1[i] == emitted.1.take(pushed.len() as int)[i]);
            }
        }
    } else {
        assert(out.take(out.len() as int) =~= out);
    }
}

/// Regrouping into groups of at most eight bits: every output group fits in
/// `to` bits, and the bits are all accounted for, emitted or still held.
pub proof fn lemma_regroup_shape(data: Seq<u8>, from: u32, to: u32)
    requires
        from < 32,
        0 < to <= 8,
    ensures
        ({
            let state = regroup(data, from, to);
            &&& state.1 < to
            &&& state.2.len() * to + state.1 == data.len() * from
            &&& forall|i: int| 0 <= i < state.2.len() ==> #[trigger] state.2[i] <= group_mask(to)
        }),
    decreases data.len(),
{
    if data.len() > 0 {
        let shorter = data.drop_last();
        lemma_regroup_shape(shorter, from, to);
        let previous = regroup(shorter, from, to);
        let accumulator = ((previous.0 << from) | (data.last() as u32)) & 0xffffu32;
        let bits = (previous.1 + from) as u32;
        lemma_emit_groups_shape(accumulator, bits, to, previous.2);
        lemma_emit_groups_left(accumulator, bits, to, previous.2);
        let emitted = emit_groups(accumulator, bits, to, previous.2);
        assert forall|i: int| 0 <= i < emitted.1.len() implies #[trigger] emitted.1[i] <= group_mask(
            to,
        ) by {
            if i < previous.2.len() {
                assert(emitted.1[i] == emitted.1.take(previous.2.len() as int)[i]);
            }
        }
        assert(data.len() * from == shorter.len() * from + from) by (nonlinear_arith)
            requires
                data.len() == shorter.len() + 1,
        ;
    }
}

/// How a Bech32m error reads.
pub open spec fn bech32_error_text(error: Bech32Error) -> Seq<char> {
    match error {
        Bech32Error::MixedCase => "mixed upper and lower case"@,
        Bech32Error::TooLong(length) => decimal_text(length as nat) + " characters, maximum is "@
            + decimal_text(MAX_LENGTH as nat),
        Bech32Error::NoSeparator => "no '1' separator"@,
        Bech32Error::EmptyHrp => "empty human-readable part"@,
        Bech32Error::BadHrpChar(byte) => "human-readable part contains byte 0x"@ + hex_text(byte),
        Bech32Error::DataTooShort(length) => "data part is "@ + decimal_text(length as nat)
            + " characters, too short"@,
        Bech32Error::BadDataChar(character) => "'"@ + seq![character]
            + "' is not a data character"@,
        Bech32Error::BadChecksum => "checksum does not verify"@,
        Bech32Error::WrongVariantBech32 => "this is a Bech32 string; Vanargand uses Bech32m only"@,
        Bech32Error::BadPadding => "non-canonical padding bits"@,
    }
}

impl Bech32Error {
    /// The error as it is displayed.
    pub fn to_string(&self) -> (text: String)
        ensures
            text@ == bech32_error_text(*self),
    {
        match self {
            Bech32Error::MixedCase => String::from_str("mixed upper and lower case"),
            Bech32Error::TooLong(length) => {
                let mut text = decimal_string(*length as u64);
                text.append(" characters, maximum is ");
                text.append(decimal_string(MAX_LENGTH as u64).as_str());
                text
            },
            Bech32Error::NoSeparator => String::from_str("no '1' separator"),
            Bech32Error::EmptyHrp => String::from_str("empty human-readable part"),
            Bech32Error::BadHrpChar(byte) => {
                let mut text = String::from_str("human-readable part contains byte 0x");
                text.append(hex_string(*byte).as_str());
                text
            },
            Bech32Error::DataTooShort(length) => {
                let mut text = String::from_str("data part is ");
                text.append(decimal_string(*length as u64).as_str());
                text.append(" characters, too short");
                text
            },
            Bech32Error::BadDataChar(character) => {
                let mut text = String::from_str("'");
                text.append(char_string(*character).as_str());
                text.append("' is not a data character");
                text
            },
            Bech32Error::BadChecksum => String::from_str("checksum does not verify"),
            Bech32Error::WrongVariantBech32 => String::from_str(
                "this is a Bech32 string; Vanargand uses Bech32m only",
            ),
            Bech32Error::BadPadding => String::from_str("non-canonical padding bits"),
        }
    }
}

} // verus!
