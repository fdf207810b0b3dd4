//! Decimal and hexadecimal renderings, as ASCII bytes and as strings.

use vstd::prelude::*;

use crate::hash::hex_digit;
use crate::std_conv::ascii_string;

verus! {

/// The decimal digits of `n`, most significant first, with no leading zero.
pub open spec fn decimal(n: nat) -> Seq<u8>
    decreases n,
{
    if n < 10 {
        seq![(48 + n) as u8]
    } else {
        decimal(n / 10).push((48 + n % 10) as u8)
    }
}

/// The last `width` decimal digits of `n`, zero-padded on the left.
pub open spec fn padded(n: nat, width: nat) -> Seq<u8>
    decreases width,
{
    if width == 0 {
        Seq::<u8>::empty()
    } else {
        padded(n / 10, (width - 1) as nat).push((48 + n % 10) as u8)
    }
}

/// Every byte of `s` is ASCII.
pub open spec fn all_ascii(s: Seq<u8>) -> bool {
    forall|i: int| 0 <= i < s.len() ==> s[i] < 128
}

/// Appends the decimal digits of `n`.
pub fn push_decimal(out: &mut Vec<u8>, n: u64)
    ensures
        final(out)@ == old(out)@ + decimal(n as nat),
    decreases n,
{
    if n >= 10 {
        push_decimal(out, n / 10);
    }
    out.push((48 + n % 10) as u8);
    assert(out@ =~= old(out)@ + decimal(n as nat));
}

/// Appends the last `width` decimal digits of `n`, zero-padded.
pub fn push_padded(out: &mut Vec<u8>, n: u64, width: u32)
    ensures
        final(out)@ == old(out)@ + padded(n as nat, width as nat),
    decreases width,
{
    if width > 0 {
        push_padded(out, n / 10, width - 1);
        out.push((48 + n % 10) as u8);
    }
    assert(out@ =~= old(out)@ + padded(n as nat, width as nat));
}

/// Decimal digits are ASCII.
pub proof fn lemma_decimal_ascii(n: nat)
    ensures
        all_ascii(decimal(n)),
        decimal(n).len() >= 1,
    decreases n,
{
    if n >= 10 {
        lemma_decimal_ascii(n / 10);
    }
}

/// Padded digits are ASCII.
pub proof fn lemma_padded_ascii(n: nat, width: nat)
    ensures
        all_ascii(padded(n, width)),
        padded(n, width).len() == width,
    decreases width,
{
    if width > 0 {
        lemma_padded_ascii(n / 10, (width - 1) as nat);
    }
}

/// The decimal digits of `n`, as characters.
pub open spec fn decimal_text(n: nat) -> Seq<char> {
    decimal(n).map_values(|b: u8| b as char)
}

/// The two lowercase hexadecimal digits of a byte, as characters.
pub open spec fn hex_text(byte: u8) -> Seq<char> {
    seq![hex_digit(byte / 16) as char, hex_digit(byte % 16) as char]
}

/// The decimal digits of `n`, as a string.
pub fn decimal_string(n: u64) -> (text: String)
    ensures
        text@ == decimal_text(n as nat),
{
    let mut bytes: Vec<u8> = Vec::new();
    push_decimal(&mut bytes, n);
    proof {
        lemma_decimal_ascii(n as nat);
        assert(bytes@ =~= decimal(n as nat));
    }
    ascii_string(bytes)
}

/// The two lowercase hexadecimal digits of a byte, as a string.
pub fn hex_string(byte: u8) -> (text: String)
    ensures
        text@ == hex_text(byte),
{
    let high = byte / 16;
    let low = byte % 16;
    let mut bytes: Vec<u8> = Vec::new();
    bytes.push(if high < 10 { 48 + high } else { 87 + high });
    bytes.push(if low < 10 { 48 + low } else { 87 + low });
    let text = ascii_string(bytes);
    assert(text@ =~= hex_text(byte));
    text
}

} // verus!
