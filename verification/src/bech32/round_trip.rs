//! Regrouping bytes into five-bit groups and back gives the bytes back.
//!
//! The proof reads a sequence of `w`-bit groups as one big-endian number,
//! shows that regrouping keeps that number (the groups emitted, followed by
//! the bits still held), and concludes from the uniqueness of digits.

use vstd::prelude::*;
use vstd::arithmetic::power2::lemma2_to64;
use vstd::arithmetic::power2::lemma_pow2_adds;
use vstd::arithmetic::power2::lemma_pow2_pos;
use vstd::arithmetic::power2::pow2;
use vstd::bits::lemma_u32_pow2_no_overflow;
use vstd::bits::lemma_u32_shl_is_mul;

use super::{
    convert_bits_spec, emit_groups, group_byte, group_mask, lemma_emit_groups_left,
    lemma_regroup_shape, regroup, Bech32Error,
};

verus! {

/// `groups` read as one big-endian number, `width` bits per group.
pub open spec fn groups_value(groups: Seq<u8>, width: nat) -> nat
    decreases groups.len(),
{
    if groups.len() == 0 {
        0
    } else {
        groups_value(groups.drop_last(), width) * pow2(width) + groups.last() as nat
    }
}

proof fn lemma_shl_one(k: u32)
    requires
        k < 32,
    ensures
        (1u32 << k) as nat == pow2(k as nat),
{
    lemma_u32_pow2_no_overflow(k as nat);
    lemma_u32_shl_is_mul(1u32, k);
}

proof fn lemma_low_bound(x: u32, k: u32)
    by (bit_vector)
    requires
        k < 32,
    ensures
        x & group_mask(k) < (1u32 << k),
{
}

proof fn lemma_feed_bits(acc: u32, d: u32, l: u32, f: u32)
    by (bit_vector)
    requires
        l + f <= 16,
        d < (1u32 << f),
    ensures
        (((acc << f) | d) & 0xffffu32) & group_mask((l + f) as u32) == ((acc & group_mask(l)) << f)
            | d,
{
}

proof fn lemma_shift_or_is_sum(x: u32, d: u32, l: u32, f: u32)
    by (bit_vector)
    requires
        l + f <= 16,
        x < (1u32 << l),
        d < (1u32 << f),
    ensures
        ((x << f) | d) == x * (1u32 << f) + d,
{
}

proof fn lemma_split_low_bits(acc: u32, l: u32, t: u32)
    by (bit_vector)
    requires
        l + t <= 16,
    ensures
        acc & group_mask((l + t) as u32) == ((acc >> l) & group_mask(t)) * (1u32 << l) + (acc
            & group_mask(l)),
{
}

proof fn lemma_pad_bits(acc: u32, l: u32, t: u32)
    by (bit_vector)
    requires
        l < t <= 8,
    ensures
        (acc << (t - l) as u32) & group_mask(t) == (acc & group_mask(l)) * (1u32 << (t - l) as u32),
        (acc & group_mask(l)) * (1u32 << (t - l) as u32) <= group_mask(t),
        group_mask(t) < 256,
{
}

proof fn lemma_quotient_unique(q1: int, r1: int, q2: int, r2: int, p: int)
    by (nonlinear_arith)
    requires
        p > 0,
        0 <= r1 < p,
        0 <= r2 < p,
        q1 * p + r1 == q2 * p + r2,
    ensures
        q1 == q2,
        r1 == r2,
{
    if q1 > q2 {
        assert((q1 - q2) * p >= p);
    } else if q2 > q1 {
        assert((q2 - q1) * p >= p);
    }
}

/// Emitting groups keeps the number: the groups out so far followed by the
/// bits still held.
proof fn lemma_emit_value(acc: u32, bits: u32, to: u32, out: Seq<u8>)
    requires
        0 < to <= 8,
        bits <= 16,
    ensures
        ({
            let emitted = emit_groups(acc, bits, to, out);
            groups_value(out, to as nat) * pow2(bits as nat) + (acc & group_mask(bits))
                == groups_value(emitted.1, to as nat) * pow2(emitted.0 as nat) + (acc & group_mask(
                emitted.0,
            ))
        }),
    decreases bits,
{
    if bits >= to {
        let left = (bits - to) as u32;
        let group = (acc >> left) & group_mask(to);
        lemma_split_low_bits(acc, left, to);
        lemma_pad_bits(acc >> left, 0, to);
        assert(group <= group_mask(to)) by (bit_vector)
            requires
                group == (acc >> left) & group_mask(to),
        ;
        assert(group_byte(group) == group);
        let pushed = out.push(group_byte(group));
        assert(pushed.drop_last() =~= out);
        lemma_shl_one(left);
        lemma_pow2_adds(to as nat, left as nat);
        let v = groups_value(out, to as nat);
        let pt = pow2(to as nat);
        let pl = pow2(left as nat);
        assert(v * (pt * pl) + (group * pl + (acc & group_mask(left))) == (v * pt + group) * pl
            + (acc & group_mask(left))) by (nonlinear_arith);
        lemma_emit_value(acc, left, to, pushed);
    }
}

/// What regrouping computes, stated directly: read as one number, the input
/// with `from` bits per group equals the groups emitted, `to` bits each,
/// followed by the bits still held in the accumulator. Regrouping is the
/// concatenated bits of the input cut into `to`-bit groups, with the
/// leftover bits kept for the padding rule.
pub proof fn lemma_regroup_value(data: Seq<u8>, from: u32, to: u32)
    requires
        0 < from <= 8,
        0 < to <= 8,
        from + to <= 17,
        forall|i: int| 0 <= i < data.len() ==> #[trigger] data[i] < pow2(from as nat),
    ensures
        ({
            let state = regroup(data, from, to);
            groups_value(data, from as nat) == groups_value(state.2, to as nat) * pow2(
                state.1 as nat,
            ) + (state.0 & group_mask(state.1))
        }),
    decreases data.len(),
{
    if data.len() == 0 {
        assert(0u32 & group_mask(0) == 0) by (bit_vector);
        assert(regroup(data, from, to) == (0u32, 0u32, Seq::<u8>::empty()));
        assert(groups_value(data, from as nat) == 0);
        assert(groups_value(Seq::<u8>::empty(), to as nat) == 0);
        let state = regroup(data, from, to);
        assert(state.2 =~= Seq::<u8>::empty());
        assert(groups_value(state.2, to as nat) == 0);
        assert(state.0 == 0u32 && state.1 == 0u32);
        assert(state.0 & group_mask(state.1) == 0);
        assert(groups_value(state.2, to as nat) * pow2(state.1 as nat) == 0);
    } else {
        let shorter = data.drop_last();
        lemma_regroup_value(shorter, from, to);
        lemma_regroup_shape(shorter, from, to);
        let previous = regroup(shorter, from, to);
        let d = data.last() as u32;
        let accumulator = ((previous.0 << from) | d) & 0xffffu32;
        let bits = (previous.1 + from) as u32;
        lemma_shl_one(from);
        lemma_shl_one(previous.1);
        lemma_feed_bits(previous.0, d, previous.1, from);
        let low = previous.0 & group_mask(previous.1);
        lemma_low_bound(previous.0, previous.1);
        lemma_shift_or_is_sum(low, d, previous.1, from);
        lemma_pow2_adds(previous.1 as nat, from as nat);
        let v = groups_value(previous.2, to as nat);
        let pl = pow2(previous.1 as nat);
        let pf = pow2(from as nat);
        assert((v * pl + low) * pf + d == v * (pl * pf) + (low * pf + d)) by (nonlinear_arith);
        assert(data[data.len() - 1] < pow2(from as nat));
        assert(shorter =~= data.drop_last());
        assert(groups_value(data, from as nat) == groups_value(shorter, from as nat) * pf + d);
        assert(accumulator & group_mask(bits) == low * pf + d);
        assert(groups_value(data, from as nat) == v * pow2(bits as nat) + (accumulator
            & group_mask(bits)));
        lemma_emit_value(accumulator, bits, to, previous.2);
        let emitted = emit_groups(accumulator, bits, to, previous.2);
        assert(regroup(data, from, to) == (accumulator, emitted.0, emitted.1));
        assert(groups_value(data, from as nat) == groups_value(emitted.1, to as nat) * pow2(
            emitted.0 as nat,
        ) + (accumulator & group_mask(emitted.0)));
        let state = regroup(data, from, to);
        assert(groups_value(data, from as nat) == groups_value(state.2, to as nat) * pow2(
            state.1 as nat,
        ) + (state.0 & group_mask(state.1)));
    }
}

/// Two sequences of digits of the same length and the same value are the
/// same digits.
proof fn lemma_value_injective(a: Seq<u8>, b: Seq<u8>, width: nat)
    requires
        a.len() == b.len(),
        groups_value(a, width) == groups_value(b, width),
        forall|i: int| 0 <= i < a.len() ==> #[trigger] a[i] < pow2(width),
        forall|i: int| 0 <= i < b.len() ==> #[trigger] b[i] < pow2(width),
    ensures
        a == b,
    decreases a.len(),
{
    if a.len() > 0 {
        let n = a.len() - 1;
        assert(a[n] < pow2(width) && b[n] < pow2(width));
        lemma_pow2_pos(width);
        lemma_quotient_unique(
            groups_value(a.drop_last(), width) as int,
            a.last() as int,
            groups_value(b.drop_last(), width) as int,
            b.last() as int,
            pow2(width) as int,
        );
        lemma_value_injective(a.drop_last(), b.drop_last(), width);
        assert(a =~= a.drop_last().push(a.last()));
        assert(b =~= b.drop_last().push(b.last()));
    }
}

/// Regrouping bytes into padded five-bit groups always succeeds, and
/// regrouping those groups back into bytes, strictly, gives the bytes back.
pub proof fn lemma_convert_bits_round_trip(data: Seq<u8>)
    ensures
        convert_bits_spec(data, 8, 5, true) is Ok,
        convert_bits_spec(convert_bits_spec(data, 8, 5, true)->Ok_0, 5, 8, false) == Ok::<
            Seq<u8>,
            Bech32Error,
        >(data),
{
    lemma2_to64();
    lemma_regroup_value(data, 8, 5);
    lemma_regroup_shape(data, 8, 5);
    let first = regroup(data, 8, 5);
    let l1 = first.1;
    let low1 = first.0 & group_mask(l1);
    let tail = (first.0 << (5 - l1) as u32) & group_mask(5);
    lemma_pad_bits(first.0, l1, 5);
    lemma_shl_one((5 - l1) as u32);
    let groups = convert_bits_spec(data, 8, 5, true)->Ok_0;
    let pad: u32 = if l1 > 0 {
        (5 - l1) as u32
    } else {
        0
    };
    assert(forall|i: int| 0 <= i < first.2.len() ==> #[trigger] first.2[i] <= group_mask(5));
    assert(group_mask(5) == 31) by (bit_vector);
    assert(forall|i: int| 0 <= i < groups.len() ==> #[trigger] groups[i] < pow2(5)) by {
        assert forall|i: int| 0 <= i < groups.len() implies #[trigger] groups[i] < pow2(5) by {
            if i < first.2.len() {
                assert(groups[i] == first.2[i]);
            }
        }
    }
    // The five-bit groups read as the bytes' number followed by `pad` zero bits.
    lemma_pow2_pos(pad as nat);
    if l1 > 0 {
        assert(groups.drop_last() =~= first.2);
        lemma_pow2_adds(l1 as nat, pad as nat);
        let v = groups_value(first.2, 5);
        let pl = pow2(l1 as nat);
        let pp = pow2(pad as nat);
        assert((v * pl + low1) * pp == v * (pl * pp) + low1 * pp) by (nonlinear_arith);
        assert(groups_value(groups, 5) == groups_value(data, 8) * pow2(pad as nat));
        assert(groups.len() * 5 == data.len() * 8 + pad);
    } else {
        assert(groups == first.2);
        let a = first.0;
        assert(a & group_mask(0) == 0) by (bit_vector);
        assert(groups_value(data, 8) == groups_value(first.2, 5) * pow2(0) + (a & group_mask(0)));
        assert(groups_value(groups, 5) == groups_value(data, 8) * pow2(pad as nat));
        assert(groups.len() * 5 == data.len() * 8 + pad);
    }
    // Regrouping back.
    lemma_regroup_value(groups, 5, 8);
    lemma_regroup_shape(groups, 5, 8);
    let second = regroup(groups, 5, 8);
    let l2 = second.1;
    assert(second.2.len() == data.len() && l2 == pad);
    let low2 = second.0 & group_mask(l2);
    lemma_low_bound(second.0, l2);
    lemma_shl_one(l2);
    lemma_quotient_unique(
        groups_value(second.2, 8) as int,
        low2 as int,
        groups_value(data, 8) as int,
        0,
        pow2(pad as nat) as int,
    );
    lemma_pad_bits(second.0, l2, 8);
    assert(low2 == 0);
    assert(forall|i: int| 0 <= i < second.2.len() ==> #[trigger] second.2[i] < pow2(8));
    assert(forall|i: int| 0 <= i < data.len() ==> #[trigger] data[i] < pow2(8));
    lemma_value_injective(second.2, data, 8);
}

} // verus!
