//! A field as a span of bits in a byte buffer: what it holds, what a write
//! does to the buffer, and the accessors that walk the span zone by zone.

use crate::bits::{
    bit_of,
    lemma_mod_pow2_split,
    lemma_pow2_split,
    lemma_reversed_shift,
    lemma_reversed_twice,
    reversed,
};
use crate::zone::{
    get_bits,
    lemma_zone_store,
    lemma_zone_store_keeps,
    lemma_zone_value_reads,
    reverse_bits,
    set_bits,
    zone_store,
    zone_value,
};
use vstd::arithmetic::div_mod::{lemma_mod_bound, lemma_mod_twice, lemma_small_mod};
use vstd::arithmetic::mul::lemma_mul_is_commutative;
use vstd::arithmetic::power2::{lemma2_to64, lemma_pow2_pos, lemma_pow2_strictly_increases, pow2};
use vstd::prelude::*;

verus! {

/// How many bits of a span of `width` bits that starts at bit `offset` lie
/// in the byte of its first bit.
pub open spec fn zone_len(offset: nat, width: nat) -> nat {
    if width < 8 - offset % 8 {
        width
    } else {
        (8 - offset % 8) as nat
    }
}

/// The value of the field that occupies the bits `[offset, offset + width)`
/// of `buf`, where byte `i` holds the bits `[8i, 8i + 8)`. The zone in the
/// first byte is the most significant part; within a zone a higher bit of
/// the byte is a higher bit of the value.
pub open spec fn span_value(buf: Seq<u8>, offset: nat, width: nat) -> nat
    decreases width,
{
    if width == 0 {
        0
    } else {
        let lo = offset % 8;
        let take = zone_len(offset, width);
        let rest = (width - take) as nat;
        zone_value(buf[(offset / 8) as int] as nat, lo, lo + take) * pow2(rest) + span_value(
            buf,
            offset + take,
            rest,
        )
    }
}

/// `buf` after the low `width` bits of `value` are written to the field at
/// the bits `[offset, offset + width)`: the top bits go to the zone in the
/// first byte, and no bit outside the span changes.
pub open spec fn span_store(buf: Seq<u8>, offset: nat, width: nat, value: nat) -> Seq<u8>
    decreases width,
{
    if width == 0 {
        buf
    } else {
        let lo = offset % 8;
        let take = zone_len(offset, width);
        let rest = (width - take) as nat;
        let index = (offset / 8) as int;
        let chunk = (value / pow2(rest)) % pow2(take);
        span_store(
            buf.update(index, zone_store(buf[index] as nat, lo, lo + take, chunk) as u8),
            offset + take,
            rest,
            value,
        )
    }
}

/// One zone read: the accumulator that has taken the bits before `at`
/// takes the zone of `take` bits that starts at `at`.
proof fn lemma_get_step(
    buf: Seq<u8>,
    offset: nat,
    width: nat,
    at: nat,
    acc: u64,
    next: u64,
    take: nat,
)
    requires
        width <= 64,
        offset <= at < offset + width,
        take == zone_len(at, (offset + width - at) as nat),
        span_value(buf, offset, width) == acc * pow2((offset + width - at) as nat) + span_value(
            buf,
            at,
            (offset + width - at) as nat,
        ),
        (acc as nat) < pow2((at - offset) as nat),
        next as nat == (acc as nat * pow2(take) + zone_value(
            buf[(at / 8) as int] as nat,
            at % 8,
            at % 8 + take,
        )) % pow2(64),
    ensures
        span_value(buf, offset, width) == next * pow2((offset + width - at - take) as nat)
            + span_value(buf, at + take, (offset + width - at - take) as nat),
        (next as nat) < pow2((at + take - offset) as nat),
{
    let left = (offset + width - at) as nat;
    let rest = (left - take) as nat;
    let done = (at - offset) as nat;
    let start = at % 8;
    let zone = zone_value(buf[(at / 8) as int] as nat, start, start + take);
    let a = acc as nat;
    lemma_pow2_split(take, rest);
    lemma_pow2_split(done, take);
    lemma_pow2_pos(take);
    assert(take + rest == left);
    assert((start + take - start) as nat == take);
    assert(zone < pow2(take)) by {
        lemma_mod_bound(
            (buf[(at / 8) as int] as nat / pow2(start)) as int,
            pow2(take) as int,
        );
    }
    let sum = a * pow2(take) + zone;
    assert(sum < pow2(done + take)) by (nonlinear_arith)
        requires
            a < pow2(done),
            zone < pow2(take),
            pow2(done + take) == pow2(done) * pow2(take),
            sum == a * pow2(take) + zone,
    ;
    lemma2_to64();
    if done + take < 64 {
        lemma_pow2_strictly_increases(done + take, 64);
    }
    lemma_small_mod(sum, pow2(64));
    assert(next as nat == sum);
    assert(sum * pow2(rest) == a * pow2(left) + zone * pow2(rest)) by (nonlinear_arith)
        requires
            sum == a * pow2(take) + zone,
            pow2(left) == pow2(take) * pow2(rest),
    ;
    assert(span_value(buf, at, left) == zone * pow2(rest) + span_value(buf, at + take, rest));
    assert((at + take - offset) as nat == done + take);
}

/// One zone write: the buffer takes the zone of `take` bits that starts at
/// `at`, and what is left to write is the same field write on the rest of
/// the span.
proof fn lemma_set_step(
    buf: Seq<u8>,
    at: nat,
    left: nat,
    value: nat,
    cur: u64,
    take: nat,
    byte: u8,
    next: u64,
)
    requires
        0 < left <= 64,
        at / 8 < buf.len(),
        take == zone_len(at, left),
        cur as nat == reversed(value, left),
        byte as nat == zone_store(
            buf[(at / 8) as int] as nat,
            at % 8,
            at % 8 + take,
            reversed(cur as nat, take),
        ),
        next as nat == cur as nat / pow2(take),
    ensures
        span_store(buf, at, left, value) == span_store(
            buf.update((at / 8) as int, byte),
            at + take,
            (left - take) as nat,
            value,
        ),
        next as nat == reversed(value, (left - take) as nat),
{
    let rest = (left - take) as nat;
    let start = at % 8;
    lemma_reversed_twice(value, left, take);
    lemma_reversed_shift(value, left, rest);
    assert((left - rest) as nat == take);
    let index = (at / 8) as int;
    let chunk = (value / pow2(rest)) % pow2(take);
    assert(reversed(cur as nat, take) == chunk);
    lemma_zone_store(buf[index] as nat, start, start + take, chunk);
    assert(zone_store(buf[index] as nat, start, start + take, chunk) as u8 == byte);
}

/// Reads the field of `bits` bits that starts at bit `offset` of `data`.
pub fn get_field(data: &[u8], offset: usize, bits: usize) -> (value: u64)
    requires
        1 <= bits <= 64,
        offset + bits <= usize::MAX,
        offset + bits <= 8 * data.len(),
    ensures
        value as nat == span_value(data@, offset as nat, bits as nat),
        (value as nat) < pow2(bits as nat),
{
    let start_idx = offset / 8;
    let end_idx = (offset + bits) / 8;
    let start_bit = (offset % 8) as u8;
    let end_bit = ((offset + bits) % 8) as u8;
    let mut value = 0u64;
    let ghost before = value;
    proof {
        lemma2_to64();
        assert(0 * pow2(bits as nat) == 0) by (nonlinear_arith);
    }
    if start_idx == end_idx {
        get_bits(&data[start_idx], start_bit, end_bit, &mut value);
        proof {
            lemma_get_step(
                data@,
                offset as nat,
                bits as nat,
                offset as nat,
                before,
                value,
                (end_bit - start_bit) as nat,
            );
        }
    } else {
        get_bits(&data[start_idx], start_bit, 8, &mut value);
        proof {
            lemma_get_step(
                data@,
                offset as nat,
                bits as nat,
                offset as nat,
                before,
                value,
                (8 - start_bit) as nat,
            );
        }
        for idx in start_idx + 1..end_idx
            invariant
                1 <= bits <= 64,
                offset + bits <= 8 * data.len(),
                start_idx == offset / 8,
                end_idx == (offset + bits) / 8,
                start_idx < end_idx,
                span_value(data@, offset as nat, bits as nat) == value * pow2(
                    (offset + bits - 8 * idx) as nat,
                ) + span_value(data@, (8 * idx) as nat, (offset + bits - 8 * idx) as nat),
                (value as nat) < pow2((8 * idx - offset) as nat),
        {
            let ghost before = value;
            get_bits(&data[idx], 0, 8, &mut value);
            proof {
                lemma_get_step(
                    data@,
                    offset as nat,
                    bits as nat,
                    (8 * idx) as nat,
                    before,
                    value,
                    8,
                );
            }
        }
        if end_bit > 0 {
            let ghost before = value;
            get_bits(&data[end_idx], 0, end_bit, &mut value);
            proof {
                lemma_get_step(
                    data@,
                    offset as nat,
                    bits as nat,
                    (8 * end_idx) as nat,
                    before,
                    value,
                    end_bit as nat,
                );
            }
        }
    }
    proof {
        assert(value * pow2(0) == value) by (nonlinear_arith)
            requires
                pow2(0) == 1,
        ;
        lemma_span_value_bound(data@, offset as nat, bits as nat);
    }
    value
}

/// Writes the low `bits` bits of `value` to the field of `bits` bits that
/// starts at bit `offset` of `data`. The bits of `value` from `bits` up are
/// not written anywhere.
pub fn set_field(data: &mut [u8], offset: usize, bits: usize, value: u64)
    requires
        1 <= bits <= 64,
        offset + bits <= usize::MAX,
        offset + bits <= 8 * old(data).len(),
    ensures
        final(data)@ == span_store(old(data)@, offset as nat, bits as nat, value as nat),
        final(data)@.len() == old(data)@.len(),
        span_value(final(data)@, offset as nat, bits as nat) == value as nat % pow2(bits as nat),
        (value as nat) < pow2(bits as nat) ==> span_value(final(data)@, offset as nat, bits as nat)
            == value,
        forall|p: nat|
            p < 8 * old(data)@.len() && (p < offset || offset + bits <= p) ==> #[trigger] bit_at(
                final(data)@,
                p,
            ) == bit_at(old(data)@, p),
{
    let start_idx = offset / 8;
    let end_idx = (offset + bits) / 8;
    let start_bit = (offset % 8) as u8;
    let end_bit = ((offset + bits) % 8) as u8;
    let ghost whole = span_store(old(data)@, offset as nat, bits as nat, value as nat);
    let ghost fresh = value as nat;
    let mut value = reverse_bits(value, bits);
    let ghost cur = value;
    let ghost buf = data@;
    if start_idx == end_idx {
        set_bits(&mut data[start_idx], start_bit, end_bit, &mut value);
        proof {
            lemma_set_step(
                buf,
                offset as nat,
                bits as nat,
                fresh,
                cur,
                (end_bit - start_bit) as nat,
                data@[start_idx as int],
                value,
            );
        }
    } else {
        set_bits(&mut data[start_idx], start_bit, 8, &mut value);
        proof {
            lemma_set_step(
                buf,
                offset as nat,
                bits as nat,
                fresh,
                cur,
                (8 - start_bit) as nat,
                data@[start_idx as int],
                value,
            );
        }
        for idx in start_idx + 1..end_idx
            invariant
                1 <= bits <= 64,
                offset + bits <= usize::MAX,
                offset + bits <= 8 * data.len(),
                start_idx == offset / 8,
                end_idx == (offset + bits) / 8,
                start_idx < end_idx,
                whole == span_store(data@, (8 * idx) as nat, (offset + bits - 8 * idx) as nat, fresh),
                value as nat == reversed(fresh, (offset + bits - 8 * idx) as nat),
        {
            let ghost cur = value;
            let ghost buf = data@;
            set_bits(&mut data[idx], 0, 8, &mut value);
            proof {
                lemma_set_step(
                    buf,
                    (8 * idx) as nat,
                    (offset + bits - 8 * idx) as nat,
                    fresh,
                    cur,
                    8,
                    data@[idx as int],
                    value,
                );
            }
        }
        if end_bit > 0 {
            let ghost cur = value;
            let ghost buf = data@;
            set_bits(&mut data[end_idx], 0, end_bit, &mut value);
            proof {
                lemma_set_step(
                    buf,
                    (8 * end_idx) as nat,
                    end_bit as nat,
                    fresh,
                    cur,
                    end_bit as nat,
                    data@[end_idx as int],
                    value,
                );
            }
        }
    }
    proof {
        let before = old(data)@;
        assert(data@ == whole);
        lemma_span_store_bytes(before, offset as nat, bits as nat, fresh);
        lemma_span_round_trip(before, offset as nat, bits as nat, fresh);
        assert forall|p: nat|
            p < 8 * before.len() && (p < offset || offset + bits <= p) implies #[trigger] bit_at(
            whole,
            p,
        ) == bit_at(before, p) by {
            lemma_span_store_frame(before, offset as nat, bits as nat, fresh, p);
        }
    }
}

/// Bit `p` of the buffer, as 0 or 1: bit `p % 8` of byte `p / 8`.
pub open spec fn bit_at(buf: Seq<u8>, p: nat) -> nat {
    bit_of(buf[(p / 8) as int] as nat, p % 8)
}

/// A field write keeps the length of the buffer and every byte that holds
/// no bit of the span.
pub proof fn lemma_span_store_bytes(buf: Seq<u8>, offset: nat, width: nat, value: nat)
    requires
        offset + width <= 8 * buf.len(),
    ensures
        span_store(buf, offset, width, value).len() == buf.len(),
        forall|j: int|
            0 <= j < buf.len() && (8 * j + 8 <= offset || offset + width <= 8 * j) ==> (
            #[trigger] span_store(buf, offset, width, value)[j]) == buf[j],
    decreases width,
{
    if width > 0 {
        let lo = offset % 8;
        let take = zone_len(offset, width);
        let rest = (width - take) as nat;
        let index = (offset / 8) as int;
        let chunk = (value / pow2(rest)) % pow2(take);
        let next = buf.update(index, zone_store(buf[index] as nat, lo, lo + take, chunk) as u8);
        lemma_span_store_bytes(next, offset + take, rest, value);
    }
}

/// A field write changes no bit outside the span.
pub proof fn lemma_span_store_frame(buf: Seq<u8>, offset: nat, width: nat, value: nat, p: nat)
    requires
        offset + width <= 8 * buf.len(),
        p < 8 * buf.len(),
        p < offset || offset + width <= p,
    ensures
        bit_at(span_store(buf, offset, width, value), p) == bit_at(buf, p),
    decreases width,
{
    if width > 0 {
        let lo = offset % 8;
        let take = zone_len(offset, width);
        let rest = (width - take) as nat;
        let index = (offset / 8) as int;
        let chunk = (value / pow2(rest)) % pow2(take);
        let stored = zone_store(buf[index] as nat, lo, lo + take, chunk);
        let next = buf.update(index, stored as u8);
        lemma_span_store_frame(next, offset + take, rest, value, p);
        lemma_zone_store(buf[index] as nat, lo, lo + take, chunk);
        if p / 8 == index as nat {
            lemma_zone_store_keeps(buf[index] as nat, lo, lo + take, chunk, p % 8);
        }
    }
}

/// The value of a field is below `2^width`.
pub proof fn lemma_span_value_bound(buf: Seq<u8>, offset: nat, width: nat)
    ensures
        span_value(buf, offset, width) < pow2(width),
    decreases width,
{
    lemma2_to64();
    if width > 0 {
        let lo = offset % 8;
        let take = zone_len(offset, width);
        let rest = (width - take) as nat;
        let zone = zone_value(buf[(offset / 8) as int] as nat, lo, lo + take);
        lemma_span_value_bound(buf, offset + take, rest);
        lemma_pow2_split(take, rest);
        assert((lo + take - lo) as nat == take);
        lemma_mod_bound(
            (buf[(offset / 8) as int] as nat / pow2(lo)) as int,
            pow2(take) as int,
        );
        assert(take + rest == width);
        assert(zone * pow2(rest) + span_value(buf, offset + take, rest) < pow2(width))
            by (nonlinear_arith)
            requires
                zone < pow2(take),
                span_value(buf, offset + take, rest) < pow2(rest),
                pow2(width) == pow2(take) * pow2(rest),
        ;
    }
}

/// The value of a field depends on the bits of its span alone.
pub proof fn lemma_span_value_reads(a: Seq<u8>, b: Seq<u8>, offset: nat, width: nat)
    requires
        forall|p: nat| offset <= p < offset + width ==> #[trigger] bit_at(a, p) == bit_at(b, p),
    ensures
        span_value(a, offset, width) == span_value(b, offset, width),
    decreases width,
{
    if width > 0 {
        let lo = offset % 8;
        let take = zone_len(offset, width);
        let rest = (width - take) as nat;
        let index = (offset / 8) as int;
        lemma_span_value_reads(a, b, offset + take, rest);
        assert forall|i: nat| lo <= i < lo + take implies #[trigger] bit_of(a[index] as nat, i)
            == bit_of(b[index] as nat, i) by {
            let p = (8 * index + i) as nat;
            assert(p / 8 == index as nat && p % 8 == i);
            assert(bit_at(a, p) == bit_at(b, p));
        }
        lemma_zone_value_reads(a[index] as nat, b[index] as nat, lo, lo + take);
    }
}

/// A field reads back the low `width` bits of what was written to it: the
/// value itself, where it is below `2^width`.
pub proof fn lemma_span_round_trip(buf: Seq<u8>, offset: nat, width: nat, value: nat)
    requires
        offset + width <= 8 * buf.len(),
    ensures
        span_value(span_store(buf, offset, width, value), offset, width) == value % pow2(width),
        value < pow2(width) ==> span_value(span_store(buf, offset, width, value), offset, width)
            == value,
    decreases width,
{
    lemma2_to64();
    if value < pow2(width) {
        lemma_small_mod(value, pow2(width));
    }
    if width > 0 {
        let lo = offset % 8;
        let take = zone_len(offset, width);
        let rest = (width - take) as nat;
        let index = (offset / 8) as int;
        let chunk = (value / pow2(rest)) % pow2(take);
        let stored = zone_store(buf[index] as nat, lo, lo + take, chunk);
        let next = buf.update(index, stored as u8);
        let after = span_store(next, offset + take, rest, value);
        lemma_span_round_trip(next, offset + take, rest, value);
        lemma_span_store_bytes(next, offset + take, rest, value);
        lemma_zone_store(buf[index] as nat, lo, lo + take, chunk);
        assert(after[index] == next[index]);
        assert((lo + take - lo) as nat == take);
        lemma_mod_twice((value / pow2(rest)) as int, pow2(take) as int);
        assert(zone_value(after[index] as nat, lo, lo + take) == chunk);
        lemma_mod_pow2_split(value, rest, take);
        assert(rest + take == width);
        lemma_mul_is_commutative(pow2(rest) as int, chunk as int);
    }
}

/// A field of 64 bits reads back every 64-bit value that was written to it.
pub proof fn lemma_full_width_round_trip(buf: Seq<u8>, offset: nat, value: u64)
    requires
        offset + 64 <= 8 * buf.len(),
    ensures
        span_value(span_store(buf, offset, 64, value as nat), offset, 64) == value,
{
    lemma2_to64();
    lemma_span_round_trip(buf, offset, 64, value as nat);
}

/// A write to one field leaves the value of a field elsewhere as it was.
pub proof fn lemma_span_isolation(
    buf: Seq<u8>,
    offset: nat,
    width: nat,
    value: nat,
    other_offset: nat,
    other_width: nat,
)
    requires
        offset + width <= 8 * buf.len(),
        other_offset + other_width <= 8 * buf.len(),
        other_offset + other_width <= offset || offset + width <= other_offset,
    ensures
        span_value(span_store(buf, offset, width, value), other_offset, other_width) == span_value(
            buf,
            other_offset,
            other_width,
        ),
{
    let after = span_store(buf, offset, width, value);
    assert forall|p: nat| other_offset <= p < other_offset + other_width implies #[trigger] bit_at(
        after,
        p,
    ) == bit_at(buf, p) by {
        lemma_span_store_frame(buf, offset, width, value, p);
    }
    lemma_span_value_reads(after, buf, other_offset, other_width);
}

} // verus!
