//! The part of a field that lies within one byte, and the primitives that
//! read and write it.

use crate::bits::{
    bit_of,
    lemma_bit_of_low_part,
    lemma_bit_of_shifted,
    lemma_div_pow2_twice,
    lemma_low_bits_decide,
    lemma_pow2_split,
    lemma_reversed_bound,
    lemma_reversed_from_bits,
    lemma_reversed_shift,
    reversed,
};
use vstd::arithmetic::div_mod::{
    lemma_div_multiples_vanish_fancy,
    lemma_fundamental_div_mod,
    lemma_small_mod,
};
use vstd::arithmetic::power2::{lemma2_to64, lemma_pow2_pos, lemma_pow2_strictly_increases, pow2};
use vstd::bits::{
    lemma_u16_shl_is_mul,
    lemma_u16_shr_is_div,
    lemma_u64_shl_is_mul,
    lemma_u64_shr_is_div,
};
use vstd::prelude::*;

verus! {

/// The bits `[start, end)` of `byte`, right-justified.
pub open spec fn zone_value(byte: nat, start: nat, end: nat) -> nat {
    (byte / pow2(start)) % pow2((end - start) as nat)
}

/// `byte` with its bits `[start, end)` replaced by the low `end - start`
/// bits of `chunk`; every other bit is kept.
pub open spec fn zone_store(byte: nat, start: nat, end: nat, chunk: nat) -> nat {
    byte % pow2(start) + (chunk % pow2((end - start) as nat)) * pow2(start) + (byte / pow2(end))
        * pow2(end)
}

/// The byte whose bits `[start, end)` are set and whose other bits are
/// clear: `end - start` ones, moved up by `start` places.
pub open spec fn zone_mask(start: nat, end: nat) -> nat {
    ((pow2((end - start) as nat) - 1) * pow2(start)) as nat
}

/// The mask of a zone is `2^end - 2^start`.
pub proof fn lemma_zone_mask(start: nat, end: nat)
    requires
        start <= end,
    ensures
        zone_mask(start, end) == pow2(end) - pow2(start),
{
    let len = (end - start) as nat;
    lemma_pow2_split(len, start);
    assert(len + start == end);
    assert((pow2(len) - 1) * pow2(start) == pow2(len) * pow2(start) - pow2(start))
        by (nonlinear_arith);
}

/// `low + 2^lo * mid + 2^hi * high`, with `low` below `2^lo` and `mid` below
/// `2^(hi - lo)`, splits back into its three parts.
pub proof fn lemma_three_parts(low: nat, mid: nat, high: nat, lo: nat, hi: nat)
    requires
        lo <= hi,
        low < pow2(lo),
        mid < pow2((hi - lo) as nat),
    ensures
        (low + mid * pow2(lo) + high * pow2(hi)) % pow2(lo) == low,
        ((low + mid * pow2(lo) + high * pow2(hi)) / pow2(lo)) % pow2((hi - lo) as nat) == mid,
        (low + mid * pow2(lo) + high * pow2(hi)) / pow2(hi) == high,
        low + mid * pow2(lo) < pow2(hi),
{
    let w = (hi - lo) as nat;
    let pl = pow2(lo);
    let pw = pow2(w);
    let ph = pow2(hi);
    let x = low + mid * pl + high * ph;
    lemma_pow2_split(lo, w);
    assert(lo + w == hi);
    assert(ph == pl * pw);
    let upper = mid + high * pw;
    assert(x == pl * upper + low) by (nonlinear_arith)
        requires
            x == low + mid * pl + high * ph,
            ph == pl * pw,
            upper == mid + high * pw,
    ;
    lemma_div_multiples_vanish_fancy(upper as int, low as int, pl as int);
    assert(x / pl == upper);
    lemma_fundamental_div_mod(x as int, pl as int);
    assert(x % pl == low);
    assert(upper == pw * high + mid) by (nonlinear_arith)
        requires
            upper == mid + high * pw,
    ;
    lemma_div_multiples_vanish_fancy(high as int, mid as int, pw as int);
    lemma_fundamental_div_mod(upper as int, pw as int);
    assert(upper % pw == mid);
    assert(upper / pw == high);
    lemma_div_pow2_twice(x, lo, w);
    assert(low + mid * pl < ph) by (nonlinear_arith)
        requires
            low < pl,
            mid < pw,
            ph == pl * pw,
    ;
}

/// What `zone_store` writes is what `zone_value` reads back, the rest of the
/// byte is as before, and the result is a byte.
pub proof fn lemma_zone_store(byte: nat, start: nat, end: nat, chunk: nat)
    requires
        start <= end <= 8,
        byte < 256,
    ensures
        zone_store(byte, start, end, chunk) < 256,
        zone_value(zone_store(byte, start, end, chunk), start, end) == chunk % pow2(
            (end - start) as nat,
        ),
        zone_store(byte, start, end, chunk) % pow2(start) == byte % pow2(start),
        zone_store(byte, start, end, chunk) / pow2(end) == byte / pow2(end),
{
    let w = (end - start) as nat;
    let low = byte % pow2(start);
    let mid = chunk % pow2(w);
    let high = byte / pow2(end);
    lemma_pow2_pos(start);
    lemma_pow2_pos(w);
    lemma_pow2_pos(end);
    lemma_three_parts(low, mid, high, start, end);
    // The stored byte is its part from bit `end` up plus less than `2^end`.
    lemma_byte_top(byte, end);
}

/// The part of a byte from bit `end` up, put back in place, leaves room for
/// `end` bits below it.
pub proof fn lemma_byte_top(byte: nat, end: nat)
    requires
        end <= 8,
        byte < 256,
    ensures
        (byte / pow2(end)) * pow2(end) + pow2(end) <= 256,
{
    let w = (8 - end) as nat;
    lemma_pow2_split(end, w);
    lemma2_to64();
    assert(end + w == 8);
    let pe = pow2(end);
    let pw = pow2(w);
    let high = byte / pe;
    lemma_fundamental_div_mod(byte as int, pe as int);
    assert(high < pw) by (nonlinear_arith)
        requires
            byte == pe * high + byte % pe,
            byte < 256,
            pe * pw == 256,
            pe > 0,
            byte % pe >= 0,
    ;
    assert(high * pe + pe <= 256) by (nonlinear_arith)
        requires
            high < pw,
            pe * pw == 256,
    ;
}

/// Calls `u64::reverse_bits`, which the standard library documents as
/// reversing the order of the 64 bits: bit `i` of the result is bit `63 - i`
/// of the argument. This is taken on trust.
#[verifier::external_body]
fn reverse_word(word: u64) -> (mirrored: u64)
    ensures
        forall|i: nat|
            i < 64 ==> #[trigger] bit_of(mirrored as nat, i) == bit_of(word as nat, (63 - i) as nat),
{
    word.reverse_bits()
}

/// The low `bits` bits of `value` in opposite order, right-justified.
pub fn reverse_bits(value: u64, bits: usize) -> (r: u64)
    requires
        1 <= bits <= 64,
    ensures
        r as nat == reversed(value as nat, bits as nat),
{
    let mirrored = reverse_word(value);
    let shift = (64 - bits) as u64;
    proof {
        lemma2_to64();
        lemma_reversed_from_bits(mirrored as nat, value as nat, 64);
        lemma_reversed_shift(value as nat, 64, bits as nat);
        lemma_u64_shr_is_div(mirrored, shift);
    }
    mirrored >> shift
}

/// The mask that selects the bits `[start, end)` of a byte.
pub fn mask_bits(start: u8, end: u8) -> (mask: u8)
    requires
        start <= end <= 8,
        start < 8,
    ensures
        mask as nat == zone_mask(start as nat, end as nat),
{
    let len = (end - start) as u16;
    proof {
        lemma_mask_bits(start, end);
    }
    (((1u16 << len) - 1) as u8) << start
}

proof fn lemma_mask_bits(start: u8, end: u8)
    requires
        start <= end <= 8,
        start < 8,
    ensures
        (1u16 << ((end - start) as u16)) >= 1,
        ((1u16 << ((end - start) as u16)) - 1) as u16 <= 255,
        ((((1u16 << ((end - start) as u16)) - 1) as u8) << start) as nat == zone_mask(
            start as nat,
            end as nat,
        ),
{
    let len = (end - start) as u16;
    let e = end as u16;
    let s = start as u16;
    assert(1u16 << len >= 1 && ((1u16 << len) - 1) as u16 <= 255 && ((((1u16 << len) - 1) as u8)
        << start) as u16 == (1u16 << e) - (1u16 << s)) by (bit_vector)
        requires
            start <= end <= 8,
            start < 8,
            len == (end - start) as u16,
            e == end as u16,
            s == start as u16,
    ;
    lemma2_to64();
    lemma_u16_shl_is_mul(1, e);
    lemma_u16_shl_is_mul(1, s);
    lemma_zone_mask(start as nat, end as nat);
}

/// Appends the bits `[start, end)` of `data` below the bits that `value`
/// holds: `value` moves up by `end - start` places, what leaves the 64 bits
/// is lost, and the zone fills the places that were freed.
pub fn get_bits(data: &u8, start: u8, end: u8, value: &mut u64)
    requires
        start <= end <= 8,
        start < 8,
    ensures
        *final(value) as nat == (*old(value) as nat * pow2((end - start) as nat) + zone_value(
            *data as nat,
            start as nat,
            end as nat,
        )) % pow2(64),
{
    let mask = mask_bits(start, end);
    proof {
        lemma_get_bits(*data, start, end, mask, *value);
    }
    *value <<= end - start;
    *value |= ((*data & mask) >> start) as u64;
}

proof fn lemma_get_bits(data: u8, start: u8, end: u8, mask: u8, value: u64)
    requires
        start <= end <= 8,
        start < 8,
        mask as nat == zone_mask(start as nat, end as nat),
    ensures
        ((value << ((end - start) as u8)) | (((data & mask) >> start) as u64)) as nat == (value as nat
            * pow2((end - start) as nat) + zone_value(data as nat, start as nat, end as nat))
            % pow2(64),
{
    let len = (end - start) as u8;
    let len16 = len as u16;
    let len64 = len as u64;
    let e = end as u16;
    let s = start as u16;
    let d16 = data as u16;
    let chunk = (data & mask) >> start;
    let unit = 1u16 << len16;
    lemma2_to64();
    lemma_u16_shl_is_mul(1, e);
    lemma_u16_shl_is_mul(1, s);
    lemma_u16_shl_is_mul(1, len16);
    lemma_zone_mask(start as nat, end as nat);
    assert(chunk as u16 == (d16 >> s) % unit && unit >= 1 && (chunk as u16) < unit) by (bit_vector)
        requires
            start <= end <= 8,
            start < 8,
            len16 == (end - start) as u16,
            e == end as u16,
            s == start as u16,
            d16 == data as u16,
            mask as u16 == (1u16 << e) - (1u16 << s),
            chunk == (data & mask) >> start,
            unit == 1u16 << len16,
    ;
    lemma_u16_shr_is_div(d16, s);
    assert(chunk as nat == zone_value(data as nat, start as nat, end as nat));
    let c64 = chunk as u64;
    let unit64 = 1u64 << len64;
    lemma_u64_shl_is_mul(1, len64);
    assert(unit64 as nat == pow2(len as nat));
    assert(((value << len) | c64) as int == (value as int * unit64 as int + c64 as int)
        % 0x1_0000_0000_0000_0000int) by (bit_vector)
        requires
            len <= 8,
            len64 == len as u64,
            unit64 == 1u64 << len64,
            c64 < unit64,
    ;
}

/// Writes the low `end - start` bits of `value`, in opposite order, into
/// the bits `[start, end)` of `data`, keeps the other bits of `data`, and
/// drops from `value` the bits that were written.
pub fn set_bits(data: &mut u8, start: u8, end: u8, value: &mut u64)
    requires
        start < end <= 8,
    ensures
        *final(data) as nat == zone_store(
            *old(data) as nat,
            start as nat,
            end as nat,
            reversed(*old(value) as nat, (end - start) as nat),
        ),
        *final(value) as nat == *old(value) as nat / pow2((end - start) as nat),
{
    let mask = mask_bits(start, end);
    let whole = reverse_bits(*value, (end - start) as usize);
    proof {
        lemma_reversed_bound(*value as nat, (end - start) as nat);
        lemma_set_bits(*data, start, end, mask, whole);
        lemma_u64_shr_is_div(*value, (end - start) as u64);
    }
    let reversed = whole as u8;
    *data &= !mask;
    *data |= mask & (reversed << start);
    *value >>= end - start;
}

proof fn lemma_set_bits(data: u8, start: u8, end: u8, mask: u8, chunk: u64)
    requires
        start < end <= 8,
        mask as nat == zone_mask(start as nat, end as nat),
        (chunk as nat) < pow2((end - start) as nat),
    ensures
        chunk < 256,
        ((data & !mask) | (mask & ((chunk as u8) << start))) as nat == zone_store(
            data as nat,
            start as nat,
            end as nat,
            chunk as nat,
        ),
{
    let len16 = (end - start) as u16;
    let e = end as u16;
    let s = start as u16;
    let d16 = data as u16;
    lemma2_to64();
    if end - start < 8 {
        lemma_pow2_strictly_increases((end - start) as nat, 8);
    }
    let c8 = chunk as u8;
    let c16 = chunk as u16;
    lemma_u16_shl_is_mul(1, e);
    lemma_u16_shl_is_mul(1, s);
    lemma_u16_shl_is_mul(1, len16);
    lemma_zone_mask(start as nat, end as nat);
    let pe = 1u16 << e;
    let ps = 1u16 << s;
    let stored = (data & !mask) | (mask & (c8 << start));
    assert(ps >= 1 && pe >= 1 && stored as u16 == d16 % ps + c16 * ps + (d16 >> e) * pe) by (bit_vector)
        requires
            start < end <= 8,
            len16 == (end - start) as u16,
            e == end as u16,
            s == start as u16,
            d16 == data as u16,
            c16 == c8 as u16,
            c16 < (1u16 << len16),
            mask as u16 == (1u16 << e) - (1u16 << s),
            pe == 1u16 << e,
            ps == 1u16 << s,
            stored == (data & !mask) | (mask & (c8 << start)),
    ;
    lemma_u16_shr_is_div(d16, e);
    lemma_small_mod(chunk as nat, pow2((end - start) as nat));
}

/// `zone_store` changes no bit outside `[start, end)`.
pub proof fn lemma_zone_store_keeps(byte: nat, start: nat, end: nat, chunk: nat, i: nat)
    requires
        start <= end <= 8,
        byte < 256,
        i < start || end <= i,
    ensures
        bit_of(zone_store(byte, start, end, chunk), i) == bit_of(byte, i),
{
    let stored = zone_store(byte, start, end, chunk);
    lemma_zone_store(byte, start, end, chunk);
    if i < start {
        lemma_bit_of_low_part(stored, start, i);
        lemma_bit_of_low_part(byte, start, i);
    } else {
        lemma_bit_of_shifted(stored, end, (i - end) as nat);
        lemma_bit_of_shifted(byte, end, (i - end) as nat);
        assert(end + (i - end) as nat == i);
    }
}

/// The value of a zone depends on the bits `[start, end)` alone.
pub proof fn lemma_zone_value_reads(a: nat, b: nat, start: nat, end: nat)
    requires
        start <= end,
        forall|i: nat| start <= i < end ==> #[trigger] bit_of(a, i) == bit_of(b, i),
    ensures
        zone_value(a, start, end) == zone_value(b, start, end),
{
    let n = (end - start) as nat;
    assert forall|i: nat| i < n implies #[trigger] bit_of(a / pow2(start), i) == bit_of(
        b / pow2(start),
        i,
    ) by {
        lemma_bit_of_shifted(a, start, i);
        lemma_bit_of_shifted(b, start, i);
        assert(bit_of(a, start + i) == bit_of(b, start + i));
    }
    lemma_low_bits_decide(a / pow2(start), b / pow2(start), n);
}

} // verus!
