//! Natural numbers read as strings of bits: single bits, the low bits in
//! opposite order, and the arithmetic facts the packed accessors rest on.

use vstd::arithmetic::div_mod::{
    lemma_div_denominator,
    lemma_div_multiples_vanish_fancy,
    lemma_mod_bound,
    lemma_mod_breakdown,
    lemma_mod_mod,
};
use vstd::arithmetic::mul::lemma_mul_is_commutative;
use vstd::arithmetic::power2::{lemma2_to64, lemma_pow2_adds, lemma_pow2_pos, lemma_pow2_unfold, pow2};
use vstd::prelude::*;

verus! {

/// Bit `i` of `v`, as 0 or 1; bit 0 is the least significant.
pub open spec fn bit_of(v: nat, i: nat) -> nat {
    (v / pow2(i)) % 2
}

/// The low `n` bits of `v` in opposite order: bit `i` of the result is bit
/// `n - 1 - i` of `v`, and the result is below `2^n`.
pub open spec fn reversed(v: nat, n: nat) -> nat
    decreases n,
{
    if n == 0 {
        0
    } else {
        (v % 2) * pow2((n - 1) as nat) + reversed(v / 2, (n - 1) as nat)
    }
}

/// `2^(a + b) == 2^a * 2^b`, with both factors positive.
pub proof fn lemma_pow2_split(a: nat, b: nat)
    ensures
        pow2(a + b) == pow2(a) * pow2(b),
        pow2(a) > 0,
        pow2(b) > 0,
        pow2(a + b) > 0,
{
    lemma_pow2_adds(a, b);
    lemma_pow2_pos(a);
    lemma_pow2_pos(b);
    lemma_pow2_pos(a + b);
}

/// Dividing by `2^a` and then by `2^b` divides by `2^(a + b)`.
pub proof fn lemma_div_pow2_twice(v: nat, a: nat, b: nat)
    ensures
        (v / pow2(a)) / pow2(b) == v / pow2(a + b),
{
    lemma_pow2_split(a, b);
    lemma_div_denominator(v as int, pow2(a) as int, pow2(b) as int);
}

/// The low `a + b` bits are the low `a` bits below the next `b` bits.
pub proof fn lemma_mod_pow2_split(v: nat, a: nat, b: nat)
    ensures
        v % pow2(a + b) == pow2(a) * ((v / pow2(a)) % pow2(b)) + v % pow2(a),
{
    lemma_pow2_split(a, b);
    lemma_mod_breakdown(v as int, pow2(a) as int, pow2(b) as int);
}

/// Bit `i` of `v / 2^k` is bit `k + i` of `v`.
pub proof fn lemma_bit_of_shifted(v: nat, k: nat, i: nat)
    ensures
        bit_of(v / pow2(k), i) == bit_of(v, k + i),
{
    lemma_div_pow2_twice(v, k, i);
}

/// `reversed(v, n)` fits in `n` bits.
pub proof fn lemma_reversed_bound(v: nat, n: nat)
    ensures
        reversed(v, n) < pow2(n),
    decreases n,
{
    if n == 0 {
        lemma2_to64();
    } else {
        let m = (n - 1) as nat;
        lemma_reversed_bound(v / 2, m);
        lemma_pow2_unfold(n);
        assert((v % 2) * pow2(m) <= pow2(m)) by (nonlinear_arith)
            requires
                v % 2 <= 1,
        ;
    }
}

/// The lowest bit of `reversed(v, n)` is bit `n - 1` of `v`, and the rest is
/// the reversal of the `n - 1` bits below it.
pub proof fn lemma_reversed_low_bit(v: nat, n: nat)
    requires
        n >= 1,
    ensures
        reversed(v, n) == 2 * reversed(v, (n - 1) as nat) + bit_of(v, (n - 1) as nat),
    decreases n,
{
    lemma2_to64();
    if n == 1 {
        assert(reversed(v / 2, 0) == 0);
        assert(reversed(v, 0) == 0);
        assert(reversed(v, 1) == (v % 2) * pow2(0) + reversed(v / 2, 0));
    } else {
        let m = (n - 1) as nat;
        let k = (n - 2) as nat;
        lemma_reversed_low_bit(v / 2, m);
        lemma_pow2_unfold(m);
        assert((v % 2) * pow2(m) == 2 * ((v % 2) * pow2(k))) by (nonlinear_arith)
            requires
                pow2(m) == 2 * pow2(k),
        ;
        assert(bit_of(v / 2, k) == bit_of(v, m)) by {
            lemma_bit_of_shifted(v, 1, k);
        }
        assert(reversed(v, m) == (v % 2) * pow2(k) + reversed(v / 2, k));
    }
}

/// Dropping the low `n - k` bits of `reversed(v, n)` leaves `reversed(v, k)`.
pub proof fn lemma_reversed_shift(v: nat, n: nat, k: nat)
    requires
        k <= n,
    ensures
        reversed(v, n) / pow2((n - k) as nat) == reversed(v, k),
    decreases n - k,
{
    lemma2_to64();
    if n == k {
        assert((n - k) as nat == 0);
        assert(reversed(v, n) / 1 == reversed(v, n));
    } else {
        let m = (n - 1) as nat;
        let r = reversed(v, n);
        let d = (m - k) as nat;
        lemma_reversed_low_bit(v, n);
        assert(r / 2 == reversed(v, m));
        lemma_reversed_shift(v, m, k);
        assert(reversed(v, m) / pow2(d) == reversed(v, k));
        lemma_div_pow2_twice(r, 1, d);
        assert((r / pow2(1)) / pow2(d) == r / pow2(1 + d));
        assert(1 + d == (n - k) as nat);
    }
}

/// Reversing the low `k` bits of `reversed(v, n)` gives back, in their own
/// order, the top `k` of the low `n` bits of `v`.
pub proof fn lemma_reversed_twice(v: nat, n: nat, k: nat)
    requires
        k <= n,
    ensures
        reversed(reversed(v, n), k) == (v / pow2((n - k) as nat)) % pow2(k),
    decreases k,
{
    lemma2_to64();
    if k == 0 {
    } else {
        let r = reversed(v, n);
        let n1 = (n - 1) as nat;
        let k1 = (k - 1) as nat;
        let d = (n - k) as nat;
        let y = v / pow2(d);
        lemma_reversed_low_bit(v, n);
        assert(r % 2 == bit_of(v, n1));
        assert(r / 2 == reversed(v, n1));
        lemma_reversed_twice(v, n1, k1);
        assert((n1 - k1) as nat == d);
        assert(reversed(r, k) == bit_of(v, n1) * pow2(k1) + y % pow2(k1));
        lemma_mod_pow2_split(y, k1, 1);
        assert(k1 + 1 == k);
        assert((y / pow2(k1)) % 2 == bit_of(v, n1)) by {
            lemma_bit_of_shifted(v, d, k1);
            assert(d + k1 == n1);
        }
        lemma_mul_is_commutative(pow2(k1) as int, bit_of(v, n1) as int);
    }
}

/// Bit `i` of `reversed(v, n)` is bit `n - 1 - i` of `v`.
pub proof fn lemma_reversed_bits(v: nat, n: nat, i: nat)
    requires
        i < n,
    ensures
        bit_of(reversed(v, n), i) == bit_of(v, (n - 1 - i) as nat),
    decreases n,
{
    lemma2_to64();
    lemma_reversed_low_bit(v, n);
    if i > 0 {
        lemma_bit_of_shifted(reversed(v, n), 1, (i - 1) as nat);
        assert(1 + (i - 1) as nat == i);
        lemma_reversed_bits(v, (n - 1) as nat, (i - 1) as nat);
    }
}

/// A number below `2^n` whose bits mirror the low `n` bits of `x` is
/// `reversed(x, n)`.
pub proof fn lemma_reversed_from_bits(r: nat, x: nat, n: nat)
    requires
        r < pow2(n),
        forall|i: nat| i < n ==> #[trigger] bit_of(r, i) == bit_of(x, (n - 1 - i) as nat),
    ensures
        r == reversed(x, n),
    decreases n,
{
    lemma2_to64();
    if n == 0 {
    } else {
        let m = (n - 1) as nat;
        lemma_pow2_unfold(n);
        assert(bit_of(r, 0) == bit_of(x, m));
        assert(r % 2 == bit_of(x, m));
        assert forall|i: nat| i < m implies #[trigger] bit_of(r / 2, i) == bit_of(
            x,
            (m - 1 - i) as nat,
        ) by {
            lemma_bit_of_shifted(r, 1, i);
            assert(bit_of(r, 1 + i) == bit_of(x, (n - 1 - (1 + i)) as nat));
        }
        lemma_reversed_from_bits(r / 2, x, m);
        lemma_reversed_low_bit(x, n);
    }
}

/// Below bit `k`, `v % 2^k` has the bits of `v`.
pub proof fn lemma_bit_of_low_part(v: nat, k: nat, i: nat)
    requires
        i < k,
    ensures
        bit_of(v % pow2(k), i) == bit_of(v, i),
{
    let above = (k - i) as nat;
    let high = (above - 1) as nat;
    let shifted = v / pow2(i);
    lemma_pow2_split(i, above);
    lemma_mod_pow2_split(v, i, above);
    assert(i + above == k);
    // v % 2^k == 2^i * (shifted % 2^above) + v % 2^i
    lemma_mod_bound(v as int, pow2(i) as int);
    lemma_div_multiples_vanish_fancy(
        (shifted % pow2(above)) as int,
        (v % pow2(i)) as int,
        pow2(i) as int,
    );
    assert((v % pow2(k)) / pow2(i) == shifted % pow2(above));
    lemma_pow2_split(1, high);
    lemma2_to64();
    assert(1 + high == above);
    lemma_mod_mod(shifted as int, 2, pow2(high) as int);
}

/// Two numbers with the same bits below bit `n` are equal modulo `2^n`.
pub proof fn lemma_low_bits_decide(a: nat, b: nat, n: nat)
    requires
        forall|i: nat| i < n ==> #[trigger] bit_of(a, i) == bit_of(b, i),
    ensures
        a % pow2(n) == b % pow2(n),
    decreases n,
{
    lemma2_to64();
    if n == 0 {
    } else {
        let m = (n - 1) as nat;
        lemma_low_bits_decide(a, b, m);
        lemma_mod_pow2_split(a, m, 1);
        lemma_mod_pow2_split(b, m, 1);
        assert(m + 1 == n);
        assert(bit_of(a, m) == bit_of(b, m));
    }
}

} // verus!
