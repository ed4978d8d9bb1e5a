//! The mathematical model of binary digits: the bit of a key at a given
//! position, the value formed by the low bits of a key, and the orderings
//! the sort maintains pass by pass.

use vstd::arithmetic::div_mod::lemma_fundamental_div_mod;
use vstd::arithmetic::div_mod::lemma_mod_breakdown;
use vstd::arithmetic::div_mod::lemma_mod_division_less_than_divisor;
use vstd::arithmetic::div_mod::lemma_small_mod;
use vstd::arithmetic::mul::lemma_mul_inequality;
use vstd::arithmetic::power2::lemma2_to64;
use vstd::arithmetic::power2::lemma_pow2_adds;
use vstd::arithmetic::power2::lemma_pow2_pos;
use vstd::arithmetic::power2::lemma_pow2_unfold;
use vstd::arithmetic::power2::pow2;
use vstd::prelude::*;

verus! {

/// The bit of `v` at position `d` (position 0 is the least significant).
pub open spec fn digit_of(v: usize, d: nat) -> bool {
    (v as nat / pow2(d)) % 2 == 1
}

/// The value formed by the `k` low-order bits of `v`.
pub open spec fn low_bits(v: usize, k: nat) -> nat {
    (v as nat) % pow2(k)
}

/// The sequence is sorted when compared by the `k` low-order bits alone.
/// After each completed bit pass `d` the key sequence satisfies this with
/// `k == d + 1`; once every required pass is done it implies a fully
/// sorted sequence.
pub open spec fn sorted_below(s: Seq<usize>, k: nat) -> bool {
    forall|i: int, j: int| 0 <= i < j < s.len() ==> low_bits(#[trigger] s[i], k) <= low_bits(#[trigger] s[j], k)
}

/// The sequence is sorted (non-decreasing).
pub open spec fn is_sorted(s: Seq<usize>) -> bool {
    forall|i: int, j: int| 0 <= i < j < s.len() ==> #[trigger] s[i] <= #[trigger] s[j]
}

/// Every element fits in `k` bits.
pub open spec fn elems_below(s: Seq<usize>, k: nat) -> bool {
    forall|i: int| 0 <= i < s.len() ==> (#[trigger] s[i] as nat) < pow2(k)
}

/// The low `k + 1` bits of a value are its low `k` bits plus, when the
/// bit at position `k` is set, the weight of that bit.
pub proof fn lemma_low_bits_step(v: usize, k: nat)
    ensures
        low_bits(v, k + 1) == low_bits(v, k) + if digit_of(v, k) {
            pow2(k)
        } else {
            0
        },
{
    lemma_pow2_pos(k);
    lemma_pow2_adds(k, 1);
    lemma_pow2_unfold(k + 1);
    lemma_mod_breakdown(v as int, pow2(k) as int, 2);
}

/// The low bits of a value are below the weight of the next bit.
pub proof fn lemma_low_bits_bound(v: usize, k: nat)
    ensures
        low_bits(v, k) < pow2(k),
{
    lemma_pow2_pos(k);
    lemma_mod_division_less_than_divisor(v as int, pow2(k) as int);
}

/// A value below `pow2(k)` equals its own `k` low bits.
pub proof fn lemma_low_bits_of_small(v: usize, k: nat)
    requires
        (v as nat) < pow2(k),
    ensures
        low_bits(v, k) == v as nat,
{
    lemma_pow2_pos(k);
    lemma_small_mod(v as nat, pow2(k));
}

/// No bits at all order every value equally: everything is congruent
/// modulo `pow2(0) == 1`.
pub proof fn lemma_sorted_below_zero(s: Seq<usize>)
    ensures
        sorted_below(s, 0),
{
    assert forall|i: int, j: int| 0 <= i < j < s.len() implies low_bits(
        #[trigger] s[i],
        0,
    ) <= low_bits(#[trigger] s[j], 0) by {
        lemma2_to64();
        lemma_low_bits_bound(s[i], 0);
        lemma_low_bits_bound(s[j], 0);
    }
}

/// A sequence sorted by the low `k` bits, all of whose elements fit in
/// `k` bits, is sorted outright.
pub proof fn lemma_sorted_below_all_bits(s: Seq<usize>, k: nat)
    requires
        sorted_below(s, k),
        elems_below(s, k),
    ensures
        is_sorted(s),
{
    assert forall|i: int, j: int| 0 <= i < j < s.len() implies #[trigger] s[i] <= #[trigger] s[j] by {
        lemma_low_bits_of_small(s[i], k);
        lemma_low_bits_of_small(s[j], k);
    }
}

/// A value whose quotient by `pow2(k)` is zero fits in `k` bits.
pub proof fn lemma_div_zero_is_small(v: usize, k: nat)
    requires
        (v as nat) / pow2(k) == 0,
    ensures
        (v as nat) < pow2(k),
{
    lemma_pow2_pos(k);
    lemma_fundamental_div_mod(v as int, pow2(k) as int);
    lemma_mod_division_less_than_divisor(v as int, pow2(k) as int);
}

/// Conversely, a nonzero quotient by `pow2(k)` means `v >= pow2(k)`.
pub proof fn lemma_div_nonzero_is_large(v: usize, k: nat)
    requires
        (v as nat) / pow2(k) > 0,
    ensures
        (v as nat) >= pow2(k),
{
    lemma_pow2_pos(k);
    lemma_fundamental_div_mod(v as int, pow2(k) as int);
    lemma_mod_division_less_than_divisor(v as int, pow2(k) as int);
    lemma_mul_inequality(1, (v as nat / pow2(k)) as int, pow2(k) as int);
}

} // verus!
