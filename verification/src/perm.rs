//! The bookkeeping of one bit pass: how many elements of a prefix have
//! the current bit clear, the stable target position every element is
//! assigned, and the arrangement that moving each element to its target
//! produces.

use crate::digits::digit_of;
use crate::digits::low_bits;
use crate::digits::sorted_below;
use crate::digits::lemma_low_bits_bound;
use crate::digits::lemma_low_bits_step;
use vstd::arithmetic::power2::pow2;
use vstd::prelude::*;

verus! {

/// How many of the first `n` elements of `s` have bit `d` clear.
pub open spec fn zeros_below(s: Seq<usize>, d: nat, n: int) -> int
    decreases n,
{
    if n <= 0 {
        0
    } else {
        zeros_below(s, d, n - 1) + if digit_of(s[n - 1], d) {
            0int
        } else {
            1int
        }
    }
}

/// How many of the first `n` elements of `s` have bit `d` set.
pub open spec fn ones_below(s: Seq<usize>, d: nat, n: int) -> int {
    n - zeros_below(s, d, n)
}

/// The stable target position of element `i` for the pass on bit `d`:
/// clear-bit elements pack at the front in their original order, and
/// set-bit elements follow, also in their original order, starting at
/// the total number of clear-bit elements.
pub open spec fn target_of(s: Seq<usize>, d: nat, i: int) -> int {
    if digit_of(s[i], d) {
        zeros_below(s, d, s.len() as int) + ones_below(s, d, i)
    } else {
        zeros_below(s, d, i)
    }
}

/// The position whose target is `j`; meaningful because the targets of
/// one pass form a permutation of the positions.
pub open spec fn source_of(s: Seq<usize>, d: nat, j: int) -> int {
    choose|i: int| 0 <= i < s.len() && target_of(s, d, i) == j
}

/// The arrangement produced by moving every element of `s` to its
/// target position for the pass on bit `d`.
pub open spec fn rearranged(s: Seq<usize>, d: nat) -> Seq<usize> {
    Seq::new(s.len(), |j: int| s[source_of(s, d, j)])
}

/// Over any window of positions, between zero and one element per
/// position has the bit clear.
pub proof fn lemma_zeros_below_bounds(s: Seq<usize>, d: nat, m: int, n: int)
    requires
        0 <= m <= n,
    ensures
        0 <= zeros_below(s, d, n) - zeros_below(s, d, m) <= n - m,
    decreases n - m,
{
    if m < n {
        lemma_zeros_below_bounds(s, d, m, n - 1);
    }
}

/// Every target position lies within the sequence.
pub proof fn lemma_target_in_range(s: Seq<usize>, d: nat, i: int)
    requires
        0 <= i < s.len(),
    ensures
        0 <= target_of(s, d, i) < s.len(),
{
    let n = s.len() as int;
    lemma_zeros_below_bounds(s, d, 0, i);
    lemma_zeros_below_bounds(s, d, 0, n);
    lemma_zeros_below_bounds(s, d, i + 1, n);
    assert(zeros_below(s, d, i + 1) == zeros_below(s, d, i) + if digit_of(s[i], d) {
        0int
    } else {
        1int
    });
}

/// Distinct positions are assigned distinct targets: clear-bit targets
/// increase strictly along the sequence, set-bit targets do too, and
/// the two ranges do not meet.
pub proof fn lemma_targets_injective(s: Seq<usize>, d: nat, i: int, j: int)
    requires
        0 <= i < s.len(),
        0 <= j < s.len(),
        i != j,
    ensures
        target_of(s, d, i) != target_of(s, d, j),
{
    if i < j {
        lemma_targets_increase(s, d, i, j);
    } else {
        lemma_targets_increase(s, d, j, i);
    }
}

proof fn lemma_targets_increase(s: Seq<usize>, d: nat, i: int, j: int)
    requires
        0 <= i < j < s.len(),
    ensures
        digit_of(s[i], d) == digit_of(s[j], d) ==> target_of(s, d, i) < target_of(s, d, j),
        digit_of(s[i], d) != digit_of(s[j], d) ==> target_of(s, d, i) != target_of(s, d, j),
{
    let n = s.len() as int;
    assert(zeros_below(s, d, i + 1) == zeros_below(s, d, i) + if digit_of(s[i], d) {
        0int
    } else {
        1int
    });
    assert(zeros_below(s, d, j + 1) == zeros_below(s, d, j) + if digit_of(s[j], d) {
        0int
    } else {
        1int
    });
    lemma_zeros_below_bounds(s, d, i + 1, j);
    lemma_zeros_below_bounds(s, d, j + 1, n);
    lemma_zeros_below_bounds(s, d, 0, i);
}

/// Every position of the sequence is some element's target.
pub proof fn lemma_target_surjective(s: Seq<usize>, d: nat, j: int)
    requires
        0 <= j < s.len(),
    ensures
        exists|i: int| 0 <= i < s.len() && target_of(s, d, i) == j,
{
    let n = s.len() as int;
    lemma_zeros_below_bounds(s, d, 0, n);
    if j < zeros_below(s, d, n) {
        lemma_zero_rank_exists(s, d, n, j);
        let i = choose|i: int|
            0 <= i < n && !digit_of(s[i], d) && zeros_below(s, d, i) == j;
        assert(target_of(s, d, i) == j);
    } else {
        let c = j - zeros_below(s, d, n);
        lemma_one_rank_exists(s, d, n, c);
        let i = choose|i: int|
            0 <= i < n && digit_of(s[i], d) && ones_below(s, d, i) == c;
        assert(target_of(s, d, i) == j);
    }
}

/// For every rank below the total count of clear-bit elements there is
/// an element of that rank: the `c`-th clear-bit element exists.
proof fn lemma_zero_rank_exists(s: Seq<usize>, d: nat, n: int, c: int)
    requires
        n <= s.len(),
        0 <= c < zeros_below(s, d, n),
    ensures
        exists|i: int| 0 <= i < n && !digit_of(s[i], d) && zeros_below(s, d, i) == c,
    decreases n,
{
    assert(n > 0);
    if c < zeros_below(s, d, n - 1) {
        lemma_zero_rank_exists(s, d, n - 1, c);
        let i = choose|i: int|
            0 <= i < n - 1 && !digit_of(s[i], d) && zeros_below(s, d, i) == c;
        assert(0 <= i < n && !digit_of(s[i], d) && zeros_below(s, d, i) == c);
    } else {
        assert(!digit_of(s[n - 1], d) && zeros_below(s, d, n - 1) == c);
    }
}

/// The `c`-th set-bit element exists, for every rank `c` below the
/// total count of set-bit elements.
proof fn lemma_one_rank_exists(s: Seq<usize>, d: nat, n: int, c: int)
    requires
        n <= s.len(),
        0 <= c < ones_below(s, d, n),
    ensures
        exists|i: int| 0 <= i < n && digit_of(s[i], d) && ones_below(s, d, i) == c,
    decreases n,
{
    lemma_zeros_below_bounds(s, d, 0, if n <= 0 { 0 } else { n });
    assert(n > 0);
    assert(zeros_below(s, d, n) == zeros_below(s, d, n - 1) + if digit_of(s[n - 1], d) {
        0int
    } else {
        1int
    });
    if c < ones_below(s, d, n - 1) {
        lemma_one_rank_exists(s, d, n - 1, c);
        let i = choose|i: int|
            0 <= i < n - 1 && digit_of(s[i], d) && ones_below(s, d, i) == c;
        assert(0 <= i < n && digit_of(s[i], d) && ones_below(s, d, i) == c);
    } else {
        assert(digit_of(s[n - 1], d) && ones_below(s, d, n - 1) == c);
    }
}

/// Moving every element to its target puts element `i` of `s` at
/// position `target_of(s, d, i)` of the rearranged sequence.
pub proof fn lemma_rearranged_maps_targets(s: Seq<usize>, d: nat, i: int)
    requires
        0 <= i < s.len(),
    ensures
        rearranged(s, d)[target_of(s, d, i)] == s[i],
{
    lemma_target_in_range(s, d, i);
    let j = target_of(s, d, i);
    assert(0 <= i < s.len() && target_of(s, d, i) == j);
    let i2 = source_of(s, d, j);
    assert(0 <= i2 < s.len() && target_of(s, d, i2) == j);
    if i2 != i {
        lemma_targets_injective(s, d, i, i2);
    }
}

/// The pass is a stable partition: if the sequence was sorted by the
/// `d` low bits, the rearranged sequence is sorted by the `d + 1` low
/// bits.
pub proof fn lemma_rearranged_sorted(s: Seq<usize>, d: nat)
    requires
        sorted_below(s, d),
    ensures
        sorted_below(rearranged(s, d), d + 1),
{
    let r = rearranged(s, d);
    let n = s.len() as int;
    assert forall|a: int, b: int| 0 <= a < b < r.len() implies low_bits(
        #[trigger] r[a],
        d + 1,
    ) <= low_bits(#[trigger] r[b], d + 1) by {
        lemma_target_surjective(s, d, a);
        lemma_target_surjective(s, d, b);
        let i = source_of(s, d, a);
        let j = source_of(s, d, b);
        assert(0 <= i < n && target_of(s, d, i) == a);
        assert(0 <= j < n && target_of(s, d, j) == b);
        assert(r[a] == s[i]);
        assert(r[b] == s[j]);
        lemma_zeros_below_bounds(s, d, 0, n);
        lemma_low_bits_step(s[i], d);
        lemma_low_bits_step(s[j], d);
        lemma_low_bits_bound(s[i], d);
        lemma_low_bits_bound(s[j], d);
        if digit_of(s[i], d) == digit_of(s[j], d) {
            if j <= i {
                if i == j {
                } else {
                    lemma_targets_increase(s, d, j, i);
                }
                assert(false);
            }
            assert(low_bits(s[i], d) <= low_bits(s[j], d));
        } else if !digit_of(s[i], d) {
            assert(low_bits(r[a], d + 1) < pow2(d) <= low_bits(r[b], d + 1));
        } else {
            lemma_target_in_range(s, d, j);
            lemma_targets_increase_helper_mixed(s, d, i, j);
            assert(false);
        }
    }
}

/// A set-bit element's target never precedes a clear-bit element's
/// target, whatever their order in the sequence.
proof fn lemma_targets_increase_helper_mixed(s: Seq<usize>, d: nat, i: int, j: int)
    requires
        0 <= i < s.len(),
        0 <= j < s.len(),
        digit_of(s[i], d),
        !digit_of(s[j], d),
    ensures
        target_of(s, d, j) < target_of(s, d, i),
{
    let n = s.len() as int;
    assert(zeros_below(s, d, j + 1) == zeros_below(s, d, j) + 1);
    lemma_zeros_below_bounds(s, d, j + 1, n);
    lemma_zeros_below_bounds(s, d, 0, i);
}

/// How many of the first `n` positions of a target table do not yet
/// hold their own index.  Together with how far the move cursor still
/// has to travel, this bounds the work left in a move phase: a swap
/// settles at least one position for good, and an advance shortens the
/// remaining scan.
pub open spec fn displaced_below(ni: Seq<usize>, n: int) -> int
    decreases n,
{
    if n <= 0 {
        0
    } else {
        displaced_below(ni, n - 1) + if ni[n - 1] as int == n - 1 {
            0int
        } else {
            1int
        }
    }
}

/// The contribution of position `k` to `displaced_below(s, n)`.
pub open spec fn displaced_at(s: Seq<usize>, k: int, n: int) -> int {
    if 0 <= k < n && s[k] as int != k {
        1
    } else {
        0
    }
}

/// Each position contributes at most one to the displaced count.
pub proof fn lemma_displaced_below_bounds(ni: Seq<usize>, m: int, n: int)
    requires
        0 <= m <= n,
    ensures
        0 <= displaced_below(ni, n) - displaced_below(ni, m) <= n - m,
    decreases n - m,
{
    if m < n {
        lemma_displaced_below_bounds(ni, m, n - 1);
    }
}

/// Two tables that agree except at two positions have displaced counts
/// that differ only by those positions' contributions.
pub proof fn lemma_displaced_below_two_changes(
    a: Seq<usize>,
    b: Seq<usize>,
    n: int,
    p: int,
    q: int,
)
    requires
        a.len() == b.len(),
        n <= a.len(),
        0 <= p < q,
        forall|k: int| 0 <= k < a.len() && k != p && k != q ==> a[k] == b[k],
    ensures
        displaced_below(b, n) == displaced_below(a, n) - displaced_at(a, p, n) - displaced_at(
            a,
            q,
            n,
        ) + displaced_at(b, p, n) + displaced_at(b, q, n),
    decreases n,
{
    if n > 0 {
        lemma_displaced_below_two_changes(a, b, n - 1, p, q);
    }
}

/// Swapping two elements of a sequence leaves its multiset unchanged.
pub proof fn lemma_swap_preserves_multiset(s: Seq<usize>, i: int, j: int)
    requires
        0 <= i < s.len(),
        0 <= j < s.len(),
        i != j,
    ensures
        s.update(i, s[j]).update(j, s[i]).to_multiset() == s.to_multiset(),
{
    broadcast use vstd::seq_lib::group_to_multiset_ensures;
    broadcast use vstd::multiset::group_multiset_axioms;

    let s1 = s.update(i, s[j]);
    assert(s1[j] == s[j]);
    assert(s1.to_multiset() == s.to_multiset().insert(s[j]).remove(s[i]));
    assert(s1.update(j, s[i]).to_multiset() == s1.to_multiset().insert(s[i]).remove(s[j]));
    assert(s.contains(s[i]));
    assert(s.contains(s[j]));
    assert(s.update(i, s[j]).update(j, s[i]).to_multiset() =~= s.to_multiset());
}

} // verus!
