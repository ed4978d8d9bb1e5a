//! Laws the library guarantees across whole runs, stated and proved
//! once.  Together with the contract of `sort` — a finished sorter's
//! sequence is sorted and holds exactly the keys handed in — they pin
//! down the result of every run, whatever its per-call budget.

use crate::digits::is_sorted;
use vstd::prelude::*;
use vstd::relations::sorted_by;
use vstd::relations::total_ordering;
use vstd::seq_lib::lemma_sorted_unique;

verus! {

/// The sorted arrangement of a key multiset is unique: two sorted
/// sequences holding the same keys are the same sequence.  Hence every
/// run of the incremental sorter ends in the very sequence a
/// conventional full sort produces, independent of the budget chosen
/// and of how the calls were interleaved with other work.
pub proof fn lemma_sorted_same_keys_equal(a: Seq<usize>, b: Seq<usize>)
    requires
        is_sorted(a),
        is_sorted(b),
        a.to_multiset() == b.to_multiset(),
    ensures
        a == b,
{
    let leq = |x: usize, y: usize| x <= y;
    assert(total_ordering(leq));
    assert(sorted_by(a, leq));
    assert(sorted_by(b, leq));
    lemma_sorted_unique(a, b, leq);
    assert(a =~= b);
}

/// A sequence all of whose keys are one and the same value sorts to
/// itself unchanged: any sorted sequence holding its keys is that
/// sequence again.
pub proof fn lemma_constant_sorts_to_itself(s: Seq<usize>, t: Seq<usize>, c: usize)
    requires
        forall|i: int| 0 <= i < s.len() ==> #[trigger] s[i] == c,
        t.to_multiset() == s.to_multiset(),
    ensures
        t == s,
{
    broadcast use vstd::seq_lib::group_to_multiset_ensures;

    assert(t.to_multiset().len() == t.len());
    assert(s.to_multiset().len() == s.len());
    assert forall|i: int| 0 <= i < t.len() implies #[trigger] t[i] == c by {
        assert(t.contains(t[i]));
        assert(t.to_multiset().count(t[i]) > 0);
        assert(s.contains(t[i]));
    }
    assert(t =~= s);
}

/// A single key sorts to itself: any sequence holding exactly the keys
/// of a one-element sequence is that sequence.
pub proof fn lemma_singleton_sorts_to_itself(s: Seq<usize>, t: Seq<usize>)
    requires
        s.len() == 1,
        t.to_multiset() == s.to_multiset(),
    ensures
        t == s,
{
    broadcast use vstd::seq_lib::group_to_multiset_ensures;

    assert(t.to_multiset().len() == t.len());
    assert(s.to_multiset().len() == s.len());
    assert(t.contains(t[0]));
    assert(t.to_multiset().count(t[0]) > 0);
    assert(s.contains(t[0]));
    assert(t =~= s);
}

} // verus!
