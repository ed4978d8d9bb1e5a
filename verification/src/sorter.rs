//! The sorter itself: an explicit state machine whose `sort` calls each
//! perform a bounded amount of work, so that a cooperative caller can
//! interleave sorting with other duties.

use crate::digits::digit_of;
use crate::digits::elems_below;
use crate::digits::is_sorted;
use crate::digits::lemma_sorted_below_all_bits;
use crate::digits::lemma_sorted_below_zero;
use crate::digits::sorted_below;
use crate::perm::displaced_at;
use crate::perm::displaced_below;
use crate::perm::lemma_displaced_below_bounds;
use crate::perm::lemma_displaced_below_two_changes;
use crate::perm::lemma_rearranged_maps_targets;
use crate::perm::lemma_rearranged_sorted;
use crate::perm::lemma_swap_preserves_multiset;
use crate::perm::lemma_target_in_range;
use crate::perm::lemma_targets_injective;
use crate::perm::lemma_zeros_below_bounds;
use crate::perm::ones_below;
use crate::perm::rearranged;
use crate::perm::target_of;
use crate::perm::zeros_below;
use vstd::arithmetic::mul::lemma_mul_nonnegative;
use vstd::arithmetic::power2::lemma_pow2_pos;
use vstd::arithmetic::power2::lemma_pow2_strictly_increases;
use vstd::arithmetic::power2::pow2;
use vstd::layout::unsigned_int_max_values;
use vstd::prelude::*;

verus! {

/// Where a sorter stands in its lifecycle.  The three middle states
/// cycle once per bit pass: count the clear bits, assign every element
/// a target position, move the elements into place.
#[derive(Clone, Copy, PartialEq, Eq, Structural, Debug)]
pub enum SorterState {
    Unprepared,
    Counting,
    ComputeIndexes,
    MoveItems,
    Finished,
}

/// A call was made outside the state it is legal in.  Each variant
/// names the state the call expected and carries the state the sorter
/// was actually in.
#[derive(Clone, Copy, PartialEq, Eq, Structural, Debug)]
pub enum UsageError {
    /// `prepare` was called on a sorter that was already prepared.
    ExpectedUnprepared { actual: SorterState },
    /// `sort` was called before `prepare` or after completion.
    ExpectedSorting { actual: SorterState },
    /// `get_result` was called before the sort had finished.
    ExpectedFinished { actual: SorterState },
}

/// An incremental, in-place, least-significant-digit radix sorter over
/// `usize` keys.  Create it with the sequence to sort, call `prepare`
/// once, then call `sort` until it reports completion, and finally take
/// the sorted sequence with `get_result`.
pub struct IncrementalSorter {
    iterations_per_call: usize,
    to_sort: Vec<usize>,
    state: SorterState,
    // overall sort progress
    max_digit_index: u8,
    digit_index: u8,
    // set while computing indexes, applied while moving items
    new_indexes: Vec<usize>,
    // cursor through the current phase's scan
    loop_index: usize,
    // storage for the index computation
    true_count: usize,
    false_count: usize,
    // the count of clear-bit elements, built during the counting phase
    accumulator: usize,
    // the key sequence as it was handed in
    initial: Ghost<Seq<usize>>,
    // the arrangement the current move phase is steering towards
    goal: Ghost<Seq<usize>>,
}

impl IncrementalSorter {
    /// The current contents of the key sequence.
    pub closed spec fn seq(&self) -> Seq<usize> {
        self.to_sort@
    }

    /// The key sequence as it was handed to the constructor.
    pub closed spec fn initial_seq(&self) -> Seq<usize> {
        self.initial@
    }

    /// The lifecycle state.
    pub closed spec fn state(&self) -> SorterState {
        self.state
    }

    /// The per-call work budget.
    pub closed spec fn budget(&self) -> usize {
        self.iterations_per_call
    }

    /// How many bit passes preparation decided on.
    pub closed spec fn passes(&self) -> nat {
        self.max_digit_index as nat
    }

    spec fn inv_common(&self) -> bool {
        &&& self.iterations_per_call >= 1
        &&& self.to_sort@.to_multiset() == self.initial@.to_multiset()
        &&& self.max_digit_index as nat <= usize::BITS as nat
        &&& self.digit_index <= self.max_digit_index
        &&& (!(self.state is Unprepared) ==> elems_below(
            self.to_sort@,
            self.max_digit_index as nat,
        ))
        &&& (!(self.state is Unprepared) && self.max_digit_index > 0 ==> self.to_sort@.len() > 0)
    }

    spec fn inv_unprepared(&self) -> bool {
        &&& self.to_sort@ == self.initial@
        &&& self.digit_index == 0
        &&& self.max_digit_index == 0
        &&& self.loop_index == 0
        &&& self.accumulator == 0
        &&& self.new_indexes@.len() == 0
    }

    spec fn inv_counting(&self) -> bool {
        let d = self.digit_index as nat;
        let s = self.to_sort@;
        &&& sorted_below(s, d)
        &&& self.new_indexes@.len() == 0
        &&& self.loop_index <= s.len()
        &&& self.accumulator == zeros_below(s, d, self.loop_index as int)
        &&& (self.digit_index < self.max_digit_index ==> self.loop_index < s.len())
        &&& (self.digit_index == self.max_digit_index ==> self.loop_index == 0)
    }

    spec fn inv_compute(&self) -> bool {
        let d = self.digit_index as nat;
        let s = self.to_sort@;
        let n = s.len() as int;
        let li = self.loop_index as int;
        &&& self.digit_index < self.max_digit_index
        &&& sorted_below(s, d)
        &&& li < n
        &&& self.new_indexes@.len() == li
        &&& self.accumulator == zeros_below(s, d, n)
        &&& self.false_count == zeros_below(s, d, li)
        &&& self.true_count == self.accumulator + ones_below(s, d, li)
        &&& forall|i: int| 0 <= i < li ==> self.new_indexes@[i] == target_of(s, d, i)
    }

    spec fn inv_moving(&self) -> bool {
        let s = self.to_sort@;
        let ni = self.new_indexes@;
        let g = self.goal@;
        let n = s.len() as int;
        let li = self.loop_index as int;
        &&& self.digit_index < self.max_digit_index
        &&& 0 <= li < n
        &&& ni.len() == n
        &&& g.len() == n
        &&& sorted_below(g, self.digit_index as nat + 1)
        &&& forall|i: int| 0 <= i < n ==> 0 <= #[trigger] ni[i] < n
        &&& forall|i: int, j: int|
            0 <= i < j < n ==> #[trigger] ni[i] != #[trigger] ni[j]
        &&& forall|i: int| 0 <= i < n ==> g[#[trigger] ni[i] as int] == s[i]
        &&& forall|i: int| 0 <= i < li ==> #[trigger] ni[i] == i
    }

    spec fn inv_finished(&self) -> bool {
        &&& is_sorted(self.to_sort@)
        &&& self.digit_index == self.max_digit_index
    }

    /// The sorter's well-formedness invariant: constructors establish
    /// it and every method preserves it.
    pub closed spec fn inv(&self) -> bool {
        &&& self.inv_common()
        &&& match self.state {
            SorterState::Unprepared => self.inv_unprepared(),
            SorterState::Counting => self.inv_counting(),
            SorterState::ComputeIndexes => self.inv_compute(),
            SorterState::MoveItems => self.inv_moving(),
            SorterState::Finished => self.inv_finished(),
        }
    }

    /// A bound on the number of `sort` calls still needed: every call
    /// that returns `Ok(false)` strictly decreases it and it never goes
    /// negative, so repeatedly stepping a prepared sorter is guaranteed
    /// to reach completion, whatever the budget.
    pub closed spec fn measure(&self) -> int {
        let n = self.to_sort@.len() as int;
        let pass = 4 * n + 5;
        let d = self.digit_index as int;
        let maxd = self.max_digit_index as int;
        let li = self.loop_index as int;
        match self.state {
            SorterState::Unprepared => 0,
            SorterState::Counting => if d == maxd {
                1
            } else {
                (maxd - d - 1) * pass + (n - li) + 3 * n + 4
            },
            SorterState::ComputeIndexes => (maxd - d - 1) * pass + (n - li) + 2 * n + 3,
            SorterState::MoveItems => (maxd - d - 1) * pass + (n - li) + displaced_below(
                self.new_indexes@,
                n,
            ) + 1,
            SorterState::Finished => 0,
        }
    }

    proof fn measure_nonneg(&self)
        requires
            self.inv(),
        ensures
            self.measure() >= 0,
    {
        let n = self.to_sort@.len() as int;
        let pass = 4 * n + 5;
        let d = self.digit_index as int;
        let maxd = self.max_digit_index as int;
        match self.state {
            SorterState::Counting => {
                if d < maxd {
                    lemma_mul_nonnegative(maxd - d - 1, pass);
                }
            },
            SorterState::ComputeIndexes => {
                lemma_mul_nonnegative(maxd - d - 1, pass);
            },
            SorterState::MoveItems => {
                lemma_mul_nonnegative(maxd - d - 1, pass);
                lemma_displaced_below_bounds(self.new_indexes@, 0, n);
            },
            _ => {},
        }
    }

    /// Creates a sorter that owns `to_sort`, with the default per-call
    /// work budget of 32 iterations.
    pub fn new(to_sort: Vec<usize>) -> (s: IncrementalSorter)
        ensures
            s.inv(),
            s.state() is Unprepared,
            s.seq() == to_sort@,
            s.initial_seq() == to_sort@,
            s.budget() == 32,
    {
        let ghost start = to_sort@;
        let len = to_sort.len();
        IncrementalSorter {
            to_sort,
            state: SorterState::Unprepared,
            new_indexes: Vec::with_capacity(len),
            max_digit_index: 0,
            digit_index: 0,
            loop_index: 0,
            accumulator: 0,
            true_count: 0,
            false_count: 0,
            iterations_per_call: 32,
            initial: Ghost(start),
            goal: Ghost(Seq::empty()),
        }
    }

    /// Creates a sorter with a caller-chosen per-call work budget.  The
    /// budget must be positive: a budget of zero could make no progress.
    pub fn with_iterations_per_call(to_sort: Vec<usize>, iterations_per_call: usize) -> (s:
        IncrementalSorter)
        requires
            iterations_per_call >= 1,
        ensures
            s.inv(),
            s.state() is Unprepared,
            s.seq() == to_sort@,
            s.initial_seq() == to_sort@,
            s.budget() == iterations_per_call,
    {
        let mut to_return = IncrementalSorter::new(to_sort);
        to_return.iterations_per_call = iterations_per_call;
        to_return
    }

    /// Probes the bit width of the keys and readies the sorter: after a
    /// successful call the number of passes is exactly the number of
    /// significant bits of the largest key (zero passes for an empty or
    /// all-zero sequence).  Fails, changing nothing, unless the sorter
    /// is freshly constructed.
    pub fn prepare(&mut self) -> (r: Result<(), UsageError>)
        requires
            old(self).inv(),
        ensures
            final(self).inv(),
            final(self).seq() == old(self).seq(),
            final(self).initial_seq() == old(self).initial_seq(),
            final(self).budget() == old(self).budget(),
            r is Err <==> !(old(self).state() is Unprepared),
            r is Err ==> *final(self) == *old(self) && r == Err::<(), UsageError>(
                UsageError::ExpectedUnprepared { actual: old(self).state() },
            ),
            r is Ok ==> final(self).state() is Counting,
            r is Ok ==> elems_below(final(self).seq(), final(self).passes()),
            r is Ok ==> final(self).passes() <= usize::BITS as nat,
            final(self).measure() >= 0,
            r is Ok && final(self).passes() > 0 ==> exists|i: int|
                0 <= i < final(self).seq().len() && (#[trigger] final(self).seq()[i] as nat)
                    >= pow2((final(self).passes() - 1) as nat),
    {
        match self.state {
            SorterState::Unprepared => {},
            _ => {
                proof {
                    self.measure_nonneg();
                }
                return Err(UsageError::ExpectedUnprepared { actual: self.state });
            },
        }
        // Find the largest key; its significant bits are the passes needed,
        // since no key has a set bit above the largest key's top bit.
        let n = self.to_sort.len();
        let mut m: usize = 0;
        let mut i: usize = 0;
        while i < n
            invariant
                i <= n,
                n == self.to_sort@.len(),
                forall|j: int| 0 <= j < i ==> (#[trigger] self.to_sort@[j]) <= m,
                m == 0 || exists|j: int| 0 <= j < i && (#[trigger] self.to_sort@[j]) == m,
            decreases n - i,
        {
            if self.to_sort[i] > m {
                m = self.to_sort[i];
            }
            i += 1;
        }
        // Count the significant bits of the largest key.
        let mut width: u8 = 0;
        let mut v: usize = m;
        proof {
            vstd::arithmetic::power2::lemma2_to64();
            assert(pow2(0) == 1);
        }
        while v > 0
            invariant
                v as nat == (m as nat) / pow2(width as nat),
                width as nat <= usize::BITS as nat,
                width > 0 ==> pow2((width - 1) as nat) <= m as nat,
            decreases v,
        {
            proof {
                let w = width as nat;
                lemma_pow2_pos(w);
                crate::digits::lemma_div_nonzero_is_large(m, w);
                // the weight of the current bit is at most m, so the
                // width stays below the word size
                unsigned_int_max_values();
                if w >= usize::BITS as nat {
                    if w > usize::BITS as nat {
                        lemma_pow2_strictly_increases(usize::BITS as nat, w);
                    }
                    assert(false);
                }
                vstd::arithmetic::div_mod::lemma_div_denominator(
                    m as int,
                    pow2(w) as int,
                    2,
                );
                vstd::arithmetic::power2::lemma_pow2_adds(w, 1);
                vstd::arithmetic::power2::lemma2_to64();
                assert(pow2(w) * 2 == pow2(w + 1));
            }
            v = v / 2;
            width = width + 1;
        }
        proof {
            crate::digits::lemma_div_zero_is_small(m, width as nat);
            assert((m as nat) < pow2(width as nat));
        }
        self.max_digit_index = width;
        self.state = SorterState::Counting;
        proof {
            lemma_sorted_below_zero(self.to_sort@);
            if width > 0 {
                lemma_pow2_pos((width - 1) as nat);
            }
            self.measure_nonneg();
        }
        Ok(())
    }

    /// The bit of `itm` at position `idx`.
    fn get_bit(idx: u8, itm: usize) -> (r: bool)
        requires
            (idx as nat) < usize::BITS as nat,
        ensures
            r == digit_of(itm, idx as nat),
    {
        let sh: usize = idx as usize;
        let r = itm & (1usize << sh) != 0;
        proof {
            vstd::bits::lemma_usize_shr_is_div(itm, sh);
            assert((itm & (1usize << sh) != 0) == ((itm >> sh) & 1 == 1)) by (bit_vector)
                requires
                    sh < usize::BITS,
            ;
            assert((itm >> sh) & 1 == (itm >> sh) % 2) by (bit_vector);
        }
        r
    }

    /// One bounded slice of the counting phase: scans up to a budget's
    /// worth of elements from the cursor, adding to the accumulator how
    /// many of them have the current bit clear.  Reports whether the
    /// scan has reached the end of the sequence.
    fn bucket_counts(&mut self) -> (done: bool)
        requires
            old(self).inv(),
            old(self).state is Counting,
            old(self).digit_index < old(self).max_digit_index,
        ensures
            final(self).state == old(self).state,
            final(self).digit_index == old(self).digit_index,
            final(self).max_digit_index == old(self).max_digit_index,
            final(self).iterations_per_call == old(self).iterations_per_call,
            final(self).to_sort == old(self).to_sort,
            final(self).new_indexes == old(self).new_indexes,
            final(self).true_count == old(self).true_count,
            final(self).false_count == old(self).false_count,
            final(self).initial == old(self).initial,
            final(self).goal == old(self).goal,
            old(self).loop_index < final(self).loop_index <= old(self).to_sort@.len(),
            final(self).accumulator == zeros_below(
                old(self).to_sort@,
                old(self).digit_index as nat,
                final(self).loop_index as int,
            ),
            done <==> final(self).loop_index == old(self).to_sort@.len(),
    {
        let idx = self.digit_index;
        let start = self.loop_index;
        let len = self.to_sort.len();
        let remaining = len - start;
        let amount = if remaining < self.iterations_per_call {
            remaining
        } else {
            self.iterations_per_call
        };
        let stop = start + amount;
        let mut i = start;
        let mut count: usize = 0;
        while i < stop
            invariant
                *self == *old(self),
                start <= i <= stop <= len,
                start < stop,
                len == self.to_sort@.len(),
                idx == self.digit_index,
                (idx as nat) < usize::BITS as nat,
                count == zeros_below(self.to_sort@, idx as nat, i as int) - zeros_below(
                    self.to_sort@,
                    idx as nat,
                    start as int,
                ),
            decreases stop - i,
        {
            proof {
                lemma_zeros_below_bounds(self.to_sort@, idx as nat, start as int, i as int);
                assert(zeros_below(self.to_sort@, idx as nat, i as int + 1) == zeros_below(
                    self.to_sort@,
                    idx as nat,
                    i as int,
                ) + if digit_of(self.to_sort@[i as int], idx as nat) {
                    0int
                } else {
                    1int
                });
            }
            if !Self::get_bit(idx, self.to_sort[i]) {
                count += 1;
            }
            i += 1;
        }
        proof {
            lemma_zeros_below_bounds(self.to_sort@, idx as nat, 0, start as int);
            lemma_zeros_below_bounds(self.to_sort@, idx as nat, start as int, stop as int);
        }
        self.accumulator = self.accumulator + count;
        self.loop_index = stop;
        stop == len
    }

    /// One bounded slice of the index-computation phase: walks up to a
    /// budget's worth of elements in their current order and records,
    /// for each, the next free slot of its bucket — clear-bit elements
    /// fill slots from the front, set-bit elements from the first slot
    /// past all clear-bit elements.  This keeps the partition stable.
    fn compute_indexes(&mut self) -> (done: bool)
        requires
            old(self).inv(),
            old(self).state is ComputeIndexes,
        ensures
            final(self).state == old(self).state,
            final(self).digit_index == old(self).digit_index,
            final(self).max_digit_index == old(self).max_digit_index,
            final(self).iterations_per_call == old(self).iterations_per_call,
            final(self).to_sort == old(self).to_sort,
            final(self).accumulator == old(self).accumulator,
            final(self).initial == old(self).initial,
            final(self).goal == old(self).goal,
            old(self).loop_index < final(self).loop_index <= old(self).to_sort@.len(),
            final(self).new_indexes@.len() == final(self).loop_index,
            final(self).false_count == zeros_below(
                old(self).to_sort@,
                old(self).digit_index as nat,
                final(self).loop_index as int,
            ),
            final(self).true_count == final(self).accumulator + ones_below(
                old(self).to_sort@,
                old(self).digit_index as nat,
                final(self).loop_index as int,
            ),
            forall|i: int|
                0 <= i < final(self).loop_index ==> final(self).new_indexes@[i] == target_of(
                    old(self).to_sort@,
                    old(self).digit_index as nat,
                    i,
                ),
            done <==> final(self).loop_index == old(self).to_sort@.len(),
    {
        let idx = self.digit_index;
        let start = self.loop_index;
        let len = self.to_sort.len();
        let remaining = len - start;
        let amount = if remaining < self.iterations_per_call {
            remaining
        } else {
            self.iterations_per_call
        };
        let stop = start + amount;
        let mut i = start;
        while i < stop
            invariant
                self.state == old(self).state,
                self.digit_index == old(self).digit_index,
                self.max_digit_index == old(self).max_digit_index,
                self.iterations_per_call == old(self).iterations_per_call,
                self.to_sort == old(self).to_sort,
                self.accumulator == old(self).accumulator,
                self.initial == old(self).initial,
                self.goal == old(self).goal,
                self.loop_index == old(self).loop_index,
                start <= i <= stop <= len,
                start < stop,
                len == self.to_sort@.len(),
                idx == self.digit_index,
                (idx as nat) < usize::BITS as nat,
                self.accumulator == zeros_below(self.to_sort@, idx as nat, len as int),
                self.new_indexes@.len() == i,
                self.false_count == zeros_below(self.to_sort@, idx as nat, i as int),
                self.true_count == self.accumulator + ones_below(self.to_sort@, idx as nat, i as int),
                forall|j: int|
                    0 <= j < i ==> self.new_indexes@[j] == target_of(self.to_sort@, idx as nat, j),
            decreases stop - i,
        {
            let ghost s = self.to_sort@;
            let ghost d = idx as nat;
            proof {
                lemma_zeros_below_bounds(s, d, 0, i as int);
                lemma_zeros_below_bounds(s, d, i as int + 1, len as int);
                assert(zeros_below(s, d, i as int + 1) == zeros_below(s, d, i as int)
                    + if digit_of(s[i as int], d) {
                    0int
                } else {
                    1int
                });
            }
            let item = self.to_sort[i];
            if Self::get_bit(idx, item) {
                self.new_indexes.push(self.true_count);
                self.true_count += 1;
            } else {
                self.new_indexes.push(self.false_count);
                self.false_count += 1;
            }
            i += 1;
        }
        self.loop_index = stop;
        stop == len
    }

    /// One bounded slice of the move phase: applies the recorded
    /// permutation in place by cycle-following swaps.  A position whose
    /// element is already home advances the cursor; any other position
    /// swaps its element (and the element's recorded target) with the
    /// slot the element belongs in.  The budget here counts loop
    /// iterations, whether or not each one swaps.
    fn move_items(&mut self) -> (done: bool)
        requires
            old(self).inv(),
            old(self).state is MoveItems,
        ensures
            final(self).state == old(self).state,
            final(self).digit_index == old(self).digit_index,
            final(self).max_digit_index == old(self).max_digit_index,
            final(self).iterations_per_call == old(self).iterations_per_call,
            final(self).accumulator == old(self).accumulator,
            final(self).true_count == old(self).true_count,
            final(self).false_count == old(self).false_count,
            final(self).initial == old(self).initial,
            final(self).goal == old(self).goal,
            final(self).to_sort@.len() == old(self).to_sort@.len(),
            final(self).to_sort@.to_multiset() == old(self).to_sort@.to_multiset(),
            elems_below(final(self).to_sort@, final(self).max_digit_index as nat),
            !done ==> final(self).inv(),
            !done ==> (old(self).to_sort@.len() - final(self).loop_index) + displaced_below(
                final(self).new_indexes@,
                old(self).to_sort@.len() as int,
            ) < (old(self).to_sort@.len() - old(self).loop_index) + displaced_below(
                old(self).new_indexes@,
                old(self).to_sort@.len() as int,
            ),
            done ==> final(self).to_sort@ == old(self).goal@,
    {
        let ghost n0 = old(self).to_sort@.len() as int;
        let mut n_iter: usize = 0;
        let budget = self.iterations_per_call;
        while n_iter < budget
            invariant
                self.state == old(self).state,
                self.digit_index == old(self).digit_index,
                self.max_digit_index == old(self).max_digit_index,
                self.iterations_per_call == old(self).iterations_per_call,
                self.accumulator == old(self).accumulator,
                self.true_count == old(self).true_count,
                self.false_count == old(self).false_count,
                self.initial == old(self).initial,
                self.goal == old(self).goal,
                self.to_sort@.len() == old(self).to_sort@.len(),
                self.to_sort@.to_multiset() == old(self).to_sort@.to_multiset(),
                self.state is MoveItems,
                self.inv(),
                n_iter <= budget,
                budget == self.iterations_per_call,
                n0 == self.to_sort@.len() as int,
                (n0 - self.loop_index) + displaced_below(self.new_indexes@, n0) + n_iter <= (n0
                    - old(self).loop_index) + displaced_below(old(self).new_indexes@, n0),
            decreases budget - n_iter,
        {
            let len = self.to_sort.len();
            let idx = self.loop_index;
            let target = self.new_indexes[idx];
            if target == idx {
                self.loop_index = idx + 1;
                if self.loop_index == len {
                    proof {
                        let ni = self.new_indexes@;
                        let g = self.goal@;
                        let ts = self.to_sort@;
                        let n = ts.len() as int;
                        assert forall|i: int| 0 <= i < n implies ts[i] == g[i] by {
                            assert(ni[i] == i);
                            assert(g[ni[i] as int] == ts[i]);
                        }
                        assert(ts =~= g);
                    }
                    return true;
                }
            } else {
                let ghost ts0 = self.to_sort@;
                let ghost ni0 = self.new_indexes@;
                let ghost n = ts0.len() as int;
                proof {
                    // the element's slot lies past the settled prefix,
                    // else two positions would share one target
                    if (target as int) < self.loop_index as int {
                        assert(ni0[target as int] == target as int);
                        assert(false);
                    }
                }
                let a = self.to_sort[idx];
                let b = self.to_sort[target];
                self.to_sort[idx] = b;
                self.to_sort[target] = a;
                let y = self.new_indexes[target];
                self.new_indexes[idx] = y;
                self.new_indexes[target] = target;
                proof {
                    let ts1 = self.to_sort@;
                    let ni1 = self.new_indexes@;
                    let ii = idx as int;
                    let tt = target as int;
                    lemma_swap_preserves_multiset(ts0, ii, tt);
                    assert(ts1 =~= ts0.update(ii, ts0[tt]).update(tt, ts0[ii]));
                    assert(ni1 =~= ni0.update(ii, ni0[tt]).update(tt, ni0[ii]));
                    assert(ni0[ii] == tt);
                    assert forall|p: int, q: int| 0 <= p < q < n implies #[trigger] ni1[p]
                        != #[trigger] ni1[q] by {
                        let p0 = if p == ii { tt } else if p == tt { ii } else { p };
                        let q0 = if q == ii { tt } else if q == tt { ii } else { q };
                        assert(ni1[p] == ni0[p0]);
                        assert(ni1[q] == ni0[q0]);
                        if p0 < q0 {
                            assert(ni0[p0] != ni0[q0]);
                        } else {
                            assert(ni0[q0] != ni0[p0]);
                        }
                    }
                    assert forall|i: int| 0 <= i < n implies self.goal@[#[trigger] ni1[i] as int]
                        == ts1[i] by {
                        if i == ii {
                            assert(ni1[i] == ni0[tt]);
                        } else if i == tt {
                            assert(ni1[i] == ni0[ii]);
                        }
                    }
                    // the swap settles position `tt` for good, so the
                    // displaced count drops
                    assert(ii < tt);
                    assert(ni0[tt] != ni0[ii]);
                    lemma_displaced_below_two_changes(ni0, ni1, n, ii, tt);
                    assert(displaced_at(ni0, ii, n) == 1);
                    assert(displaced_at(ni0, tt, n) == 1);
                    assert(displaced_at(ni1, tt, n) == 0);
                    assert(displaced_below(ni1, n) < displaced_below(ni0, n));
                }
            }
            n_iter += 1;
        }
        false
    }

    /// Performs one bounded step of the sort and reports whether the
    /// sort is now finished.  Each call does at most a budget's worth
    /// of work in the current phase, so the latency of a call is
    /// bounded whatever the total input size; a caller steps until the
    /// call reports `true`.  When it does, the key sequence is sorted
    /// and holds exactly the keys that were handed in — whatever the
    /// budget, and however the calls were interleaved with other work.
    /// Fails, changing nothing, if the sorter is unprepared or already
    /// finished.
    pub fn sort(&mut self) -> (r: Result<bool, UsageError>)
        requires
            old(self).inv(),
        ensures
            final(self).inv(),
            final(self).initial_seq() == old(self).initial_seq(),
            final(self).budget() == old(self).budget(),
            final(self).seq().to_multiset() == old(self).seq().to_multiset(),
            r is Err <==> (old(self).state() is Unprepared || old(self).state() is Finished),
            r is Err ==> *final(self) == *old(self) && r == Err::<bool, UsageError>(
                UsageError::ExpectedSorting { actual: old(self).state() },
            ),
            r is Ok ==> (r == Ok::<bool, UsageError>(true) <==> final(self).state() is Finished),
            final(self).state() is Finished ==> is_sorted(final(self).seq())
                && final(self).seq().to_multiset() == final(self).initial_seq().to_multiset(),
            r == Ok::<bool, UsageError>(false) ==> final(self).measure() < old(self).measure(),
            final(self).measure() >= 0,
    {
        match self.state {
            SorterState::ComputeIndexes => {
                if self.compute_indexes() {
                    // every element has a target: start moving
                    self.state = SorterState::MoveItems;
                    self.loop_index = 0;
                    let ghost s = self.to_sort@;
                    let ghost d = self.digit_index as nat;
                    let ghost n = s.len() as int;
                    self.goal = Ghost(rearranged(s, d));
                    proof {
                        lemma_rearranged_sorted(s, d);
                        assert forall|i: int| 0 <= i < n implies 0 <= #[trigger] self.new_indexes@[i] < n
                            && self.goal@[self.new_indexes@[i] as int] == s[i] by {
                            lemma_target_in_range(s, d, i);
                            lemma_rearranged_maps_targets(s, d, i);
                        }
                        assert forall|i: int, j: int| 0 <= i < j < n implies #[trigger] self.new_indexes@[i]
                            != #[trigger] self.new_indexes@[j] by {
                            lemma_targets_injective(s, d, i, j);
                        }
                        lemma_displaced_below_bounds(self.new_indexes@, 0, n);
                    }
                }
                proof {
                    self.measure_nonneg();
                }
                Ok(false)
            },
            SorterState::MoveItems => {
                proof {
                    lemma_displaced_below_bounds(self.new_indexes@, 0, self.to_sort@.len() as int);
                }
                if !self.move_items() {
                    proof {
                        self.measure_nonneg();
                    }
                    return Ok(false);
                }
                // this bit's pass is complete: the keys now sit in the
                // stable partition the index phase described
                self.digit_index = self.digit_index + 1;
                if self.digit_index == self.max_digit_index {
                    self.state = SorterState::Finished;
                    proof {
                        lemma_sorted_below_all_bits(self.to_sort@, self.max_digit_index as nat);
                    }
                    return Ok(true);
                }
                self.state = SorterState::Counting;
                self.new_indexes.clear();
                self.loop_index = 0;
                self.accumulator = 0;
                proof {
                    // one whole pass of the measure's budget has been repaid
                    let n = self.to_sort@.len() as int;
                    let pass = 4 * n + 5;
                    let d = old(self).digit_index as int;
                    let maxd = self.max_digit_index as int;
                    assert((maxd - d - 2) * pass == (maxd - d - 1) * pass - pass)
                        by (nonlinear_arith);
                    self.measure_nonneg();
                }
                Ok(false)
            },
            SorterState::Counting => {
                if self.digit_index == self.max_digit_index {
                    // no pass is required at all: the keys were empty or
                    // all zero, and the sequence is already sorted
                    self.state = SorterState::Finished;
                    proof {
                        lemma_sorted_below_all_bits(self.to_sort@, self.max_digit_index as nat);
                    }
                    return Ok(true);
                }
                if self.bucket_counts() {
                    // the count is complete: the accumulator now tells
                    // where the set-bit bucket begins
                    self.state = SorterState::ComputeIndexes;
                    self.loop_index = 0;
                    self.false_count = 0;
                    self.true_count = self.accumulator;
                }
                proof {
                    self.measure_nonneg();
                }
                Ok(false)
            },
            _ => Err(UsageError::ExpectedSorting { actual: self.state }),
        }
    }

    /// Consumes the sorter and hands back the now-sorted key sequence;
    /// the sorted sequence holds exactly the keys that were handed in.
    /// Fails if the sort has not finished.
    pub fn get_result(self) -> (r: Result<Vec<usize>, UsageError>)
        requires
            self.inv(),
        ensures
            r is Ok <==> self.state() is Finished,
            r is Ok ==> r->Ok_0@ == self.seq() && is_sorted(r->Ok_0@) && r->Ok_0@.to_multiset()
                == self.initial_seq().to_multiset(),
            r is Err ==> r == Err::<Vec<usize>, UsageError>(
                UsageError::ExpectedFinished { actual: self.state() },
            ),
    {
        match self.state {
            SorterState::Finished => Ok(self.to_sort),
            _ => Err(UsageError::ExpectedFinished { actual: self.state }),
        }
    }
}

} // verus!
