//! Selection sort on vectors of machine integers, together with the
//! sortedness predicate it is proved against and a runtime checker.

use vstd::prelude::*;
use vstd::relations::sorted_by;
use vstd::relations::total_ordering;
use vstd::seq_lib::lemma_sorted_unique;

verus! {

/// A sequence is sorted when its elements never decrease from left to right.
pub open spec fn sorted(s: Seq<usize>) -> bool {
    forall|p: int, q: int| 0 <= p <= q < s.len() ==> s[p] <= s[q]
}

/// Swapping two positions of a sequence leaves its multiset of elements
/// unchanged.
proof fn lemma_swap_preserves_multiset(s: Seq<usize>, i: int, j: int)
    requires
        0 <= i < s.len(),
        0 <= j < s.len(),
    ensures
        s.update(i, s[j]).update(j, s[i]).to_multiset() == s.to_multiset(),
{
    broadcast use vstd::multiset::group_multiset_axioms;
    broadcast use vstd::seq_lib::to_multiset_update;
    broadcast use vstd::seq_lib::group_to_multiset_ensures;

    if i == j {
        assert(s.update(i, s[j]).update(j, s[i]) =~= s);
    } else {
        let s1 = s.update(i, s[j]);
        let s2 = s1.update(j, s[i]);
        assert(s1.to_multiset() =~= s.to_multiset().insert(s[j]).remove(s[i]));
        assert(s2.to_multiset() =~= s1.to_multiset().insert(s[i]).remove(s1[j]));
        assert(s1[j] == s[j]);
        assert(s.contains(s[i]));
        assert(s.to_multiset().count(s[i]) >= 1);
        assert(s2.to_multiset() =~= s.to_multiset());
    }
}

/// A multiset of values has exactly one sorted arrangement: any two
/// sorted sequences holding the same elements with the same
/// multiplicities are equal.
pub proof fn lemma_sorted_permutation_unique(a: Seq<usize>, b: Seq<usize>)
    requires
        sorted(a),
        sorted(b),
        a.to_multiset() == b.to_multiset(),
    ensures
        a == b,
{
    let leq = |x: usize, y: usize| x <= y;
    assert(total_ordering(leq)) by {
        assert forall|x: usize| #[trigger] leq(x, x) by {}
        assert forall|x: usize, y: usize| #[trigger] leq(x, y) && #[trigger] leq(y, x) implies x
            == y by {}
        assert forall|x: usize, y: usize, z: usize|
            #[trigger] leq(x, y) && #[trigger] leq(y, z) implies leq(x, z) by {}
        assert forall|x: usize, y: usize| #[trigger] leq(x, y) || #[trigger] leq(y, x) by {}
    }
    assert(sorted_by(a, leq)) by {
        assert forall|i: int, j: int| 0 <= i < j < a.len() implies #[trigger] leq(a[i], a[j]) by {}
    }
    assert(sorted_by(b, leq)) by {
        assert forall|i: int, j: int| 0 <= i < j < b.len() implies #[trigger] leq(b[i], b[j]) by {}
    }
    lemma_sorted_unique(a, b, leq);
}

/// Sorting a sequence that is already sorted changes nothing: whatever
/// sorted sequence `t` a sort returns for the sorted input `s`, it is
/// `s` itself.
pub proof fn lemma_sort_idempotent(s: Seq<usize>, t: Seq<usize>)
    requires
        sorted(s),
        sorted(t),
        t.to_multiset() == s.to_multiset(),
    ensures
        t == s,
{
    lemma_sorted_permutation_unique(t, s);
}

/// Sorting is deterministic: any two sorted permutations of the same
/// input sequence are equal, so the output is fixed by the input's
/// elements alone.
pub proof fn lemma_sort_deterministic(input: Seq<usize>, a: Seq<usize>, b: Seq<usize>)
    requires
        sorted(a),
        sorted(b),
        a.to_multiset() == input.to_multiset(),
        b.to_multiset() == input.to_multiset(),
    ensures
        a == b,
{
    lemma_sorted_permutation_unique(a, b);
}

/// Reorders the elements of `array` in place into non-decreasing order:
/// the result is sorted and holds exactly the elements the input held,
/// with their multiplicities.
///
/// Each outer pass scans the unsorted suffix for the position of its
/// least element, keeping the first occurrence on ties, and swaps that
/// element into place.
pub fn selection_sort(array: &mut Vec<usize>)
    ensures
        sorted(final(array)@),
        final(array)@.to_multiset() == old(array)@.to_multiset(),
        final(array)@.len() == old(array)@.len(),
{
    let n: usize = array.len();
    let mut i: usize = 0;
    while i < n
        invariant
            i <= n,
            n == array@.len(),
            array@.to_multiset() == old(array)@.to_multiset(),
            forall|p: int, q: int| 0 <= p <= q < i ==> array@[p] <= array@[q],
            forall|p: int, q: int| 0 <= p < i && i <= q < n ==> array@[p] <= array@[q],
        decreases n - i,
    {
        let mut smallest: usize = i;
        let mut j: usize = i + 1;
        while j < n
            invariant
                i < n,
                i + 1 <= j <= n,
                i <= smallest < j,
                n == array@.len(),
                forall|k: int| i <= k < j ==> array@[smallest as int] <= array@[k],
            decreases n - j,
        {
            if array[j] < array[smallest] {
                smallest = j;
            }
            j = j + 1;
        }
        let ghost pre = array@;
        let a: usize = array[i];
        let b: usize = array[smallest];
        array.set(i, b);
        array.set(smallest, a);
        proof {
            assert(array@ =~= pre.update(i as int, pre[smallest as int]).update(
                smallest as int,
                pre[i as int],
            ));
            lemma_swap_preserves_multiset(pre, i as int, smallest as int);
        }
        i = i + 1;
    }
}

/// The number of element comparisons selection sort has made on an
/// `n`-element array once `i` outer passes are complete: pass `p` scans
/// the suffix after position `p` and compares `n - 1 - p` times.
pub open spec fn comparisons_upto(n: int, i: int) -> int
    decreases i,
{
    if i <= 0 {
        0
    } else {
        comparisons_upto(n, i - 1) + (n - i)
    }
}

/// Closed form of the comparison count: after `i` of `n` passes, twice
/// the count is `i * (2n - i - 1)`; at `i == n` that is `n * (n - 1)`.
pub proof fn lemma_comparisons_closed_form(n: int, i: int)
    requires
        0 <= i <= n,
    ensures
        2 * comparisons_upto(n, i) == i * (2 * n - i - 1),
    decreases i,
{
    if i > 0 {
        lemma_comparisons_closed_form(n, i - 1);
        assert(comparisons_upto(n, i) == comparisons_upto(n, i - 1) + (n - i));
        assert((i - 1) * (2 * n - i) + 2 * (n - i) == i * (2 * n - i - 1)) by (nonlinear_arith);
        assert(2 * comparisons_upto(n, i) == (i - 1) * (2 * n - i) + 2 * (n - i));
    } else {
        assert(0 * (2 * n - 0 - 1) == 0) by (nonlinear_arith);
    }
}

/// The running comparison count never exceeds `n * i`.
pub proof fn lemma_comparisons_bound(n: int, i: int)
    requires
        0 <= i <= n,
    ensures
        0 <= comparisons_upto(n, i) <= n * i,
    decreases i,
{
    if i > 0 {
        lemma_comparisons_bound(n, i - 1);
        assert(n * (i - 1) + (n - i) <= n * i) by (nonlinear_arith)
            requires
                0 < i <= n,
        ;
    } else {
        assert(n * 0 == 0) by (nonlinear_arith);
    }
}

/// Selection sort with its comparisons counted: sorts exactly as
/// `selection_sort` does and returns how many element comparisons the
/// scans made, which is `n * (n - 1) / 2` whatever order the input was
/// in.
pub fn selection_sort_comparisons(array: &mut Vec<usize>) -> (comparisons: u64)
    requires
        old(array).len() < 0x1_0000_0000,
    ensures
        sorted(final(array)@),
        final(array)@.to_multiset() == old(array)@.to_multiset(),
        final(array)@.len() == old(array)@.len(),
        comparisons == (old(array)@.len() * (old(array)@.len() - 1)) / 2,
{
    let n: usize = array.len();
    let mut count: u64 = 0;
    let mut i: usize = 0;
    while i < n
        invariant
            i <= n,
            n < 0x1_0000_0000,
            n == array@.len(),
            array@.to_multiset() == old(array)@.to_multiset(),
            count == comparisons_upto(n as int, i as int),
            forall|p: int, q: int| 0 <= p <= q < i ==> array@[p] <= array@[q],
            forall|p: int, q: int| 0 <= p < i && i <= q < n ==> array@[p] <= array@[q],
        decreases n - i,
    {
        let mut smallest: usize = i;
        let mut j: usize = i + 1;
        proof {
            lemma_comparisons_bound(n as int, i as int);
            assert(n * i <= n * n) by (nonlinear_arith)
                requires
                    0 <= i <= n,
            ;
            assert((n as int) * (n as int) + (n as int) < 0x1_0000_0000_0000_0000) by (nonlinear_arith)
                requires
                    n < 0x1_0000_0000,
            ;
        }
        while j < n
            invariant
                i < n,
                i + 1 <= j <= n,
                i <= smallest < j,
                n < 0x1_0000_0000,
                n == array@.len(),
                count == comparisons_upto(n as int, i as int) + (j - i - 1),
                comparisons_upto(n as int, i as int) <= n * n,
                (n as int) * (n as int) + (n as int) < 0x1_0000_0000_0000_0000,
                forall|k: int| i <= k < j ==> array@[smallest as int] <= array@[k],
            decreases n - j,
        {
            count = count + 1;
            if array[j] < array[smallest] {
                smallest = j;
            }
            j = j + 1;
        }
        let ghost pre = array@;
        let a: usize = array[i];
        let b: usize = array[smallest];
        array.set(i, b);
        array.set(smallest, a);
        proof {
            assert(array@ =~= pre.update(i as int, pre[smallest as int]).update(
                smallest as int,
                pre[i as int],
            ));
            lemma_swap_preserves_multiset(pre, i as int, smallest as int);
        }
        i = i + 1;
    }
    proof {
        lemma_comparisons_closed_form(n as int, n as int);
    }
    count
}

/// Reports whether `array` is in non-decreasing order, scanning adjacent
/// pairs and stopping at the first descent; vectors of length zero or
/// one are sorted with no comparisons made.
pub fn is_sorted(array: &Vec<usize>) -> (r: bool)
    ensures
        r == sorted(array@),
{
    let n: usize = array.len();
    if n == 0 {
        return true;
    }
    let mut i: usize = 1;
    while i < n
        invariant
            1 <= i <= n,
            n == array@.len(),
            forall|p: int, q: int| 0 <= p <= q < i ==> array@[p] <= array@[q],
        decreases n - i,
    {
        if array[i - 1] > array[i] {
            assert(!sorted(array@)) by {
                assert(array@[i - 1] > array@[i as int]);
            }
            return false;
        }
        assert(forall|p: int, q: int| 0 <= p <= q < i + 1 ==> array@[p] <= array@[q]) by {
            assert(forall|p: int| 0 <= p < i ==> #[trigger] array@[p] <= array@[i - 1]);
            assert(array@[i - 1] <= array@[i as int]);
        }
        i = i + 1;
    }
    true
}

} // verus!
