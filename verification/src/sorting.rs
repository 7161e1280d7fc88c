//! Bubble sort of 32-bit integers, in place.

use vstd::prelude::*;
use vstd::relations::{sorted_by, total_ordering};

verus! {

/// The values of `s` stand in non-descending order.
pub open spec fn sorted(s: Seq<i32>) -> bool {
    forall|i: int, j: int| 0 <= i < j < s.len() ==> s[i] <= s[j]
}

/// `after` holds the values of `before`, each as often as `before` holds it, in
/// non-descending order.
pub open spec fn is_sorting_of(after: Seq<i32>, before: Seq<i32>) -> bool {
    &&& sorted(after)
    &&& after.to_multiset() == before.to_multiset()
}

/// `s` with the entries at `i` and `j` exchanged.
pub open spec fn swapped<T>(s: Seq<T>, i: int, j: int) -> Seq<T> {
    s.update(i, s[j]).update(j, s[i])
}

/// `from` says where each value of `after` stood in `before`: the value at
/// index `k` of `after` is the one that stood at index `from[k]` of `before`,
/// and no index of `before` is named twice.
pub open spec fn rearranged_by(after: Seq<i32>, before: Seq<i32>, from: Seq<int>) -> bool {
    &&& after.len() == before.len()
    &&& from.len() == before.len()
    &&& forall|k: int|
        0 <= k < from.len() ==> 0 <= #[trigger] from[k] < before.len() && after[k] == before[from[k]]
    &&& forall|a: int, b: int| 0 <= a < b < from.len() ==> #[trigger] from[a] != #[trigger] from[b]
}

/// Equal values of `after` stand in the order in which `from` says they stood
/// before.
pub open spec fn ties_keep_order(after: Seq<i32>, from: Seq<int>) -> bool {
    forall|a: int, b: int|
        0 <= a < b < after.len() && after[a] == after[b] ==> #[trigger] from[a] < #[trigger] from[b]
}

/// Exchanging two values of a sequence changes no count of a value in it.
pub proof fn lemma_swap_keeps_values(s: Seq<i32>, i: int, j: int)
    requires
        0 <= i < s.len(),
        0 <= j < s.len(),
    ensures
        swapped(s, i, j).to_multiset() == s.to_multiset(),
{
    vstd::seq_lib::to_multiset_update(s, i, s[j]);
    vstd::seq_lib::to_multiset_update(s.update(i, s[j]), j, s[i]);
    s.to_multiset_ensures();
    assert(swapped(s, i, j).to_multiset() =~= s.to_multiset());
}

/// The index at which the entry stood that an exchange of the neighbours at `j`
/// and `j + 1` brings to index `k`.
spec fn other_index(j: int, k: int) -> int {
    if k == j {
        j + 1
    } else if k == j + 1 {
        j
    } else {
        k
    }
}

/// Exchanging two neighbours of which the first is the greater leaves every
/// pair of equal values in the order it had.
proof fn lemma_swap_keeps_ties(before: Seq<i32>, now: Seq<i32>, from: Seq<int>, j: int)
    requires
        rearranged_by(now, before, from),
        ties_keep_order(now, from),
        0 <= j,
        j + 1 < now.len(),
        now[j] > now[j + 1],
    ensures
        rearranged_by(swapped(now, j, j + 1), before, swapped(from, j, j + 1)),
        ties_keep_order(swapped(now, j, j + 1), swapped(from, j, j + 1)),
{
    let next = swapped(now, j, j + 1);
    let next_from = swapped(from, j, j + 1);
    assert forall|k: int| 0 <= k < next.len() implies {
        &&& next[k] == now[other_index(j, k)]
        &&& #[trigger] next_from[k] == from[other_index(j, k)]
    } by {}
    assert forall|a: int, b: int| 0 <= a < b < next.len() implies
        #[trigger] next_from[a] != #[trigger] next_from[b]
    by {
        assert(other_index(j, a) != other_index(j, b));
    }
    assert forall|a: int, b: int| 0 <= a < b < next.len() && next[a] == next[b] implies
        #[trigger] next_from[a] < #[trigger] next_from[b]
    by {
        // The two values that change places differ, so `a` and `b` are not the
        // places of both, and the entries now at `a` and `b` stood in this order.
        assert(other_index(j, a) < other_index(j, b));
    }
}

/// Sorts the buffer into non-descending order, in place, by exchanging
/// neighbours that stand in the wrong order.
///
/// Afterwards the buffer holds the values it held before, each as often, in
/// non-descending order; and values that are equal stand in the order in which
/// they stood before, since only a greater value is ever moved past a smaller
/// one.
pub fn bubble_sort(arr: &mut [i32])
    ensures
        final(arr)@.len() == old(arr)@.len(),
        is_sorting_of(final(arr)@, old(arr)@),
        exists|from: Seq<int>|
            rearranged_by(final(arr)@, old(arr)@, from) && ties_keep_order(final(arr)@, from),
{
    let n: usize = arr.len();
    let ghost mut from: Seq<int> = Seq::new(n as nat, |k: int| k);
    for i in 0..n
        invariant
            arr@.len() == n,
            arr@.to_multiset() == old(arr)@.to_multiset(),
            rearranged_by(arr@, old(arr)@, from),
            ties_keep_order(arr@, from),
            forall|a: int, b: int| 0 <= a < b < n && n - i <= b ==> arr@[a] <= arr@[b],
    {
        for j in 0..n - 1 - i
            invariant
                i < n,
                arr@.len() == n,
                arr@.to_multiset() == old(arr)@.to_multiset(),
                rearranged_by(arr@, old(arr)@, from),
                ties_keep_order(arr@, from),
                forall|a: int, b: int| 0 <= a < b < n && n - i <= b ==> arr@[a] <= arr@[b],
                forall|a: int| 0 <= a < j ==> arr@[a] <= arr@[j as int],
        {
            if arr[j] > arr[j + 1] {
                let ghost now = arr@;
                let greater: i32 = arr[j];
                arr[j] = arr[j + 1];
                arr[j + 1] = greater;
                proof {
                    assert(arr@ == swapped(now, j as int, j + 1));
                    lemma_swap_keeps_values(now, j as int, j + 1);
                    lemma_swap_keeps_ties(old(arr)@, now, from, j as int);
                    from = swapped(from, j as int, j + 1);
                }
            }
        }
    }
}

/// A sequence has one sorting only: two sorted sequences that hold the same
/// values, each as often, are equal.
pub proof fn lemma_sorting_unique(before: Seq<i32>, first: Seq<i32>, second: Seq<i32>)
    requires
        is_sorting_of(first, before),
        is_sorting_of(second, before),
    ensures
        first == second,
{
    let at_most = |x: i32, y: i32| x <= y;
    assert(sorted_by(first, at_most));
    assert(sorted_by(second, at_most));
    assert(total_ordering(at_most));
    vstd::seq_lib::lemma_sorted_unique(first, second, at_most);
}

/// Sorting leaves a sorted sequence as it is.
pub proof fn lemma_sorted_unchanged(before: Seq<i32>, after: Seq<i32>)
    requires
        sorted(before),
        is_sorting_of(after, before),
    ensures
        after == before,
{
    lemma_sorting_unique(before, after, before);
}

/// Sorting leaves a sequence of no value or of one value as it is.
pub proof fn lemma_short_unchanged(before: Seq<i32>, after: Seq<i32>)
    requires
        before.len() <= 1,
        is_sorting_of(after, before),
    ensures
        after == before,
{
    lemma_sorted_unchanged(before, after);
}

/// Sorting twice gives what sorting once gives: where `once` is the sorting of
/// `before` and `twice` the sorting of `once`, the two are equal.
pub proof fn lemma_sort_idempotent(before: Seq<i32>, once: Seq<i32>, twice: Seq<i32>)
    requires
        is_sorting_of(once, before),
        is_sorting_of(twice, once),
    ensures
        twice == once,
{
    lemma_sorted_unchanged(once, twice);
}

} // verus!
