//! The instrumented sorting algorithms.
//!
//! Each of them sorts an array in ascending order and pushes one step at the
//! front of the log for every change that it makes to the array, so that
//! replaying what it recorded against the array as it was turns it into the
//! sorted array.

use crate::order::lawful;
use crate::order::le_fn;
use crate::order::lemma_le_total_order;
use crate::order::lemma_sorted_is_sorted_by;
use crate::order::lemma_sorted_unique;
use crate::order::sorted;
use crate::steps::faithful;
use crate::steps::recorded;
use crate::steps::replay;
use crate::steps::SortType;
use vstd::prelude::*;

pub mod bubble_sort;
pub mod heap_sort;
pub mod insertion_sort;
pub mod merge_sort;
pub mod quick_sort;
pub mod shell_sort;

verus! {

/// What every sorting algorithm of the library guarantees: `after` is
/// `before` in ascending order, the log was only added to, what was added
/// replays `before` into `after` and stays inside the array, and an array of
/// at most one element adds nothing.
pub open spec fn sorts<T: Ord>(
    before: Seq<T>,
    after: Seq<T>,
    log_before: Seq<SortType<T>>,
    log_after: Seq<SortType<T>>,
) -> bool {
    &&& sorted(after)
    &&& after.to_multiset() == before.to_multiset()
    &&& faithful(before, after, log_before, log_after)
    &&& before.len() <= 1 ==> log_after == log_before
}

/// The cells of `items` from `from` up to `to`, copied.
pub(crate) fn copy_range<T: Copy>(items: &Vec<T>, from: usize, to: usize) -> (out: Vec<T>)
    requires
        from <= to <= items@.len(),
    ensures
        out@ == items@.subrange(from as int, to as int),
{
    let mut out: Vec<T> = Vec::with_capacity(to - from);
    let mut k: usize = from;
    while k < to
        invariant
            from <= k <= to <= items@.len(),
            out@ == items@.subrange(from as int, k as int),
        decreases to - k,
    {
        out.push(items[k]);
        k += 1;
        assert(out@ =~= items@.subrange(from as int, k as int));
    }
    out
}

/// Where two arrays hold the same elements, each as often, what a cell of
/// one holds is held by some cell of the other.
pub proof fn lemma_same_elements<T>(x: Seq<T>, y: Seq<T>, k: int)
    requires
        x.to_multiset() == y.to_multiset(),
        0 <= k < y.len(),
    ensures
        exists|w: int| 0 <= w < x.len() && x[w] == y[k],
{
    broadcast use vstd::multiset::group_multiset_axioms;
    broadcast use vstd::seq_lib::group_to_multiset_ensures;

    assert(y.to_multiset().count(y[k]) > 0);
    assert(x.contains(y[k]));
    let w = choose|w: int| 0 <= w < x.len() && x[w] == y[k];
    assert(x[w] == y[k]);
}

/// Replaying all that a sorting algorithm recorded, against the array as it
/// was, gives the array in ascending order: the one arrangement of its
/// elements that is in ascending order.
pub proof fn lemma_replay_gives_the_sorted_array<T: Ord>(
    before: Seq<T>,
    after: Seq<T>,
    log_before: Seq<SortType<T>>,
    log_after: Seq<SortType<T>>,
)
    requires
        lawful::<T>(),
        sorts(before, after, log_before, log_after),
    ensures
        replay(before, recorded(log_before, log_after)) == before.sort_by(le_fn::<T>()),
{
    lemma_le_total_order::<T>();
    before.lemma_sort_by_ensures(le_fn::<T>());
    lemma_sorted_is_sorted_by(before.sort_by(le_fn::<T>()));
    lemma_sorted_unique(after, before.sort_by(le_fn::<T>()));
}

/// Any two sorting algorithms of the library leave the same array, and the
/// replay of either log gives it.
pub proof fn lemma_algorithms_agree<T: Ord>(
    before: Seq<T>,
    one: Seq<T>,
    one_log: Seq<SortType<T>>,
    other: Seq<T>,
    other_log: Seq<SortType<T>>,
)
    requires
        lawful::<T>(),
        sorts(before, one, Seq::empty(), one_log),
        sorts(before, other, Seq::empty(), other_log),
    ensures
        one == other,
        replay(before, recorded(Seq::empty(), one_log)) == replay(
            before,
            recorded(Seq::empty(), other_log),
        ),
{
    lemma_sorted_unique(one, other);
}

} // verus!
