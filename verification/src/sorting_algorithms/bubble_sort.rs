//! Bubble sort: adjacent cells that are out of order are swapped until none
//! is left.

use crate::order::greater;
use crate::order::lawful;
use crate::order::le;
use crate::order::lemma_le_total_order;
use crate::sorting_algorithms::sorts;
use crate::steps::all_neighbours;
use crate::steps::all_swap;
use crate::steps::faithful;
use crate::steps::lemma_faithful_start;
use crate::steps::lemma_faithful_swap;
use crate::steps::lemma_swapped_multiset;
use crate::steps::recorded;
use crate::steps::swapped;
use crate::steps::SortType;
use std::collections::VecDeque;
use vstd::prelude::*;

verus! {

/// The array and the log after the first `upto` comparisons of a pass that
/// began with the array and the log of `state`: a pass compares each cell
/// with the next, from the first cell on, and swaps the two where the first
/// is the greater.
pub open spec fn bubble_pass<T: Ord>(state: (Seq<T>, Seq<SortType<T>>), upto: nat) -> (
    Seq<T>,
    Seq<SortType<T>>,
)
    decreases upto,
{
    if upto == 0 {
        state
    } else {
        let (arr, log) = bubble_pass(state, (upto - 1) as nat);
        let j = (upto - 1) as int;
        if !le(arr[j], arr[j + 1]) {
            (swapped(arr, j, j + 1), log.push(SortType::Swap(j as usize, (j + 1) as usize)))
        } else {
            (arr, log)
        }
    }
}

/// The array and the log after the first `passes` passes of bubble sort over
/// the items. Each pass is one comparison shorter than the one before it.
pub open spec fn bubble_passes<T: Ord>(items: Seq<T>, passes: nat) -> (Seq<T>, Seq<SortType<T>>)
    decreases passes,
{
    if passes == 0 {
        (items, Seq::empty())
    } else {
        bubble_pass(bubble_passes(items, (passes - 1) as nat), (items.len() - passes) as nat)
    }
}

/// The log of bubble sort for the items: that of as many passes as there are
/// items.
pub open spec fn bubble_sort_log<T: Ord>(items: Seq<T>) -> Seq<SortType<T>> {
    bubble_passes(items, items.len()).1
}

/// Sorts `items` in place and records each swap.
pub fn bubble_sort<T: Copy + Clone + Ord>(items: &mut Vec<T>, steps: &mut VecDeque<SortType<T>>)
    requires
        lawful::<T>(),
    ensures
        sorts(old(items)@, final(items)@, old(steps)@, final(steps)@),
        all_swap(recorded(old(steps)@, final(steps)@)),
        all_neighbours(recorded(old(steps)@, final(steps)@)),
        recorded(old(steps)@, final(steps)@) == bubble_sort_log(old(items)@),
{
    _bubble_sort(items, steps)
}

fn _bubble_sort<T: Ord>(arr: &mut Vec<T>, steps: &mut VecDeque<SortType<T>>)
    requires
        lawful::<T>(),
    ensures
        sorts(old(arr)@, final(arr)@, old(steps)@, final(steps)@),
        all_swap(recorded(old(steps)@, final(steps)@)),
        all_neighbours(recorded(old(steps)@, final(steps)@)),
        recorded(old(steps)@, final(steps)@) == bubble_sort_log(old(arr)@),
{
    let n = arr.len();
    proof {
        lemma_le_total_order::<T>();
        lemma_faithful_start(arr@, steps@);
    }
    for i in 0..n
        invariant
            lawful::<T>(),
            n == arr@.len(),
            arr@.to_multiset() == old(arr)@.to_multiset(),
            faithful(old(arr)@, arr@, old(steps)@, steps@),
            all_swap(recorded(old(steps)@, steps@)),
            all_neighbours(recorded(old(steps)@, steps@)),
            n <= 1 ==> steps@ == old(steps)@,
            n == old(arr)@.len(),
            (arr@, recorded(old(steps)@, steps@)) == bubble_passes(old(arr)@, i as nat),
            // the last `i` cells hold the `i` greatest elements, in order
            forall|a: int, b: int| 0 <= a < b < n && n - i <= b ==> le(arr@[a], arr@[b]),
    {
        for j in 0..n - i - 1
            invariant
                lawful::<T>(),
                i < n,
                n == arr@.len(),
                arr@.to_multiset() == old(arr)@.to_multiset(),
                faithful(old(arr)@, arr@, old(steps)@, steps@),
                all_swap(recorded(old(steps)@, steps@)),
                all_neighbours(recorded(old(steps)@, steps@)),
                n <= 1 ==> steps@ == old(steps)@,
                n == old(arr)@.len(),
                (arr@, recorded(old(steps)@, steps@)) == bubble_pass(
                    bubble_passes(old(arr)@, i as nat),
                    j as nat,
                ),
                forall|a: int, b: int| 0 <= a < b < n && n - i <= b ==> le(arr@[a], arr@[b]),
                // the greatest of the first `j + 1` cells is in cell `j`
                forall|a: int| 0 <= a <= j ==> le(arr@[a], arr@[j as int]),
        {
            proof {
                lemma_le_total_order::<T>();
            }
            if greater(&arr[j], &arr[j + 1]) {
                proof {
                    lemma_swapped_multiset(arr@, j as int, j + 1);
                    lemma_faithful_swap(old(arr)@, arr@, old(steps)@, steps@, j, (j + 1) as usize);
                }
                arr.swap(j, j + 1);
                steps.push_front(SortType::Swap(j, j + 1));
            }
        }
    }
}

} // verus!
