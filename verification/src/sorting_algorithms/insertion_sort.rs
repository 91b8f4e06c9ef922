//! Insertion sort: each element is moved to the left, one swap at a time,
//! past every element that is greater.

use crate::order::lawful;
use crate::order::le;
use crate::order::lemma_le_total_order;
use crate::order::less;
use crate::sorting_algorithms::sorts;
use crate::steps::all_neighbours;
use crate::steps::all_swap;
use crate::steps::faithful;
use crate::steps::lemma_faithful_start;
use crate::steps::lemma_faithful_swap;
use crate::steps::lemma_swapped_multiset;
use crate::steps::recorded;
use crate::steps::swapped;
use crate::steps::SortType;
use std::collections::VecDeque;
use vstd::prelude::*;

verus! {

/// The array and the log after the element in cell `j` has moved to the
/// left, one swap at a time, past every greater element that stood next to
/// it.
pub open spec fn moved_left<T: Ord>(state: (Seq<T>, Seq<SortType<T>>), j: nat) -> (
    Seq<T>,
    Seq<SortType<T>>,
)
    decreases j,
{
    let (arr, log) = state;
    if j > 0 && !le(arr[j - 1], arr[j as int]) {
        moved_left(
            (
                swapped(arr, j as int, j - 1),
                log.push(SortType::Swap(j as usize, (j - 1) as usize)),
            ),
            (j - 1) as nat,
        )
    } else {
        state
    }
}

/// The array and the log after insertion sort has put the first `upto` items
/// in order: each item after the first is moved left to its place among
/// those before it.
pub open spec fn insertions<T: Ord>(items: Seq<T>, upto: nat) -> (Seq<T>, Seq<SortType<T>>)
    decreases upto,
{
    if upto <= 1 {
        (items, Seq::empty())
    } else {
        moved_left(insertions(items, (upto - 1) as nat), (upto - 1) as nat)
    }
}

/// The log of insertion sort for the items.
pub open spec fn insertion_sort_log<T: Ord>(items: Seq<T>) -> Seq<SortType<T>> {
    insertions(items, items.len()).1
}

/// Sorts `arr` in place and records each swap.
pub fn insertion_sort<T: Copy + Clone + Ord>(arr: &mut Vec<T>, steps: &mut VecDeque<SortType<T>>)
    requires
        lawful::<T>(),
    ensures
        sorts(old(arr)@, final(arr)@, old(steps)@, final(steps)@),
        all_swap(recorded(old(steps)@, final(steps)@)),
        all_neighbours(recorded(old(steps)@, final(steps)@)),
        recorded(old(steps)@, final(steps)@) == insertion_sort_log(old(arr)@),
{
    let len = arr.len();
    proof {
        lemma_le_total_order::<T>();
        lemma_faithful_start(arr@, steps@);
    }
    let mut i: usize = 1;
    while i < len
        invariant
            lawful::<T>(),
            1 <= i,
            len == arr@.len(),
            arr@.to_multiset() == old(arr)@.to_multiset(),
            faithful(old(arr)@, arr@, old(steps)@, steps@),
            all_swap(recorded(old(steps)@, steps@)),
            all_neighbours(recorded(old(steps)@, steps@)),
            len <= 1 ==> steps@ == old(steps)@,
            len == old(arr)@.len(),
            i <= len || len <= 1,
            (arr@, recorded(old(steps)@, steps@)) == insertions(old(arr)@, i as nat),
            // the first `i` cells are in order
            forall|a: int, b: int| 0 <= a < b < i && b < len ==> le(arr@[a], arr@[b]),
        decreases len - i,
    {
        let mut j = i;
        while j > 0 && less(&arr[j], &arr[j - 1])
            invariant
                lawful::<T>(),
                1 <= i < len,
                j <= i,
                len == arr@.len(),
                arr@.to_multiset() == old(arr)@.to_multiset(),
                faithful(old(arr)@, arr@, old(steps)@, steps@),
                all_swap(recorded(old(steps)@, steps@)),
                all_neighbours(recorded(old(steps)@, steps@)),
                len == old(arr)@.len(),
                moved_left((arr@, recorded(old(steps)@, steps@)), j as nat) == insertions(
                    old(arr)@,
                    (i + 1) as nat,
                ),
                // the first `i + 1` cells are in order but for the one at `j`,
                // which is less than all that follow it
                forall|a: int, b: int| 0 <= a < b <= i && a != j && b != j ==> le(arr@[a], arr@[b]),
                forall|b: int| j < b <= i ==> le(arr@[j as int], arr@[b]),
            decreases j,
        {
            proof {
                lemma_le_total_order::<T>();
                lemma_swapped_multiset(arr@, j as int, j - 1);
                lemma_faithful_swap(old(arr)@, arr@, old(steps)@, steps@, j, (j - 1) as usize);
            }
            arr.swap(j, j - 1);
            steps.push_front(SortType::Swap(j, j - 1));
            j -= 1;
        }
        proof {
            lemma_le_total_order::<T>();
            assert(j == 0 || le(arr@[j - 1], arr@[j as int]));
            assert forall|a: int, b: int| 0 <= a < b <= i implies le(arr@[a], arr@[b]) by {
                if b == j && a < j - 1 {
                    assert(le(arr@[a], arr@[j - 1]));
                }
            }
        }
        i += 1;
    }
}

} // verus!
