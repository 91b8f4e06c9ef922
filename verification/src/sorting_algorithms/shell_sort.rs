//! Shell sort: insertion sort over cells that are `gap` apart, for gaps that
//! halve from half the length down to one.

use crate::order::greater;
use crate::order::lawful;
use crate::order::le;
use crate::order::lemma_le_total_order;
use crate::sorting_algorithms::sorts;
use crate::steps::all_assign;
use crate::steps::faithful;
use crate::steps::lemma_faithful_assign;
use crate::steps::lemma_faithful_start;
use crate::steps::lemma_swapped_multiset;
use crate::steps::recorded;
use crate::steps::swapped;
use crate::steps::SortType;
use std::collections::VecDeque;
use vstd::prelude::*;

verus! {

/// The array and the log after the element `current` has found its place
/// among the cells that lie `gap` apart, from cell `j` downwards: each
/// greater element is assigned to the cell `gap` behind it, and `current`
/// is assigned to the cell that becomes free.
pub open spec fn inserted<T: Ord>(
    state: (Seq<T>, Seq<SortType<T>>),
    gap: nat,
    j: nat,
    current: T,
) -> (Seq<T>, Seq<SortType<T>>)
    decreases j,
{
    let (arr, log) = state;
    if gap > 0 && j >= gap && !le(arr[j - gap], current) {
        inserted(
            (
                arr.update(j as int, arr[j - gap]),
                log.push(SortType::Assign(j as usize, arr[j - gap])),
            ),
            gap,
            (j - gap) as nat,
            current,
        )
    } else {
        (arr.update(j as int, current), log.push(SortType::Assign(j as usize, current)))
    }
}

/// The array and the log after the pass with the gap has inserted the cells
/// from `gap` up to `upto`, each among the cells before it that lie `gap`
/// apart.
pub open spec fn gapped_pass<T: Ord>(state: (Seq<T>, Seq<SortType<T>>), gap: nat, upto: nat) -> (
    Seq<T>,
    Seq<SortType<T>>,
)
    decreases upto,
{
    if upto <= gap {
        state
    } else {
        let before = gapped_pass(state, gap, (upto - 1) as nat);
        inserted(before, gap, (upto - 1) as nat, before.0[upto - 1])
    }
}

/// The array and the log after the passes with the gap, with half the gap,
/// and so on down to the gap one.
pub open spec fn gapped_passes<T: Ord>(state: (Seq<T>, Seq<SortType<T>>), gap: nat) -> (
    Seq<T>,
    Seq<SortType<T>>,
)
    decreases gap,
{
    if gap == 0 {
        state
    } else {
        gapped_passes(gapped_pass(state, gap, state.0.len()), gap / 2)
    }
}

/// The log of shell sort for the items: that of the passes from the gap of
/// half the length on.
pub open spec fn shell_sort_log<T: Ord>(items: Seq<T>) -> Seq<SortType<T>> {
    gapped_passes((items, Seq::empty()), items.len() / 2).1
}

/// Sorts `arr` in place and records each assignment.
pub fn shell_sort<T: Copy + Clone + Ord>(arr: &mut Vec<T>, steps: &mut VecDeque<SortType<T>>)
    requires
        lawful::<T>(),
    ensures
        sorts(old(arr)@, final(arr)@, old(steps)@, final(steps)@),
        all_assign(recorded(old(steps)@, final(steps)@)),
        recorded(old(steps)@, final(steps)@) == shell_sort_log(old(arr)@),
{
    let len = arr.len();
    let mut gap = len / 2;
    proof {
        lemma_le_total_order::<T>();
        lemma_faithful_start(arr@, steps@);
    }
    while gap > 0
        invariant
            lawful::<T>(),
            len == arr@.len(),
            gap <= len / 2,
            arr@.to_multiset() == old(arr)@.to_multiset(),
            faithful(old(arr)@, arr@, old(steps)@, steps@),
            all_assign(recorded(old(steps)@, steps@)),
            len <= 1 ==> steps@ == old(steps)@,
            len == old(arr)@.len(),
            gapped_passes((arr@, recorded(old(steps)@, steps@)), gap as nat) == gapped_passes(
                (old(arr)@, Seq::empty()),
                (len / 2) as nat,
            ),
            // the pass with gap one, which is the last, leaves the array in order
            gap == 0 && len >= 2 ==> forall|a: int, b: int|
                0 <= a < b < len ==> le(arr@[a], arr@[b]),
        decreases gap,
    {
        let ghost begun = (arr@, recorded(old(steps)@, steps@));
        for i in gap..len
            invariant
                lawful::<T>(),
                len == arr@.len(),
                1 <= gap <= len / 2,
                arr@.to_multiset() == old(arr)@.to_multiset(),
                faithful(old(arr)@, arr@, old(steps)@, steps@),
                all_assign(recorded(old(steps)@, steps@)),
                begun.0.len() == len,
                (arr@, recorded(old(steps)@, steps@)) == gapped_pass(begun, gap as nat, i as nat),
                gap == 1 ==> forall|a: int, b: int| 0 <= a < b < i ==> le(arr@[a], arr@[b]),
        {
            let mut j = i;
            let current_element = arr[i];
            assert(arr@.update(j as int, current_element) =~= arr@);
            while j >= gap && greater(&arr[j - gap], &current_element)
                invariant
                    lawful::<T>(),
                    len == arr@.len(),
                    1 <= gap <= i < len,
                    j <= i,
                    // with the element that is being inserted put in cell `j`,
                    // the array holds what it held at first
                    arr@.update(j as int, current_element).to_multiset() == old(
                        arr,
                    )@.to_multiset(),
                    faithful(old(arr)@, arr@, old(steps)@, steps@),
                    all_assign(recorded(old(steps)@, steps@)),
                    inserted(
                        (arr@, recorded(old(steps)@, steps@)),
                        gap as nat,
                        j as nat,
                        current_element,
                    ) == gapped_pass(begun, gap as nat, (i + 1) as nat),
                    gap == 1 ==> forall|a: int, b: int|
                        0 <= a < b <= i && a != j && b != j ==> le(arr@[a], arr@[b]),
                    gap == 1 ==> forall|b: int| j < b <= i ==> !le(arr@[b], current_element),
                decreases j,
            {
                let moved = arr[j - gap];
                proof {
                    lemma_le_total_order::<T>();
                    let filled = arr@.update(j as int, current_element);
                    lemma_swapped_multiset(filled, j as int, j - gap);
                    assert(arr@.update(j as int, moved).update(j - gap, current_element)
                        =~= swapped(filled, j as int, j - gap));
                    lemma_faithful_assign(old(arr)@, arr@, old(steps)@, steps@, j, moved);
                }
                arr[j] = moved;
                steps.push_front(SortType::Assign(j, moved));
                j -= gap;
            }
            proof {
                lemma_le_total_order::<T>();
                lemma_faithful_assign(old(arr)@, arr@, old(steps)@, steps@, j, current_element);
                if gap == 1 {
                    assert(j == 0 || le(arr@[j - 1], current_element));
                    let placed = arr@.update(j as int, current_element);
                    assert forall|a: int, b: int| 0 <= a < b <= i implies le(
                        placed[a],
                        placed[b],
                    ) by {
                        if b == j && a < j - 1 {
                            assert(le(arr@[a], arr@[j - 1]));
                        }
                    }
                }
            }
            arr[j] = current_element;
            steps.push_front(SortType::Assign(j, current_element));
        }
        gap /= 2;
    }
}

} // verus!
