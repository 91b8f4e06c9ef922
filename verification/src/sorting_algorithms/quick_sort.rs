//! Quick sort: the array is partitioned about its middle element, and the
//! part before the pivot and the part behind it are sorted, each for itself.

use crate::order::at_most;
use crate::order::lawful;
use crate::order::le;
use crate::order::lemma_le_total_order;
use crate::order::sorted;
use crate::sorting_algorithms::lemma_same_elements;
use crate::sorting_algorithms::copy_range;
use crate::sorting_algorithms::sorts;
use crate::steps::all_swap;
use crate::steps::faithful_at;
use crate::steps::lemma_faithful_at_chain;
use crate::steps::lemma_faithful_at_embedded;
use crate::steps::lemma_faithful_at_start;
use crate::steps::lemma_faithful_at_swap;
use crate::steps::lemma_faithful_at_zero;
use crate::steps::lemma_swapped_multiset;
use crate::steps::lemma_recorded_nothing;
use crate::steps::recorded;
use crate::steps::swapped;
use crate::steps::spliced;
use crate::steps::SortType;
use std::collections::VecDeque;
use vstd::prelude::*;

verus! {

/// The array, the log and the number of cells found not greater than the
/// pivot, after the first `upto` cells were compared with the pivot, which
/// stands in the last cell: a cell that is not greater is swapped with the
/// cell behind those found so far. The array starts at `offset` in the
/// array that the steps index.
pub open spec fn scanned<T: Ord>(
    state: (Seq<T>, Seq<SortType<T>>, int),
    offset: int,
    upto: nat,
) -> (Seq<T>, Seq<SortType<T>>, int)
    decreases upto,
{
    if upto == 0 {
        state
    } else {
        let (arr, log, i) = scanned(state, offset, (upto - 1) as nat);
        let j = (upto - 1) as int;
        if le(arr[j], arr[arr.len() - 1]) {
            (
                swapped(arr, i, j),
                log.push(SortType::Swap((offset + i) as usize, (offset + j) as usize)),
                i + 1,
            )
        } else {
            (arr, log, i)
        }
    }
}

/// The array, the log and the place of the pivot after the partition of the
/// items about their middle element: the pivot is swapped to the end, the
/// cells before it are scanned, and the pivot is swapped to its place.
pub open spec fn partitioned<T: Ord>(items: Seq<T>, offset: int) -> (
    Seq<T>,
    Seq<SortType<T>>,
    int,
) {
    let len = items.len() as int;
    let pivot_index = len / 2;
    let (arr, log, i) = scanned(
        (
            swapped(items, pivot_index, len - 1),
            seq![SortType::Swap((offset + pivot_index) as usize, (offset + len - 1) as usize)],
            0,
        ),
        offset,
        (len - 1) as nat,
    );
    (
        swapped(arr, i, len - 1),
        log.push(SortType::Swap((offset + i) as usize, (offset + len - 1) as usize)),
        i,
    )
}

/// The log of quick sort for the items, which start at `offset` in the array
/// that the steps index: the log of the partition, the log for the part
/// before the pivot, and the log for the part behind it.
pub open spec fn quick_sort_log<T: Ord>(items: Seq<T>, offset: int) -> Seq<SortType<T>>
    decreases items.len(),
{
    let (arr, log, place) = partitioned(items, offset);
    if items.len() < 2 || arr.len() != items.len() || place < 0 || place >= items.len() {
        Seq::empty()
    } else {
        log + quick_sort_log(arr.subrange(0, place), offset) + quick_sort_log(
            arr.subrange(place + 1, arr.len() as int),
            offset + place + 1,
        )
    }
}

/// Sorts `arr` and records each swap.
pub fn quick_sort<T: Copy + Clone + Ord>(arr: &mut Vec<T>, steps: &mut VecDeque<SortType<T>>)
    requires
        lawful::<T>(),
    ensures
        sorts(old(arr)@, final(arr)@, old(steps)@, final(steps)@),
        all_swap(recorded(old(steps)@, final(steps)@)),
        recorded(old(steps)@, final(steps)@) == quick_sort_log(old(arr)@, 0),
{
    proof {
        assert(arr@.len() == arr.len());
    }
    _quick_sort(arr, steps, 0);
    proof {
        lemma_faithful_at_zero(old(arr)@, arr@, old(steps)@, steps@);
    }
}

/// Sorts `arr`, which starts at `divide_index` in the array that the recorded
/// steps index.
pub fn _quick_sort<T: Copy + Clone + Ord>(
    arr: &mut Vec<T>,
    steps: &mut VecDeque<SortType<T>>,
    divide_index: usize,
)
    requires
        lawful::<T>(),
        divide_index + old(arr)@.len() <= usize::MAX,
    ensures
        sorted(final(arr)@),
        final(arr)@.to_multiset() == old(arr)@.to_multiset(),
        faithful_at(old(arr)@, final(arr)@, old(steps)@, final(steps)@, divide_index as int),
        all_swap(recorded(old(steps)@, final(steps)@)),
        recorded(old(steps)@, final(steps)@) == quick_sort_log(old(arr)@, divide_index as int),
        old(arr)@.len() <= 1 ==> final(steps)@ == old(steps)@,
    decreases old(arr)@.len(),
{
    let len = arr.len();
    proof {
        lemma_le_total_order::<T>();
        lemma_faithful_at_start(arr@, steps@, divide_index as int);
        lemma_recorded_nothing(steps@);
    }
    if len < 2 {
        return ;  // Already sorted if the array has 0 or 1 element
    }
    let pivot_index = partition(arr, steps, divide_index);
    let ghost parted = arr@;
    let ghost log1 = steps@;
    let mut before_pivot = copy_range(arr, 0, pivot_index);
    let mut behind_pivot = copy_range(arr, pivot_index + 1, len);
    let ghost left = before_pivot@;
    let ghost right = behind_pivot@;
    _quick_sort(&mut before_pivot, steps, divide_index);
    let ghost log2 = steps@;
    _quick_sort(&mut behind_pivot, steps, divide_index + pivot_index + 1);

    // the two parts were sorted as copies: put them back around the pivot
    let pivot = arr[pivot_index];
    let ghost log3 = steps@;
    *arr = put_around(&before_pivot, pivot, &behind_pivot);
    proof {
        lemma_parts_sorted(
            parted,
            left,
            right,
            before_pivot@,
            behind_pivot@,
            arr@,
            pivot_index as int,
        );
        lemma_parts_recorded(
            old(arr)@,
            parted,
            left,
            right,
            before_pivot@,
            behind_pivot@,
            arr@,
            old(steps)@,
            log1,
            log2,
            log3,
            divide_index as int,
            pivot_index as int,
        );
    }
}

/// The part before the pivot, the pivot and the part behind it, as one
/// array.
fn put_around<T: Copy>(before_pivot: &Vec<T>, pivot: T, behind_pivot: &Vec<T>) -> (whole: Vec<T>)
    ensures
        whole@ == before_pivot@.push(pivot) + behind_pivot@,
{
    let mut whole: Vec<T> = Vec::new();
    let mut k: usize = 0;
    while k < before_pivot.len()
        invariant
            k <= before_pivot@.len(),
            whole@ == before_pivot@.take(k as int),
        decreases before_pivot@.len() - k,
    {
        whole.push(before_pivot[k]);
        k += 1;
        assert(whole@ =~= before_pivot@.take(k as int));
    }
    assert(whole@ =~= before_pivot@);
    whole.push(pivot);
    let mut m: usize = 0;
    while m < behind_pivot.len()
        invariant
            m <= behind_pivot@.len(),
            whole@ == before_pivot@.push(pivot) + behind_pivot@.take(m as int),
        decreases behind_pivot@.len() - m,
    {
        whole.push(behind_pivot[m]);
        m += 1;
        assert(whole@ =~= before_pivot@.push(pivot) + behind_pivot@.take(m as int));
    }
    assert(whole@ =~= before_pivot@.push(pivot) + behind_pivot@);
    whole
}

/// The two parts about the pivot, each sorted, make a sorted array of the
/// elements of the partitioned array.
proof fn lemma_parts_sorted<T: Ord>(
    parted: Seq<T>,
    left: Seq<T>,
    right: Seq<T>,
    left_sorted: Seq<T>,
    right_sorted: Seq<T>,
    whole: Seq<T>,
    p: int,
)
    requires
        lawful::<T>(),
        0 <= p < parted.len(),
        left == parted.subrange(0, p),
        right == parted.subrange(p + 1, parted.len() as int),
        forall|k: int| 0 <= k < p ==> le(#[trigger] parted[k], parted[p]),
        forall|k: int| p < k < parted.len() ==> !le(#[trigger] parted[k], parted[p]),
        sorted(left_sorted),
        sorted(right_sorted),
        left_sorted.to_multiset() == left.to_multiset(),
        right_sorted.to_multiset() == right.to_multiset(),
        whole == left_sorted.push(parted[p]) + right_sorted,
    ensures
        sorted(whole),
        whole.to_multiset() == parted.to_multiset(),
{
    lemma_le_total_order::<T>();
    let pivot = parted[p];
    assert(parted =~= left.push(pivot) + right);
    vstd::seq_lib::lemma_multiset_commutative(left_sorted.push(pivot), right_sorted);
    vstd::seq_lib::lemma_multiset_commutative(left.push(pivot), right);
    vstd::seq_lib::to_multiset_build(left_sorted, pivot);
    vstd::seq_lib::to_multiset_build(left, pivot);
    vstd::seq_lib::to_multiset_len(left);
    vstd::seq_lib::to_multiset_len(left_sorted);
    vstd::seq_lib::to_multiset_len(right);
    vstd::seq_lib::to_multiset_len(right_sorted);
    assert(left_sorted.len() == p);
    assert forall|a: int, b: int| 0 <= a < b < whole.len() implies le(whole[a], whole[b]) by {
        if a < p {
            lemma_same_elements(left, left_sorted, a);
            let w = choose|w: int| 0 <= w < left.len() && left[w] == left_sorted[a];
            assert(le(parted[w], pivot));
        }
        if b > p {
            lemma_same_elements(right, right_sorted, b - p - 1);
            let w = choose|w: int| 0 <= w < right.len() && right[w] == right_sorted[b - p - 1];
            assert(!le(parted[p + 1 + w], pivot));
        }
        if a < p && b < p {
            assert(le(left_sorted[a], left_sorted[b]));
        }
        if a > p && b > p {
            assert(le(right_sorted[a - p - 1], right_sorted[b - p - 1]));
        }
    }
}

/// What the partition and the sorting of the two parts have recorded, one
/// after the other, is the log of quick sort for the array, and its replay
/// turns the array into the sorted parts about the pivot.
proof fn lemma_parts_recorded<T: Ord>(
    before: Seq<T>,
    parted: Seq<T>,
    left: Seq<T>,
    right: Seq<T>,
    left_sorted: Seq<T>,
    right_sorted: Seq<T>,
    whole: Seq<T>,
    log0: Seq<SortType<T>>,
    log1: Seq<SortType<T>>,
    log2: Seq<SortType<T>>,
    log3: Seq<SortType<T>>,
    base: int,
    p: int,
)
    requires
        before.len() >= 2,
        0 <= base,
        base + before.len() <= usize::MAX,
        0 <= p < parted.len(),
        left == parted.subrange(0, p),
        right == parted.subrange(p + 1, parted.len() as int),
        whole == left_sorted.push(parted[p]) + right_sorted,
        faithful_at(before, parted, log0, log1, base),
        faithful_at(left, left_sorted, log1, log2, base),
        faithful_at(right, right_sorted, log2, log3, base + p + 1),
        all_swap(recorded(log0, log1)),
        all_swap(recorded(log1, log2)),
        all_swap(recorded(log2, log3)),
        partitioned(before, base) == (parted, recorded(log0, log1), p),
        recorded(log1, log2) == quick_sort_log(left, base),
        recorded(log2, log3) == quick_sort_log(right, base + p + 1),
    ensures
        faithful_at(before, whole, log0, log3, base),
        all_swap(recorded(log0, log3)),
        recorded(log0, log3) == quick_sort_log(before, base),
{
    let pivot = parted[p];
    assert(parted =~= left.push(pivot) + right);
    assert(parted.subrange(0, 0 + left.len() as int) =~= left);
    lemma_faithful_at_embedded(parted, base, 0, left, left_sorted, log1, log2);
    let stage = spliced(parted, 0, left_sorted);
    assert(stage =~= left_sorted.push(pivot) + right);
    assert(stage.subrange(p + 1, p + 1 + right.len()) =~= right);
    lemma_faithful_at_embedded(stage, base, p + 1, right, right_sorted, log2, log3);
    assert(spliced(stage, p + 1, right_sorted) =~= whole);
    lemma_faithful_at_chain(before, parted, stage, log0, log1, log2, base);
    lemma_faithful_at_chain(before, stage, whole, log0, log2, log3, base);
}

/// Moves the middle element to its place in the order: what is not greater
/// comes before it, what is greater behind it. Returns the place.
fn partition<T: Ord>(
    arr: &mut Vec<T>,
    steps: &mut VecDeque<SortType<T>>,
    divide_index: usize,
) -> (place: usize)
    requires
        lawful::<T>(),
        old(arr)@.len() >= 1,
        divide_index + old(arr)@.len() <= usize::MAX,
    ensures
        place < final(arr)@.len(),
        forall|k: int|
            0 <= k < place ==> le(#[trigger] final(arr)@[k], final(arr)@[place as int]),
        forall|k: int|
            place < k < final(arr)@.len() ==> !le(
                #[trigger] final(arr)@[k],
                final(arr)@[place as int],
            ),
        final(arr)@[place as int] == old(arr)@[old(arr)@.len() as int / 2],
        final(arr)@.to_multiset() == old(arr)@.to_multiset(),
        faithful_at(old(arr)@, final(arr)@, old(steps)@, final(steps)@, divide_index as int),
        all_swap(recorded(old(steps)@, final(steps)@)),
        (final(arr)@, recorded(old(steps)@, final(steps)@), place as int) == partitioned(
            old(arr)@,
            divide_index as int,
        ),
{
    let len = arr.len();
    let pivot_index = len / 2;
    proof {
        lemma_le_total_order::<T>();
        lemma_recorded_nothing(steps@);
        lemma_faithful_at_start(arr@, steps@, divide_index as int);
        lemma_swapped_multiset(arr@, pivot_index as int, len - 1);
        lemma_faithful_at_swap(
            old(arr)@,
            arr@,
            old(steps)@,
            steps@,
            divide_index,
            pivot_index,
            (len - 1) as usize,
        );
    }

    arr.swap(pivot_index, len - 1);
    steps.push_front(SortType::Swap(divide_index + pivot_index, divide_index + len - 1));
    let ghost begun = (arr@, recorded(old(steps)@, steps@), 0int);
    proof {
        assert(begun.1 =~= seq![
            SortType::<T>::Swap(
                (divide_index + pivot_index) as usize,
                (divide_index + len - 1) as usize,
            ),
        ]);
    }

    let mut i: usize = 0;
    for j in 0..len - 1
        invariant
            lawful::<T>(),
            len == arr@.len(),
            len >= 1,
            divide_index + len <= usize::MAX,
            i <= j,
            arr@[len - 1] == old(arr)@[len as int / 2],
            forall|k: int| 0 <= k < i ==> le(#[trigger] arr@[k], arr@[len - 1]),
            forall|k: int| i <= k < j ==> !le(#[trigger] arr@[k], arr@[len - 1]),
            arr@.to_multiset() == old(arr)@.to_multiset(),
            faithful_at(old(arr)@, arr@, old(steps)@, steps@, divide_index as int),
            all_swap(recorded(old(steps)@, steps@)),
            len == old(arr)@.len(),
            begun == (
                swapped(old(arr)@, len as int / 2, len - 1),
                seq![
                    SortType::<T>::Swap(
                        (divide_index + len as int / 2) as usize,
                        (divide_index + len - 1) as usize,
                    ),
                ],
                0int,
            ),
            (arr@, recorded(old(steps)@, steps@), i as int) == scanned(
                begun,
                divide_index as int,
                j as nat,
            ),
    {
        if at_most(&arr[j], &arr[len - 1]) {
            proof {
                lemma_swapped_multiset(arr@, i as int, j as int);
                lemma_faithful_at_swap(old(arr)@, arr@, old(steps)@, steps@, divide_index, i, j);
            }
            arr.swap(i, j);
            steps.push_front(SortType::Swap(divide_index + i, divide_index + j));
            i += 1;
        }
    }

    proof {
        lemma_swapped_multiset(arr@, i as int, len - 1);
        lemma_faithful_at_swap(
            old(arr)@,
            arr@,
            old(steps)@,
            steps@,
            divide_index,
            i,
            (len - 1) as usize,
        );
    }
    arr.swap(i, len - 1);
    steps.push_front(SortType::Swap(divide_index + i, divide_index + len - 1));
    i
}

} // verus!
