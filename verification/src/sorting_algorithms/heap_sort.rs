//! Heap sort: the array is made a max-heap, then the root is moved behind the
//! heap again and again, and the heap is mended after each move.

use crate::order::greater;
use crate::order::lawful;
use crate::order::le;
use crate::order::lemma_le_total_order;
use crate::sorting_algorithms::sorts;
use crate::steps::all_swap;
use crate::steps::extends;
use crate::steps::faithful;
use crate::steps::lemma_recorded_nothing;
use crate::steps::lemma_faithful_chain;
use crate::steps::lemma_faithful_start;
use crate::steps::lemma_faithful_swap;
use crate::steps::lemma_swapped_multiset;
use crate::steps::recorded;
use crate::steps::swapped;
use crate::steps::SortType;
use std::collections::VecDeque;
use vstd::prelude::*;

verus! {

/// Among the first `n` cells, cell `k` is not less than either of its
/// children.
pub open spec fn dominates<T: Ord>(s: Seq<T>, n: int, k: int) -> bool {
    &&& 2 * k + 1 < n ==> le(s[2 * k + 1], s[k])
    &&& 2 * k + 2 < n ==> le(s[2 * k + 2], s[k])
}

/// The cells from `lo` up to `n` obey the heap order.
pub open spec fn heap_from<T: Ord>(s: Seq<T>, lo: int, n: int) -> bool {
    forall|k: int| lo <= k < n ==> #[trigger] dominates(s, n, k)
}

/// Cell `k` lies in the subtree whose root is cell `i`: it is `i`, a child
/// of `i`, a child of a child, and so on.
pub open spec fn under(k: int, i: int) -> bool
    decreases k,
{
    if k <= i || k <= 0 {
        k == i
    } else {
        under((k - 1) / 2, i)
    }
}

/// Among the first `n` cells, the subtrees of the children of cell `i` are
/// heaps: every cell below `i` obeys the heap order.
pub open spec fn heaps_below<T: Ord>(s: Seq<T>, n: int, i: int) -> bool {
    forall|k: int| i < k < n && under(k, i) ==> #[trigger] dominates(s, n, k)
}

/// Among the first `n` cells, the subtree of cell `i` is a heap.
pub open spec fn heap_under<T: Ord>(s: Seq<T>, n: int, i: int) -> bool {
    forall|k: int| i <= k < n && under(k, i) ==> #[trigger] dominates(s, n, k)
}

/// What lies in the subtree of a child lies in the subtree of its parent.
proof fn lemma_under_child(k: int, child: int, i: int)
    requires
        0 <= i,
        child == 2 * i + 1 || child == 2 * i + 2,
        under(k, child),
    ensures
        under(k, i),
    decreases k,
{
    if k > child {
        lemma_under_child((k - 1) / 2, child, i);
    } else {
        assert(under((child - 1) / 2, i));
    }
}

/// Every cell lies in the subtree of the first.
proof fn lemma_under_root(k: int)
    requires
        0 <= k,
    ensures
        under(k, 0),
    decreases k,
{
    if k > 0 {
        lemma_under_root((k - 1) / 2);
    }
}

/// A cell behind `i` lies in the subtree of `i` where its parent does.
proof fn lemma_under_parent(k: int, i: int)
    requires
        0 <= i < k,
    ensures
        under(2 * k + 1, i) == under(k, i),
        under(2 * k + 2, i) == under(k, i),
{
    assert((2 * k + 1 - 1) / 2 == k);
    assert((2 * k + 2 - 1) / 2 == k);
}

/// The root of a heap is its greatest element.
proof fn lemma_root_is_greatest<T: Ord>(s: Seq<T>, n: int, k: int)
    requires
        lawful::<T>(),
        heap_from(s, 0, n),
        0 <= k < n <= s.len(),
    ensures
        le(s[k], s[0]),
    decreases k,
{
    lemma_le_total_order::<T>();
    if k > 0 {
        let p = (k - 1) / 2;
        assert(dominates(s, n, p));
        lemma_root_is_greatest(s, n, p);
    }
}

/// Of the cell `i` and its two children among the first `n` cells, the one
/// that holds the greatest element: the cell itself unless a child holds a
/// greater one, and the left child unless the right one holds a greater
/// one.
pub open spec fn greatest_of_three<T: Ord>(arr: Seq<T>, n: int, i: int) -> int {
    let left = 2 * i + 1;
    let right = 2 * i + 2;
    let first = if left < n && !le(arr[left], arr[i]) {
        left
    } else {
        i
    };
    if right < n && !le(arr[right], arr[first]) {
        right
    } else {
        first
    }
}

/// The array and the log after the element in cell `i` has sunk into the
/// heap of the first `n` cells: as long as a child holds a greater element,
/// the cell is swapped with the child that holds the greatest.
pub open spec fn sunk<T: Ord>(state: (Seq<T>, Seq<SortType<T>>), n: nat, i: nat) -> (
    Seq<T>,
    Seq<SortType<T>>,
)
    decreases n - i,
{
    let (arr, log) = state;
    let largest = greatest_of_three(arr, n as int, i as int);
    if i < n && largest != i {
        sunk(
            (
                swapped(arr, i as int, largest),
                log.push(SortType::Swap(i as usize, largest as usize)),
            ),
            n,
            largest as nat,
        )
    } else {
        state
    }
}

/// The array and the log after the cells before `i` have sunk into the heap
/// of the first `n` cells, from the cell before `i` down to the first.
pub open spec fn heap_built<T: Ord>(state: (Seq<T>, Seq<SortType<T>>), n: nat, i: nat) -> (
    Seq<T>,
    Seq<SortType<T>>,
)
    decreases i,
{
    if i == 0 {
        state
    } else {
        heap_built(sunk(state, n, (i - 1) as nat), n, (i - 1) as nat)
    }
}

/// The array and the log after the roots of the heaps of the first `i`
/// cells, of the first `i - 1` cells and so on were moved behind their
/// heaps: the root is swapped with the last cell of the heap, and the
/// element that comes to the root sinks into the heap that is left.
pub open spec fn roots_moved<T: Ord>(state: (Seq<T>, Seq<SortType<T>>), i: nat) -> (
    Seq<T>,
    Seq<SortType<T>>,
)
    decreases i,
{
    if i == 0 {
        state
    } else {
        let (arr, log) = state;
        let last = (i - 1) as nat;
        roots_moved(
            sunk((swapped(arr, 0, last as int), log.push(SortType::Swap(0, last as usize))), last, 0),
            last,
        )
    }
}

/// The log of heap sort for the items. Fewer than two items record nothing.
pub open spec fn heap_sort_log<T: Ord>(items: Seq<T>) -> Seq<SortType<T>> {
    if items.len() < 2 {
        Seq::empty()
    } else {
        roots_moved(
            heap_built((items, Seq::empty()), items.len(), items.len() / 2),
            items.len(),
        ).1
    }
}

/// Lets the element in cell `i` sink into the heap of the first `n` cells,
/// where the subtrees of the children of `i` are heaps: then the subtree of
/// `i` is a heap, and nothing outside it has changed. Each swap is recorded.
fn heapify<T: Ord>(
    arr: &mut Vec<T>,
    n: usize,
    i: usize,
    steps: &mut VecDeque<SortType<T>>,
    Ghost(origin): Ghost<Seq<SortType<T>>>,
)
    requires
        lawful::<T>(),
        n <= old(arr)@.len(),
        heaps_below(old(arr)@, n as int, i as int),
        extends(origin, old(steps)@),
    ensures
        extends(origin, final(steps)@),
        (final(arr)@, recorded(origin, final(steps)@)) == sunk(
            (old(arr)@, recorded(origin, old(steps)@)),
            n as nat,
            i as nat,
        ),
        heap_under(final(arr)@, n as int, i as int),
        i < n ==> final(arr)@[i as int] == old(arr)@[greatest_of_three(
            old(arr)@,
            n as int,
            i as int,
        )],
        final(arr)@.to_multiset() == old(arr)@.to_multiset(),
        forall|k: int| n <= k < old(arr)@.len() ==> final(arr)@[k] == old(arr)@[k],
        forall|k: int|
            0 <= k < old(arr)@.len() && !under(k, i as int) ==> final(arr)@[k] == old(arr)@[k],
        faithful(old(arr)@, final(arr)@, old(steps)@, final(steps)@),
        all_swap(recorded(old(steps)@, final(steps)@)),
    decreases n - i,
{
    proof {
        lemma_le_total_order::<T>();
        lemma_faithful_start(arr@, steps@);
    }
    // a cell in the second half of the heap has no children
    if i >= n / 2 {
        return ;
    }
    let mut largest = i;
    let left_child = 2 * i + 1;
    let right_child = 2 * i + 2;

    if left_child < n && greater(&arr[left_child], &arr[largest]) {
        largest = left_child;
    }
    if right_child < n && greater(&arr[right_child], &arr[largest]) {
        largest = right_child;
    }
    if largest != i {
        let ghost start = arr@;
        let ghost after = swapped(arr@, i as int, largest as int);
        proof {
            lemma_swapped_multiset(arr@, i as int, largest as int);
            lemma_faithful_swap(old(arr)@, arr@, old(steps)@, steps@, i, largest);
            assert forall|k: int| largest < k < n && under(k, largest as int) implies #[trigger] dominates(
                after,
                n as int,
                k,
            ) by {
                lemma_under_child(k, largest as int, i as int);
                assert(dominates(start, n as int, k));
            }
            crate::steps::lemma_recorded_push_front(
                origin,
                steps@,
                SortType::<T>::Swap(i, largest),
            );
        }
        arr.swap(i, largest);
        steps.push_front(SortType::Swap(i, largest));
        let ghost mid = arr@;
        let ghost mid_log = steps@;
        heapify(arr, n, largest, steps, Ghost(origin));
        proof {
            lemma_faithful_chain(old(arr)@, mid, arr@, old(steps)@, mid_log, steps@);
            let done = arr@;
            let c = largest as int;
            let other = if c == 2 * i + 1 {
                2 * i + 2
            } else {
                2 * i + 1
            };
            assert(under(c, c));
            lemma_under_child(c, c, i as int);
            assert(dominates(start, n as int, c));
            assert(!under(i as int, c));
            assert(!under(other, c)) by {
                if other > c {
                    assert((other - 1) / 2 == i);
                }
            }
            // the element that has come to the child is not greater than
            // the one that has come to the cell
            let g = greatest_of_three(mid, n as int, c);
            assert(done[c] == mid[g]);
            assert(le(mid[g], start[c])) by {
                assert(le(start[i as int], start[c]) || le(start[c], start[i as int]));
            }
            assert(dominates(done, n as int, i as int)) by {
                assert(done[i as int] == start[c]);
                if other < n {
                    assert(done[other] == start[other]);
                    assert(le(start[other], start[c]) || le(start[c], start[other]));
                }
            }
            assert forall|k: int| i <= k < n && under(k, i as int) implies #[trigger] dominates(
                done,
                n as int,
                k,
            ) by {
                if k != i && !under(k, c) {
                    assert(dominates(start, n as int, k));
                    if k > c {
                        lemma_under_parent(k, c);
                    } else {
                        assert(!under(2 * k + 1, c) && !under(2 * k + 2, c)) by {
                            if 2 * k + 1 > c {
                                assert((2 * k + 1 - 1) / 2 == k);
                            }
                            if 2 * k + 2 > c {
                                assert((2 * k + 2 - 1) / 2 == k);
                            }
                        }
                    }
                }
            }
            assert forall|k: int| 0 <= k < start.len() && !under(k, i as int) implies done[k]
                == start[k] by {
                if under(k, c) {
                    lemma_under_child(k, c, i as int);
                }
            }
        }
    }
}

fn build_max_heap<T: Ord>(arr: &mut Vec<T>, steps: &mut VecDeque<SortType<T>>)
    requires
        lawful::<T>(),
    ensures
        heap_from(final(arr)@, 0, final(arr)@.len() as int),
        final(arr)@.to_multiset() == old(arr)@.to_multiset(),
        faithful(old(arr)@, final(arr)@, old(steps)@, final(steps)@),
        all_swap(recorded(old(steps)@, final(steps)@)),
        (final(arr)@, recorded(old(steps)@, final(steps)@)) == heap_built(
            (old(arr)@, Seq::empty()),
            old(arr)@.len(),
            old(arr)@.len() / 2,
        ),
{
    let n = arr.len();
    let mut i = n / 2;
    proof {
        lemma_faithful_start(arr@, steps@);
        lemma_recorded_nothing(steps@);
    }
    while i > 0
        invariant
            lawful::<T>(),
            n == arr@.len(),
            i <= n / 2,
            heap_from(arr@, i as int, n as int),
            arr@.to_multiset() == old(arr)@.to_multiset(),
            faithful(old(arr)@, arr@, old(steps)@, steps@),
            all_swap(recorded(old(steps)@, steps@)),
            n == old(arr)@.len(),
            heap_built((arr@, recorded(old(steps)@, steps@)), n as nat, i as nat) == heap_built(
                (old(arr)@, Seq::empty()),
                n as nat,
                (n / 2) as nat,
            ),
        decreases i,
    {
        i -= 1;
        let ghost mid = arr@;
        let ghost mid_log = steps@;
        heapify(arr, n, i, steps, Ghost(old(steps)@));
        proof {
            lemma_faithful_chain(old(arr)@, mid, arr@, old(steps)@, mid_log, steps@);
            assert forall|k: int| i <= k < n implies #[trigger] dominates(arr@, n as int, k) by {
                if !under(k, i as int) {
                    lemma_under_parent(k, i as int);
                    assert(dominates(mid, n as int, k));
                }
            }
        }
    }
}

/// Sorts `arr` in place and records each swap.
pub fn heap_sort<T: Copy + Clone + Ord>(arr: &mut Vec<T>, steps: &mut VecDeque<SortType<T>>)
    requires
        lawful::<T>(),
    ensures
        sorts(old(arr)@, final(arr)@, old(steps)@, final(steps)@),
        all_swap(recorded(old(steps)@, final(steps)@)),
        recorded(old(steps)@, final(steps)@) == heap_sort_log(old(arr)@),
{
    let n = arr.len();
    proof {
        lemma_le_total_order::<T>();
        lemma_faithful_start(arr@, steps@);
        lemma_recorded_nothing(steps@);
    }
    // nothing to do, and nothing to record, for fewer than two elements
    if n < 2 {
        return ;
    }
    build_max_heap(arr, steps);
    let ghost built = (arr@, recorded(old(steps)@, steps@));

    let mut i = n;
    while i > 0
        invariant
            lawful::<T>(),
            n == arr@.len(),
            i <= n,
            heap_from(arr@, 0, i as int),
            arr@.to_multiset() == old(arr)@.to_multiset(),
            faithful(old(arr)@, arr@, old(steps)@, steps@),
            all_swap(recorded(old(steps)@, steps@)),
            roots_moved((arr@, recorded(old(steps)@, steps@)), i as nat) == roots_moved(
                built,
                n as nat,
            ),
            // what lies behind the heap is in order and not less than the heap
            forall|a: int, b: int| 0 <= a < b < n && i <= b ==> le(arr@[a], arr@[b]),
        decreases i,
    {
        i -= 1;
        proof {
            lemma_le_total_order::<T>();
            lemma_swapped_multiset(arr@, 0, i as int);
            lemma_faithful_swap(old(arr)@, arr@, old(steps)@, steps@, 0, i);
            assert forall|k: int| 0 <= k <= i implies le(arr@[k], arr@[0]) by {
                lemma_root_is_greatest(arr@, i + 1, k);
            }
            let after = swapped(arr@, 0, i as int);
            assert forall|k: int| 0 <= k < i && k != 0 implies #[trigger] dominates(
                after,
                i as int,
                k,
            ) by {
                assert(dominates(arr@, i + 1, k));
            }
        }
        arr.swap(0, i);
        steps.push_front(SortType::Swap(0, i));
        let ghost mid = arr@;
        let ghost mid_log = steps@;
        heapify(arr, i, 0, steps, Ghost(old(steps)@));
        proof {
            lemma_faithful_chain(old(arr)@, mid, arr@, old(steps)@, mid_log, steps@);
            assert forall|k: int| 0 <= k < i implies #[trigger] dominates(arr@, i as int, k) by {
                lemma_under_root(k);
            }
            // the heap was only rearranged, so it still lies below what follows it
            assert forall|a: int, b: int| 0 <= a < b < n && i <= b implies le(
                arr@[a],
                arr@[b],
            ) by {
                if a < i {
                    lemma_member_of_rearranged(mid, arr@, i as int, a);
                    let w = choose|w: int| 0 <= w < i && mid[w] == arr@[a];
                    assert(le(mid[w], mid[b]));
                }
            }
        }
    }
}

/// Where the first `n` cells of two arrays hold the same elements and the
/// rest agrees, each of the first `n` cells of one holds what some such cell
/// of the other holds.
proof fn lemma_member_of_rearranged<T>(before: Seq<T>, after: Seq<T>, n: int, a: int)
    requires
        0 <= a < n <= before.len(),
        before.len() == after.len(),
        before.to_multiset() == after.to_multiset(),
        forall|k: int| n <= k < before.len() ==> after[k] == before[k],
    ensures
        exists|w: int| 0 <= w < n && before[w] == after[a],
{
    broadcast use vstd::seq_lib::lemma_multiset_commutative;
    broadcast use vstd::multiset::group_multiset_axioms;
    broadcast use vstd::seq_lib::group_to_multiset_ensures;

    let len = before.len() as int;
    assert(before =~= before.subrange(0, n) + before.subrange(n, len));
    assert(after =~= after.subrange(0, n) + after.subrange(n, len));
    assert(before.subrange(n, len) =~= after.subrange(n, len));
    let head_b = before.subrange(0, n);
    let head_a = after.subrange(0, n);
    let tail = before.subrange(n, len);
    assert(head_b.to_multiset().add(tail.to_multiset()) == head_a.to_multiset().add(
        tail.to_multiset(),
    ));
    assert(head_a[a] == after[a]);
    assert(head_a.to_multiset().count(after[a]) > 0);
    assert(head_b.to_multiset().count(after[a]) == head_b.to_multiset().add(
        tail.to_multiset(),
    ).count(after[a]) - tail.to_multiset().count(after[a]));
    assert(head_a.to_multiset().count(after[a]) == head_a.to_multiset().add(
        tail.to_multiset(),
    ).count(after[a]) - tail.to_multiset().count(after[a]));
    assert(head_b.to_multiset().count(after[a]) > 0);
    assert(head_b.contains(after[a]));
    let w = choose|w: int| 0 <= w < head_b.len() && head_b[w] == after[a];
    assert(before[w] == after[a]);
}

} // verus!
