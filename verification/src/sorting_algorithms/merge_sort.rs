//! Merge sort: the two halves of the array are sorted, each for itself, and
//! merged. The steps are recorded during the merge: one assignment for each
//! cell of the merged range.

use crate::order::lawful;
use crate::order::le_fn;
use crate::order::lemma_sorted_is_sorted_by;
use crate::order::lemma_sorted_unique;
use crate::order::le;
use crate::order::lemma_le_total_order;
use crate::order::less;
use crate::order::sorted;
use crate::sorting_algorithms::copy_range;
use crate::sorting_algorithms::sorts;
use crate::steps::all_assign;
use crate::steps::all_within;
use crate::steps::assigns;
use crate::steps::extends;
use crate::steps::faithful_at;
use crate::steps::lemma_all_within_wider;
use crate::steps::lemma_faithful_at_zero;
use crate::steps::lemma_recorded_chain;
use crate::steps::lemma_recorded_nothing;
use crate::steps::lemma_recorded_push_front;
use crate::steps::lemma_rebased_concat;
use crate::steps::lemma_replay_assigns;
use crate::steps::lemma_replay_concat;
use crate::steps::lemma_replay_embedded;
use crate::steps::rebased;
use crate::steps::recorded;
use crate::steps::replay;
use crate::steps::SortType;
use std::collections::VecDeque;
use vstd::prelude::*;

verus! {

/// The number of steps that merge sort records for an array of `n` elements:
/// one for each cell of each range that it merges.
pub open spec fn merge_sort_steps(n: nat) -> nat
    decreases n,
{
    if n <= 1 {
        0
    } else {
        merge_sort_steps(n / 2) + merge_sort_steps((n - n / 2) as nat) + n
    }
}

/// The log of merge sort for the items, which start at `start` in the array
/// that the steps index: the log for the first half, the log for the second
/// half, and then one assignment for each cell, in order, of the items in
/// ascending order.
pub open spec fn merge_sort_log<T: Ord>(items: Seq<T>, start: int) -> Seq<SortType<T>>
    decreases items.len(),
{
    if items.len() <= 1 {
        Seq::empty()
    } else {
        let mid = (items.len() / 2) as int;
        merge_sort_log(items.subrange(0, mid), start) + merge_sort_log(
            items.subrange(mid, items.len() as int),
            start + mid,
        ) + assigns(start, items.sort_by(le_fn::<T>()))
    }
}

/// The array in ascending order is the one arrangement of its elements that
/// is in ascending order.
proof fn lemma_is_the_sorted<T: Ord>(items: Seq<T>, arranged: Seq<T>)
    requires
        lawful::<T>(),
        sorted(arranged),
        arranged.to_multiset() == items.to_multiset(),
    ensures
        arranged == items.sort_by(le_fn::<T>()),
{
    lemma_le_total_order::<T>();
    items.lemma_sort_by_ensures(le_fn::<T>());
    lemma_sorted_is_sorted_by(items.sort_by(le_fn::<T>()));
    lemma_sorted_unique(arranged, items.sort_by(le_fn::<T>()));
}

/// Sorts `items` and records one assignment for each cell of each merged
/// range.
pub fn merge_sort<T: Copy + Clone + Ord>(items: &mut Vec<T>, steps: &mut VecDeque<SortType<T>>)
    requires
        lawful::<T>(),
    ensures
        sorts(old(items)@, final(items)@, old(steps)@, final(steps)@),
        all_assign(recorded(old(steps)@, final(steps)@)),
        recorded(old(steps)@, final(steps)@).len() == merge_sort_steps(old(items)@.len()),
        recorded(old(steps)@, final(steps)@) == merge_sort_log(old(items)@, 0),
{
    proof {
        assert(items@.len() == items.len());
    }
    _merge_sort(items, steps, 0);
    proof {
        lemma_faithful_at_zero(old(items)@, items@, old(steps)@, steps@);
    }
}

fn _merge_sort<T: Copy + Clone + Ord>(
    items: &mut Vec<T>,
    steps: &mut VecDeque<SortType<T>>,
    start_i: usize,
)
    requires
        lawful::<T>(),
        start_i + old(items)@.len() <= usize::MAX,
    ensures
        sorted(final(items)@),
        final(items)@.to_multiset() == old(items)@.to_multiset(),
        faithful_at(old(items)@, final(items)@, old(steps)@, final(steps)@, start_i as int),
        all_assign(recorded(old(steps)@, final(steps)@)),
        recorded(old(steps)@, final(steps)@).len() == merge_sort_steps(old(items)@.len()),
        recorded(old(steps)@, final(steps)@) == merge_sort_log(old(items)@, start_i as int),
        old(items)@.len() <= 1 ==> final(steps)@ == old(steps)@,
    decreases old(items)@.len(),
{
    proof {
        lemma_recorded_nothing(steps@);
        assert(rebased(Seq::<SortType<T>>::empty(), start_i as int) =~= Seq::empty());
    }
    if items.len() > 1 {
        let mid = items.len() / 2;
        let mut left_half = copy_range(items, 0, mid);
        let mut right_half = copy_range(items, mid, items.len());
        let ghost whole = items@;
        let ghost left = left_half@;
        let ghost right = right_half@;
        let ghost log0 = steps@;
        _merge_sort(&mut left_half, steps, start_i);
        let ghost log1 = steps@;
        _merge_sort(&mut right_half, steps, start_i + mid);
        let ghost log2 = steps@;
        let ghost left_sorted = left_half@;
        let ghost right_sorted = right_half@;
        *items = merge(left_half, right_half, steps, start_i);
        proof {
            lemma_halves_elements(whole, left, right, left_sorted, right_sorted, items@, mid as int);
            lemma_halves_recorded(
                whole,
                left,
                right,
                items@,
                log0,
                log1,
                log2,
                steps@,
                start_i as int,
                mid as int,
            );
            lemma_halves_replayed(
                whole,
                left,
                right,
                left_sorted,
                right_sorted,
                items@,
                recorded(log0, log1),
                recorded(log1, log2),
                recorded(log2, steps@),
                start_i as int,
                mid as int,
            );
        }
    }
}

/// The merged halves hold the elements of the whole.
proof fn lemma_halves_elements<T: Ord>(
    whole: Seq<T>,
    left: Seq<T>,
    right: Seq<T>,
    left_sorted: Seq<T>,
    right_sorted: Seq<T>,
    merged: Seq<T>,
    mid: int,
)
    requires
        0 <= mid <= whole.len(),
        left == whole.subrange(0, mid),
        right == whole.subrange(mid, whole.len() as int),
        left_sorted.to_multiset() == left.to_multiset(),
        right_sorted.to_multiset() == right.to_multiset(),
        merged.to_multiset() == left_sorted.to_multiset().add(right_sorted.to_multiset()),
    ensures
        merged.to_multiset() == whole.to_multiset(),
{
    assert(whole =~= left + right);
    vstd::seq_lib::lemma_multiset_commutative(left, right);
}

/// What the sorting of the two halves and their merge have recorded, one
/// after the other, is the log of merge sort for the whole.
proof fn lemma_halves_recorded<T: Ord>(
    whole: Seq<T>,
    left: Seq<T>,
    right: Seq<T>,
    merged: Seq<T>,
    log0: Seq<SortType<T>>,
    log1: Seq<SortType<T>>,
    log2: Seq<SortType<T>>,
    log3: Seq<SortType<T>>,
    base: int,
    mid: int,
)
    requires
        lawful::<T>(),
        whole.len() >= 2,
        mid == whole.len() / 2,
        0 <= base,
        base + whole.len() <= usize::MAX,
        left == whole.subrange(0, mid),
        right == whole.subrange(mid, whole.len() as int),
        extends(log0, log1),
        extends(log1, log2),
        extends(log2, log3),
        all_assign(recorded(log0, log1)),
        all_assign(recorded(log1, log2)),
        all_within(recorded(log0, log1), base, base + left.len()),
        all_within(recorded(log1, log2), base + mid, base + mid + right.len()),
        recorded(log0, log1).len() == merge_sort_steps(left.len()),
        recorded(log1, log2).len() == merge_sort_steps(right.len()),
        recorded(log0, log1) == merge_sort_log(left, base),
        recorded(log1, log2) == merge_sort_log(right, base + mid),
        recorded(log2, log3) == assigns(base, merged),
        merged.len() == whole.len(),
        sorted(merged),
        merged.to_multiset() == whole.to_multiset(),
    ensures
        extends(log0, log3),
        recorded(log0, log3) == recorded(log0, log1) + recorded(log1, log2) + recorded(log2, log3),
        all_assign(recorded(log0, log3)),
        all_within(recorded(log0, log3), base, base + whole.len()),
        recorded(log0, log3).len() == merge_sort_steps(whole.len()),
        recorded(log0, log3) == merge_sort_log(whole, base),
{
    let n = whole.len() as int;
    let rec_l = recorded(log0, log1);
    let rec_r = recorded(log1, log2);
    let rec_m = recorded(log2, log3);
    lemma_recorded_chain(log0, log1, log2);
    lemma_recorded_chain(log0, log2, log3);
    let rec = recorded(log0, log3);
    assert(rec == rec_l + rec_r + rec_m);
    lemma_all_within_wider(rec_l, base, base + mid, base, base + n);
    lemma_all_within_wider(rec_r, base + mid, base + mid + right.len(), base, base + n);
    assert forall|k: int| 0 <= k < rec.len() implies (#[trigger] rec[k]).within(base, base + n)
        && rec[k] is Assign by {
        if k < rec_l.len() {
            assert(rec[k] == rec_l[k]);
        } else if k < rec_l.len() + rec_r.len() {
            assert(rec[k] == rec_r[k - rec_l.len()]);
        } else {
            assert(rec[k] == rec_m[k - rec_l.len() - rec_r.len()]);
        }
    }
    lemma_is_the_sorted(whole, merged);
    assert(left.len() == mid && right.len() == n - mid);
}

/// Replaying what the sorting of the two halves and their merge have
/// recorded turns the whole into the merged halves.
proof fn lemma_halves_replayed<T: Ord>(
    whole: Seq<T>,
    left: Seq<T>,
    right: Seq<T>,
    left_sorted: Seq<T>,
    right_sorted: Seq<T>,
    merged: Seq<T>,
    rec_l: Seq<SortType<T>>,
    rec_r: Seq<SortType<T>>,
    rec_m: Seq<SortType<T>>,
    base: int,
    mid: int,
)
    requires
        whole.len() >= 2,
        mid == whole.len() / 2,
        0 <= base,
        base + whole.len() <= usize::MAX,
        left == whole.subrange(0, mid),
        right == whole.subrange(mid, whole.len() as int),
        left_sorted.len() == left.len(),
        right_sorted.len() == right.len(),
        merged.len() == whole.len(),
        all_within(rec_l, base, base + left.len()),
        all_within(rec_r, base + mid, base + mid + right.len()),
        replay(left, rebased(rec_l, base)) == left_sorted,
        replay(right, rebased(rec_r, base + mid)) == right_sorted,
        rec_m == assigns(base, merged),
    ensures
        replay(whole, rebased(rec_l + rec_r + rec_m, base)) == merged,
{
    lemma_rebased_concat(rec_l + rec_r, rec_m, base);
    lemma_rebased_concat(rec_l, rec_r, base);
    lemma_replay_concat(whole, rebased(rec_l + rec_r, base), rebased(rec_m, base));
    lemma_replay_concat(whole, rebased(rec_l, base), rebased(rec_r, base));
    assert(whole.subrange(0, 0 + left.len() as int) =~= left);
    lemma_replay_embedded(whole, base, 0, left, rec_l);
    let stage1 = replay(whole, rebased(rec_l, base));
    assert(stage1 =~= left_sorted + right);
    assert(stage1.subrange(mid, mid + right.len()) =~= right);
    lemma_replay_embedded(stage1, base, mid, right, rec_r);
    let stage2 = replay(stage1, rebased(rec_r, base));
    assert(stage2 =~= left_sorted + right_sorted);
    assert(rebased(rec_m, base) =~= assigns(0, merged));
    lemma_replay_assigns(stage2, merged);
}

fn merge<T: Copy + Clone + Ord>(
    a: Vec<T>,
    b: Vec<T>,
    steps: &mut VecDeque<SortType<T>>,
    start_i: usize,
) -> (merged: Vec<T>)
    requires
        lawful::<T>(),
        start_i + a@.len() + b@.len() <= usize::MAX,
    ensures
        sorted(a@) && sorted(b@) ==> sorted(merged@),
        merged@.to_multiset() == a@.to_multiset().add(b@.to_multiset()),
        merged@.len() == a@.len() + b@.len(),
        extends(old(steps)@, final(steps)@),
        recorded(old(steps)@, final(steps)@) == assigns(start_i as int, merged@),
{
    let size = a.len() + b.len();
    let mut merged: Vec<T> = Vec::with_capacity(size);

    let mut i: usize = 0;  // Idx for a
    let mut j: usize = 0;  // Idx for b
    proof {
        lemma_le_total_order::<T>();
        lemma_recorded_nothing(steps@);
        assert(assigns(start_i as int, merged@) =~= Seq::<SortType<T>>::empty());
        lemma_nothing_merged(a@, b@, merged@);
    }

    // Loop through a and b, adding the smallest values between them to `merged`
    while i < a.len() && j < b.len()
        invariant
            lawful::<T>(),
            start_i + a@.len() + b@.len() <= usize::MAX,
            i <= a@.len(),
            j <= b@.len(),
            merged@.len() == i + j,
            merged@.to_multiset() == a@.take(i as int).to_multiset().add(
                b@.take(j as int).to_multiset(),
            ),
            extends(old(steps)@, steps@),
            recorded(old(steps)@, steps@) == assigns(start_i as int, merged@),
            sorted(a@) && sorted(b@) ==> sorted(merged@),
            sorted(a@) && sorted(b@) ==> forall|k: int, m: int|
                0 <= k < merged@.len() && i <= m < a@.len() ==> le(merged@[k], a@[m]),
            sorted(a@) && sorted(b@) ==> forall|k: int, m: int|
                0 <= k < merged@.len() && j <= m < b@.len() ==> le(merged@[k], b@[m]),
        decreases a@.len() - i + b@.len() - j,
    {
        proof {
            lemma_le_total_order::<T>();
        }
        if less(&a[i], &b[j]) {
            proof {
                lemma_take_one_more(a@, i as int);
                lemma_placed(old(steps)@, steps@, start_i as int, merged@, a@[i as int]);
            }
            merged.push(a[i]);
            steps.push_front(SortType::Assign(start_i + merged.len() - 1, a[i]));
            i += 1;
        } else {
            proof {
                lemma_take_one_more(b@, j as int);
                lemma_placed(old(steps)@, steps@, start_i as int, merged@, b@[j as int]);
            }
            merged.push(b[j]);
            steps.push_front(SortType::Assign(start_i + merged.len() - 1, b[j]));
            j += 1;
        }
    }

    // Add all remaining values
    while i < a.len()
        invariant
            lawful::<T>(),
            start_i + a@.len() + b@.len() <= usize::MAX,
            i <= a@.len(),
            j <= b@.len(),
            i == a@.len() || j == b@.len(),
            merged@.len() == i + j,
            merged@.to_multiset() == a@.take(i as int).to_multiset().add(
                b@.take(j as int).to_multiset(),
            ),
            extends(old(steps)@, steps@),
            recorded(old(steps)@, steps@) == assigns(start_i as int, merged@),
            sorted(a@) && sorted(b@) ==> sorted(merged@),
            sorted(a@) && sorted(b@) ==> forall|k: int, m: int|
                0 <= k < merged@.len() && i <= m < a@.len() ==> le(merged@[k], a@[m]),
            sorted(a@) && sorted(b@) ==> forall|k: int, m: int|
                0 <= k < merged@.len() && j <= m < b@.len() ==> le(merged@[k], b@[m]),
        decreases a@.len() - i,
    {
        proof {
            lemma_le_total_order::<T>();
            lemma_take_one_more(a@, i as int);
            lemma_placed(old(steps)@, steps@, start_i as int, merged@, a@[i as int]);
        }
        merged.push(a[i]);
        steps.push_front(SortType::Assign(start_i + merged.len() - 1, a[i]));
        i += 1;
    }
    while j < b.len()
        invariant
            lawful::<T>(),
            start_i + a@.len() + b@.len() <= usize::MAX,
            i == a@.len(),
            j <= b@.len(),
            merged@.len() == i + j,
            merged@.to_multiset() == a@.take(i as int).to_multiset().add(
                b@.take(j as int).to_multiset(),
            ),
            extends(old(steps)@, steps@),
            recorded(old(steps)@, steps@) == assigns(start_i as int, merged@),
            sorted(a@) && sorted(b@) ==> sorted(merged@),
            sorted(a@) && sorted(b@) ==> forall|k: int, m: int|
                0 <= k < merged@.len() && j <= m < b@.len() ==> le(merged@[k], b@[m]),
        decreases b@.len() - j,
    {
        proof {
            lemma_le_total_order::<T>();
            lemma_take_one_more(b@, j as int);
            lemma_placed(old(steps)@, steps@, start_i as int, merged@, b@[j as int]);
        }
        merged.push(b[j]);
        steps.push_front(SortType::Assign(start_i + merged.len() - 1, b[j]));
        j += 1;
    }
    proof {
        assert(a@.take(a@.len() as int) =~= a@);
        assert(b@.take(b@.len() as int) =~= b@);
    }

    merged
}

/// With nothing taken from either side, nothing is merged.
proof fn lemma_nothing_merged<T>(a: Seq<T>, b: Seq<T>, merged: Seq<T>)
    requires
        merged.len() == 0,
    ensures
        merged.to_multiset() == a.take(0).to_multiset().add(b.take(0).to_multiset()),
{
    broadcast use vstd::multiset::group_multiset_axioms;
    broadcast use vstd::seq_lib::group_to_multiset_ensures;

    assert(a.take(0) =~= Seq::<T>::empty());
    assert(b.take(0) =~= Seq::<T>::empty());
    assert(merged =~= Seq::<T>::empty());
    assert(merged.to_multiset() =~= a.take(0).to_multiset().add(b.take(0).to_multiset()));
}

/// One more element of a sequence, in terms of its elements as a multiset.
proof fn lemma_take_one_more<T>(s: Seq<T>, k: int)
    requires
        0 <= k < s.len(),
    ensures
        s.take(k + 1).to_multiset() == s.take(k).to_multiset().insert(s[k]),
{
    assert(s.take(k + 1) =~= s.take(k).push(s[k]));
    vstd::seq_lib::to_multiset_build(s.take(k), s[k]);
}

/// Placing a value behind the merged ones and pushing its `Assign` keeps the
/// log what the merged values say it is.
proof fn lemma_placed<T>(
    log_before: Seq<SortType<T>>,
    log_now: Seq<SortType<T>>,
    start: int,
    merged: Seq<T>,
    value: T,
)
    requires
        extends(log_before, log_now),
        recorded(log_before, log_now) == assigns(start, merged),
    ensures
        extends(
            log_before,
            seq![SortType::Assign((start + merged.len()) as usize, value)] + log_now,
        ),
        recorded(
            log_before,
            seq![SortType::Assign((start + merged.len()) as usize, value)] + log_now,
        ) == assigns(start, merged.push(value)),
        merged.push(value).to_multiset() == merged.to_multiset().insert(value),
{
    let step = SortType::Assign((start + merged.len()) as usize, value);
    lemma_recorded_push_front(log_before, log_now, step);
    assert(assigns(start, merged).push(step) =~= assigns(start, merged.push(value)));
    vstd::seq_lib::to_multiset_build(merged, value);
}

} // verus!
