//! The steps that a sorting algorithm records, and what it means to replay
//! them.
//!
//! A log is a `VecDeque` whose front is the append point: the newest step is
//! at index 0 and the oldest at the back. Replay consumes the log from the
//! back, so the oldest step is applied first.

use vstd::prelude::*;

verus! {

/// One atomic change to an array.
#[derive(Clone, PartialEq, Debug, Copy)]
pub enum SortType<T> {
    /// The cell at the index is assigned the value.
    Assign(usize, T),
    /// The cells at the two indices exchange their values.
    Swap(usize, usize),
}

impl<T> SortType<T> {
    /// Every index of the step lies inside an array of `len` cells.
    pub open spec fn in_range(self, len: nat) -> bool {
        match self {
            SortType::Assign(i, _) => i < len,
            SortType::Swap(i, j) => i < len && j < len,
        }
    }

    /// The array after the step. A step that is out of range changes nothing.
    pub open spec fn apply(self, data: Seq<T>) -> Seq<T> {
        match self {
            SortType::Assign(i, v) => if i < data.len() {
                data.update(i as int, v)
            } else {
                data
            },
            SortType::Swap(i, j) => if i < data.len() && j < data.len() {
                data.update(i as int, data[j as int]).update(j as int, data[i as int])
            } else {
                data
            },
        }
    }

    /// Every index of the step lies in `lo..hi`.
    pub open spec fn within(self, lo: int, hi: int) -> bool {
        match self {
            SortType::Assign(i, _) => lo <= i < hi,
            SortType::Swap(i, j) => lo <= i < hi && lo <= j < hi,
        }
    }

    /// The step with `offset` taken off its indices: the step as a part of
    /// the array that starts at `offset` sees it.
    pub open spec fn rebased(self, offset: int) -> SortType<T> {
        match self {
            SortType::Assign(i, v) => SortType::Assign((i - offset) as usize, v),
            SortType::Swap(i, j) => SortType::Swap((i - offset) as usize, (j - offset) as usize),
        }
    }
}

/// The array after the steps, applied in the order of the sequence.
pub open spec fn replay<T>(data: Seq<T>, steps: Seq<SortType<T>>) -> Seq<T>
    decreases steps.len(),
{
    if steps.len() == 0 {
        data
    } else {
        steps.last().apply(replay(data, steps.drop_last()))
    }
}

/// Every step lies inside an array of `len` cells.
pub open spec fn all_in_range<T>(steps: Seq<SortType<T>>, len: nat) -> bool {
    forall|k: int| 0 <= k < steps.len() ==> (#[trigger] steps[k]).in_range(len)
}

/// Every step is an `Assign`.
pub open spec fn all_assign<T>(steps: Seq<SortType<T>>) -> bool {
    forall|k: int| 0 <= k < steps.len() ==> (#[trigger] steps[k]) is Assign
}

/// Every step is a `Swap`.
pub open spec fn all_swap<T>(steps: Seq<SortType<T>>) -> bool {
    forall|k: int| 0 <= k < steps.len() ==> (#[trigger] steps[k]) is Swap
}

/// Every step is a swap of two cells that lie side by side.
pub open spec fn all_neighbours<T>(steps: Seq<SortType<T>>) -> bool {
    forall|k: int|
        0 <= k < steps.len() ==> match #[trigger] steps[k] {
            SortType::Swap(i, j) => i + 1 == j || j + 1 == i,
            SortType::Assign(_, _) => false,
        }
}

/// The log `after` is the log `before` with steps added at the front.
pub open spec fn extends<S>(before: Seq<S>, after: Seq<S>) -> bool {
    &&& before.len() <= after.len()
    &&& after.skip(after.len() - before.len()) == before
}

/// The steps that were added to `before` to give `after`, oldest first.
pub open spec fn recorded<S>(before: Seq<S>, after: Seq<S>) -> Seq<S> {
    after.take(after.len() - before.len()).reverse()
}

/// The whole log in the order in which its steps were recorded.
pub open spec fn chronological<S>(log: Seq<S>) -> Seq<S> {
    log.reverse()
}

/// A log extends itself, by nothing.
pub proof fn lemma_recorded_nothing<S>(log: Seq<S>)
    ensures
        extends(log, log),
        recorded(log, log) == Seq::<S>::empty(),
{
    assert(log.skip(0) =~= log);
    assert(log.take(0).reverse() =~= Seq::<S>::empty());
}

/// Pushing a step at the front of a log records it as the newest one.
pub proof fn lemma_recorded_push_front<S>(before: Seq<S>, mid: Seq<S>, step: S)
    requires
        extends(before, mid),
    ensures
        extends(before, seq![step] + mid),
        recorded(before, seq![step] + mid) == recorded(before, mid).push(step),
{
    let after = seq![step] + mid;
    assert(after.skip(after.len() - before.len()) =~= mid.skip(mid.len() - before.len()));
    assert(after.take(after.len() - before.len()).reverse() =~= mid.take(
        mid.len() - before.len(),
    ).reverse().push(step));
}

/// Recording in two stages is recording the first stage and then the second.
pub proof fn lemma_recorded_chain<S>(a: Seq<S>, b: Seq<S>, c: Seq<S>)
    requires
        extends(a, b),
        extends(b, c),
    ensures
        extends(a, c),
        recorded(a, c) == recorded(a, b) + recorded(b, c),
{
    assert(c.skip(c.len() - a.len()) =~= c.skip(c.len() - b.len()).skip(b.len() - a.len()));
    let x = c.take(c.len() - a.len());
    let y = b.take(b.len() - a.len());
    let z = c.take(c.len() - b.len());
    assert(x =~= z + y) by {
        assert forall|k: int| 0 <= k < x.len() implies x[k] == (z + y)[k] by {
            if k >= z.len() {
                assert(c.skip(c.len() - b.len())[k - z.len()] == c[k]);
            }
        }
    }
    assert(x.reverse() =~= y.reverse() + z.reverse());
}

/// The whole log extends the empty log, and all of it was recorded.
pub proof fn lemma_recorded_from_empty<S>(log: Seq<S>)
    ensures
        extends(Seq::<S>::empty(), log),
        recorded(Seq::<S>::empty(), log) == chronological(log),
{
    assert(log.skip(log.len() as int) =~= Seq::<S>::empty());
    assert(log.take(log.len() as int) =~= log);
}

/// The array with two of its cells exchanged.
pub open spec fn swapped<T>(data: Seq<T>, i: int, j: int) -> Seq<T> {
    data.update(i, data[j]).update(j, data[i])
}

/// Exchanging two cells keeps the elements, each as often as before.
pub proof fn lemma_swapped_multiset<T>(data: Seq<T>, i: int, j: int)
    requires
        0 <= i < data.len(),
        0 <= j < data.len(),
    ensures
        swapped(data, i, j).to_multiset() == data.to_multiset(),
{
    broadcast use vstd::multiset::group_multiset_axioms;
    broadcast use vstd::seq_lib::group_to_multiset_ensures;

    let mid = data.update(i, data[j]);
    vstd::seq_lib::to_multiset_update(data, i, data[j]);
    vstd::seq_lib::to_multiset_update(mid, j, data[i]);
    assert(data.to_multiset().count(data[i]) > 0);
    assert(data.to_multiset().count(data[j]) > 0);
    assert(swapped(data, i, j).to_multiset() =~= data.to_multiset());
}

/// Replay keeps the length of the array.
pub proof fn lemma_replay_len<T>(data: Seq<T>, steps: Seq<SortType<T>>)
    ensures
        replay(data, steps).len() == data.len(),
    decreases steps.len(),
{
    if steps.len() > 0 {
        lemma_replay_len(data, steps.drop_last());
    }
}

/// Replaying one more step applies it to what the steps before it gave.
pub proof fn lemma_replay_push<T>(data: Seq<T>, steps: Seq<SortType<T>>, step: SortType<T>)
    ensures
        replay(data, steps.push(step)) == step.apply(replay(data, steps)),
{
    assert(steps.push(step).drop_last() =~= steps);
}

/// Replaying a prefix of a log and then the rest of it gives what replaying
/// the whole log gives.
pub proof fn lemma_replay_concat<T>(
    data: Seq<T>,
    prefix: Seq<SortType<T>>,
    suffix: Seq<SortType<T>>,
)
    ensures
        replay(data, prefix + suffix) == replay(replay(data, prefix), suffix),
    decreases suffix.len(),
{
    if suffix.len() == 0 {
        assert(prefix + suffix =~= prefix);
    } else {
        lemma_replay_concat(data, prefix, suffix.drop_last());
        assert((prefix + suffix).drop_last() =~= prefix + suffix.drop_last());
    }
}

/// Splitting a log at any `k` and replaying the two parts in turn gives what
/// replaying the whole log gives.
pub proof fn lemma_replay_split<T>(data: Seq<T>, steps: Seq<SortType<T>>, k: int)
    requires
        0 <= k <= steps.len(),
    ensures
        replay(data, steps) == replay(replay(data, steps.take(k)), steps.skip(k)),
{
    assert(steps =~= steps.take(k) + steps.skip(k));
    lemma_replay_concat(data, steps.take(k), steps.skip(k));
}

/// Every index of every step lies in `lo..hi`.
pub open spec fn all_within<T>(steps: Seq<SortType<T>>, lo: int, hi: int) -> bool {
    forall|k: int| 0 <= k < steps.len() ==> (#[trigger] steps[k]).within(lo, hi)
}

/// The steps with `offset` taken off their indices.
pub open spec fn rebased<T>(steps: Seq<SortType<T>>, offset: int) -> Seq<SortType<T>> {
    Seq::new(steps.len(), |k: int| steps[k].rebased(offset))
}

/// `whole` with the cells from `at` on replaced by those of `part`.
pub open spec fn spliced<T>(whole: Seq<T>, at: int, part: Seq<T>) -> Seq<T> {
    Seq::new(
        whole.len(),
        |k: int|
            if at <= k < at + part.len() {
                part[k - at]
            } else {
                whole[k]
            },
    )
}

/// One `Assign` for each cell of `values`, in order, for an array in which
/// `values` starts at `start`.
pub open spec fn assigns<T>(start: int, values: Seq<T>) -> Seq<SortType<T>> {
    Seq::new(values.len(), |k: int| SortType::Assign((start + k) as usize, values[k]))
}

/// Steps that stay inside a part of an array change that part as they would
/// change it alone, and nothing else. The part starts at `at` in `whole`, and
/// `whole` starts at `base` in the array that the steps index.
pub proof fn lemma_replay_embedded<T>(
    whole: Seq<T>,
    base: int,
    at: int,
    part: Seq<T>,
    steps: Seq<SortType<T>>,
)
    requires
        0 <= base,
        0 <= at,
        at + part.len() <= whole.len(),
        base + whole.len() <= usize::MAX,
        whole.subrange(at, at + part.len()) == part,
        all_within(steps, base + at, base + at + part.len()),
    ensures
        replay(whole, rebased(steps, base)) == spliced(
            whole,
            at,
            replay(part, rebased(steps, base + at)),
        ),
    decreases steps.len(),
{
    let outer = rebased(steps, base);
    let inner = rebased(steps, base + at);
    if steps.len() == 0 {
        assert(spliced(whole, at, part) =~= whole);
    } else {
        let rest = steps.drop_last();
        lemma_replay_embedded(whole, base, at, part, rest);
        assert(outer.drop_last() =~= rebased(rest, base));
        assert(inner.drop_last() =~= rebased(rest, base + at));
        let last = steps.last();
        assert(last.within(base + at, base + at + part.len()));
        let part_before = replay(part, rebased(rest, base + at));
        let whole_before = replay(whole, rebased(rest, base));
        lemma_replay_len(part, rebased(rest, base + at));
        lemma_replay_len(whole, rebased(rest, base));
        assert(outer.last() == last.rebased(base));
        assert(inner.last() == last.rebased(base + at));
        assert(last.rebased(base).apply(whole_before) =~= spliced(
            whole,
            at,
            last.rebased(base + at).apply(part_before),
        ));
    }
}

/// Taking an offset off a sequence of steps, part by part.
pub proof fn lemma_rebased_concat<T>(a: Seq<SortType<T>>, b: Seq<SortType<T>>, offset: int)
    ensures
        rebased(a + b, offset) == rebased(a, offset) + rebased(b, offset),
{
    assert(rebased(a + b, offset) =~= rebased(a, offset) + rebased(b, offset));
}

/// Steps that stay inside a range stay inside a wider one.
pub proof fn lemma_all_within_wider<T>(
    steps: Seq<SortType<T>>,
    lo: int,
    hi: int,
    wider_lo: int,
    wider_hi: int,
)
    requires
        all_within(steps, lo, hi),
        wider_lo <= lo,
        hi <= wider_hi,
    ensures
        all_within(steps, wider_lo, wider_hi),
{
    assert forall|k: int| 0 <= k < steps.len() implies (#[trigger] steps[k]).within(
        wider_lo,
        wider_hi,
    ) by {
        assert(steps[k].within(lo, hi));
    }
}

/// Assigning every cell of an array, in order, leaves the assigned values.
pub proof fn lemma_replay_assigns<T>(data: Seq<T>, values: Seq<T>)
    requires
        data.len() == values.len(),
        values.len() <= usize::MAX,
    ensures
        replay(data, assigns(0, values)) == values,
{
    lemma_replay_assigns_prefix(data, values, values.len() as int);
    assert(assigns(0, values).take(values.len() as int) =~= assigns(0, values));
    assert(spliced(data, 0, values) =~= values);
}

proof fn lemma_replay_assigns_prefix<T>(data: Seq<T>, values: Seq<T>, n: int)
    requires
        data.len() == values.len(),
        values.len() <= usize::MAX,
        0 <= n <= values.len(),
    ensures
        replay(data, assigns(0, values).take(n)) == spliced(data, 0, values.take(n)),
    decreases n,
{
    let steps = assigns(0, values).take(n);
    if n == 0 {
        assert(spliced(data, 0, values.take(0)) =~= data);
    } else {
        lemma_replay_assigns_prefix(data, values, n - 1);
        assert(steps.drop_last() =~= assigns(0, values).take(n - 1));
        assert(steps.last() == SortType::Assign((n - 1) as usize, values[n - 1]));
        assert(spliced(data, 0, values.take(n - 1)).update(n - 1, values[n - 1]) =~= spliced(
            data,
            0,
            values.take(n),
        ));
    }
}

/// The log accounts for every change made to a part of an array since
/// `before`, where the part starts at `offset` in the array that the steps
/// index: what was recorded since then stays inside the part and, seen from
/// the part, replays `before` into `now`.
pub open spec fn faithful_at<T>(
    before: Seq<T>,
    now: Seq<T>,
    log_before: Seq<SortType<T>>,
    log_now: Seq<SortType<T>>,
    offset: int,
) -> bool {
    &&& now.len() == before.len()
    &&& extends(log_before, log_now)
    &&& all_within(recorded(log_before, log_now), offset, offset + before.len())
    &&& replay(before, rebased(recorded(log_before, log_now), offset)) == now
}

/// Before anything is done to a part, nothing needs to be accounted for.
pub proof fn lemma_faithful_at_start<T>(data: Seq<T>, log: Seq<SortType<T>>, offset: int)
    ensures
        faithful_at(data, data, log, log, offset),
{
    lemma_recorded_nothing(log);
    assert(rebased(Seq::<SortType<T>>::empty(), offset) =~= Seq::empty());
}

/// Exchanging two cells of a part and pushing the `Swap` of the two cells of
/// the array that they are keeps the log faithful.
pub proof fn lemma_faithful_at_swap<T>(
    before: Seq<T>,
    now: Seq<T>,
    log_before: Seq<SortType<T>>,
    log_now: Seq<SortType<T>>,
    offset: usize,
    i: usize,
    j: usize,
)
    requires
        faithful_at(before, now, log_before, log_now, offset as int),
        i < now.len(),
        j < now.len(),
        offset + now.len() <= usize::MAX,
    ensures
        faithful_at(
            before,
            swapped(now, i as int, j as int),
            log_before,
            seq![SortType::Swap((offset + i) as usize, (offset + j) as usize)] + log_now,
            offset as int,
        ),
        all_swap(recorded(log_before, log_now)) ==> all_swap(
            recorded(
                log_before,
                seq![SortType::Swap((offset + i) as usize, (offset + j) as usize)] + log_now,
            ),
        ),
        recorded(
            log_before,
            seq![SortType::Swap((offset + i) as usize, (offset + j) as usize)] + log_now,
        ) == recorded(log_before, log_now).push(
            SortType::Swap((offset + i) as usize, (offset + j) as usize),
        ),
{
    let step = SortType::<T>::Swap((offset + i) as usize, (offset + j) as usize);
    let rec = recorded(log_before, log_now);
    lemma_recorded_push_front(log_before, log_now, step);
    assert(rebased(rec.push(step), offset as int) =~= rebased(rec, offset as int).push(
        step.rebased(offset as int),
    ));
    lemma_replay_push(before, rebased(rec, offset as int), step.rebased(offset as int));
}

/// Two faithful stretches of a log about one part, one after the other, are
/// one faithful stretch, and it holds the kinds of step that the two hold.
pub proof fn lemma_faithful_at_chain<T>(
    first: Seq<T>,
    second: Seq<T>,
    third: Seq<T>,
    log_first: Seq<SortType<T>>,
    log_second: Seq<SortType<T>>,
    log_third: Seq<SortType<T>>,
    offset: int,
)
    requires
        faithful_at(first, second, log_first, log_second, offset),
        faithful_at(second, third, log_second, log_third, offset),
    ensures
        faithful_at(first, third, log_first, log_third, offset),
        recorded(log_first, log_third) == recorded(log_first, log_second) + recorded(
            log_second,
            log_third,
        ),
        all_swap(recorded(log_first, log_second)) && all_swap(recorded(log_second, log_third))
            ==> all_swap(recorded(log_first, log_third)),
        all_assign(recorded(log_first, log_second)) && all_assign(
            recorded(log_second, log_third),
        ) ==> all_assign(recorded(log_first, log_third)),
{
    lemma_recorded_chain(log_first, log_second, log_third);
    lemma_rebased_concat(
        recorded(log_first, log_second),
        recorded(log_second, log_third),
        offset,
    );
    lemma_replay_concat(
        first,
        rebased(recorded(log_first, log_second), offset),
        rebased(recorded(log_second, log_third), offset),
    );
}

/// What was recorded faithfully about a part of a part was recorded
/// faithfully about the part that holds it: there it changes the inner part
/// and nothing else. The inner part starts at `at` in the outer one.
pub proof fn lemma_faithful_at_embedded<T>(
    whole: Seq<T>,
    base: int,
    at: int,
    part: Seq<T>,
    part_after: Seq<T>,
    log_before: Seq<SortType<T>>,
    log_now: Seq<SortType<T>>,
)
    requires
        0 <= base,
        0 <= at,
        at + part.len() <= whole.len(),
        base + whole.len() <= usize::MAX,
        whole.subrange(at, at + part.len()) == part,
        faithful_at(part, part_after, log_before, log_now, base + at),
    ensures
        faithful_at(whole, spliced(whole, at, part_after), log_before, log_now, base),
{
    let rec = recorded(log_before, log_now);
    lemma_replay_embedded(whole, base, at, part, rec);
    lemma_all_within_wider(rec, base + at, base + at + part.len(), base, base + whole.len());
}

/// For the array itself, which starts at zero, [`faithful_at`] is
/// [`faithful`].
pub proof fn lemma_faithful_at_zero<T>(
    before: Seq<T>,
    now: Seq<T>,
    log_before: Seq<SortType<T>>,
    log_now: Seq<SortType<T>>,
)
    ensures
        faithful_at(before, now, log_before, log_now, 0) <==> faithful(
            before,
            now,
            log_before,
            log_now,
        ),
{
    let rec = recorded(log_before, log_now);
    assert(rebased(rec, 0) =~= rec) by {
        assert forall|k: int| 0 <= k < rec.len() implies rec[k].rebased(0) == rec[k] by {
            match rec[k] {
                SortType::Assign(i, v) => {},
                SortType::Swap(i, j) => {},
            }
        }
    }
    assert(all_within(rec, 0, before.len() as int) <==> all_in_range(rec, before.len())) by {
        if all_within(rec, 0, before.len() as int) {
            assert forall|k: int| 0 <= k < rec.len() implies (#[trigger] rec[k]).in_range(
                before.len(),
            ) by {
                assert(rec[k].within(0, before.len() as int));
            }
        }
        if all_in_range(rec, before.len()) {
            assert forall|k: int| 0 <= k < rec.len() implies (#[trigger] rec[k]).within(
                0,
                before.len() as int,
            ) by {
                assert(rec[k].in_range(before.len()));
            }
        }
    }
}

/// The log accounts for every change made to the array since `before`:
/// replaying what was recorded since then turns `before` into `now`.
pub open spec fn faithful<T>(
    before: Seq<T>,
    now: Seq<T>,
    log_before: Seq<SortType<T>>,
    log_now: Seq<SortType<T>>,
) -> bool {
    &&& now.len() == before.len()
    &&& extends(log_before, log_now)
    &&& replay(before, recorded(log_before, log_now)) == now
    &&& all_in_range(recorded(log_before, log_now), before.len())
}

/// Before anything is done, nothing needs to be accounted for.
pub proof fn lemma_faithful_start<T>(data: Seq<T>, log: Seq<SortType<T>>)
    ensures
        faithful(data, data, log, log),
{
    lemma_recorded_nothing(log);
}

/// Two faithful stretches of a log, one after the other, are one faithful
/// stretch, and it holds the kinds of step that the two hold.
pub proof fn lemma_faithful_chain<T>(
    first: Seq<T>,
    second: Seq<T>,
    third: Seq<T>,
    log_first: Seq<SortType<T>>,
    log_second: Seq<SortType<T>>,
    log_third: Seq<SortType<T>>,
)
    requires
        faithful(first, second, log_first, log_second),
        faithful(second, third, log_second, log_third),
    ensures
        faithful(first, third, log_first, log_third),
        recorded(log_first, log_third) == recorded(log_first, log_second) + recorded(
            log_second,
            log_third,
        ),
        all_swap(recorded(log_first, log_second)) && all_swap(recorded(log_second, log_third))
            ==> all_swap(recorded(log_first, log_third)),
        all_assign(recorded(log_first, log_second)) && all_assign(
            recorded(log_second, log_third),
        ) ==> all_assign(recorded(log_first, log_third)),
{
    lemma_recorded_chain(log_first, log_second, log_third);
    lemma_replay_concat(
        first,
        recorded(log_first, log_second),
        recorded(log_second, log_third),
    );
}

/// Exchanging two cells and pushing the matching `Swap` keeps the log
/// faithful.
pub proof fn lemma_faithful_swap<T>(
    before: Seq<T>,
    now: Seq<T>,
    log_before: Seq<SortType<T>>,
    log_now: Seq<SortType<T>>,
    i: usize,
    j: usize,
)
    requires
        faithful(before, now, log_before, log_now),
        i < now.len(),
        j < now.len(),
    ensures
        faithful(
            before,
            swapped(now, i as int, j as int),
            log_before,
            seq![SortType::Swap(i, j)] + log_now,
        ),
        all_swap(recorded(log_before, log_now)) ==> all_swap(
            recorded(log_before, seq![SortType::Swap(i, j)] + log_now),
        ),
        all_neighbours(recorded(log_before, log_now)) && (i + 1 == j || j + 1 == i)
            ==> all_neighbours(recorded(log_before, seq![SortType::Swap(i, j)] + log_now)),
        recorded(log_before, seq![SortType::Swap(i, j)] + log_now) == recorded(
            log_before,
            log_now,
        ).push(SortType::Swap(i, j)),
{
    let step = SortType::<T>::Swap(i, j);
    lemma_recorded_push_front(log_before, log_now, step);
    lemma_replay_push(before, recorded(log_before, log_now), step);
}

/// Assigning a cell and pushing the matching `Assign` keeps the log faithful.
pub proof fn lemma_faithful_assign<T>(
    before: Seq<T>,
    now: Seq<T>,
    log_before: Seq<SortType<T>>,
    log_now: Seq<SortType<T>>,
    i: usize,
    value: T,
)
    requires
        faithful(before, now, log_before, log_now),
        i < now.len(),
    ensures
        faithful(
            before,
            now.update(i as int, value),
            log_before,
            seq![SortType::Assign(i, value)] + log_now,
        ),
        all_assign(recorded(log_before, log_now)) ==> all_assign(
            recorded(log_before, seq![SortType::Assign(i, value)] + log_now),
        ),
        recorded(log_before, seq![SortType::Assign(i, value)] + log_now) == recorded(
            log_before,
            log_now,
        ).push(SortType::Assign(i, value)),
{
    let step = SortType::<T>::Assign(i, value);
    lemma_recorded_push_front(log_before, log_now, step);
    lemma_replay_push(before, recorded(log_before, log_now), step);
}

} // verus!
