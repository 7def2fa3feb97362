//! The board on which the results of a batch fetch are collected: workers
//! record each result at the position of its URL, and readers either drain
//! the results as they arrive or take all of them, in URL order, once every
//! one has arrived.
use std::collections::VecDeque;
use vstd::prelude::*;
use vstd::relations::injective;
use vstd::seq_lib::lemma_no_dup_in_concat;
use vstd::set_lib::{lemma_int_range, lemma_len_subset, lemma_subset_equality, set_int_range};

verus! {

/// What one drain hands out, and the results left behind: each queued
/// position in turn gives its result, if it still holds one, and is
/// cleared.
pub open spec fn drain<R>(results: Seq<Option<R>>, ready: Seq<usize>) -> (Seq<(usize, R)>, Seq<Option<R>>)
    decreases ready.len(),
{
    if ready.len() == 0 {
        (Seq::empty(), results)
    } else {
        let index = ready[0];
        let rest = drain(results.update(index as int, None), ready.drop_first());
        match results[index as int] {
            Some(r) => (seq![(index, r)] + rest.0, rest.1),
            None => drain(results, ready.drop_first()),
        }
    }
}

/// Whether every position holds its result.
pub open spec fn all_present<R>(results: Seq<Option<R>>) -> bool {
    forall|i: int| 0 <= i < results.len() ==> #[trigger] results[i] is Some
}

/// The results themselves, in position order.
pub open spec fn unwrapped<R>(results: Seq<Option<R>>) -> Seq<R> {
    results.map_values(|r: Option<R>| r.unwrap())
}

/// The results that the slots still hold, in position order.
pub open spec fn held<R>(results: Seq<Option<R>>) -> Seq<R>
    decreases results.len(),
{
    if results.len() == 0 {
        Seq::empty()
    } else {
        match results.last() {
            Some(r) => held(results.drop_last()).push(r),
            None => held(results.drop_last()),
        }
    }
}

/// When every slot holds its result, those are all the results.
pub proof fn lemma_held_all_present<R>(results: Seq<Option<R>>)
    requires
        all_present(results),
    ensures
        held(results) == unwrapped(results),
    decreases results.len(),
{
    if results.len() > 0 {
        let rest = results.drop_last();
        assert(all_present(rest)) by {
            assert forall|i: int| 0 <= i < rest.len() implies #[trigger] rest[i] is Some by {
                assert(rest[i] == results[i]);
            }
        }
        lemma_held_all_present(rest);
        assert(results[results.len() - 1] is Some);
        assert(unwrapped(results) =~= unwrapped(rest).push(results.last().unwrap()));
    } else {
        assert(unwrapped(results) =~= Seq::<R>::empty());
    }
}

/// Results of a batch of `total` fetches, by position, with the queue of
/// positions whose results arrived and were not handed out yet. A board
/// may be open, in which case fetches can still be added to the batch.
pub struct FetchState<R> {
    results: Vec<Option<R>>,
    completed: usize,
    ready: VecDeque<usize>,
    total: usize,
    open: bool,
}

impl<R> FetchState<R> {
    /// The result slot of each position.
    pub closed spec fn results(&self) -> Seq<Option<R>> {
        self.results@
    }

    /// How many results were recorded so far.
    pub closed spec fn completed_count(&self) -> nat {
        self.completed as nat
    }

    /// Positions whose results arrived, in arrival order, not handed out yet.
    pub closed spec fn ready(&self) -> Seq<usize> {
        self.ready@
    }

    /// The number of fetches in the batch.
    pub closed spec fn total(&self) -> nat {
        self.total as nat
    }

    /// Whether fetches can still be added to the batch.
    pub closed spec fn is_open(&self) -> bool {
        self.open
    }

    /// The slots, completed count and ready queue together.
    pub open spec fn model(&self) -> BoardModel<R> {
        (self.results(), self.completed_count(), self.ready())
    }

    /// Whether the batch is closed and every one of its fetches finished.
    pub open spec fn finished(&self) -> bool {
        !self.is_open() && self.completed_count() >= self.total()
    }

    /// The slots fit in memory; the queued positions are distinct and each
    /// names a slot that holds its result; and every slot that holds a
    /// result is queued.
    pub open spec fn wf(&self) -> bool {
        &&& self.results().len() <= usize::MAX
        &&& forall|k: int|
            0 <= k < self.ready().len() ==> #[trigger] self.ready()[k] < self.results().len()
                && self.results()[self.ready()[k] as int] is Some
        &&& self.ready().no_duplicates()
        &&& forall|i: int|
            0 <= i < self.results().len() && #[trigger] self.results()[i] is Some
                ==> self.ready().contains(i as usize)
    }

    /// A board for `total` fetches, none of which has arrived.
    pub fn new(total: usize) -> (state: Self)
        ensures
            state.wf(),
            state.results() == Seq::new(total as nat, |i: int| None::<R>),
            state.completed_count() == 0,
            state.ready() == Seq::<usize>::empty(),
            state.total() == total,
            !state.is_open(),
    {
        let mut results: Vec<Option<R>> = Vec::new();
        let mut i: usize = 0;
        while i < total
            invariant
                i <= total,
                results@ == Seq::new(i as nat, |j: int| None::<R>),
            decreases total - i,
        {
            results.push(None);
            i = i + 1;
            assert(results@ =~= Seq::new(i as nat, |j: int| None::<R>));
        }
        FetchState { results, completed: 0, ready: VecDeque::new(), total, open: false }
    }

    /// Records the result of the fetch at position `index`, whose slot is
    /// empty.
    pub fn record(&mut self, index: usize, result: R)
        requires
            old(self).wf(),
            index < old(self).results().len(),
            old(self).results()[index as int] is None,
            old(self).completed_count() < usize::MAX,
        ensures
            final(self).wf(),
            final(self).results() == old(self).results().update(index as int, Some(result)),
            final(self).completed_count() == old(self).completed_count() + 1,
            final(self).ready() == old(self).ready().push(index),
            final(self).total() == old(self).total(),
            final(self).is_open() == old(self).is_open(),
            final(self).model() == board_step(old(self).model(), BoardEvent::Record(index, result)).0,
    {
        assert(!old(self).ready().contains(index)) by {
            if old(self).ready().contains(index) {
                let k = choose|k: int| 0 <= k < old(self).ready().len() && old(self).ready()[k] == index;
                assert(old(self).results()[old(self).ready()[k] as int] is Some);
            }
        }
        self.results.set(index, Some(result));
        self.completed = self.completed + 1;
        self.ready.push_back(index);
        assert forall|k: int| 0 <= k < self.ready().len() implies #[trigger] self.ready()[k] < self.results().len()
            && self.results()[self.ready()[k] as int] is Some by {
            if k < old(self).ready().len() {
                assert(self.ready()[k] == old(self).ready()[k]);
                assert(old(self).results()[old(self).ready()[k] as int] is Some);
            }
        }
        assert(self.ready().no_duplicates()) by {
            assert forall|a: int, b: int| 0 <= a < self.ready().len() && 0 <= b < self.ready().len() && a != b implies self.ready()[a]
                != self.ready()[b] by {
                if a < old(self).ready().len() && b < old(self).ready().len() {
                    assert(self.ready()[a] == old(self).ready()[a]);
                    assert(self.ready()[b] == old(self).ready()[b]);
                } else if a < old(self).ready().len() {
                    assert(self.ready()[a] == old(self).ready()[a]);
                    assert(old(self).ready().contains(old(self).ready()[a]));
                } else if b < old(self).ready().len() {
                    assert(self.ready()[b] == old(self).ready()[b]);
                    assert(old(self).ready().contains(old(self).ready()[b]));
                }
            }
        }
        assert forall|i: int|
            0 <= i < self.results().len() && #[trigger] self.results()[i] is Some implies self.ready().contains(
                i as usize,
            ) by {
            if i == index {
                assert(self.ready()[self.ready().len() - 1] == index);
            } else {
                assert(old(self).results()[i] is Some);
                let k = choose|k: int| 0 <= k < old(self).ready().len() && old(self).ready()[k] == i as usize;
                assert(self.ready()[k] == i as usize);
            }
        }
    }

    /// Hands out, once each, the results that arrived since the last call,
    /// in arrival order, with their positions, and clears their slots.
    pub fn ready_results(&mut self) -> (out: Vec<(usize, R)>)
        requires
            old(self).wf(),
        ensures
            final(self).wf(),
            out@ == drain(old(self).results(), old(self).ready()).0,
            final(self).results() == drain(old(self).results(), old(self).ready()).1,
            final(self).ready() == Seq::<usize>::empty(),
            final(self).completed_count() == old(self).completed_count(),
            final(self).total() == old(self).total(),
            final(self).is_open() == old(self).is_open(),
            final(self).model() == board_step(old(self).model(), BoardEvent::Drain).0,
            out@.map_values(|entry: (usize, R)| entry.0) == board_step(old(self).model(), BoardEvent::Drain).1,
    {
        let mut ready: VecDeque<usize> = VecDeque::new();
        std::mem::swap(&mut ready, &mut self.ready);
        let ghost start_results = self.results@;
        let ghost start_ready = ready@;
        proof {
            assert forall|k: int| 0 <= k < start_ready.len() implies #[trigger] start_ready[k]
                < start_results.len() by {
                assert(old(self).ready()[k] < old(self).results().len());
            }
            assert forall|i: int|
                0 <= i < start_results.len() && #[trigger] start_results[i] is Some implies start_ready.contains(
                i as usize,
            ) by {
                assert(old(self).results()[i] is Some);
            }
            lemma_drain_clears(start_results, start_ready);
        }
        let mut out: Vec<(usize, R)> = Vec::new();
        while ready.len() > 0
            invariant
                self.results@.len() == start_results.len(),
                forall|k: int| 0 <= k < ready@.len() ==> #[trigger] ready@[k] < self.results@.len(),
                drain(start_results, start_ready).0 == out@ + drain(self.results@, ready@).0,
                drain(start_results, start_ready).1 == drain(self.results@, ready@).1,
                self.ready@ == Seq::<usize>::empty(),
                self.completed == old(self).completed,
                self.total == old(self).total,
                self.open == old(self).open,
            decreases ready@.len(),
        {
            let ghost before_results = self.results@;
            let ghost before_ready = ready@;
            let index = ready.pop_front().unwrap();
            assert(ready@ == before_ready.drop_first());
            let taken = self.results[index].take();
            match taken {
                Some(result) => {
                    assert(self.results@ == before_results.update(index as int, None));
                    out.push((index, result));
                },
                None => {
                    assert(self.results@ == before_results);
                },
            }
        }
        out
    }

    /// Takes every result the board still holds, in position order, and
    /// empties the board.
    pub fn collect(&mut self) -> (all: Vec<R>)
        requires
            old(self).wf(),
        ensures
            final(self).wf(),
            all@ == held(old(self).results()),
            final(self).results() == Seq::<Option<R>>::empty(),
            final(self).ready() == Seq::<usize>::empty(),
            final(self).completed_count() == old(self).completed_count(),
            final(self).total() == old(self).total(),
            final(self).is_open() == old(self).is_open(),
    {
        self.ready.clear();
        let mut results: Vec<Option<R>> = Vec::new();
        std::mem::swap(&mut results, &mut self.results);
        let ghost start = results@;
        let count: usize = results.len();
        let mut all: Vec<R> = Vec::new();
        let mut i: usize = 0;
        while i < count
            invariant
                i <= count,
                count == start.len(),
                results@.len() == count,
                forall|j: int| i <= j < count ==> #[trigger] results@[j] == start[j],
                all@ == held(start.take(i as int)),
                self.results@ == Seq::<Option<R>>::empty(),
                self.ready@ == Seq::<usize>::empty(),
                self.completed == old(self).completed,
                self.total == old(self).total,
                self.open == old(self).open,
            decreases count - i,
        {
            assert(results@[i as int] == start[i as int]);
            assert(start.take(i + 1).drop_last() =~= start.take(i as int));
            assert(start.take(i + 1).last() == start[i as int]);
            let slot = results[i].take();
            if let Some(result) = slot {
                all.push(result);
            }
            i = i + 1;
        }
        assert(start.take(count as int) =~= start);
        all
    }

    /// Every result the board still holds, in position order, once the whole
    /// batch has finished; `None`, and the board untouched, before that.
    pub fn try_results(&mut self) -> (all: Option<Vec<R>>)
        requires
            old(self).wf(),
        ensures
            final(self).wf(),
            final(self).completed_count() == old(self).completed_count(),
            final(self).total() == old(self).total(),
            final(self).is_open() == old(self).is_open(),
            if old(self).finished() {
                &&& all matches Some(v) && v@ == held(old(self).results())
                &&& final(self).results() == Seq::<Option<R>>::empty()
                &&& final(self).ready() == Seq::<usize>::empty()
            } else {
                &&& all is None
                &&& final(self).results() == old(self).results()
                &&& final(self).ready() == old(self).ready()
            },
    {
        if !self.is_finished() {
            return None;
        }
        Some(self.collect())
    }

    /// Whether the batch is closed and every one of its fetches finished.
    pub fn is_finished(&self) -> (finished: bool)
        ensures
            finished == self.finished(),
    {
        !self.open && self.completed >= self.total
    }

    /// An open board with no fetches yet.
    pub fn new_open() -> (state: Self)
        ensures
            state.wf(),
            state.results() == Seq::<Option<R>>::empty(),
            state.completed_count() == 0,
            state.ready() == Seq::<usize>::empty(),
            state.total() == 0,
            state.is_open(),
    {
        FetchState { results: Vec::new(), completed: 0, ready: VecDeque::new(), total: 0, open: true }
    }

    /// Adds one fetch to an open batch and returns the position of its
    /// result.
    pub fn add_slot(&mut self) -> (index: usize)
        requires
            old(self).wf(),
            old(self).is_open(),
            old(self).results().len() < usize::MAX,
            old(self).total() < usize::MAX,
        ensures
            final(self).wf(),
            index == old(self).results().len(),
            final(self).results() == old(self).results().push(None),
            final(self).completed_count() == old(self).completed_count(),
            final(self).ready() == old(self).ready(),
            final(self).total() == old(self).total() + 1,
            final(self).is_open(),
    {
        let index = self.results.len();
        self.results.push(None);
        self.total = self.total + 1;
        assert forall|k: int| 0 <= k < self.ready().len() implies #[trigger] self.ready()[k] < self.results().len()
            && self.results()[self.ready()[k] as int] is Some by {
            assert(old(self).ready()[k] < old(self).results().len());
            assert(old(self).results()[old(self).ready()[k] as int] is Some);
        }
        assert forall|i: int|
            0 <= i < self.results().len() && #[trigger] self.results()[i] is Some implies self.ready().contains(
                i as usize,
            ) by {
            assert(i < old(self).results().len());
            assert(old(self).results()[i] is Some);
        }
        index
    }

    /// Closes the batch: no fetch is added any more.
    pub fn close(&mut self)
        requires
            old(self).wf(),
        ensures
            final(self).wf(),
            final(self).results() == old(self).results(),
            final(self).completed_count() == old(self).completed_count(),
            final(self).ready() == old(self).ready(),
            final(self).total() == old(self).total(),
            !final(self).is_open(),
    {
        self.open = false;
        assert forall|k: int| 0 <= k < self.ready().len() implies #[trigger] self.ready()[k] < self.results().len()
            && self.results()[self.ready()[k] as int] is Some by {
            assert(old(self).ready()[k] < old(self).results().len());
            assert(old(self).results()[old(self).ready()[k] as int] is Some);
        }
        assert forall|i: int|
            0 <= i < self.results().len() && #[trigger] self.results()[i] is Some implies self.ready().contains(
                i as usize,
            ) by {
            assert(old(self).results()[i] is Some);
        }
    }

    /// Whether fetches can still be added to the batch.
    pub fn accepts_fetches(&self) -> (open: bool)
        ensures
            open == self.is_open(),
    {
        self.open
    }

    /// Whether the slot at `index` holds a result that was not handed out
    /// yet.
    pub fn holds_result(&self, index: usize) -> (held: bool)
        requires
            index < self.results().len(),
        ensures
            held == self.results()[index as int] is Some,
    {
        self.results[index].is_some()
    }

    /// The number of result slots.
    pub fn slots(&self) -> (count: usize)
        ensures
            count == self.results().len(),
    {
        self.results.len()
    }

    /// The number of fetches in the batch.
    pub fn total_count(&self) -> (count: usize)
        ensures
            count == self.total(),
    {
        self.total
    }

    /// How many fetches have finished.
    pub fn completed(&self) -> (count: usize)
        ensures
            count == self.completed_count(),
    {
        self.completed
    }
}

/// A drain keeps the number of slots and clears every slot whose position
/// is queued; when every filled slot is queued, nothing is left filled.
pub proof fn lemma_drain_clears<R>(results: Seq<Option<R>>, ready: Seq<usize>)
    requires
        results.len() <= usize::MAX,
        forall|k: int| 0 <= k < ready.len() ==> #[trigger] ready[k] < results.len(),
    ensures
        drain(results, ready).1.len() == results.len(),
        (forall|i: int| 0 <= i < results.len() && #[trigger] results[i] is Some ==> ready.contains(i as usize))
            ==> (forall|i: int| 0 <= i < results.len() ==> #[trigger] drain(results, ready).1[i] is None),
    decreases ready.len(),
{
    if ready.len() > 0 {
        let index = ready[0];
        assert(ready[0] < results.len());
        let rest = ready.drop_first();
        assert forall|k: int| 0 <= k < rest.len() implies #[trigger] rest[k] < results.len() by {
            assert(rest[k] == ready[k + 1]);
        }
        let cleared = results.update(index as int, None);
        lemma_drain_clears(cleared, rest);
        lemma_drain_clears(results, rest);
        if forall|i: int| 0 <= i < results.len() && #[trigger] results[i] is Some ==> ready.contains(i as usize) {
            assert forall|i: int| 0 <= i < cleared.len() && #[trigger] cleared[i] is Some implies rest.contains(
                i as usize,
            ) by {
                assert(cleared.len() == results.len());
                assert(i != index as int);
                assert(results[i] is Some);
                assert(ready.contains(i as usize));
                let k = choose|k: int| 0 <= k < ready.len() && ready[k] == i as usize;
                assert(k != 0);
                assert(rest[k - 1] == i as usize);
            }
            if results[index as int] is None {
                assert(cleared =~= results);
            }
        }
    }
}

/// What a drain hands out are original results, one per position at most,
/// and every filled slot whose position is queued is among them.
pub proof fn lemma_drain_hands_out_once<R>(results: Seq<Option<R>>, ready: Seq<usize>)
    requires
        results.len() <= usize::MAX,
        forall|k: int| 0 <= k < ready.len() ==> #[trigger] ready[k] < results.len(),
    ensures
        forall|k: int|
            0 <= k < drain(results, ready).0.len() ==> {
                let entry = #[trigger] drain(results, ready).0[k];
                &&& entry.0 < results.len()
                &&& results[entry.0 as int] == Some(entry.1)
            },
        forall|k1: int, k2: int|
            0 <= k1 < drain(results, ready).0.len() && 0 <= k2 < drain(results, ready).0.len()
                && #[trigger] drain(results, ready).0[k1].0 == #[trigger] drain(results, ready).0[k2].0
                ==> k1 == k2,
        forall|i: int|
            0 <= i < results.len() && #[trigger] results[i] is Some && ready.contains(i as usize)
                ==> exists|k: int| 0 <= k < drain(results, ready).0.len() && #[trigger] drain(results, ready).0[k].0 == i as usize,
    decreases ready.len(),
{
    if ready.len() > 0 {
        let index = ready[0];
        assert(ready[0] < results.len());
        let rest = ready.drop_first();
        assert forall|k: int| 0 <= k < rest.len() implies #[trigger] rest[k] < results.len() by {
            assert(rest[k] == ready[k + 1]);
        }
        let cleared = results.update(index as int, None);
        lemma_drain_hands_out_once(cleared, rest);
        lemma_drain_hands_out_once(results, rest);
        let out = drain(results, ready).0;
        match results[index as int] {
            Some(r) => {
                let tail = drain(cleared, rest).0;
                assert(out == seq![(index, r)] + tail);
                assert forall|k: int| 0 <= k < tail.len() implies (#[trigger] tail[k]).0 != index by {
                    assert(cleared[tail[k].0 as int] is Some);
                }
                assert forall|k: int| 0 <= k < out.len() implies {
                    let entry = #[trigger] out[k];
                    &&& entry.0 < results.len()
                    &&& results[entry.0 as int] == Some(entry.1)
                } by {
                    if k > 0 {
                        assert(out[k] == tail[k - 1]);
                        assert(tail[k - 1].0 != index);
                    }
                }
                assert forall|k1: int, k2: int|
                    0 <= k1 < out.len() && 0 <= k2 < out.len() && #[trigger] out[k1].0 == #[trigger] out[k2].0
                    implies k1 == k2 by {
                    if k1 > 0 {
                        assert(out[k1] == tail[k1 - 1]);
                        assert(tail[k1 - 1].0 != index);
                    }
                    if k2 > 0 {
                        assert(out[k2] == tail[k2 - 1]);
                        assert(tail[k2 - 1].0 != index);
                    }
                    if k1 > 0 && k2 > 0 {
                        assert(tail[k1 - 1].0 == tail[k2 - 1].0);
                    }
                }
                assert forall|i: int|
                    0 <= i < results.len() && #[trigger] results[i] is Some && ready.contains(i as usize)
                    implies exists|k: int| 0 <= k < out.len() && #[trigger] out[k].0 == i as usize by {
                    if i == index as int {
                        assert(out[0].0 == i as usize);
                    } else {
                        let j = choose|j: int| 0 <= j < ready.len() && ready[j] == i as usize;
                        assert(j != 0);
                        assert(rest[j - 1] == i as usize);
                        assert(cleared[i] is Some);
                        let k = choose|k: int| 0 <= k < tail.len() && #[trigger] tail[k].0 == i as usize;
                        assert(out[k + 1] == tail[k]);
                    }
                }
            },
            None => {
                assert(out == drain(results, rest).0);
                assert forall|i: int|
                    0 <= i < results.len() && #[trigger] results[i] is Some && ready.contains(i as usize)
                    implies exists|k: int| 0 <= k < out.len() && #[trigger] out[k].0 == i as usize by {
                    let j = choose|j: int| 0 <= j < ready.len() && ready[j] == i as usize;
                    assert(j != 0);
                    assert(rest[j - 1] == i as usize);
                }
            },
        }
    }
}

/// When the queued positions are distinct and each holds its result, a
/// drain hands out exactly one entry per queued position, in queue order.
pub proof fn lemma_drain_follows_ready<R>(results: Seq<Option<R>>, ready: Seq<usize>)
    requires
        ready.no_duplicates(),
        forall|k: int| 0 <= k < ready.len() ==> #[trigger] ready[k] < results.len() && results[ready[k] as int] is Some,
    ensures
        drain(results, ready).0.map_values(|entry: (usize, R)| entry.0) == ready,
    decreases ready.len(),
{
    if ready.len() > 0 {
        let index = ready[0];
        assert(ready[0] < results.len() && results[ready[0] as int] is Some);
        let rest = ready.drop_first();
        let cleared = results.update(index as int, None);
        assert(rest.no_duplicates()) by {
            assert forall|a: int, b: int| 0 <= a < rest.len() && 0 <= b < rest.len() && a != b implies rest[a] != rest[b] by {
                assert(rest[a] == ready[a + 1] && rest[b] == ready[b + 1]);
            }
        }
        assert forall|k: int| 0 <= k < rest.len() implies #[trigger] rest[k] < cleared.len() && cleared[rest[k] as int] is Some by {
            assert(rest[k] == ready[k + 1]);
            assert(ready[k + 1] != ready[0]);
        }
        lemma_drain_follows_ready(cleared, rest);
        let tail = drain(cleared, rest).0;
        assert(drain(results, ready).0 == seq![(index, results[index as int].unwrap())] + tail);
        assert(drain(results, ready).0.map_values(|entry: (usize, R)| entry.0) =~= seq![index]
            + tail.map_values(|entry: (usize, R)| entry.0));
        assert(ready =~= seq![index] + rest);
    } else {
        assert(drain(results, ready).0.map_values(|entry: (usize, R)| entry.0) =~= ready);
    }
}

/// Every arrived result is handed out exactly once: a call of
/// `ready_results` hands out one entry per queued position, in arrival
/// order, with the result its slot holds; that is each result recorded
/// since the previous call, exactly once, and nothing else; and it leaves
/// no result behind for a later call (which hands out only results recorded
/// after this one).
pub proof fn law_ready_results_hand_out_each_result_once<R>(state: FetchState<R>)
    requires
        state.wf(),
    ensures
        ({
            let (out, left) = drain(state.results(), state.ready());
            &&& out.map_values(|entry: (usize, R)| entry.0) == state.ready()
            &&& forall|i: int|
                0 <= i < state.results().len() && #[trigger] state.results()[i] is Some
                    ==> exists|k: int| 0 <= k < out.len() && #[trigger] out[k] == (i as usize, state.results()[i].unwrap())
            &&& forall|k: int|
                0 <= k < out.len() ==> (#[trigger] out[k]).0 < state.results().len()
                    && state.results()[out[k].0 as int] == Some(out[k].1)
            &&& forall|k1: int, k2: int|
                0 <= k1 < out.len() && 0 <= k2 < out.len() && #[trigger] out[k1].0 == #[trigger] out[k2].0 ==> k1 == k2
            &&& left.len() == state.results().len()
            &&& forall|i: int| 0 <= i < left.len() ==> #[trigger] left[i] is None
        }),
{
    lemma_drain_hands_out_once(state.results(), state.ready());
    lemma_drain_clears(state.results(), state.ready());
    lemma_drain_follows_ready(state.results(), state.ready());
    let out = drain(state.results(), state.ready()).0;
    assert forall|i: int|
        0 <= i < state.results().len() && #[trigger] state.results()[i] is Some
        implies exists|k: int| 0 <= k < out.len() && #[trigger] out[k] == (i as usize, state.results()[i].unwrap()) by {
        assert(state.ready().contains(i as usize));
        let k = choose|k: int| 0 <= k < out.len() && #[trigger] out[k].0 == i as usize;
        assert(out[k].0 < state.results().len());
        assert(out[k] == (i as usize, state.results()[i].unwrap()));
    }
}

/// The slots after `record` was called for each position of `order` in
/// turn, with the result `value(position)`.
pub open spec fn record_each<R>(results: Seq<Option<R>>, order: Seq<usize>, value: spec_fn(usize) -> R) -> Seq<
    Option<R>,
>
    decreases order.len(),
{
    if order.len() == 0 {
        results
    } else {
        record_each(results.update(order[0] as int, Some(value(order[0]))), order.drop_first(), value)
    }
}

/// After recording, a slot holds the result of its position when that
/// position was recorded, and is unchanged otherwise.
pub proof fn lemma_record_each<R>(results: Seq<Option<R>>, order: Seq<usize>, value: spec_fn(usize) -> R)
    requires
        results.len() <= usize::MAX,
        forall|k: int| 0 <= k < order.len() ==> #[trigger] order[k] < results.len(),
    ensures
        record_each(results, order, value).len() == results.len(),
        forall|i: int|
            0 <= i < results.len() ==> #[trigger] record_each(results, order, value)[i] == if order.contains(
                i as usize,
            ) {
                Some(value(i as usize))
            } else {
                results[i]
            },
    decreases order.len(),
{
    if order.len() > 0 {
        let first = order[0];
        assert(order[0] < results.len());
        let rest = order.drop_first();
        assert forall|k: int| 0 <= k < rest.len() implies #[trigger] rest[k] < results.len() by {
            assert(rest[k] == order[k + 1]);
        }
        let updated = results.update(first as int, Some(value(first)));
        lemma_record_each(updated, rest, value);
        assert forall|i: int| 0 <= i < results.len() implies #[trigger] record_each(results, order, value)[i]
            == if order.contains(i as usize) {
            Some(value(i as usize))
        } else {
            results[i]
        } by {
            if rest.contains(i as usize) {
                let k = choose|k: int| 0 <= k < rest.len() && rest[k] == i as usize;
                assert(order[k + 1] == i as usize);
            } else if i == first as int {
                assert(order[0] == i as usize);
            } else if order.contains(i as usize) {
                let k = choose|k: int| 0 <= k < order.len() && order[k] == i as usize;
                if k > 0 {
                    assert(rest[k - 1] == i as usize);
                }
            }
        }
    }
}

/// A batch's results come back in position order, whatever order the
/// fetches finish in: when every one of `total` positions of a fresh board
/// is recorded, in the order `order`, with the result `value(position)`,
/// every slot holds a result and taking them all (`collect`,
/// `try_results`) yields `value(0)`, `value(1)`, ..., in that order.
pub proof fn law_batch_results_in_position_order<R>(total: nat, order: Seq<usize>, value: spec_fn(usize) -> R)
    requires
        total <= usize::MAX,
        forall|k: int| 0 <= k < order.len() ==> #[trigger] order[k] < total,
        forall|i: usize| i < total ==> #[trigger] order.contains(i),
    ensures
        all_present(record_each(Seq::new(total, |i: int| None::<R>), order, value)),
        held(record_each(Seq::new(total, |i: int| None::<R>), order, value)) == Seq::new(
            total,
            |i: int| value(i as usize),
        ),
{
    let fresh = Seq::new(total, |i: int| None::<R>);
    lemma_record_each(fresh, order, value);
    let filled = record_each(fresh, order, value);
    assert forall|i: int| 0 <= i < filled.len() implies #[trigger] filled[i] == Some(value(i as usize)) by {
        assert(order.contains(i as usize));
    }
    lemma_held_all_present(filled);
    assert(unwrapped(filled) =~= Seq::new(total, |i: int| value(i as usize)));
}

/// One event on a board, as the lock lets them happen one at a time.
pub enum BoardEvent<R> {
    /// `record(position, result)`.
    Record(usize, R),
    /// `ready_results()`.
    Drain,
}

/// The slots, completed count and ready queue of a board.
pub type BoardModel<R> = (Seq<Option<R>>, nat, Seq<usize>);

/// The board after an event, and the positions the event hands out, as
/// `record` and `ready_results` state them.
pub open spec fn board_step<R>(board: BoardModel<R>, event: BoardEvent<R>) -> (BoardModel<R>, Seq<usize>) {
    match event {
        BoardEvent::Record(index, result) => (
            (board.0.update(index as int, Some(result)), board.1 + 1, board.2.push(index)),
            Seq::empty(),
        ),
        BoardEvent::Drain => {
            let (out, left) = drain(board.0, board.2);
            ((left, board.1, Seq::empty()), out.map_values(|entry: (usize, R)| entry.0))
        },
    }
}

/// The board after a history of events, and every position handed out, in
/// order.
pub open spec fn board_run<R>(board: BoardModel<R>, events: Seq<BoardEvent<R>>) -> (BoardModel<R>, Seq<usize>)
    decreases events.len(),
{
    if events.len() == 0 {
        (board, Seq::empty())
    } else {
        let (next, out) = board_step(board, events[0]);
        let rest = board_run(next, events.drop_first());
        (rest.0, out + rest.1)
    }
}

/// The positions a history of events records, in order.
pub open spec fn recorded_positions<R>(events: Seq<BoardEvent<R>>) -> Seq<usize>
    decreases events.len(),
{
    if events.len() == 0 {
        Seq::empty()
    } else {
        match events[0] {
            BoardEvent::Record(index, _) => seq![index] + recorded_positions(events.drop_first()),
            BoardEvent::Drain => recorded_positions(events.drop_first()),
        }
    }
}

/// What holds of a board of `n` slots after the positions `rec` were
/// recorded, once each, and the positions `handed` were handed out.
pub open spec fn history_inv<R>(board: BoardModel<R>, handed: Seq<usize>, rec: Seq<usize>, n: nat) -> bool {
    let (results, completed, ready) = board;
    &&& results.len() == n
    &&& n <= usize::MAX
    &&& forall|k: int| 0 <= k < ready.len() ==> #[trigger] ready[k] < n && results[ready[k] as int] is Some
    &&& ready.no_duplicates()
    &&& forall|i: int| 0 <= i < n && #[trigger] results[i] is Some ==> ready.contains(i as usize)
    &&& handed.no_duplicates()
    &&& rec.no_duplicates()
    &&& forall|k: int| 0 <= k < rec.len() ==> #[trigger] rec[k] < n
    &&& completed == rec.len()
    &&& forall|i: int|
        0 <= i < n && #[trigger] results[i] is Some ==> rec.contains(i as usize) && !handed.contains(i as usize)
    &&& forall|k: int| 0 <= k < handed.len() ==> rec.contains(#[trigger] handed[k])
    &&& forall|k: int|
        0 <= k < rec.len() ==> handed.contains(#[trigger] rec[k]) || results[rec[k] as int] is Some
}

/// The invariant is kept by every history that records each position at
/// most once.
pub proof fn lemma_board_run<R>(
    board: BoardModel<R>,
    events: Seq<BoardEvent<R>>,
    handed: Seq<usize>,
    rec: Seq<usize>,
    n: nat,
)
    requires
        history_inv(board, handed, rec, n),
        forall|k: int| 0 <= k < recorded_positions(events).len() ==> #[trigger] recorded_positions(events)[k] < n,
        (rec + recorded_positions(events)).no_duplicates(),
    ensures
        history_inv(
            board_run(board, events).0,
            handed + board_run(board, events).1,
            rec + recorded_positions(events),
            n,
        ),
    decreases events.len(),
{
    if events.len() == 0 {
        assert(handed + board_run(board, events).1 =~= handed);
        assert(rec + recorded_positions(events) =~= rec);
    } else {
        let rest = events.drop_first();
        let (next, out) = board_step(board, events[0]);
        let (results, completed, ready) = board;
        match events[0] {
            BoardEvent::Record(index, result) => {
                let rec2 = rec.push(index);
                assert(recorded_positions(events) == seq![index] + recorded_positions(rest));
                assert(rec + recorded_positions(events) =~= rec2 + recorded_positions(rest));
                assert(recorded_positions(events)[0] == index);
                assert(index < n);
                assert forall|k: int| 0 <= k < recorded_positions(rest).len() implies #[trigger] recorded_positions(
                    rest,
                )[k] < n by {
                    assert(recorded_positions(rest)[k] == recorded_positions(events)[k + 1]);
                }
                assert(!rec.contains(index)) by {
                    if rec.contains(index) {
                        let k = choose|k: int| 0 <= k < rec.len() && rec[k] == index;
                        let all = rec + recorded_positions(events);
                        assert(all[k] == index && all[rec.len() as int] == index);
                    }
                }
                assert(rec2.no_duplicates()) by {
                    let all = rec + recorded_positions(events);
                    assert forall|a: int, b: int| 0 <= a < rec2.len() && 0 <= b < rec2.len() && a != b implies rec2[a]
                        != rec2[b] by {
                        assert(rec2[a] == all[a] && rec2[b] == all[b]);
                    }
                }
                let results2 = results.update(index as int, Some(result));
                let ready2 = ready.push(index);
                assert(next == (results2, completed + 1, ready2));
                assert(out =~= Seq::<usize>::empty());
                assert forall|k: int| 0 <= k < ready2.len() implies #[trigger] ready2[k] < n by {
                    if k < ready.len() {
                        assert(ready2[k] == ready[k]);
                    }
                }
                assert forall|i: int| 0 <= i < n && #[trigger] results2[i] is Some implies ready2.contains(i as usize)
                    && rec2.contains(i as usize) && !handed.contains(i as usize) by {
                    if i == index as int {
                        assert(ready2[ready.len() as int] == index);
                        assert(rec2[rec.len() as int] == index);
                        if handed.contains(index) {
                            let k = choose|k: int| 0 <= k < handed.len() && handed[k] == index;
                            assert(rec.contains(handed[k]));
                        }
                    } else {
                        assert(results[i] is Some);
                        let k = choose|k: int| 0 <= k < ready.len() && ready[k] == i as usize;
                        assert(ready2[k] == i as usize);
                        let j = choose|j: int| 0 <= j < rec.len() && rec[j] == i as usize;
                        assert(rec2[j] == i as usize);
                    }
                }
                assert forall|k: int| 0 <= k < handed.len() implies rec2.contains(#[trigger] handed[k]) by {
                    let j = choose|j: int| 0 <= j < rec.len() && rec[j] == handed[k];
                    assert(rec2[j] == handed[k]);
                }
                assert forall|k: int| 0 <= k < rec2.len() implies handed.contains(#[trigger] rec2[k])
                    || results2[rec2[k] as int] is Some by {
                    if k < rec.len() {
                        assert(rec2[k] == rec[k]);
                        if !handed.contains(rec[k]) {
                            assert(results[rec[k] as int] is Some);
                        }
                    }
                }
                assert forall|k: int| 0 <= k < rec2.len() implies #[trigger] rec2[k] < n by {
                    if k < rec.len() {
                        assert(rec2[k] == rec[k]);
                    }
                }
                assert(history_inv(next, handed, rec2, n));
                lemma_board_run(next, rest, handed, rec2, n);
                assert(handed + board_run(board, events).1 =~= handed + board_run(next, rest).1);
            },
            BoardEvent::Drain => {
                assert(recorded_positions(events) == recorded_positions(rest));
                lemma_drain_hands_out_once(results, ready);
                lemma_drain_clears(results, ready);
                let entries = drain(results, ready).0;
                let left = drain(results, ready).1;
                let handed2 = handed + out;
                assert(out.len() == entries.len());
                assert forall|k: int| 0 <= k < out.len() implies #[trigger] out[k] == entries[k].0 by {}
                assert forall|k: int| 0 <= k < out.len() implies results[#[trigger] out[k] as int] is Some && rec.contains(
                    out[k],
                ) && !handed.contains(out[k]) by {
                    assert(out[k] == entries[k].0);
                    assert(entries[k].0 < results.len());
                }
                assert(out.no_duplicates()) by {
                    assert forall|a: int, b: int| 0 <= a < out.len() && 0 <= b < out.len() && a != b implies out[a]
                        != out[b] by {
                        assert(out[a] == entries[a].0 && out[b] == entries[b].0);
                    }
                }
                assert forall|a: int, b: int| 0 <= a < handed.len() && 0 <= b < out.len() implies handed[a] != out[b] by {
                    assert(!handed.contains(out[b]));
                }
                lemma_no_dup_in_concat(handed, out);
                assert forall|i: int| 0 <= i < n implies #[trigger] left[i] is None by {
                    assert forall|j: int| 0 <= j < results.len() && #[trigger] results[j] is Some implies ready.contains(
                        j as usize,
                    ) by {}
                }
                assert forall|k: int| 0 <= k < handed2.len() implies rec.contains(#[trigger] handed2[k]) by {
                    if k >= handed.len() {
                        assert(handed2[k] == out[k - handed.len()]);
                    }
                }
                assert forall|k: int| 0 <= k < rec.len() implies handed2.contains(#[trigger] rec[k])
                    || left[rec[k] as int] is Some by {
                    if handed.contains(rec[k]) {
                        let j = choose|j: int| 0 <= j < handed.len() && handed[j] == rec[k];
                        assert(handed2[j] == rec[k]);
                    } else {
                        let i = rec[k] as int;
                        assert(results[i] is Some);
                        assert(ready.contains(i as usize));
                        let j = choose|j: int| 0 <= j < entries.len() && #[trigger] entries[j].0 == i as usize;
                        assert(handed2[handed.len() + j] == out[j]);
                    }
                }
                assert(history_inv(next, handed2, rec, n));
                lemma_board_run(next, rest, handed2, rec, n);
                assert(handed + board_run(board, events).1 =~= handed2 + board_run(next, rest).1);
            },
        }
    }
}

/// Distinct positions below `n` number at most `n`, and exactly `n` only
/// when every position below `n` is among them.
pub proof fn lemma_distinct_positions(positions: Seq<usize>, n: nat)
    requires
        positions.no_duplicates(),
        forall|k: int| 0 <= k < positions.len() ==> #[trigger] positions[k] < n,
    ensures
        positions.len() <= n,
        positions.len() == n ==> forall|i: int| 0 <= i < n ==> #[trigger] positions.contains(i as usize),
{
    let as_int = |x: usize| x as int;
    let ints = positions.map_values(as_int);
    assert(injective(as_int));
    positions.lemma_no_duplicates_injective(as_int);
    ints.unique_seq_to_set();
    let range = set_int_range(0, n as int);
    lemma_int_range(0, n as int);
    assert(ints.to_set().subset_of(range)) by {
        assert forall|x: int| ints.to_set().contains(x) implies range.contains(x) by {
            let k = choose|k: int| 0 <= k < ints.len() && ints[k] == x;
            assert(positions[k] < n);
        }
    }
    lemma_len_subset(ints.to_set(), range);
    if positions.len() == n {
        lemma_subset_equality(ints.to_set(), range);
        assert forall|i: int| 0 <= i < n implies #[trigger] positions.contains(i as usize) by {
            assert(range.contains(i));
            assert(ints.to_set().contains(i));
            let k = choose|k: int| 0 <= k < ints.len() && ints[k] == i;
            assert(positions[k] == i as usize);
        }
    }
}

/// Across any history of records and drains on a fresh board of `total`
/// positions, as the lock orders them, in which each position is recorded
/// at most once (as in a batch, where each job carries its own position):
/// the completed count is the number of records and never exceeds `total`;
/// no position is handed out twice, over all drains together; only
/// recorded positions are handed out; every recorded position was handed
/// out or is still held; and once all `total` fetches have finished, every
/// position was handed out or is still held, so a last drain hands out all
/// the rest.
pub proof fn law_board_history<R>(total: nat, events: Seq<BoardEvent<R>>)
    requires
        total <= usize::MAX,
        recorded_positions(events).no_duplicates(),
        forall|k: int| 0 <= k < recorded_positions(events).len() ==> #[trigger] recorded_positions(events)[k] < total,
    ensures
        ({
            let (board, handed) = board_run((Seq::new(total, |i: int| None::<R>), 0nat, Seq::<usize>::empty()), events);
            let rec = recorded_positions(events);
            &&& board.1 == rec.len()
            &&& board.1 <= total
            &&& handed.no_duplicates()
            &&& forall|k: int| 0 <= k < handed.len() ==> rec.contains(#[trigger] handed[k])
            &&& forall|k: int| 0 <= k < rec.len() ==> handed.contains(#[trigger] rec[k]) || board.0[rec[k] as int] is Some
            &&& board.1 == total ==> forall|i: int|
                0 <= i < total ==> handed.contains(i as usize) || #[trigger] board.0[i] is Some
        }),
{
    let fresh: BoardModel<R> = (Seq::new(total, |i: int| None::<R>), 0nat, Seq::<usize>::empty());
    let rec = recorded_positions(events);
    assert(history_inv(fresh, Seq::<usize>::empty(), Seq::<usize>::empty(), total));
    assert(Seq::<usize>::empty() + rec =~= rec);
    lemma_board_run(fresh, events, Seq::<usize>::empty(), Seq::<usize>::empty(), total);
    let (board, handed) = board_run(fresh, events);
    assert(Seq::<usize>::empty() + handed =~= handed);
    lemma_distinct_positions(rec, total);
    if board.1 == total {
        assert forall|i: int| 0 <= i < total implies handed.contains(i as usize) || #[trigger] board.0[i] is Some by {
            assert(rec.contains(i as usize));
            let k = choose|k: int| 0 <= k < rec.len() && rec[k] == i as usize;
            assert(handed.contains(rec[k]) || board.0[rec[k] as int] is Some);
        }
    }
}

/// The completed count never goes down: over any history of records and
/// drains it only grows. As neither changes the total nor opens a closed
/// board, once `is_finished` holds it keeps holding.
pub proof fn law_completed_never_decreases<R>(board: BoardModel<R>, events: Seq<BoardEvent<R>>)
    ensures
        board_run(board, events).0.1 >= board.1,
    decreases events.len(),
{
    if events.len() > 0 {
        let next = board_step(board, events[0]).0;
        law_completed_never_decreases(next, events.drop_first());
    }
}

/// A board is finished exactly when it is closed and at least as many
/// fetches completed as the batch holds: while any fetch of a closed batch
/// is still running, it is not finished (so `try_results` gives `None` and
/// leaves the board as it is), and an open board is never finished.
pub proof fn law_finished_when_all_completed<R>(state: FetchState<R>)
    ensures
        !state.is_open() ==> (state.finished() <==> state.completed_count() >= state.total()),
        state.completed_count() < state.total() ==> !state.finished(),
        state.is_open() ==> !state.finished(),
{
}

} // verus!
