//! The reorder buffer.
//!
//! Results of jobs arrive in any order. The buffer holds those that came
//! early and releases the payloads in the order of their positions, without
//! a gap, from position 0 on. A failed job blocks the release at its
//! position for good.

use crate::error::PipelineError;
use std::collections::BTreeMap;
use vstd::assert_by_contradiction;
use vstd::prelude::*;
use vstd::relations::injective_on;
use vstd::set_lib::{lemma_int_range, lemma_len_subset, lemma_map_size, set_int_range};

verus! {

/// The result of one job, tagged with the position of the job.
#[derive(Debug, PartialEq, Eq)]
pub struct JobResult<T> {
    /// The position of the job.
    pub position: usize,
    /// The payload, or the reason why the job failed.
    pub outcome: Result<T, String>,
}

/// The state of a reorder buffer.
pub struct ReorderView<T> {
    /// The number of jobs.
    pub total: nat,
    /// The position whose payload is released next.
    pub next: nat,
    /// The outcomes that wait for an earlier position.
    pub pending: Map<usize, Result<T, String>>,
    /// Why the job at `next` failed, if it did.
    pub failure: Option<String>,
}

/// The payloads that are released from position `next` on: those of the
/// successful entries at `next`, `next + 1` and so on, up to the first
/// position without one.
pub open spec fn ready_run<T>(entries: Map<usize, Result<T, String>>, next: nat, total: nat) -> Seq<
    T,
>
    decreases total - next,
{
    if next < total && entries.contains_key(next as usize) && entries[next as usize] is Ok {
        seq![entries[next as usize]->Ok_0] + ready_run(entries, next + 1, total)
    } else {
        Seq::empty()
    }
}

impl<T> ReorderView<T> {
    /// The state of a buffer that has seen no result.
    pub open spec fn fresh(total: nat) -> ReorderView<T> {
        ReorderView { total, next: 0, pending: Map::empty(), failure: None }
    }

    /// The invariant: what is pending lies after the next position.
    pub open spec fn wf(self) -> bool {
        &&& self.next <= self.total <= usize::MAX
        &&& self.pending.dom().finite()
        &&& forall|k: usize| self.pending.contains_key(k) ==> self.next < k < self.total
        &&& self.failure is Some ==> self.next < self.total
    }

    /// Whether a result for `position` is new: the position is a job and no
    /// result for it has come yet.
    pub open spec fn admits(self, position: usize) -> bool {
        &&& self.next <= position < self.total
        &&& !self.pending.contains_key(position)
        &&& !(position == self.next && self.failure is Some)
    }

    /// The payloads that a new result releases.
    pub open spec fn released_by(self, position: usize, outcome: Result<T, String>) -> Seq<T> {
        if self.failure is Some {
            Seq::empty()
        } else {
            ready_run(self.pending.insert(position, outcome), self.next, self.total)
        }
    }

    /// The state after a new result.
    pub open spec fn after_accept(self, position: usize, outcome: Result<T, String>) -> ReorderView<
        T,
    > {
        let entries = self.pending.insert(position, outcome);
        if self.failure is Some {
            ReorderView { pending: entries, ..self }
        } else {
            let next = self.next + ready_run(entries, self.next, self.total).len();
            ReorderView {
                next,
                pending: entries.restrict(Set::new(|k: usize| k > next)),
                failure: if next < self.total && entries.contains_key(next as usize)
                    && entries[next as usize] is Err {
                    Some(entries[next as usize]->Err_0)
                } else {
                    None
                },
                ..self
            }
        }
    }

    /// What the state means while results are still to come.
    pub open spec fn verdict_so_far(self) -> Result<(), PipelineError> {
        match self.failure {
            Some(reason) => Err(PipelineError::Synthesis { position: self.next as usize, reason }),
            None => Ok(()),
        }
    }

    /// What the end of the results means for the run.
    pub open spec fn verdict(self) -> Result<(), PipelineError> {
        match self.failure {
            Some(reason) => Err(PipelineError::Synthesis { position: self.next as usize, reason }),
            None => if self.next == self.total {
                Ok(())
            } else {
                Err(PipelineError::MissingPosition { position: self.next as usize })
            },
        }
    }
}

/// Whether `item` is the payload of a successful entry at `position`.
pub open spec fn is_payload_at<T>(
    entries: Map<usize, Result<T, String>>,
    position: int,
    item: T,
) -> bool {
    &&& 0 <= position <= usize::MAX
    &&& entries.contains_key(position as usize)
    &&& entries[position as usize] == Ok::<T, String>(item)
}

/// A run of successful entries ends before `total`, at a position without a
/// successful entry, and holds the payloads of the entries before it.
pub proof fn lemma_ready_run<T>(entries: Map<usize, Result<T, String>>, next: nat, total: nat)
    requires
        next <= total <= usize::MAX,
    ensures
        next + ready_run(entries, next, total).len() <= total,
        forall|j: int|
            0 <= j < ready_run(entries, next, total).len() ==> is_payload_at(
                entries,
                next + j,
                #[trigger] ready_run(entries, next, total)[j],
            ),
        ({
            let end = next + ready_run(entries, next, total).len();
            end < total && entries.contains_key(end as usize) ==> entries[end as usize] is Err
        }),
    decreases total - next,
{
    if next < total && entries.contains_key(next as usize) && entries[next as usize] is Ok {
        lemma_ready_run(entries, next + 1, total);
        let rest = ready_run(entries, next + 1, total);
        let run = ready_run(entries, next, total);
        assert forall|j: int| 0 <= j < run.len() implies is_payload_at(
            entries,
            next + j,
            #[trigger] run[j],
        ) by {
            if j > 0 {
                assert(run[j] == rest[j - 1]);
                assert(is_payload_at(entries, next + 1 + (j - 1), rest[j - 1]));
            } else {
                assert(run[0] == entries[next as usize]->Ok_0);
            }
        }
    } else {
        assert(ready_run(entries, next, total).len() == 0);
    }
}

/// Bounded memory. What a buffer holds back lies after the next position
/// and before the end: there are fewer outcomes pending than jobs whose
/// turn has not come.
pub proof fn law_pending_bound<T>(state: ReorderView<T>)
    requires
        state.wf(),
    ensures
        state.pending.len() <= state.total - state.next,
        state.next < state.total ==> state.pending.len() < state.total - state.next,
{
    let keys = state.pending.dom();
    let as_int = |k: usize| k as int;
    let image = keys.map(as_int);
    assert(injective_on(as_int, keys));
    lemma_map_size(keys, image, as_int);
    if state.next < state.total {
        let range = set_int_range(state.next as int + 1, state.total as int);
        lemma_int_range(state.next as int + 1, state.total as int);
        assert forall|i: int| image.contains(i) implies range.contains(i) by {
            let k = choose|k: usize| keys.contains(k) && as_int(k) == i;
            assert(state.pending.contains_key(k));
        }
        lemma_len_subset(image, range);
    } else {
        assert(keys =~= Set::<usize>::empty()) by {
            assert forall|k: usize| !keys.contains(k) by {
                if keys.contains(k) {
                    assert(state.pending.contains_key(k));
                }
            }
        }
    }
}

/// Puts the results of jobs back into the order of their positions.
pub struct ReorderBuffer<T> {
    total: usize,
    next_expected: usize,
    pending: BTreeMap<usize, Result<T, String>>,
    failure: Option<String>,
}

impl<T> View for ReorderBuffer<T> {
    type V = ReorderView<T>;

    closed spec fn view(&self) -> ReorderView<T> {
        ReorderView {
            total: self.total as nat,
            next: self.next_expected as nat,
            pending: self.pending@,
            failure: self.failure,
        }
    }
}

impl<T> ReorderBuffer<T> {
    /// The invariant of the buffer.
    pub open spec fn wf(&self) -> bool {
        self@.wf()
    }

    /// A buffer for the results of `total` jobs, at positions from 0 on.
    pub fn new(total: usize) -> (buffer: Self)
        ensures
            buffer.wf(),
            buffer@ == ReorderView::<T>::fresh(total as nat),
    {
        ReorderBuffer { total, next_expected: 0, pending: BTreeMap::new(), failure: None }
    }

    /// The position whose payload is released next.
    pub fn next_expected(&self) -> (next: usize)
        ensures
            next == self@.next,
    {
        self.next_expected
    }

    /// How many outcomes wait for an earlier position.
    pub fn pending_len(&self) -> (n: usize)
        requires
            self.wf(),
        ensures
            n == self@.pending.len(),
    {
        self.pending.len()
    }

    /// Takes the result of the job at `position` and appends to `ready` the
    /// payloads that can be released now, in the order of their positions.
    ///
    /// A result for a position that is no job, or for which a result has
    /// come before, is turned down and nothing changes. Once the job at the
    /// next position is known to have failed, nothing is released any more
    /// and every call reports that failure.
    pub fn accept(&mut self, position: usize, outcome: Result<T, String>, ready: &mut Vec<T>) -> (r:
        Result<(), PipelineError>)
        requires
            old(self).wf(),
        ensures
            final(self).wf(),
            position >= old(self)@.total ==> {
                &&& r == Err::<(), PipelineError>(PipelineError::UnknownPosition { position })
                &&& final(self)@ == old(self)@
                &&& final(ready)@ == old(ready)@
            },
            position < old(self)@.total && !old(self)@.admits(position) ==> {
                &&& r == Err::<(), PipelineError>(PipelineError::DuplicatePosition { position })
                &&& final(self)@ == old(self)@
                &&& final(ready)@ == old(ready)@
            },
            old(self)@.admits(position) ==> {
                &&& final(self)@ == old(self)@.after_accept(position, outcome)
                &&& final(ready)@ == old(ready)@ + old(self)@.released_by(position, outcome)
                &&& r == final(self)@.verdict_so_far()
            },
    {
        if position >= self.total {
            return Err(PipelineError::UnknownPosition { position });
        }
        if position < self.next_expected || (position == self.next_expected
            && self.failure.is_some()) || self.pending.contains_key(&position) {
            return Err(PipelineError::DuplicatePosition { position });
        }
        let ghost start = self@;
        let ghost entries = start.pending.insert(position, outcome);
        let ghost before = ready@;
        self.pending.insert(position, outcome);
        match &self.failure {
            Some(reason) => {
                assert(before + Seq::<T>::empty() =~= before);
                return Err(
                    PipelineError::Synthesis {
                        position: self.next_expected,
                        reason: reason.clone(),
                    },
                );
            },
            None => {},
        }
        proof {
            lemma_ready_run(entries, start.next, start.total);
            assert(before + Seq::<T>::empty() =~= before);
            assert(self.pending@ =~= entries.restrict(Set::new(|k: usize| k >= start.next)));
        }
        let ghost run = ready_run(entries, start.next, start.total);
        let ghost mut taken: Seq<T> = Seq::empty();
        loop
            invariant
                start == old(self)@,
                before == old(ready)@,
                self.total == start.total,
                self.failure is None,
                start.wf(),
                start.failure is None,
                start.admits(position),
                entries == start.pending.insert(position, outcome),
                run == ready_run(entries, start.next, start.total),
                start.next <= self.next_expected <= self.total,
                self.next_expected == start.next + taken.len(),
                run == taken + ready_run(entries, self.next_expected as nat, start.total),
                ready@ == before + taken,
                self.pending@ == entries.restrict(Set::new(|k: usize| k >= self.next_expected)),
                self.pending@.dom().finite(),
            decreases self.total - self.next_expected,
        {
            let ghost at = self.next_expected;
            match self.pending.remove(&self.next_expected) {
                None => {
                    proof {
                        assert(!entries.contains_key(at));
                        assert(ready_run(entries, at as nat, start.total) =~= Seq::<T>::empty());
                        assert(run =~= taken);
                        assert(self.pending@ =~= entries.restrict(Set::new(|k: usize| k > at)));
                    }
                    return Ok(());
                },
                Some(Ok(item)) => {
                    proof {
                        assert(entries.contains_key(at));
                        assert(entries[at] == Ok::<T, String>(item));
                        let rest = ready_run(entries, (at + 1) as nat, start.total);
                        assert(taken + (seq![item] + rest) =~= taken.push(item) + rest);
                        taken = taken.push(item);
                    }
                    ready.push(item);
                    self.next_expected = self.next_expected + 1;
                    proof {
                        assert(self.pending@ =~= entries.restrict(
                            Set::new(|k: usize| k >= self.next_expected),
                        ));
                    }
                },
                Some(Err(reason)) => {
                    proof {
                        assert(entries.contains_key(at));
                        assert(entries[at] == Err::<T, String>(reason));
                        assert(ready_run(entries, at as nat, start.total) =~= Seq::<T>::empty());
                        assert(run =~= taken);
                        assert(self.pending@ =~= entries.restrict(Set::new(|k: usize| k > at)));
                    }
                    self.failure = Some(reason.clone());
                    return Err(PipelineError::Synthesis { position: self.next_expected, reason });
                },
            }
        }
    }

    /// What the end of the results means for the run: success when every
    /// payload has been released, the failure of the job that blocks the
    /// release, or else the position for which no result came.
    pub fn finish(&self) -> (r: Result<(), PipelineError>)
        requires
            self.wf(),
        ensures
            r == self@.verdict(),
    {
        match &self.failure {
            Some(reason) => Err(
                PipelineError::Synthesis { position: self.next_expected, reason: reason.clone() },
            ),
            None => if self.next_expected == self.total {
                Ok(())
            } else {
                Err(PipelineError::MissingPosition { position: self.next_expected })
            },
        }
    }
}

/// The state of a buffer after it has been offered the results in turn,
/// and the payloads that it has released, in the order of their release. A
/// result that the buffer turns down changes nothing.
pub open spec fn after_results<T>(start: ReorderView<T>, arrivals: Seq<JobResult<T>>) -> (
    ReorderView<T>,
    Seq<T>,
)
    decreases arrivals.len(),
{
    if arrivals.len() == 0 {
        (start, Seq::empty())
    } else {
        let (state, released) = after_results(start, arrivals.drop_last());
        let last = arrivals.last();
        if state.admits(last.position) {
            (
                state.after_accept(last.position, last.outcome),
                released + state.released_by(last.position, last.outcome),
            )
        } else {
            (state, released)
        }
    }
}

/// Whether one of the results is `outcome` for the job at `position`.
pub open spec fn delivered<T>(
    arrivals: Seq<JobResult<T>>,
    position: int,
    outcome: Result<T, String>,
) -> bool {
    exists|i: int|
        0 <= i < arrivals.len() && (#[trigger] arrivals[i]).position == position
            && arrivals[i].outcome == outcome
}

/// Whether each result is for one of `total` jobs and no job has two.
pub open spec fn one_result_each<T>(total: nat, arrivals: Seq<JobResult<T>>) -> bool {
    &&& forall|i: int| 0 <= i < arrivals.len() ==> (#[trigger] arrivals[i]).position < total
    &&& forall|i: int, j: int|
        0 <= i < j < arrivals.len() ==> (#[trigger] arrivals[i]).position != (
        #[trigger] arrivals[j]).position
}

/// Whether one of the results is for the job at `position`.
pub open spec fn reported<T>(arrivals: Seq<JobResult<T>>, position: int) -> bool {
    exists|i: int| 0 <= i < arrivals.len() && (#[trigger] arrivals[i]).position == position
}

/// Whether a result has come for every one of `total` jobs.
pub open spec fn every_job_reported<T>(total: nat, arrivals: Seq<JobResult<T>>) -> bool {
    forall|p: int| 0 <= p < total ==> #[trigger] reported(arrivals, p)
}

/// Whether `item` is the payload that the results hold for `position`.
pub open spec fn is_payload_of<T>(arrivals: Seq<JobResult<T>>, position: int, item: T) -> bool {
    delivered(arrivals, position, Ok::<T, String>(item))
}

/// What a state and the payloads released so far have to do with the
/// results taken: the payloads are those of the positions before the next,
/// in order; what is pending or blocks the release came as a result; and
/// every result is released, pending, or the failure that blocks.
pub open spec fn accounts_for<T>(
    state: ReorderView<T>,
    released: Seq<T>,
    arrivals: Seq<JobResult<T>>,
) -> bool {
    &&& state.wf()
    &&& released.len() == state.next
    &&& forall|p: int|
        0 <= p < released.len() ==> is_payload_of(arrivals, p, #[trigger] released[p])
    &&& forall|k: usize| #[trigger]
        state.pending.contains_key(k) ==> delivered(arrivals, k as int, state.pending[k])
    &&& forall|i: int|
        0 <= i < arrivals.len() ==> is_accounted(state, (#[trigger] arrivals[i]).position)
    &&& match state.failure {
        Some(reason) => delivered(arrivals, state.next as int, Err::<T, String>(reason)),
        None => true,
    }
}

/// Whether the result for `position` has been released, is pending, or is
/// the failure that blocks the release.
pub open spec fn is_accounted<T>(state: ReorderView<T>, position: usize) -> bool {
    ||| position < state.next
    ||| state.pending.contains_key(position)
    ||| (state.failure is Some && position == state.next)
}

/// A result among some results is among them and one more.
proof fn lemma_delivered_grows<T>(
    arrivals: Seq<JobResult<T>>,
    position: int,
    outcome: Result<T, String>,
)
    requires
        arrivals.len() > 0,
        delivered(arrivals.drop_last(), position, outcome),
    ensures
        delivered(arrivals, position, outcome),
{
    let i = choose|i: int|
        0 <= i < arrivals.drop_last().len() && (#[trigger] arrivals.drop_last()[i]).position
            == position && arrivals.drop_last()[i].outcome == outcome;
    assert(arrivals[i] == arrivals.drop_last()[i]);
}

/// The invariant of a run: while each result is for a job and no job has
/// two, the buffer turns none down and accounts for all of them.
pub proof fn lemma_accounts_for<T>(total: nat, arrivals: Seq<JobResult<T>>)
    requires
        total <= usize::MAX,
        one_result_each(total, arrivals),
    ensures
        accounts_for(
            after_results(ReorderView::<T>::fresh(total), arrivals).0,
            after_results(ReorderView::<T>::fresh(total), arrivals).1,
            arrivals,
        ),
        after_results(ReorderView::<T>::fresh(total), arrivals).0.total == total,
    decreases arrivals.len(),
{
    let fresh = ReorderView::<T>::fresh(total);
    if arrivals.len() == 0 {
        return ;
    }
    let earlier = arrivals.drop_last();
    let last = arrivals.last();
    let at = (arrivals.len() - 1) as int;
    assert forall|i: int| 0 <= i < earlier.len() implies earlier[i] == arrivals[i] by {}
    assert(one_result_each(total, earlier)) by {
        assert forall|i: int, j: int| 0 <= i < j < earlier.len() implies (
        #[trigger] earlier[i]).position != (#[trigger] earlier[j]).position by {
            assert(arrivals[i].position != arrivals[j].position);
        }
        assert forall|i: int| 0 <= i < earlier.len() implies (#[trigger] earlier[i]).position
            < total by {
            assert(arrivals[i].position < total);
        }
    }
    lemma_accounts_for(total, earlier);
    let (state, released) = after_results(fresh, earlier);
    let position = last.position;
    let outcome = last.outcome;
    assert(arrivals[at].position == position);
    // No earlier result is for this position.
    assert forall|o: Result<T, String>| !delivered(earlier, position as int, o) by {
        if delivered(earlier, position as int, o) {
            let i = choose|i: int|
                0 <= i < earlier.len() && (#[trigger] earlier[i]).position == position
                    && earlier[i].outcome == o;
            assert(arrivals[i].position != arrivals[at].position);
        }
    }
    assert(state.admits(position)) by {
        if position < state.next {
            assert(is_payload_of(earlier, position as int, released[position as int]));
        }
        if state.pending.contains_key(position) {
            assert(delivered(earlier, position as int, state.pending[position]));
        }
    }
    let entries = state.pending.insert(position, outcome);
    let after = state.after_accept(position, outcome);
    let all = released + state.released_by(position, outcome);
    assert(after_results(fresh, arrivals) == (after, all));
    // Every entry came as a result.
    assert forall|k: usize| #[trigger] entries.contains_key(k) implies delivered(
        arrivals,
        k as int,
        entries[k],
    ) by {
        if k == position {
            assert(arrivals[at].outcome == outcome);
        } else {
            lemma_delivered_grows(arrivals, k as int, state.pending[k]);
        }
    }
    assert forall|p: int| 0 <= p < released.len() implies is_payload_of(
        arrivals,
        p,
        #[trigger] released[p],
    ) by {
        lemma_delivered_grows(arrivals, p, Ok::<T, String>(released[p]));
    }
    if state.failure is Some {
        assert(all =~= released);
        assert(after.pending.dom().finite());
        lemma_delivered_grows(
            arrivals,
            state.next as int,
            Err::<T, String>(state.failure->Some_0),
        );
        assert forall|i: int| 0 <= i < arrivals.len() implies is_accounted(
            after,
            (#[trigger] arrivals[i]).position,
        ) by {
            if i < at {
                assert(is_accounted(state, earlier[i].position));
            }
        }
    } else {
        let run = ready_run(entries, state.next, state.total);
        lemma_ready_run(entries, state.next, state.total);
        let end = state.next + run.len();
        assert(after.pending.dom() =~= entries.dom().intersect(Set::new(|k: usize| k > end)));
        assert forall|p: int| 0 <= p < all.len() implies is_payload_of(
            arrivals,
            p,
            #[trigger] all[p],
        ) by {
            if p >= released.len() {
                let j = p - released.len();
                assert(all[p] == run[j]);
                assert(is_payload_at(entries, state.next + j, run[j]));
                assert(entries.contains_key(p as usize));
            } else {
                assert(all[p] == released[p]);
            }
        }
        assert forall|i: int| 0 <= i < arrivals.len() implies is_accounted(
            after,
            (#[trigger] arrivals[i]).position,
        ) by {
            let q = arrivals[i].position;
            if i < at {
                assert(is_accounted(state, earlier[i].position));
            }
            if q >= state.next {
                assert(entries.contains_key(q));
            }
        }
    }
}

/// Order preservation. Whatever the order in which the results come, when
/// there is one for each job and every job has succeeded, the payloads are
/// released in the order of the positions: the payload of job 0 first, then
/// that of job 1, and so on to the last, and the run ends well.
pub proof fn law_release_order<T>(total: nat, arrivals: Seq<JobResult<T>>)
    requires
        total <= usize::MAX,
        one_result_each(total, arrivals),
        every_job_reported(total, arrivals),
        forall|i: int| 0 <= i < arrivals.len() ==> (#[trigger] arrivals[i]).outcome is Ok,
    ensures
        ({
            let (state, released) = after_results(ReorderView::<T>::fresh(total), arrivals);
            &&& released.len() == total
            &&& forall|p: int|
                0 <= p < total ==> is_payload_of(arrivals, p, #[trigger] released[p])
            &&& state.pending == Map::<usize, Result<T, String>>::empty()
            &&& state.verdict() == Ok::<(), PipelineError>(())
        }),
{
    lemma_accounts_for(total, arrivals);
    let (state, released) = after_results(ReorderView::<T>::fresh(total), arrivals);
    if state.failure is Some {
        let reason = state.failure->Some_0;
        let i = choose|i: int|
            0 <= i < arrivals.len() && (#[trigger] arrivals[i]).position == state.next as int
                && arrivals[i].outcome == Err::<T, String>(reason);
        assert(arrivals[i].outcome is Ok);
    }
    if state.next < total {
        assert(reported(arrivals, state.next as int));
        let i = choose|i: int|
            0 <= i < arrivals.len() && (#[trigger] arrivals[i]).position == state.next as int;
        assert(is_accounted(state, arrivals[i].position));
    }
    assert(state.pending =~= Map::<usize, Result<T, String>>::empty());
}

/// Failure propagation. Whatever the order in which the results come, when
/// there is one for each job and the job at `failed` is the first that has
/// failed, the payloads of the jobs before it are released in the order of
/// their positions, nothing of that job or a later one is, and the run ends
/// with the failure of that job.
pub proof fn law_first_failure<T>(
    total: nat,
    arrivals: Seq<JobResult<T>>,
    failed: nat,
    reason: String,
)
    requires
        total <= usize::MAX,
        one_result_each(total, arrivals),
        every_job_reported(total, arrivals),
        failed < total,
        delivered(arrivals, failed as int, Err::<T, String>(reason)),
        forall|i: int|
            0 <= i < arrivals.len() && (#[trigger] arrivals[i]).position < failed
                ==> arrivals[i].outcome is Ok,
    ensures
        ({
            let (state, released) = after_results(ReorderView::<T>::fresh(total), arrivals);
            &&& released.len() == failed
            &&& forall|p: int|
                0 <= p < failed ==> is_payload_of(arrivals, p, #[trigger] released[p])
            &&& state.verdict() == Err::<(), PipelineError>(
                PipelineError::Synthesis { position: failed as usize, reason },
            )
        }),
{
    lemma_accounts_for(total, arrivals);
    let (state, released) = after_results(ReorderView::<T>::fresh(total), arrivals);
    let f = choose|i: int|
        0 <= i < arrivals.len() && (#[trigger] arrivals[i]).position == failed as int
            && arrivals[i].outcome == Err::<T, String>(reason);
    // The release cannot have passed the failed job.
    assert_by_contradiction!(state.next <= failed, {
        assert(is_payload_of(arrivals, failed as int, released[failed as int]));
        let i = choose|i: int|
            0 <= i < arrivals.len() && (#[trigger] arrivals[i]).position == failed as int
                && arrivals[i].outcome == Ok::<T, String>(released[failed as int]);
        if i < f {
            assert(arrivals[i].position != arrivals[f].position);
        } else if f < i {
            assert(arrivals[f].position != arrivals[i].position);
        }
    });
    // Nor can it have stopped before it.
    assert_by_contradiction!(state.next >= failed, {
        assert(reported(arrivals, state.next as int));
        let i = choose|i: int|
            0 <= i < arrivals.len() && (#[trigger] arrivals[i]).position == state.next as int;
        assert(is_accounted(state, arrivals[i].position));
        assert(arrivals[i].outcome is Ok);
        let blocking = state.failure->Some_0;
        let j = choose|j: int|
            0 <= j < arrivals.len() && (#[trigger] arrivals[j]).position == state.next as int
                && arrivals[j].outcome == Err::<T, String>(blocking);
        if i < j {
            assert(arrivals[i].position != arrivals[j].position);
        } else if j < i {
            assert(arrivals[j].position != arrivals[i].position);
        }
    });
    assert(is_accounted(state, arrivals[f].position));
    let blocking = state.failure->Some_0;
    let j = choose|j: int|
        0 <= j < arrivals.len() && (#[trigger] arrivals[j]).position == state.next as int
            && arrivals[j].outcome == Err::<T, String>(blocking);
    if f < j {
        assert(arrivals[f].position != arrivals[j].position);
    } else if j < f {
        assert(arrivals[j].position != arrivals[f].position);
    }
}

} // verus!
