//! The dispatcher.
//!
//! It decides which job may start and keeps the number of jobs that run at
//! the same time within a limit. The caller runs the jobs: it starts the
//! job that `start_next` names, and reports each job that has ended to
//! `complete`, which hands back the result tagged with its position.

use crate::error::{ConfigError, PipelineError};
use crate::reorder::{every_job_reported, one_result_each, reported, JobResult};
use vstd::prelude::*;

verus! {

/// The state of a dispatcher.
pub struct DispatchView {
    /// The number of jobs.
    pub total: nat,
    /// How many jobs may run at the same time.
    pub limit: nat,
    /// How many jobs have been started: those at the positions below.
    pub admitted: nat,
    /// The positions of the jobs that run.
    pub running: Set<usize>,
}

impl DispatchView {
    /// The invariant: the jobs that run have been started, and they are no
    /// more than the limit allows.
    pub open spec fn wf(self) -> bool {
        &&& 1 <= self.limit
        &&& self.admitted <= self.total <= usize::MAX
        &&& self.running.finite()
        &&& self.running.len() <= self.limit
        &&& forall|p: usize| self.running.contains(p) ==> p < self.admitted
    }

    /// Whether another job may start now.
    pub open spec fn has_slot(self) -> bool {
        self.admitted < self.total && self.running.len() < self.limit
    }

    /// How many jobs have ended.
    pub open spec fn completed(self) -> int {
        self.admitted - self.running.len()
    }

    /// Whether every job has been started and has ended.
    pub open spec fn drained(self) -> bool {
        self.admitted == self.total && self.running.len() == 0
    }

    /// The state of a dispatcher that has started no job.
    pub open spec fn fresh(total: nat, limit: nat) -> DispatchView {
        DispatchView { total, limit, admitted: 0, running: Set::empty() }
    }

    /// The state after the next job has started, if one could.
    pub open spec fn after_start(self) -> DispatchView {
        if self.has_slot() {
            DispatchView {
                admitted: self.admitted + 1,
                running: self.running.insert(self.admitted as usize),
                ..self
            }
        } else {
            self
        }
    }

    /// The state after the job at `position` has ended, if it was running.
    pub open spec fn after_complete(self, position: usize) -> DispatchView {
        if self.running.contains(position) {
            DispatchView { running: self.running.remove(position), ..self }
        } else {
            self
        }
    }
}

/// What happens to a dispatcher: it is asked to start the next job, or it
/// is told that a job has ended.
pub enum DispatchEvent<T> {
    Start,
    End { position: usize, outcome: Result<T, String> },
}

/// The state of a dispatcher after the events, and the results that it has
/// handed back, in their order. The end of a job that is not running hands
/// back no result.
pub open spec fn after_events<T>(start: DispatchView, events: Seq<DispatchEvent<T>>) -> (
    DispatchView,
    Seq<JobResult<T>>,
)
    decreases events.len(),
{
    if events.len() == 0 {
        (start, Seq::empty())
    } else {
        let (state, emitted) = after_events(start, events.drop_last());
        match events.last() {
            DispatchEvent::Start => (state.after_start(), emitted),
            DispatchEvent::End { position, outcome } => if state.running.contains(position) {
                (state.after_complete(position), emitted.push(JobResult { position, outcome }))
            } else {
                (state, emitted)
            },
        }
    }
}

/// What the results handed back have to do with the state: they are those
/// of the jobs that have started and run no more, one for each.
pub open spec fn results_match<T>(state: DispatchView, emitted: Seq<JobResult<T>>) -> bool {
    &&& state.wf()
    &&& one_result_each(state.total, emitted)
    &&& emitted.len() == state.completed()
    &&& forall|i: int|
        0 <= i < emitted.len() ==> (#[trigger] emitted[i]).position < state.admitted
            && !state.running.contains(emitted[i].position)
    &&& forall|p: int|
        0 <= p < state.admitted && !state.running.contains(p as usize) ==> #[trigger] reported(
            emitted,
            p,
        )
}

/// Every job runs once. Whatever the order of events, no more jobs run at a
/// time than the limit allows, each result that the dispatcher hands back
/// is that of a job of its own that has ended, no job has two, and once
/// every job has been started and none runs there is a result for each.
pub proof fn law_each_job_once<T>(total: nat, limit: nat, events: Seq<DispatchEvent<T>>)
    requires
        1 <= limit,
        total <= usize::MAX,
    ensures
        ({
            let (state, emitted) = after_events(DispatchView::fresh(total, limit), events);
            &&& state.total == total
            &&& state.limit == limit
            &&& results_match(state, emitted)
            &&& state.drained() ==> every_job_reported(total, emitted)
        }),
    decreases events.len(),
{
    let fresh = DispatchView::fresh(total, limit);
    if events.len() == 0 {
        return ;
    }
    law_each_job_once(total, limit, events.drop_last());
    let (state, emitted) = after_events(fresh, events.drop_last());
    let (after, all) = after_events(fresh, events);
    match events.last() {
        DispatchEvent::Start => {
            if state.has_slot() {
                let new = state.admitted as usize;
                assert(!state.running.contains(new));
                assert forall|p: int|
                    0 <= p < after.admitted && !after.running.contains(
                        p as usize,
                    ) implies #[trigger] reported(all, p) by {
                    assert(p != new);
                    assert(!state.running.contains(p as usize));
                }
            }
        },
        DispatchEvent::End { position, outcome } => {
            if state.running.contains(position) {
                let result = JobResult { position, outcome };
                let at = emitted.len() as int;
                assert(all[at] == result);
                assert forall|i: int| 0 <= i < all.len() implies (#[trigger] all[i]).position
                    < after.admitted && !after.running.contains(all[i].position) by {
                    if i < at {
                        assert(all[i] == emitted[i]);
                    }
                }
                assert forall|i: int, j: int| 0 <= i < j < all.len() implies (
                #[trigger] all[i]).position != (#[trigger] all[j]).position by {
                    assert(all[i] == emitted[i]);
                    if j < at {
                        assert(all[j] == emitted[j]);
                    }
                }
                assert forall|i: int| 0 <= i < all.len() implies (#[trigger] all[i]).position
                    < after.total by {
                    if i < at {
                        assert(all[i] == emitted[i]);
                    }
                }
                assert forall|p: int|
                    0 <= p < after.admitted && !after.running.contains(
                        p as usize,
                    ) implies #[trigger] reported(all, p) by {
                    if p == position {
                        assert(all[at].position == p);
                    } else {
                        assert(reported(emitted, p));
                        let i = choose|i: int|
                            0 <= i < emitted.len() && (#[trigger] emitted[i]).position == p;
                        assert(all[i] == emitted[i]);
                    }
                }
            }
        },
    }
    if after.drained() {
        assert(after.running =~= Set::<usize>::empty());
    }
}


/// Starts jobs in the order of their positions, under a limit on how many
/// run at the same time.
pub struct Dispatcher {
    total: usize,
    limit: usize,
    admitted: usize,
    in_flight: usize,
    running: Vec<bool>,
    positions: Ghost<Set<usize>>,
}

impl View for Dispatcher {
    type V = DispatchView;

    closed spec fn view(&self) -> DispatchView {
        DispatchView {
            total: self.total as nat,
            limit: self.limit as nat,
            admitted: self.admitted as nat,
            running: self.positions@,
        }
    }
}

impl Dispatcher {
    /// The invariant of the dispatcher: that of its state, and that its
    /// counters and flags say what the state says.
    pub open spec fn wf(&self) -> bool {
        self@.wf() && self.agrees()
    }

    /// Whether the count of running jobs and the flags of the started jobs
    /// say which jobs run.
    pub closed spec fn agrees(&self) -> bool {
        &&& self.in_flight == self.positions@.len()
        &&& self.running@.len() == self.admitted
        &&& forall|p: usize|
            p < self.admitted ==> (#[trigger] self.running@[p as int] <==> self.positions@.contains(p))
    }

    /// A dispatcher for `total` jobs of which at most `limit` run at the
    /// same time. A limit of zero is turned down.
    pub fn new(total: usize, limit: usize) -> (r: Result<Dispatcher, ConfigError>)
        ensures
            limit == 0 ==> r == Err::<Dispatcher, ConfigError>(ConfigError::NoConcurrency),
            limit > 0 ==> r is Ok && r->Ok_0.wf() && r->Ok_0@ == DispatchView::fresh(
                total as nat,
                limit as nat,
            ),
    {
        if limit == 0 {
            return Err(ConfigError::NoConcurrency);
        }
        Ok(
            Dispatcher {
                total,
                limit,
                admitted: 0,
                in_flight: 0,
                running: Vec::new(),
                positions: Ghost(Set::empty()),
            },
        )
    }

    /// Starts the next job if one is left and the limit allows it, and
    /// names its position: jobs start in the order of their positions, each
    /// once.
    pub fn start_next(&mut self) -> (started: Option<usize>)
        requires
            old(self).wf(),
        ensures
            final(self).wf(),
            final(self)@ == old(self)@.after_start(),
            started == if old(self)@.has_slot() {
                Some(old(self)@.admitted as usize)
            } else {
                None
            },
    {
        if self.admitted < self.total && self.in_flight < self.limit {
            let position = self.admitted;
            self.running.push(true);
            self.admitted = self.admitted + 1;
            self.in_flight = self.in_flight + 1;
            proof {
                self.positions = Ghost(self.positions@.insert(position));
            }
            Some(position)
        } else {
            None
        }
    }

    /// Takes note that the job at `position` has ended, which frees its
    /// slot, and tags the outcome with the position.
    ///
    /// A position that is no job, or whose job is not running, is turned
    /// down and nothing changes.
    pub fn complete<T>(&mut self, position: usize, outcome: Result<T, String>) -> (r: Result<
        JobResult<T>,
        PipelineError,
    >)
        requires
            old(self).wf(),
        ensures
            final(self).wf(),
            final(self)@ == old(self)@.after_complete(position),
            r == if old(self)@.running.contains(position) {
                Ok::<JobResult<T>, PipelineError>(JobResult { position, outcome })
            } else if position >= old(self)@.total {
                Err::<JobResult<T>, PipelineError>(PipelineError::UnknownPosition { position })
            } else {
                Err::<JobResult<T>, PipelineError>(PipelineError::NotRunning { position })
            },
            old(self)@.running.contains(position) ==> final(self)@.completed() == old(
                self,
            )@.completed() + 1,
    {
        if position >= self.total {
            return Err(PipelineError::UnknownPosition { position });
        }
        if position >= self.admitted || !self.running[position] {
            return Err(PipelineError::NotRunning { position });
        }
        self.running.set(position, false);
        self.in_flight = self.in_flight - 1;
        proof {
            self.positions = Ghost(self.positions@.remove(position));
        }
        Ok(JobResult { position, outcome })
    }

    /// How many jobs run.
    pub fn in_flight(&self) -> (n: usize)
        requires
            self.wf(),
        ensures
            n == self@.running.len(),
            n <= self@.limit,
    {
        self.in_flight
    }

    /// Whether every job has been started and has ended: only then may the
    /// channel of the results be closed.
    pub fn is_drained(&self) -> (drained: bool)
        requires
            self.wf(),
        ensures
            drained == self@.drained(),
    {
        self.admitted == self.total && self.in_flight == 0
    }
}

/// Whether every job whose end the events tell of has succeeded.
pub open spec fn all_succeeded<T>(events: Seq<DispatchEvent<T>>) -> bool {
    forall|i: int|
        0 <= i < events.len() ==> match #[trigger] events[i] {
            DispatchEvent::Start => true,
            DispatchEvent::End { outcome, .. } => outcome is Ok,
        }
}

/// When every job has succeeded, every result that the dispatcher hands
/// back is a success.
pub proof fn lemma_results_succeeded<T>(start: DispatchView, events: Seq<DispatchEvent<T>>)
    requires
        all_succeeded(events),
    ensures
        forall|i: int|
            0 <= i < after_events(start, events).1.len() ==> (#[trigger] after_events(
                start,
                events,
            ).1[i]).outcome is Ok,
    decreases events.len(),
{
    if events.len() > 0 {
        let earlier = events.drop_last();
        assert forall|i: int| 0 <= i < earlier.len() implies match #[trigger] earlier[i] {
            DispatchEvent::Start => true,
            DispatchEvent::End { outcome, .. } => outcome is Ok,
        } by {
            assert(earlier[i] == events[i]);
        }
        lemma_results_succeeded(start, earlier);
        let emitted = after_events(start, earlier).1;
        let all = after_events(start, events).1;
        assert(events[events.len() - 1] == events.last());
        assert forall|i: int| 0 <= i < all.len() implies (#[trigger] all[i]).outcome is Ok by {
            if i < emitted.len() {
                assert(all[i] == emitted[i]);
            }
        }
    }
}

} // verus!
