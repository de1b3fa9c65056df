//! The consumer of the results: it puts them back into order and writes
//! the audio of each job, in the order of the jobs, to the segmented writer.
//! The first failure stops the run.

use crate::accounting::{law_write_boundaries, Fed, SplitterView};
use crate::dispatch::{
    after_events, all_succeeded, law_each_job_once, lemma_results_succeeded, DispatchEvent,
    DispatchView,
};
use crate::error::{PipelineError, WriterError};
use crate::journal::{
    entries, extends, journal_grows, lemma_add_twice, lemma_extends_transitive,
    lemma_grows_by_nothing, lemma_grows_transitive, marks, Entry, SegmentOp,
};
use crate::pcm::pcm_of_samples;
use crate::reorder::{
    after_results, delivered, every_job_reported, is_payload_of, law_first_failure,
    law_release_order, one_result_each, JobResult, ReorderBuffer, ReorderView,
};
use crate::writer::Mp3Splitter;
use vstd::prelude::*;

verus! {

/// The state of a writer after it has written each of the buffers in turn.
pub open spec fn after_writes(writer: SplitterView, buffers: Seq<Vec<u32>>) -> SplitterView
    decreases buffers.len(),
{
    if buffers.len() == 0 {
        writer
    } else {
        after_writes(writer, buffers.drop_last()).after_write(pcm_of_samples(buffers.last()@))
    }
}

/// The PCM samples of the buffers, one buffer after the other.
pub open spec fn pcm_of_buffers(buffers: Seq<Vec<u32>>) -> Seq<i16>
    decreases buffers.len(),
{
    if buffers.len() == 0 {
        Seq::empty()
    } else {
        pcm_of_buffers(buffers.drop_last()) + pcm_of_samples(buffers.last()@)
    }
}

/// Writing buffers one after the other adds their samples to the stream in
/// that order and changes neither prefix, settings nor capacity.
pub proof fn lemma_after_writes(writer: SplitterView, buffers: Seq<Vec<u32>>)
    ensures
        after_writes(writer, buffers).stream == writer.stream + pcm_of_buffers(buffers),
        after_writes(writer, buffers).prefix == writer.prefix,
        after_writes(writer, buffers).config == writer.config,
        after_writes(writer, buffers).capacity == writer.capacity,
    decreases buffers.len(),
{
    if buffers.len() == 0 {
        assert(writer.stream + pcm_of_buffers(buffers) =~= writer.stream);
    } else {
        lemma_after_writes(writer, buffers.drop_last());
        assert((writer.stream + pcm_of_buffers(buffers.drop_last())) + pcm_of_samples(
            buffers.last()@,
        ) =~= writer.stream + pcm_of_buffers(buffers));
    }
}

/// Segment boundaries do not depend on how many writes bring the frames:
/// mono buffers written one after the other leave the writer where one
/// write of all their samples leaves it.
pub proof fn law_many_writes(writer: SplitterView, buffers: Seq<Vec<u32>>)
    requires
        writer.wf(),
        writer.channels() == 1,
        buffers.len() > 0,
    ensures
        after_writes(writer, buffers) == writer.after_write(pcm_of_buffers(buffers)),
    decreases buffers.len(),
{
    let last = pcm_of_samples(buffers.last()@);
    let earlier = buffers.drop_last();
    assert(after_writes(writer, buffers) == after_writes(writer, earlier).after_write(last));
    assert(pcm_of_buffers(buffers) == pcm_of_buffers(earlier) + last);
    if buffers.len() == 1 {
        assert(earlier.len() == 0);
        assert(after_writes(writer, earlier) == writer);
        assert(pcm_of_buffers(earlier) + last =~= last);
    } else {
        law_many_writes(writer, earlier);
        assert(pcm_of_buffers(earlier).len() % writer.channels() == 0);
        assert(last.len() % writer.channels() == 0);
        law_write_boundaries(writer, pcm_of_buffers(earlier), last);
    }
}

/// Two writers in step that have taken the same stream in whatever
/// writes have given each of their encoders the same samples: segment by
/// segment the finished segments hold the same, and so do the open ones.
pub proof fn law_same_segments(first: Mp3Splitter, second: Mp3Splitter)
    requires
        first.in_step(),
        second.in_step(),
        first@ == second@,
    ensures
        first.sealed() == second.sealed(),
        first@.open ==> first.segment_pcm() == second.segment_pcm(),
{
    assert(first.sealed() =~= second.sealed());
}

/// The state of a consumer.
pub struct ConsumerView {
    /// The reorder buffer.
    pub buffer: ReorderView<Vec<u32>>,
    /// The writer.
    pub writer: SplitterView,
}

impl ConsumerView {
    /// The state after a result has been taken and what it released has
    /// been written, when the writer does not fail. A result that the
    /// reorder buffer turns down changes nothing.
    pub open spec fn after_result(self, result: JobResult<Vec<u32>>) -> ConsumerView {
        if self.buffer.admits(result.position) {
            ConsumerView {
                buffer: self.buffer.after_accept(result.position, result.outcome),
                writer: after_writes(
                    self.writer,
                    self.buffer.released_by(result.position, result.outcome),
                ),
            }
        } else {
            self
        }
    }

    /// What taking a result reports, when the writer does not fail: that
    /// the position is no job, that it has had its result, the failure of
    /// the job that blocks the release, or success.
    pub open spec fn report_on(self, result: JobResult<Vec<u32>>) -> Result<(), PipelineError> {
        if result.position >= self.buffer.total {
            Err(PipelineError::UnknownPosition { position: result.position })
        } else if !self.buffer.admits(result.position) {
            Err(PipelineError::DuplicatePosition { position: result.position })
        } else {
            self.buffer.after_accept(result.position, result.outcome).verdict_so_far()
        }
    }
}

/// What writing the buffers in turn, as mono samples, does beyond the
/// counters when the encoder of the open segment, if there is one, has
/// accepted `consumed`; `None` where a write fails.
pub open spec fn writes_plan(writer: SplitterView, consumed: Seq<i16>, buffers: Seq<Vec<u32>>) -> Option<
    Fed,
>
    decreases buffers.len(),
{
    if buffers.len() == 0 {
        Some(Fed { entries: Seq::empty(), sealed: Seq::empty(), consumed })
    } else {
        match writes_plan(writer, consumed, buffers.drop_last()) {
            None => None,
            Some(before) => match after_writes(writer, buffers.drop_last()).write_plan(
                before.consumed,
                pcm_of_samples(buffers.last()@),
            ) {
                None => None,
                Some(last) => Some(
                    Fed {
                        entries: before.entries + last.entries,
                        sealed: before.sealed + last.sealed,
                        consumed: last.consumed,
                    },
                ),
            },
        }
    }
}

/// What a mono writer does with the buffers released to it: nothing
/// succeeds on a writer with two channels.
pub open spec fn release_plan(writer: SplitterView, consumed: Seq<i16>, buffers: Seq<Vec<u32>>) -> Option<
    Fed,
> {
    if buffers.len() > 0 && writer.channels() != 1 {
        None
    } else {
        writes_plan(writer, consumed, buffers)
    }
}

/// Where the first buffers cannot be written, all of them cannot.
pub proof fn lemma_writes_plan_fails(
    writer: SplitterView,
    consumed: Seq<i16>,
    buffers: Seq<Vec<u32>>,
    upto: int,
)
    requires
        0 <= upto <= buffers.len(),
        writes_plan(writer, consumed, buffers.take(upto)) is None,
    ensures
        writes_plan(writer, consumed, buffers) is None,
    decreases buffers.len(),
{
    if upto == buffers.len() {
        assert(buffers.take(upto) =~= buffers);
    } else {
        assert(buffers.drop_last().take(upto) =~= buffers.take(upto));
        lemma_writes_plan_fails(writer, consumed, buffers.drop_last(), upto);
    }
}

/// One more buffer: what the first `upto + 1` buffers do is what the first
/// `upto` do and then the write of the next.
pub proof fn lemma_writes_plan_step(
    writer: SplitterView,
    consumed: Seq<i16>,
    buffers: Seq<Vec<u32>>,
    upto: int,
)
    requires
        0 <= upto < buffers.len(),
    ensures
        after_writes(writer, buffers.take(upto + 1)) == after_writes(
            writer,
            buffers.take(upto),
        ).after_write(pcm_of_samples(buffers[upto]@)),
        writes_plan(writer, consumed, buffers.take(upto + 1)) == (match writes_plan(
            writer,
            consumed,
            buffers.take(upto),
        ) {
            None => None,
            Some(before) => match after_writes(writer, buffers.take(upto)).write_plan(
                before.consumed,
                pcm_of_samples(buffers[upto]@),
            ) {
                None => None,
                Some(last) => Some(
                    Fed {
                        entries: before.entries + last.entries,
                        sealed: before.sealed + last.sealed,
                        consumed: last.consumed,
                    },
                ),
            },
        }),
{
    assert(buffers.take(upto + 1).drop_last() =~= buffers.take(upto));
    assert(buffers.take(upto + 1).last() == buffers[upto]);
}

/// Writes the buffers in turn, as mono samples, and stops at the first
/// that fails.
fn write_released(writer: &mut Mp3Splitter, ready: &Vec<Vec<u32>>, journal: &mut Vec<SegmentOp>) -> (r:
    Result<(), WriterError>)
    requires
        old(writer).wf(),
    ensures
        final(writer).wf(),
        journal_grows(final(journal)@, old(journal)@, old(writer)@.open, final(writer)@.open),
        extends(final(writer)@.stream, old(writer)@.stream),
        r is Ok <==> release_plan(old(writer)@, old(writer).segment_pcm(), ready@) is Some,
        match r {
            Ok(()) => {
                let plan = writes_plan(old(writer)@, old(writer).segment_pcm(), ready@)->Some_0;
                &&& final(writer)@ == after_writes(old(writer)@, ready@)
                &&& entries(final(journal)@) == entries(old(journal)@) + plan.entries
                &&& final(writer).sealed() == old(writer).sealed() + plan.sealed
                &&& final(writer).segment_pcm() == plan.consumed
                &&& old(writer).in_step() ==> final(writer).in_step()
            },
            Err(error) => {
                &&& ready@.len() > 0
                &&& !(error is PartialFrame)
                &&& error is NotMono <==> old(writer)@.channels() != 1
                &&& error is NotMono ==> final(writer)@ == old(writer)@ && final(journal)@ == old(
                    journal,
                )@
                &&& old(writer).in_step() ==> final(writer).sealed_whole()
            },
        },
        ready@.len() == 0 ==> final(journal)@ == old(journal)@ && final(writer).segment_pcm()
            == old(writer).segment_pcm(),
{
    let ghost start = writer@;
    let ghost start_consumed = writer.segment_pcm();
    let ghost start_sealed = writer.sealed();
    let ghost start_journal = journal@;
    let ghost mut done: Seq<Entry> = Seq::empty();
    let ghost mut done_sealed: Seq<Seq<i16>> = Seq::empty();
    proof {
        lemma_grows_by_nothing(start_journal, start.open);
        assert(start.stream.subrange(0, start.stream.len() as int) =~= start.stream);
        assert(ready@.take(0) =~= Seq::<Vec<u32>>::empty());
        assert(entries(start_journal) + done =~= entries(start_journal));
        assert(start_sealed + done_sealed =~= start_sealed);
    }
    let mut i: usize = 0;
    while i < ready.len()
        invariant
            writer.wf(),
            start == old(writer)@,
            start_consumed == old(writer).segment_pcm(),
            start_sealed == old(writer).sealed(),
            start_journal == old(journal)@,
            i <= ready@.len(),
            i > 0 ==> start.channels() == 1,
            writer@ == after_writes(start, ready@.take(i as int)),
            writer@.config == start.config,
            journal_grows(journal@, start_journal, start.open, writer@.open),
            extends(writer@.stream, start.stream),
            i == 0 ==> journal@ == start_journal && writer@ == start && writer.segment_pcm()
                == start_consumed,
            writes_plan(start, start_consumed, ready@.take(i as int)) == Some(
                Fed { entries: done, sealed: done_sealed, consumed: writer.segment_pcm() },
            ),
            entries(journal@) == entries(start_journal) + done,
            writer.sealed() == start_sealed + done_sealed,
            old(writer).in_step() ==> writer.in_step(),
        decreases ready@.len() - i,
    {
        let ghost journal_before = journal@;
        let ghost writer_before = writer@;
        let ghost consumed_before = writer.segment_pcm();
        let ghost step = writer_before.write_plan(
            consumed_before,
            pcm_of_samples(ready@[i as int]@),
        );
        let ghost sealed_before = writer.sealed();
        proof {
            lemma_writes_plan_step(start, start_consumed, ready@, i as int);
        }
        let written = writer.write_f32_mono(ready[i].as_slice(), journal);
        proof {
            lemma_grows_transitive(
                journal@,
                journal_before,
                start_journal,
                start.open,
                writer_before.open,
                writer@.open,
            );
            lemma_extends_transitive(writer@.stream, writer_before.stream, start.stream);
        }
        match written {
            Err(error) => {
                proof {
                    if start.channels() == 1 {
                        lemma_writes_plan_fails(start, start_consumed, ready@, i + 1);
                    }
                }
                return Err(error);
            },
            Ok(()) => {},
        }
        proof {
            let fed = step->Some_0;
            lemma_add_twice(
                entries(start_journal),
                done,
                fed.entries,
                entries(journal_before),
                entries(journal@),
            );
            lemma_add_twice(start_sealed, done_sealed, fed.sealed, sealed_before, writer.sealed());
            done = done + fed.entries;
            done_sealed = done_sealed + fed.sealed;
        }
        i = i + 1;
    }
    proof {
        assert(ready@.take(ready@.len() as int) =~= ready@);
    }
    Ok(())
}

/// Takes the results of the jobs of one input and writes their audio in the
/// order of the jobs.
pub struct Consumer {
    buffer: ReorderBuffer<Vec<u32>>,
    writer: Mp3Splitter,
}

impl View for Consumer {
    type V = ConsumerView;

    open spec fn view(&self) -> ConsumerView {
        ConsumerView { buffer: self.reorder_buffer()@, writer: self.splitter()@ }
    }
}

impl Consumer {
    /// The reorder buffer of the consumer.
    pub closed spec fn reorder_buffer(&self) -> ReorderBuffer<Vec<u32>> {
        self.buffer
    }

    /// The writer of the consumer.
    pub closed spec fn splitter(&self) -> Mp3Splitter {
        self.writer
    }

    /// The invariant of the consumer: those of its buffer and its writer.
    pub open spec fn wf(&self) -> bool {
        self.reorder_buffer().wf() && self.splitter().wf()
    }

    /// Whether every encoder of the writer has accepted exactly the part of
    /// the stream that belongs to its segment.
    pub open spec fn in_step(&self) -> bool {
        self.splitter().in_step()
    }

    /// What the result releases to the writer: nothing where the reorder
    /// buffer turns it down.
    pub open spec fn released(&self, result: JobResult<Vec<u32>>) -> Seq<Vec<u32>> {
        if self@.buffer.admits(result.position) {
            self@.buffer.released_by(result.position, result.outcome)
        } else {
            Seq::empty()
        }
    }

    /// A consumer of the results of `total` jobs, which writes to `writer`.
    pub fn new(total: usize, writer: Mp3Splitter) -> (consumer: Consumer)
        requires
            writer.wf(),
        ensures
            consumer.wf(),
            consumer@.buffer == ReorderView::<Vec<u32>>::fresh(total as nat),
            consumer.splitter() == writer,
    {
        Consumer { buffer: ReorderBuffer::new(total), writer }
    }

    /// Takes one result. The audio that can be released now is written, job
    /// by job in the order of the positions, as mono samples; the file
    /// operations that are due go to the journal.
    ///
    /// A result that the reorder buffer turns down changes nothing. A job
    /// that failed is reported once every job before it has been written,
    /// and from then on by every call; nothing of it or of a later job is
    /// written. When the writer fails the run stops with its error.
    pub fn on_result(&mut self, result: JobResult<Vec<u32>>, journal: &mut Vec<SegmentOp>) -> (r:
        Result<(), PipelineError>)
        requires
            old(self).wf(),
        ensures
            final(self).wf(),
            journal_grows(
                final(journal)@,
                old(journal)@,
                old(self)@.writer.open,
                final(self)@.writer.open,
            ),
            // The writer fails exactly where one of the writes that are due fails.
            r matches Err(PipelineError::Writer { .. }) <==> release_plan(
                old(self)@.writer,
                old(self).splitter().segment_pcm(),
                old(self).released(result),
            ) is None,
            match r {
                Err(PipelineError::Writer { error }) => {
                    &&& old(self)@.buffer.admits(result.position)
                    &&& final(self)@.buffer == old(self)@.buffer.after_accept(
                        result.position,
                        result.outcome,
                    )
                    &&& !(error is PartialFrame)
                    &&& error is NotMono <==> old(self)@.writer.channels() != 1
                    &&& error is NotMono ==> final(self)@.writer == old(self)@.writer
                        && final(journal)@ == old(journal)@
                    &&& extends(final(self)@.writer.stream, old(self)@.writer.stream)
                    &&& old(self).in_step() ==> final(self).splitter().sealed_whole()
                },
                _ => {
                    let plan = writes_plan(
                        old(self)@.writer,
                        old(self).splitter().segment_pcm(),
                        old(self).released(result),
                    )->Some_0;
                    &&& r == old(self)@.report_on(result)
                    &&& final(self)@ == old(self)@.after_result(result)
                    &&& entries(final(journal)@) == entries(old(journal)@) + plan.entries
                    &&& final(self).splitter().sealed() == old(self).splitter().sealed()
                        + plan.sealed
                    &&& final(self).splitter().segment_pcm() == plan.consumed
                    &&& old(self).in_step() ==> final(self).in_step()
                },
            },
            !old(self)@.buffer.admits(result.position) ==> final(journal)@ == old(journal)@,
    {
        let mut ready: Vec<Vec<u32>> = Vec::new();
        let verdict = self.buffer.accept(result.position, result.outcome, &mut ready);
        proof {
            if old(self)@.buffer.admits(result.position) {
                assert(Seq::<Vec<u32>>::empty() + old(self)@.buffer.released_by(
                    result.position,
                    result.outcome,
                ) =~= old(self)@.buffer.released_by(result.position, result.outcome));
            }
            assert(ready@ == old(self).released(result));
        }
        match write_released(&mut self.writer, &ready, journal) {
            Err(error) => Err(PipelineError::Writer { error }),
            Ok(()) => verdict,
        }
    }

    /// Ends the run when all results are in. The open segment is finished
    /// in any case: the bytes that end its stream are appended once and its
    /// file is closed. The run has succeeded when the audio of every job
    /// has been written and the encoder could finish the segment.
    pub fn finish(self, journal: &mut Vec<SegmentOp>) -> (r: Result<(), PipelineError>)
        requires
            self.wf(),
        ensures
            journal_grows(final(journal)@, old(journal)@, self@.writer.open, false),
            marks(final(journal)@) == marks(old(journal)@) + self@.writer.finish_marks(),
            entries(final(journal)@) == entries(old(journal)@) + self@.writer.finish_entries(
                self.splitter().segment_pcm(),
            ),
            r is Ok <==> self@.buffer.verdict() is Ok && self@.writer.finishes(
                self.splitter().segment_pcm(),
            ),
            match self@.buffer.verdict() {
                Err(e) => r == Err::<(), PipelineError>(e),
                Ok(()) => match r {
                    Ok(()) => true,
                    Err(PipelineError::Writer { error }) => error is FinishFailed,
                    Err(_) => false,
                },
            },
    {
        let verdict = self.buffer.finish();
        let finished = self.writer.finalize(journal);
        match verdict {
            Err(e) => Err(e),
            Ok(()) => match finished {
                Ok(()) => Ok(()),
                Err(error) => Err(PipelineError::Writer { error }),
            },
        }
    }

    /// The position whose audio is written next.
    pub fn next_expected(&self) -> (next: usize)
        ensures
            next == self@.buffer.next,
    {
        self.buffer.next_expected()
    }

    /// The writer.
    pub fn writer(&self) -> (writer: &Mp3Splitter)
        ensures
            *writer == self.splitter(),
    {
        &self.writer
    }
}

/// The state of a consumer after it has been offered the results in turn,
/// when the writer does not fail.
pub open spec fn after_run(start: ConsumerView, arrivals: Seq<JobResult<Vec<u32>>>) -> ConsumerView
    decreases arrivals.len(),
{
    if arrivals.len() == 0 {
        start
    } else {
        after_run(start, arrivals.drop_last()).after_result(arrivals.last())
    }
}

/// Writing some buffers and then more is writing them all.
pub proof fn lemma_after_writes_add(
    writer: SplitterView,
    first: Seq<Vec<u32>>,
    second: Seq<Vec<u32>>,
)
    ensures
        after_writes(after_writes(writer, first), second) == after_writes(writer, first + second),
    decreases second.len(),
{
    if second.len() == 0 {
        assert(first + second =~= first);
    } else {
        lemma_after_writes_add(writer, first, second.drop_last());
        assert((first + second).drop_last() =~= first + second.drop_last());
        assert((first + second).last() == second.last());
    }
}

/// A consumer writes what its reorder buffer releases, in that order.
pub proof fn lemma_after_run(
    writer: SplitterView,
    total: nat,
    arrivals: Seq<JobResult<Vec<u32>>>,
)
    ensures
        ({
            let fresh = ReorderView::<Vec<u32>>::fresh(total);
            let end = after_run(ConsumerView { buffer: fresh, writer }, arrivals);
            &&& end.buffer == after_results(fresh, arrivals).0
            &&& end.writer == after_writes(writer, after_results(fresh, arrivals).1)
        }),
    decreases arrivals.len(),
{
    if arrivals.len() > 0 {
        let fresh = ReorderView::<Vec<u32>>::fresh(total);
        let earlier = arrivals.drop_last();
        lemma_after_run(writer, total, earlier);
        let (state, released) = after_results(fresh, earlier);
        let last = arrivals.last();
        if state.admits(last.position) {
            lemma_after_writes_add(
                writer,
                released,
                state.released_by(last.position, last.outcome),
            );
        }
    }
}

/// Order preservation. Whatever the order in which the results come, when
/// there is one for each job, every job has succeeded and the writer does
/// not fail, the samples that the writer has taken are those of job 0, then
/// those of job 1, and so on to the last job.
pub proof fn law_stream_order(
    writer: SplitterView,
    total: nat,
    arrivals: Seq<JobResult<Vec<u32>>>,
)
    requires
        total <= usize::MAX,
        one_result_each(total, arrivals),
        every_job_reported(total, arrivals),
        forall|i: int| 0 <= i < arrivals.len() ==> (#[trigger] arrivals[i]).outcome is Ok,
    ensures
        ({
            let fresh = ReorderView::<Vec<u32>>::fresh(total);
            let end = after_run(ConsumerView { buffer: fresh, writer }, arrivals);
            let audio = after_results(fresh, arrivals).1;
            &&& audio.len() == total
            &&& forall|p: int| 0 <= p < total ==> is_payload_of(arrivals, p, #[trigger] audio[p])
            &&& end.writer.stream == writer.stream + pcm_of_buffers(audio)
        }),
{
    let fresh = ReorderView::<Vec<u32>>::fresh(total);
    let released = after_results(fresh, arrivals).1;
    law_release_order(total, arrivals);
    lemma_after_run(writer, total, arrivals);
    lemma_after_writes(writer, released);
    assert(released.len() == total);
}

/// Order preservation from end to end. Whatever the order in which the
/// jobs start and end under the dispatcher, once every job has been started
/// and has ended with success, a consumer that has taken the results as
/// the dispatcher handed them back, and whose writer has not failed, has
/// written the samples of job 0, then those of job 1, and so on to the last
/// job, and the run ends well.
pub proof fn law_pipeline_order(
    writer: SplitterView,
    total: nat,
    limit: nat,
    events: Seq<DispatchEvent<Vec<u32>>>,
)
    requires
        1 <= limit,
        total <= usize::MAX,
        all_succeeded(events),
        after_events(DispatchView::fresh(total, limit), events).0.drained(),
    ensures
        ({
            let results = after_events(DispatchView::fresh(total, limit), events).1;
            let fresh = ReorderView::<Vec<u32>>::fresh(total);
            let end = after_run(ConsumerView { buffer: fresh, writer }, results);
            let audio = after_results(fresh, results).1;
            &&& audio.len() == total
            &&& forall|p: int| 0 <= p < total ==> is_payload_of(results, p, #[trigger] audio[p])
            &&& end.writer.stream == writer.stream + pcm_of_buffers(audio)
            &&& end.buffer.verdict() == Ok::<(), PipelineError>(())
        }),
{
    let results = after_events(DispatchView::fresh(total, limit), events).1;
    law_each_job_once(total, limit, events);
    lemma_results_succeeded(DispatchView::fresh(total, limit), events);
    law_stream_order(writer, total, results);
    law_release_order(total, results);
    lemma_after_run(writer, total, results);
}

/// Failure propagation from end to end. Whatever the order in which the
/// jobs start and end under the dispatcher, once every job has been started
/// and has ended, and the job at `failed` is the first that has failed, a
/// consumer that has taken the results as the dispatcher handed them back,
/// and whose writer has not failed, has written the samples of the jobs
/// before `failed` in their order and nothing else, and the run ends with
/// the failure of that job.
pub proof fn law_pipeline_failure(
    writer: SplitterView,
    total: nat,
    limit: nat,
    events: Seq<DispatchEvent<Vec<u32>>>,
    failed: nat,
    reason: String,
)
    requires
        1 <= limit,
        total <= usize::MAX,
        failed < total,
        after_events(DispatchView::fresh(total, limit), events).0.drained(),
        ({
            let results = after_events(DispatchView::fresh(total, limit), events).1;
            &&& delivered(results, failed as int, Err::<Vec<u32>, String>(reason))
            &&& forall|i: int|
                0 <= i < results.len() && (#[trigger] results[i]).position < failed
                    ==> results[i].outcome is Ok
        }),
    ensures
        ({
            let results = after_events(DispatchView::fresh(total, limit), events).1;
            let fresh = ReorderView::<Vec<u32>>::fresh(total);
            let end = after_run(ConsumerView { buffer: fresh, writer }, results);
            let audio = after_results(fresh, results).1;
            &&& audio.len() == failed
            &&& forall|p: int| 0 <= p < failed ==> is_payload_of(results, p, #[trigger] audio[p])
            &&& end.writer.stream == writer.stream + pcm_of_buffers(audio)
            &&& end.buffer.verdict() == Err::<(), PipelineError>(
                PipelineError::Synthesis { position: failed as usize, reason },
            )
        }),
{
    let results = after_events(DispatchView::fresh(total, limit), events).1;
    let fresh = ReorderView::<Vec<u32>>::fresh(total);
    law_each_job_once(total, limit, events);
    law_first_failure(total, results, failed, reason);
    lemma_after_run(writer, total, results);
    lemma_after_writes(writer, after_results(fresh, results).1);
}

} // verus!
