//! The segmented writer.
//!
//! The writer accepts interleaved samples, converts them to PCM, feeds them
//! to the encoder of the current segment and starts a new segment whenever
//! the current one has reached its capacity and more frames are to come.
//! The file operations that are due go to a journal.

use crate::accounting::{
    chunk_at, fed_after, feed, lemma_chunks_stay, lemma_fed_after_twice, lemma_feed_done,
    lemma_feed_rotate, lemma_feed_take, lemma_marks_rotate, lemma_needs_more_segments,
    rotation_marks, Fed, SplitterView,
};
use crate::capacity::{capacity_of, duration_nanos, frames_for_duration};
use crate::codec::{
    codec_accepts, codec_blocks, codec_supports, codec_tail, default_encoder_config,
    encode_pcm, encoder_consumed, encoder_settings, error_text, finish_encoder, start_encoder,
};
use crate::config::{EncoderConfig, StereoMode, CHANNELS, SAMPLE_RATE};
use crate::error::{ConfigError, WriterError};
use crate::journal::{
    append_blocks, append_tail, block_entries, entries, extends, journal_grows, lemma_add_twice,
    lemma_entries_push, lemma_extends_add, lemma_grows_by_nothing, lemma_grows_by_one,
    lemma_grows_transitive, lemma_marks_push, lemma_subrange_joins, marks, tail_entries, Entry,
    Mark, SegmentOp,
};
use crate::naming::{segment_file_name, segment_path};
use crate::pcm::{pcm_of_samples, sample_to_pcm};
use shine_rs::Mp3Encoder;
use std::time::Duration;
use vstd::arithmetic::div_mod::{lemma_fundamental_div_mod, lemma_fundamental_div_mod_converse};
use vstd::prelude::*;

verus! {

/// Splits a stream of audio over MP3 files of bounded duration.
pub struct Mp3Splitter {
    prefix: String,
    /// Index of the next segment.
    index: u32,
    config: EncoderConfig,
    /// Max frames (per channel) per file.
    frames_per_file: u64,
    written_frames: u64,
    enc: Option<Mp3Encoder>,
    /// Scratch buffer for PCM conversion (interleaved).
    pcm_i16: Vec<i16>,
    stream: Ghost<Seq<i16>>,
    sealed: Ghost<Seq<Seq<i16>>>,
}

impl View for Mp3Splitter {
    type V = SplitterView;

    closed spec fn view(&self) -> SplitterView {
        SplitterView {
            prefix: self.prefix@,
            config: self.config,
            capacity: self.frames_per_file as nat,
            segments: self.index as nat,
            open: self.enc is Some,
            written: self.written_frames as nat,
            stream: self.stream@,
        }
    }
}

/// Converts the samples from `start` up to `end` to PCM, into `out`.
pub fn convert_samples(samples: &[u32], start: usize, end: usize, out: &mut Vec<i16>)
    requires
        start <= end <= samples@.len(),
    ensures
        final(out)@ == pcm_of_samples(samples@).subrange(start as int, end as int),
{
    out.clear();
    let mut i: usize = start;
    while i < end
        invariant
            start <= i <= end <= samples@.len(),
            out@ == pcm_of_samples(samples@).subrange(start as int, i as int),
        decreases end - i,
    {
        out.push(sample_to_pcm(samples[i]));
        i = i + 1;
        assert(out@ =~= pcm_of_samples(samples@).subrange(start as int, i as int));
    }
}

/// The error with which a configuration is turned down, if it is, given
/// whether the encoder supports it.
pub open spec fn config_error(config: EncoderConfig, supported: bool) -> Option<ConfigError> {
    if config.channels != 1 && config.channels != 2 {
        Some(ConfigError::InvalidChannels)
    } else if config.sample_rate == 0 {
        Some(ConfigError::InvalidSampleRate)
    } else if !supported {
        Some(ConfigError::UnsupportedEncoding)
    } else {
        None
    }
}

/// Checks the settings of a writer, given whether the encoder supports
/// them: one or two channels, a positive sample rate, and the encoder's
/// consent.
pub fn check_config(config: &EncoderConfig, supported: bool) -> (r: Result<(), ConfigError>)
    ensures
        match config_error(*config, supported) {
            Some(e) => r == Err::<(), ConfigError>(e),
            None => r is Ok,
        },
{
    if config.channels != 1 && config.channels != 2 {
        Err(ConfigError::InvalidChannels)
    } else if config.sample_rate == 0 {
        Err(ConfigError::InvalidSampleRate)
    } else if !supported {
        Err(ConfigError::UnsupportedEncoding)
    } else {
        Ok(())
    }
}

/// The error with which `Mp3Splitter::new` turns its arguments down, if it
/// does.
pub open spec fn construction_error(config: EncoderConfig, nanos: nat) -> Option<ConfigError> {
    match config_error(config, codec_supports(config)) {
        Some(e) => Some(e),
        None => match capacity_of(config.sample_rate as nat, nanos) {
            Err(e) => Some(e),
            Ok(_) => None,
        },
    }
}

impl Mp3Splitter {
    /// The invariant of the writer: that of its counters, and that its
    /// settings are the encoder's.
    pub open spec fn wf(&self) -> bool {
        self@.wf() && self.settled()
    }

    /// Whether the encoder supports the settings of the writer, and the
    /// encoder of the open segment, if there is one, was created with them.
    pub closed spec fn settled(&self) -> bool {
        &&& codec_supports(self.config)
        &&& match self.enc {
            Some(enc) => encoder_settings(enc) == self.config,
            None => true,
        }
    }

    /// The PCM samples that the encoder of the open segment has accepted.
    pub closed spec fn segment_pcm(&self) -> Seq<i16> {
        match self.enc {
            Some(enc) => encoder_consumed(enc),
            None => Seq::empty(),
        }
    }

    /// The PCM samples that the encoder of each finished segment had
    /// accepted when it was finished, segment by segment.
    pub closed spec fn sealed(&self) -> Seq<Seq<i16>> {
        self.sealed@
    }

    /// Whether the encoder of each finished segment had accepted exactly
    /// the samples of a whole segment, in the order of the segments.
    pub open spec fn sealed_whole(&self) -> bool {
        let size = self@.capacity * self@.channels();
        forall|i: int|
            0 <= i < self.sealed().len() ==> #[trigger] self.sealed()[i]
                == self@.stream.subrange(i * size, (i + 1) * size)
    }

    /// Whether a segment is open and every encoder has accepted exactly the
    /// part of the stream that belongs to its segment, the segments before
    /// the open one being full.
    pub open spec fn aligned(&self) -> bool {
        &&& self@.open
        &&& self@.stream.len() == ((self@.segments - 1) * self@.capacity + self@.written)
            * self@.channels()
        &&& self.sealed().len() == self@.segments - 1
        &&& self.sealed_whole()
        &&& self.segment_pcm() == self@.stream.skip(self@.segment_start())
    }

    /// Whether the writer is in the state of one on which no operation has
    /// failed, and every encoder has accepted exactly the part of the
    /// stream that belongs to its segment: the encoder of each finished
    /// segment the samples of a whole segment, in the order of the
    /// segments, and the encoder of the open segment what comes after them.
    pub open spec fn in_step(&self) -> bool {
        let size = self@.capacity * self@.channels();
        &&& self@.regular()
        &&& self.sealed().len() == if self@.open {
            self@.segments - 1
        } else {
            0
        }
        &&& self.sealed_whole()
        &&& self@.open ==> self.segment_pcm() == self@.stream.skip(self@.segment_start())
    }

    /// A writer for segments of at most `segment_duration`, whose files are
    /// named after `prefix`. Nothing is created before the first write.
    pub fn new(prefix: String, config: EncoderConfig, segment_duration: Duration) -> (r: Result<
        Mp3Splitter,
        ConfigError,
    >)
        ensures
            match construction_error(config, duration_nanos(segment_duration)) {
                Some(e) => r == Err::<Mp3Splitter, ConfigError>(e),
                None => r is Ok && r->Ok_0.wf() && r->Ok_0.in_step() && r->Ok_0@ == (SplitterView {
                    prefix: prefix@,
                    config: config,
                    capacity: capacity_of(
                        config.sample_rate as nat,
                        duration_nanos(segment_duration),
                    )->Ok_0 as nat,
                    segments: 0,
                    open: false,
                    written: 0,
                    stream: Seq::empty(),
                }),
            },
    {
        // Validate early so we fail before writing any files.
        let supported = codec_accepts(&config);
        match check_config(&config, supported) {
            Err(e) => {
                return Err(e);
            },
            Ok(()) => {},
        }
        let frames_per_file = match frames_for_duration(config.sample_rate, segment_duration) {
            Err(e) => {
                return Err(e);
            },
            Ok(frames) => frames,
        };
        let writer = Mp3Splitter {
            prefix,
            index: 0,
            config,
            frames_per_file,
            written_frames: 0,
            enc: None,
            pcm_i16: Vec::new(),
            stream: Ghost(Seq::empty()),
            sealed: Ghost(Seq::empty()),
        };
        proof {
            assert(writer@.frames() == 0);
            assert(writer@.frames() * writer@.channels() == 0) by (nonlinear_arith)
                requires
                    writer@.frames() == 0,
            ;
            assert(writer@.regular());
            assert(writer.wf());
            assert(writer.in_step());
        }
        Ok(writer)
    }

    /// Finishes the open segment, if there is one: the encoder's last bytes
    /// are appended and the file is closed.
    fn finish_current(&mut self, journal: &mut Vec<SegmentOp>) -> (r: Result<(), WriterError>)
        requires
            old(self).wf(),
        ensures
            final(self).wf(),
            final(self)@ == old(self)@.after_finish(),
            final(self).sealed() == if old(self)@.open {
                old(self).sealed().push(old(self).segment_pcm())
            } else {
                old(self).sealed()
            },
            journal_grows(final(journal)@, old(journal)@, old(self)@.open, false),
            marks(final(journal)@) == marks(old(journal)@) + old(self)@.finish_marks(),
            entries(final(journal)@) == entries(old(journal)@) + old(self)@.finish_entries(
                old(self).segment_pcm(),
            ),
            r is Ok <==> old(self)@.finishes(old(self).segment_pcm()),
            !old(self)@.open ==> final(journal)@ == old(journal)@,
            r is Err ==> r->Err_0 is FinishFailed,
    {
        let ghost before = journal@;
        proof {
            lemma_grows_by_nothing(before, old(self)@.open);
        }
        // If nothing opened yet, nothing to do.
        match self.enc.take() {
            None => {
                assert(marks(before) + old(self)@.finish_marks() =~= marks(before));
                assert(entries(before) + Seq::<Entry>::empty() =~= entries(before));
                Ok(())
            },
            Some(enc) => {
                self.written_frames = 0;
                proof {
                    self.sealed = Ghost(self.sealed@.push(encoder_consumed(enc)));
                }
                // Finishing pads the last partial MP3 frame (if any) and flushes.
                let result = match finish_encoder(enc) {
                    Ok(tail) => {
                        append_tail(tail, journal);
                        Ok(())
                    },
                    Err(e) => {
                        append_tail(Vec::new(), journal);
                        Err(WriterError::FinishFailed { reason: error_text(&e) })
                    },
                };
                proof {
                    assert(marks(journal@) =~= marks(before) + old(self)@.finish_marks());
                    assert(tail_entries(Seq::<u8>::empty()) =~= seq![Entry::Closed]);
                }
                result
            },
        }
    }

    /// Finishes the open segment, if there is one, and opens the next.
    fn open_next(&mut self, journal: &mut Vec<SegmentOp>) -> (r: Result<(), WriterError>)
        requires
            old(self).wf(),
        ensures
            final(self).wf(),
            final(self)@.prefix == old(self)@.prefix,
            final(self)@.config == old(self)@.config,
            final(self)@.capacity == old(self)@.capacity,
            final(self)@.stream == old(self)@.stream,
            final(self)@.written == 0,
            final(self).sealed() == if old(self)@.open {
                old(self).sealed().push(old(self).segment_pcm())
            } else {
                old(self).sealed()
            },
            old(self)@.segments <= final(self)@.segments <= old(self)@.segments + 1,
            journal_grows(final(journal)@, old(journal)@, old(self)@.open, final(self)@.open),
            r is Ok <==> old(self)@.finishes(old(self).segment_pcm()) && old(self)@.segments
                < u32::MAX,
            (old(self).aligned() && old(self)@.written == old(self)@.capacity) || (old(
                self,
            ).in_step() && !old(self)@.open) ==> final(self).sealed_whole() && (r is Ok
                ==> final(self).aligned()),
            match r {
                Ok(()) => {
                    &&& final(self)@.open
                    &&& final(self)@.segments == old(self)@.segments + 1
                    &&& final(self).segment_pcm() == Seq::<i16>::empty()
                    &&& marks(final(journal)@) == marks(old(journal)@) + old(self)@.finish_marks()
                        + seq![
                        Mark::Created(segment_path(old(self)@.prefix, old(self)@.segments)),
                    ]
                    &&& entries(final(journal)@) == entries(old(journal)@) + old(
                        self,
                    )@.finish_entries(old(self).segment_pcm()).push(
                        Entry::Created(segment_path(old(self)@.prefix, old(self)@.segments)),
                    )
                },
                Err(WriterError::FinishFailed { .. }) => {
                    // The segment could not be finished: its file is closed,
                    // no file is created and no index is used.
                    &&& !final(self)@.open
                    &&& !old(self)@.finishes(old(self).segment_pcm())
                    &&& final(self)@.segments == old(self)@.segments
                    &&& marks(final(journal)@) == marks(old(journal)@).push(Mark::Closed)
                    &&& entries(final(journal)@) == entries(old(journal)@).push(Entry::Closed)
                },
                Err(WriterError::SegmentsExhausted) => {
                    // No index is left: the segment is finished, no file is
                    // created.
                    &&& !final(self)@.open
                    &&& old(self)@.finishes(old(self).segment_pcm())
                    &&& final(self)@.segments == old(self)@.segments == u32::MAX
                    &&& marks(final(journal)@) == marks(old(journal)@) + old(self)@.finish_marks()
                    &&& entries(final(journal)@) == entries(old(journal)@) + old(
                        self,
                    )@.finish_entries(old(self).segment_pcm())
                },
                Err(WriterError::StartFailed { .. }) => {
                    // The encoder could not be started: the index is used, the
                    // file is created and closed empty.
                    &&& !final(self)@.open
                    &&& old(self)@.finishes(old(self).segment_pcm())
                    &&& old(self)@.segments < u32::MAX
                    &&& final(self)@.segments == old(self)@.segments + 1
                    &&& marks(final(journal)@) == marks(old(journal)@) + old(self)@.finish_marks()
                        + seq![
                        Mark::Created(segment_path(old(self)@.prefix, old(self)@.segments)),
                        Mark::Closed,
                    ]
                    &&& entries(final(journal)@) == entries(old(journal)@) + old(
                        self,
                    )@.finish_entries(old(self).segment_pcm()) + seq![
                        Entry::Created(segment_path(old(self)@.prefix, old(self)@.segments)),
                        Entry::Closed,
                    ]
                },
                Err(_) => false,
            },
    {
        let ghost before = journal@;
        let finished = self.finish_current(journal);
        proof {
            let at = old(self)@;
            let size = at.capacity * at.channels();
            if old(self).aligned() && at.written == at.capacity {
                assert(at.stream.len() == at.segments * size && at.segment_start() == (at.segments
                    - 1) * size && at.segment_start() + size == at.stream.len())
                    by (nonlinear_arith)
                    requires
                        at.stream.len() == ((at.segments - 1) * at.capacity + at.written)
                            * at.channels(),
                        at.written == at.capacity,
                        at.segment_start() == (at.segments - 1) * at.capacity * at.channels(),
                        size == at.capacity * at.channels(),
                ;
                assert(((at.segments - 1) + 1) * size == at.stream.len()) by (nonlinear_arith)
                    requires
                        at.stream.len() == at.segments * size,
                ;
                assert(at.stream.skip(at.segment_start()) =~= at.stream.subrange(
                    (at.segments - 1) * size,
                    ((at.segments - 1) + 1) * size,
                ));
                assert(self.sealed_whole());
                assert(self@.stream.skip(at.stream.len() as int) =~= Seq::<i16>::empty());
                assert(((at.segments + 1 - 1) * at.capacity + 0) * at.channels()
                    == at.stream.len() && (at.segments + 1 - 1) * at.capacity * at.channels()
                    == at.stream.len()) by (nonlinear_arith)
                    requires
                        at.stream.len() == at.segments * size,
                        size == at.capacity * at.channels(),
                ;
            }
            if old(self).in_step() && !at.open {
                assert(self@.stream.skip(0) =~= Seq::<i16>::empty());
                assert(((1 - 1) * at.capacity + 0) * at.channels() == 0 && (1 - 1) * at.capacity
                    * at.channels() == 0) by (nonlinear_arith);
            }
        }
        match finished {
            Err(e) => {
                return Err(e);
            },
            Ok(()) => {},
        }
        let next = match self.index.checked_add(1) {
            Some(next) => next,
            None => {
                return Err(WriterError::SegmentsExhausted);
            },
        };
        let path = segment_file_name(self.prefix.as_str(), self.index);
        self.index = next;
        let ghost finished = journal@;
        journal.push(SegmentOp::Create { path });
        proof {
            lemma_marks_push(finished, SegmentOp::Create { path });
            lemma_grows_by_one(
                finished,
                before,
                SegmentOp::Create { path },
                old(self)@.open,
                false,
            );
            assert(marks(journal@) =~= marks(before) + old(self)@.finish_marks() + seq![
                Mark::Created(segment_path(old(self)@.prefix, old(self)@.segments)),
            ]);
            lemma_entries_push(finished, SegmentOp::Create { path });
            assert(entries(journal@) =~= entries(before) + old(self)@.finish_entries(
                old(self).segment_pcm(),
            ).push(Entry::Created(segment_path(old(self)@.prefix, old(self)@.segments))));
        }
        match start_encoder(&self.config) {
            Ok(enc) => {
                self.enc = Some(enc);
                self.written_frames = 0;
                Ok(())
            },
            Err(e) => {
                // The file exists by now; it stays empty.
                let ghost created = journal@;
                journal.push(SegmentOp::Close);
                proof {
                    lemma_grows_by_one(created, before, SegmentOp::Close, old(self)@.open, true);
                    lemma_marks_push(created, SegmentOp::Close);
                    lemma_entries_push(created, SegmentOp::Close);
                }
                Err(WriterError::StartFailed { reason: error_text(&e) })
            },
        }
    }

    /// Write interleaved samples (`[L, R, L, R, ...]` for stereo;
    /// `[M, M, ...]` for mono), given by their bit patterns, splitting to
    /// new MP3 files whenever a segment is full and frames are left.
    ///
    /// A buffer that is no whole number of frames is turned down and nothing
    /// changes. Otherwise a closed writer opens its next segment, and the
    /// frames go to the encoder in order; a segment that becomes full with
    /// the last frame of the buffer stays open until the next write. When
    /// the encoder fails, or no segment index is left, the write stops
    /// there: the journal then holds what was done up to that point.
    #[verifier::rlimit(60)]
    pub fn write_f32_interleaved(&mut self, samples: &[u32], journal: &mut Vec<SegmentOp>) -> (r:
        Result<(), WriterError>)
        requires
            old(self).wf(),
        ensures
            final(self).wf(),
            final(self)@.prefix == old(self)@.prefix,
            final(self)@.config == old(self)@.config,
            final(self)@.capacity == old(self)@.capacity,
            final(self)@.segments >= old(self)@.segments,
            extends(final(self)@.stream, old(self)@.stream),
            journal_grows(final(journal)@, old(journal)@, old(self)@.open, final(self)@.open),
            samples@.len() % old(self)@.channels() != 0 ==> {
                &&& r == Err::<(), WriterError>(WriterError::PartialFrame)
                &&& final(self)@ == old(self)@
                &&& final(self).segment_pcm() == old(self).segment_pcm()
                &&& final(self).sealed() == old(self).sealed()
                &&& final(journal)@ == old(journal)@
            },
            samples@.len() % old(self)@.channels() == 0 ==> match r {
                Ok(()) => {
                    &&& final(self)@ == old(self)@.after_write(pcm_of_samples(samples@))
                    &&& marks(final(journal)@) == marks(old(journal)@) + old(self)@.write_marks(
                        samples@.len() / old(self)@.channels(),
                    )
                    &&& old(self).in_step() ==> final(self).in_step()
                },
                Err(e) => {
                    &&& e is SegmentsExhausted || e is EncodeFailed || e is FinishFailed
                    &&& e is SegmentsExhausted ==> old(self)@.after_write(
                        pcm_of_samples(samples@),
                    ).segments > u32::MAX
                    &&& old(self).in_step() ==> final(self).sealed_whole()
                },
            },
            samples@.len() % old(self)@.channels() == 0 ==> {
                let plan = old(self)@.write_plan(
                    old(self).segment_pcm(),
                    pcm_of_samples(samples@),
                );
                &&& r is Ok <==> plan is Some
                &&& r is Ok ==> {
                    &&& entries(final(journal)@) == entries(old(journal)@) + plan->Some_0.entries
                    &&& final(self).sealed() == old(self).sealed() + plan->Some_0.sealed
                    &&& final(self).segment_pcm() == plan->Some_0.consumed
                }
            },
            samples@.len() == 0 && old(self)@.open ==> r is Ok && final(journal)@ == old(journal)@,
    {
        let ch: usize = self.config.channels as usize;
        let ghost start_view = self@;
        let ghost start_journal = journal@;
        let ghost start_sealed = self.sealed();
        let ghost pcm = pcm_of_samples(samples@);
        let ghost capacity = self.frames_per_file as int;
        let ghost plan = self@.write_plan(self.segment_pcm(), pcm);
        proof {
            lemma_grows_by_nothing(start_journal, start_view.open);
            lemma_extends_add(start_view.stream, Seq::<i16>::empty());
            assert(start_view.stream + Seq::<i16>::empty() =~= start_view.stream);
        }
        if samples.len() % ch != 0 {
            return Err(WriterError::PartialFrame);
        }
        let total_frames: usize = samples.len() / ch;
        proof {
            lemma_fundamental_div_mod(samples@.len() as int, ch as int);
            assert(total_frames * ch == samples@.len()) by (nonlinear_arith)
                requires
                    samples@.len() == ch * (samples@.len() as int / ch as int) + 0,
                    total_frames == samples@.len() as int / ch as int,
            ;
            assert(pcm.len() == samples@.len());
        }
        let ghost mut done_entries: Seq<Entry> = Seq::empty();
        let ghost mut done_sealed: Seq<Seq<i16>> = Seq::empty();
        if self.enc.is_none() {
            match self.open_next(journal) {
                Err(e) => {
                    return Err(e);
                },
                Ok(()) => {},
            }
            proof {
                done_entries = seq![
                    Entry::Created(segment_path(start_view.prefix, start_view.segments)),
                ];
                assert(Seq::<Entry>::empty().push(
                    Entry::Created(segment_path(start_view.prefix, start_view.segments)),
                ) =~= done_entries);
            }
        } else {
            proof {
                let fed = feed(
                    start_view.config,
                    start_view.prefix,
                    start_view.capacity,
                    start_view.segments,
                    start_view.written,
                    self.segment_pcm(),
                    pcm,
                    total_frames as nat,
                    0,
                );
                assert(fed_after(done_entries, done_sealed, fed) =~= fed);
                assert(entries(start_journal) + done_entries =~= entries(start_journal));
            }
        }
        let ghost started = start_view.started();
        let ghost carried = start_view.carried();
        let ghost opening = if start_view.open {
            Seq::<Mark>::empty()
        } else {
            seq![Mark::Created(segment_path(start_view.prefix, start_view.segments))]
        };
        let mut frame_offset: usize = 0;
        let ghost mut rotations: nat = 0;
        proof {
            assert(start_sealed + done_sealed =~= start_sealed);
            assert(pcm.subrange(0, 0) =~= Seq::<i16>::empty());
            assert(marks(journal@) =~= marks(start_journal) + opening + rotation_marks(
                start_view.prefix,
                started,
                0,
            ));
        }
        while frame_offset < total_frames
            invariant
                self.wf(),
                self@.open,
                self@.prefix == start_view.prefix,
                self@.config == start_view.config,
                self@.capacity == start_view.capacity,
                capacity == self@.capacity,
                start_view.wf(),
                start_view == old(self)@,
                start_journal == old(journal)@,
                start_sealed == old(self).sealed(),
                ch == start_view.channels(),
                pcm == pcm_of_samples(samples@),
                pcm.len() == samples@.len(),
                total_frames * ch == samples@.len(),
                samples@.len() <= usize::MAX,
                samples@.len() % start_view.channels() == 0,
                samples@.len() / start_view.channels() == total_frames,
                frame_offset <= total_frames,
                started == start_view.started(),
                carried == start_view.carried(),
                self@.segments == started + rotations,
                rotations * capacity + self@.written == carried + frame_offset,
                self@.written == 0 ==> frame_offset < total_frames || (frame_offset == 0
                    && carried == 0),
                frame_offset * ch <= pcm.len(),
                self@.stream == start_view.stream + pcm.subrange(0, frame_offset * ch),
                journal_grows(journal@, start_journal, start_view.open, true),
                total_frames == 0 && start_view.open ==> journal@ == start_journal,
                opening == (if start_view.open {
                    Seq::<Mark>::empty()
                } else {
                    seq![Mark::Created(segment_path(start_view.prefix, start_view.segments))]
                }),
                marks(journal@) == marks(start_journal) + opening + rotation_marks(
                    start_view.prefix,
                    started,
                    rotations,
                ),
                plan == old(self)@.write_plan(old(self).segment_pcm(), pcm),
                plan == fed_after(
                    done_entries,
                    done_sealed,
                    feed(
                        start_view.config,
                        start_view.prefix,
                        start_view.capacity,
                        self@.segments,
                        self@.written,
                        self.segment_pcm(),
                        pcm,
                        total_frames as nat,
                        frame_offset as nat,
                    ),
                ),
                entries(journal@) == entries(start_journal) + done_entries,
                self.sealed() == start_sealed + done_sealed,
                old(self).in_step() ==> self.aligned(),
            decreases
                    total_frames - frame_offset,
                    (if self@.written == self@.capacity {
                        1int
                    } else {
                        0int
                    }),
        {
            let remaining: u64 = self.frames_per_file - self.written_frames;
            let ghost at = self@;
            let ghost at_consumed = self.segment_pcm();
            let ghost at_sealed = self.sealed();
            let ghost journal_before = journal@;
            let ghost here = feed(
                start_view.config,
                start_view.prefix,
                start_view.capacity,
                at.segments,
                at.written,
                at_consumed,
                pcm,
                total_frames as nat,
                frame_offset as nat,
            );
            if remaining == 0 {
                // Close current file & start next segment
                let rotated = self.open_next(journal);
                proof {
                    lemma_grows_transitive(
                        journal@,
                        journal_before,
                        start_journal,
                        start_view.open,
                        true,
                        self@.open,
                    );
                    lemma_extends_add(start_view.stream, pcm.subrange(0, frame_offset * ch));
                    lemma_feed_rotate(
                        start_view.config,
                        start_view.prefix,
                        start_view.capacity,
                        at.segments,
                        at.written,
                        at_consumed,
                        pcm,
                        total_frames as nat,
                        frame_offset as nat,
                    );
                }
                match rotated {
                    Err(e) => {
                        proof {
                            if e is SegmentsExhausted {
                                lemma_needs_more_segments(
                                    carried as int,
                                    frame_offset as int,
                                    total_frames as int,
                                    capacity,
                                    rotations as int,
                                );
                            }
                        }
                        return Err(e);
                    },
                    Ok(()) => {},
                }
                proof {
                    let tail = codec_tail(at.config, at_consumed)->Some_0;
                    let step = tail_entries(tail).push(
                        Entry::Created(segment_path(at.prefix, at.segments)),
                    );
                    let next = feed(
                        start_view.config,
                        start_view.prefix,
                        start_view.capacity,
                        self@.segments,
                        self@.written,
                        self.segment_pcm(),
                        pcm,
                        total_frames as nat,
                        frame_offset as nat,
                    );
                    assert(here == fed_after(step, seq![at_consumed], next));
                    lemma_fed_after_twice(done_entries, done_sealed, step, seq![at_consumed], next);
                    lemma_add_twice(
                        entries(start_journal),
                        done_entries,
                        step,
                        entries(journal_before),
                        entries(journal@),
                    );
                    assert(self.sealed() == at_sealed.push(at_consumed));
                    assert(at_sealed.push(at_consumed) =~= at_sealed + seq![at_consumed]);
                    lemma_add_twice(
                        start_sealed,
                        done_sealed,
                        seq![at_consumed],
                        at_sealed,
                        self.sealed(),
                    );
                    done_entries = done_entries + step;
                    done_sealed = done_sealed + seq![at_consumed];
                    assert((rotations + 1) * capacity == rotations * capacity + capacity)
                        by (nonlinear_arith);
                    lemma_marks_rotate(
                        marks(start_journal) + opening,
                        start_view.prefix,
                        started,
                        rotations,
                        marks(journal_before),
                        marks(journal@),
                    );
                    rotations = rotations + 1;
                }
            } else {
                let left: usize = total_frames - frame_offset;
                let take_frames: usize = if remaining < left as u64 {
                    remaining as usize
                } else {
                    left
                };
                proof {
                    assert((frame_offset + take_frames) * ch <= total_frames * ch && frame_offset
                        * ch <= (frame_offset + take_frames) * ch) by (nonlinear_arith)
                        requires
                            0 <= frame_offset,
                            0 <= take_frames,
                            frame_offset + take_frames <= total_frames,
                            ch >= 1,
                    ;
                    lemma_feed_take(
                        start_view.config,
                        start_view.prefix,
                        start_view.capacity,
                        at.segments,
                        at.written,
                        at_consumed,
                        pcm,
                        total_frames as nat,
                        frame_offset as nat,
                        take_frames as nat,
                    );
                    lemma_extends_add(start_view.stream, pcm.subrange(0, frame_offset * ch));
                }
                let ghost chunk = chunk_at(
                    start_view.config,
                    pcm,
                    frame_offset as nat,
                    take_frames as nat,
                );
                match self.encode_frames(samples, frame_offset, take_frames, journal) {
                    Err(e) => {
                        return Err(e);
                    },
                    Ok(()) => {},
                }
                proof {
                    let blocks = codec_blocks(start_view.config, at_consumed, chunk)->Some_0;
                    let step = block_entries(blocks);
                    let next = feed(
                        start_view.config,
                        start_view.prefix,
                        start_view.capacity,
                        self@.segments,
                        self@.written,
                        self.segment_pcm(),
                        pcm,
                        total_frames as nat,
                        (frame_offset + take_frames) as nat,
                    );
                    assert(here == fed_after(step, Seq::empty(), next));
                    lemma_fed_after_twice(done_entries, done_sealed, step, Seq::empty(), next);
                    lemma_add_twice(
                        entries(start_journal),
                        done_entries,
                        step,
                        entries(journal_before),
                        entries(journal@),
                    );
                    assert(at_sealed + Seq::<Seq<i16>>::empty() =~= at_sealed);
                    lemma_add_twice(
                        start_sealed,
                        done_sealed,
                        Seq::<Seq<i16>>::empty(),
                        at_sealed,
                        self.sealed(),
                    );
                    done_entries = done_entries + step;
                    done_sealed = done_sealed + Seq::<Seq<i16>>::empty();
                    lemma_grows_transitive(
                        journal@,
                        journal_before,
                        start_journal,
                        start_view.open,
                        true,
                        true,
                    );
                    assert(chunk == pcm.subrange(
                        frame_offset * ch,
                        (frame_offset + take_frames) * ch,
                    ));
                    lemma_subrange_joins(
                        start_view.stream,
                        pcm,
                        frame_offset * ch,
                        (frame_offset + take_frames) * ch,
                        at.stream,
                        self@.stream,
                    );
                }
                frame_offset = frame_offset + take_frames;
            }
        }
        proof {
            let frames = total_frames as nat;
            assert(pcm.subrange(0, pcm.len() as int) =~= pcm);
            if frames > 0 {
                lemma_fundamental_div_mod_converse(
                    carried + frames - 1,
                    capacity,
                    rotations as int,
                    self@.written - 1,
                );
            } else {
                assert(rotations == 0) by (nonlinear_arith)
                    requires
                        rotations * capacity + self@.written == carried,
                        self@.written == 0 ==> carried == 0,
                        carried <= capacity,
                        capacity >= 1,
                ;
            }
            assert(rotations == start_view.rotations(frames));
            lemma_extends_add(start_view.stream, pcm);
            assert(self@ =~= start_view.after_write(pcm));
            assert(marks(journal@) =~= marks(start_journal) + start_view.write_marks(frames));
            lemma_feed_done(
                start_view.config,
                start_view.prefix,
                start_view.capacity,
                self@.segments,
                self@.written,
                self.segment_pcm(),
                pcm,
                total_frames as nat,
                frame_offset as nat,
            );
            assert(plan =~= Some(
                Fed { entries: done_entries, sealed: done_sealed, consumed: self.segment_pcm() },
            ));
            if old(self).in_step() {
                assert(self@.frames() * ch == self@.stream.len());
            }
        }
        Ok(())
    }

    /// Converts `take_frames` frames of `samples` from frame `frame_offset`
    /// on, gives them to the encoder of the open segment and appends the
    /// blocks that it returns.
    fn encode_frames(
        &mut self,
        samples: &[u32],
        frame_offset: usize,
        take_frames: usize,
        journal: &mut Vec<SegmentOp>,
    ) -> (r: Result<(), WriterError>)
        requires
            old(self).wf(),
            old(self)@.open,
            1 <= take_frames,
            old(self)@.written + take_frames <= old(self)@.capacity,
            (frame_offset + take_frames) * old(self)@.channels() <= samples@.len(),
            samples@.len() <= usize::MAX,
        ensures
            final(self).wf(),
            final(self)@.open,
            final(self).sealed() == old(self).sealed(),
            journal_grows(final(journal)@, old(journal)@, true, true),
            marks(final(journal)@) == marks(old(journal)@),
            ({
                let chunk = chunk_at(
                    old(self)@.config,
                    pcm_of_samples(samples@),
                    frame_offset as nat,
                    take_frames as nat,
                );
                match codec_blocks(old(self)@.config, old(self).segment_pcm(), chunk) {
                    Some(blocks) => {
                        &&& r is Ok
                        &&& final(self)@ == (SplitterView {
                            written: old(self)@.written + take_frames as nat,
                            stream: old(self)@.stream + chunk,
                            ..old(self)@
                        })
                        &&& final(self).segment_pcm() == old(self).segment_pcm() + chunk
                        &&& entries(final(journal)@) == entries(old(journal)@) + block_entries(
                            blocks,
                        )
                        &&& old(self).aligned() ==> final(self).aligned()
                    },
                    None => {
                        &&& r is Err
                        &&& r->Err_0 is EncodeFailed
                        &&& final(self)@ == old(self)@
                        &&& final(journal)@ == old(journal)@
                    },
                }
            }),
    {
        let ch: usize = self.config.channels as usize;
        let ghost at = self@;
        let ghost pcm = pcm_of_samples(samples@);
        proof {
            lemma_grows_by_nothing(journal@, true);
            assert(frame_offset * ch <= (frame_offset + take_frames) * ch && frame_offset
                + take_frames <= (frame_offset + take_frames) * ch && (frame_offset + take_frames)
                * ch - frame_offset * ch == take_frames * ch) by (nonlinear_arith)
                requires
                    0 <= frame_offset,
                    0 <= take_frames,
                    ch >= 1,
            ;
        }
        let start: usize = frame_offset * ch;
        let end: usize = (frame_offset + take_frames) * ch;
        convert_samples(samples, start, end, &mut self.pcm_i16);
        let ghost chunk = pcm.subrange(start as int, end as int);
        let enc = self.enc.as_mut().unwrap();
        let encoded = encode_pcm(enc, &self.pcm_i16);
        let mp3_blocks = match encoded {
            Ok(blocks) => blocks,
            Err(e) => {
                return Err(WriterError::EncodeFailed { reason: error_text(&e) });
            },
        };
        append_blocks(mp3_blocks, journal);
        self.written_frames = self.written_frames + take_frames as u64;
        proof {
            self.stream = Ghost(self.stream@ + chunk);
            assert(chunk.len() == take_frames * ch);
            if old(self).aligned() {
                let k = at.capacity as int;
                let size = k * ch;
                assert(self@.stream.len() == ((self@.segments - 1) * k + self@.written) * ch)
                    by (nonlinear_arith)
                    requires
                        self@.stream.len() == at.stream.len() + take_frames * ch,
                        at.stream.len() == ((at.segments - 1) * k + at.written) * ch,
                        self@.segments == at.segments,
                        self@.written == at.written + take_frames,
                ;
                assert(0 <= at.segment_start() <= at.stream.len() && self.sealed().len() * size
                    <= at.stream.len()) by (nonlinear_arith)
                    requires
                        at.segment_start() == (at.segments - 1) * k * ch,
                        at.stream.len() == ((at.segments - 1) * k + at.written) * ch,
                        self.sealed().len() == at.segments - 1,
                        size == k * ch,
                        at.segments >= 1,
                        k >= 1,
                        ch >= 1,
                        at.written >= 0,
                ;
                assert(self@.stream.skip(self@.segment_start()) =~= at.stream.skip(
                    at.segment_start(),
                ) + chunk);
                lemma_chunks_stay(self.sealed(), at.stream, chunk, size);
            }
        }
        Ok(())
    }

    /// Convenience for mono: writes a buffer of one sample per frame.
    ///
    /// A writer with two channels turns the buffer down and nothing
    /// changes. Otherwise this is `write_f32_interleaved`.
    pub fn write_f32_mono(&mut self, samples: &[u32], journal: &mut Vec<SegmentOp>) -> (r: Result<
        (),
        WriterError,
    >)
        requires
            old(self).wf(),
        ensures
            final(self).wf(),
            final(self)@.prefix == old(self)@.prefix,
            final(self)@.config == old(self)@.config,
            final(self)@.capacity == old(self)@.capacity,
            final(self)@.segments >= old(self)@.segments,
            extends(final(self)@.stream, old(self)@.stream),
            journal_grows(final(journal)@, old(journal)@, old(self)@.open, final(self)@.open),
            old(self)@.channels() != 1 ==> {
                &&& r == Err::<(), WriterError>(WriterError::NotMono)
                &&& final(self)@ == old(self)@
                &&& final(self).segment_pcm() == old(self).segment_pcm()
                &&& final(self).sealed() == old(self).sealed()
                &&& final(journal)@ == old(journal)@
            },
            old(self)@.channels() == 1 ==> match r {
                Ok(()) => {
                    &&& final(self)@ == old(self)@.after_write(pcm_of_samples(samples@))
                    &&& marks(final(journal)@) == marks(old(journal)@) + old(self)@.write_marks(
                        samples@.len(),
                    )
                    &&& old(self).in_step() ==> final(self).in_step()
                },
                Err(e) => {
                    &&& e is SegmentsExhausted || e is EncodeFailed || e is FinishFailed
                    &&& e is SegmentsExhausted ==> old(self)@.after_write(
                        pcm_of_samples(samples@),
                    ).segments > u32::MAX
                    &&& old(self).in_step() ==> final(self).sealed_whole()
                },
            },
            old(self)@.channels() == 1 ==> {
                let plan = old(self)@.write_plan(
                    old(self).segment_pcm(),
                    pcm_of_samples(samples@),
                );
                &&& r is Ok <==> plan is Some
                &&& r is Ok ==> {
                    &&& entries(final(journal)@) == entries(old(journal)@) + plan->Some_0.entries
                    &&& final(self).sealed() == old(self).sealed() + plan->Some_0.sealed
                    &&& final(self).segment_pcm() == plan->Some_0.consumed
                }
            },
            samples@.len() == 0 && old(self)@.open && old(self)@.channels() == 1 ==> r is Ok
                && final(journal)@ == old(journal)@,
    {
        if self.config.channels != 1 {
            proof {
                lemma_extends_add(self@.stream, Seq::<i16>::empty());
                assert(self@.stream + Seq::<i16>::empty() =~= self@.stream);
                lemma_grows_by_nothing(journal@, self@.open);
            }
            return Err(WriterError::NotMono);
        }
        self.write_f32_interleaved(samples, journal)
    }

    /// Finishes the open segment, if there is one: the bytes with which
    /// its encoder ends the stream are appended once, if there are any, and
    /// the file is closed. Where the encoder fails the file is closed all
    /// the same. On a writer without an open segment this does nothing.
    pub fn finalize(self, journal: &mut Vec<SegmentOp>) -> (r: Result<(), WriterError>)
        requires
            self.wf(),
        ensures
            journal_grows(final(journal)@, old(journal)@, self@.open, false),
            marks(final(journal)@) == marks(old(journal)@) + self@.finish_marks(),
            entries(final(journal)@) == entries(old(journal)@) + self@.finish_entries(
                self.segment_pcm(),
            ),
            r is Ok <==> self@.finishes(self.segment_pcm()),
            !self@.open ==> final(journal)@ == old(journal)@,
            r is Err ==> r->Err_0 is FinishFailed,
    {
        let mut writer = self;
        writer.finish_current(journal)
    }

    /// How many segments have been started.
    pub fn segment_count(&self) -> (n: u32)
        ensures
            n == self@.segments,
    {
        self.index
    }

    /// Frames written to the open segment; 0 when none is open.
    pub fn frames_written(&self) -> (n: u64)
        ensures
            n == self@.written,
    {
        self.written_frames
    }

    /// Frames that a segment holds at most.
    pub fn capacity_frames(&self) -> (n: u64)
        ensures
            n == self@.capacity,
    {
        self.frames_per_file
    }

    /// Whether a segment is open.
    pub fn is_open(&self) -> (open: bool)
        ensures
            open == self@.open,
    {
        self.enc.is_some()
    }
}

/// Example settings for speech: 24 kHz mono at the given bitrate.
pub fn default_mono_24k_config(bitrate_kbps: u32) -> (config: EncoderConfig)
    ensures
        config == (EncoderConfig {
            sample_rate: SAMPLE_RATE,
            bitrate: bitrate_kbps,
            channels: CHANNELS,
            stereo_mode: StereoMode::Mono,
            copyright: false,
            original: true,
        }),
{
    let base = default_encoder_config();
    EncoderConfig {
        sample_rate: SAMPLE_RATE,
        bitrate: bitrate_kbps,
        channels: CHANNELS,
        stereo_mode: StereoMode::Mono,
        copyright: base.copyright,
        original: base.original,
    }
}

} // verus!
