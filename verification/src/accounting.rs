//! Frame accounting: the state of a segmented writer as numbers, what a
//! write does to it, and the laws that follow.

use crate::codec::{codec_blocks, codec_tail};
use crate::config::EncoderConfig;
use crate::journal::{block_entries, tail_entries, Entry, Mark};
use crate::naming::segment_path;
use vstd::arithmetic::div_mod::{
    lemma_div_basics_3, lemma_div_is_ordered, lemma_div_multiples_vanish, lemma_div_pos_is_pos,
    lemma_fundamental_div_mod, lemma_fundamental_div_mod_converse, lemma_mod_bound,
};
use vstd::prelude::*;

verus! {

/// The state of a writer.
pub struct SplitterView {
    /// The prefix of the segment files' paths.
    pub prefix: Seq<char>,
    /// The encoder settings.
    pub config: EncoderConfig,
    /// Frames per segment.
    pub capacity: nat,
    /// How many segments have been started.
    pub segments: nat,
    /// Whether a segment is open.
    pub open: bool,
    /// Frames written to the open segment.
    pub written: nat,
    /// All PCM samples accepted since the writer was made.
    pub stream: Seq<i16>,
}

impl SplitterView {
    /// Interleaved channels per frame.
    pub open spec fn channels(self) -> nat {
        self.config.channels as nat
    }

    /// The invariant of the counters.
    pub open spec fn wf(self) -> bool {
        &&& self.capacity >= 1
        &&& (self.channels() == 1 || self.channels() == 2)
        &&& self.written <= self.capacity
        &&& self.segments <= u32::MAX
        &&& (self.open ==> self.segments >= 1)
        &&& (!self.open ==> self.written == 0)
    }

    /// Frames that the segments started so far hold when each but the last
    /// is full.
    pub open spec fn frames(self) -> nat {
        if self.segments == 0 {
            0
        } else {
            ((self.segments - 1) * self.capacity + self.written) as nat
        }
    }

    /// Where in the stream the open segment begins.
    pub open spec fn segment_start(self) -> int {
        (self.segments - 1) * self.capacity * self.channels()
    }

    /// The state of a writer on which no operation has failed: every
    /// segment but the last is full, the last is not empty unless nothing
    /// was written at all, and the stream holds the frames of them all.
    pub open spec fn regular(self) -> bool {
        &&& self.stream.len() == self.frames() * self.channels()
        &&& (!self.open ==> self.segments == 0)
        &&& (self.segments > 1 ==> self.written >= 1)
    }

    /// Frames in the open segment once a closed writer has opened one.
    pub open spec fn carried(self) -> nat {
        if self.open {
            self.written
        } else {
            0
        }
    }

    /// Segments started once a closed writer has opened one.
    pub open spec fn started(self) -> nat {
        if self.open {
            self.segments
        } else {
            self.segments + 1
        }
    }

    /// How often a write of `frames` frames moves on to a new segment.
    pub open spec fn rotations(self, frames: nat) -> nat {
        if frames == 0 {
            0
        } else {
            ((self.carried() + frames - 1) / (self.capacity as int)) as nat
        }
    }

    /// The state after a successful write of the PCM samples `pcm`, a whole
    /// number of frames.
    pub open spec fn after_write(self, pcm: Seq<i16>) -> SplitterView {
        let frames = pcm.len() / self.channels();
        SplitterView {
            segments: self.started() + self.rotations(frames),
            open: true,
            written: if frames == 0 {
                self.carried()
            } else {
                ((self.carried() + frames - 1) % (self.capacity as int) + 1) as nat
            },
            stream: self.stream + pcm,
            ..self
        }
    }

    /// The state after the open segment, if any, has been finished.
    pub open spec fn after_finish(self) -> SplitterView {
        SplitterView { open: false, written: 0, ..self }
    }

    /// The boundary marks of finishing the open segment, if any.
    pub open spec fn finish_marks(self) -> Seq<Mark> {
        if self.open {
            seq![Mark::Closed]
        } else {
            Seq::empty()
        }
    }

    /// What a write of the PCM samples `pcm`, a whole number of frames,
    /// does beyond the counters when the encoder of the open segment, if
    /// there is one, has accepted `consumed`; `None` where the write fails.
    /// A closed writer creates its next segment first.
    pub open spec fn write_plan(self, consumed: Seq<i16>, pcm: Seq<i16>) -> Option<Fed> {
        let frames = pcm.len() / self.channels();
        if self.open {
            feed(
                self.config,
                self.prefix,
                self.capacity,
                self.segments,
                self.written,
                consumed,
                pcm,
                frames,
                0,
            )
        } else if self.segments >= u32::MAX {
            None
        } else {
            fed_after(
                seq![Entry::Created(segment_path(self.prefix, self.segments))],
                Seq::empty(),
                feed(
                    self.config,
                    self.prefix,
                    self.capacity,
                    self.segments + 1,
                    0,
                    Seq::empty(),
                    pcm,
                    frames,
                    0,
                ),
            )
        }
    }

    /// What finishing the open segment, if any, adds to the journal: the
    /// bytes that end the stream, if there are any, and the close; the
    /// close alone where the encoder fails.
    pub open spec fn finish_entries(self, consumed: Seq<i16>) -> Seq<Entry> {
        if self.open {
            match codec_tail(self.config, consumed) {
                Some(tail) => tail_entries(tail),
                None => seq![Entry::Closed],
            }
        } else {
            Seq::empty()
        }
    }

    /// Whether finishing the open segment, if any, succeeds.
    pub open spec fn finishes(self, consumed: Seq<i16>) -> bool {
        self.open ==> codec_tail(self.config, consumed) is Some
    }

    /// The boundary marks of a successful write of `frames` frames.
    pub open spec fn write_marks(self, frames: nat) -> Seq<Mark> {
        let opening = if self.open {
            Seq::empty()
        } else {
            seq![Mark::Created(segment_path(self.prefix, self.segments))]
        };
        opening + rotation_marks(self.prefix, self.started(), self.rotations(frames))
    }
}

/// What a run of frames does beyond the counters.
#[verifier::ext_equal]
pub struct Fed {
    /// What goes to the journal.
    pub entries: Seq<Entry>,
    /// The samples of the segments that are finished on the way, segment
    /// by segment.
    pub sealed: Seq<Seq<i16>>,
    /// The samples that the encoder of the open segment has accepted in
    /// the end.
    pub consumed: Seq<i16>,
}

/// What is done first, followed by what is done then, if that succeeds.
pub open spec fn fed_after(entries: Seq<Entry>, sealed: Seq<Seq<i16>>, then: Option<Fed>) -> Option<
    Fed,
> {
    match then {
        Some(fed) => Some(
            Fed {
                entries: entries + fed.entries,
                sealed: sealed + fed.sealed,
                consumed: fed.consumed,
            },
        ),
        None => None,
    }
}

/// What the frames of `pcm` from frame `done` on do to an open segment
/// with index `segments - 1`, which holds `written` frames and whose
/// encoder has accepted `consumed`; `None` where the encoder fails or no
/// segment index is left.
///
/// While frames are left: a full segment is finished, with the bytes that
/// end its stream, and the next is created; else the frames that fit go to
/// the encoder of the segment, and the blocks that it returns are
/// appended. The definition is opaque to the solver; `lemma_feed_done`,
/// `lemma_feed_rotate` and `lemma_feed_take` unfold it by one step.
#[verifier::opaque]
pub open spec fn feed(
    config: EncoderConfig,
    prefix: Seq<char>,
    capacity: nat,
    segments: nat,
    written: nat,
    consumed: Seq<i16>,
    pcm: Seq<i16>,
    frames: nat,
    done: nat,
) -> Option<Fed>
    decreases frames - done, (if written >= capacity {
        1nat
    } else {
        0nat
    }),
{
    let ch = config.channels as nat;
    if done >= frames {
        Some(Fed { entries: Seq::empty(), sealed: Seq::empty(), consumed })
    } else if capacity == 0 {
        None
    } else if written >= capacity {
        match codec_tail(config, consumed) {
            None => None,
            Some(tail) => if segments >= u32::MAX {
                None
            } else {
                fed_after(
                    tail_entries(tail).push(Entry::Created(segment_path(prefix, segments))),
                    seq![consumed],
                    feed(
                        config,
                        prefix,
                        capacity,
                        segments + 1,
                        0,
                        Seq::empty(),
                        pcm,
                        frames,
                        done,
                    ),
                )
            },
        }
    } else {
        let take = if capacity - written < frames - done {
            (capacity - written) as nat
        } else {
            (frames - done) as nat
        };
        let chunk = pcm.subrange((done * ch) as int, ((done + take) * ch) as int);
        match codec_blocks(config, consumed, chunk) {
            None => None,
            Some(blocks) => fed_after(
                block_entries(blocks),
                Seq::empty(),
                feed(
                    config,
                    prefix,
                    capacity,
                    segments,
                    written + take,
                    consumed + chunk,
                    pcm,
                    frames,
                    done + take,
                ),
            ),
        }
    }
}

/// The chunk of `take` frames of `pcm` from frame `done` on.
pub open spec fn chunk_at(config: EncoderConfig, pcm: Seq<i16>, done: nat, take: nat) -> Seq<i16> {
    let ch = config.channels as nat;
    pcm.subrange((done * ch) as int, ((done + take) * ch) as int)
}

/// When no frame is left, nothing is done.
pub proof fn lemma_feed_done(
    config: EncoderConfig,
    prefix: Seq<char>,
    capacity: nat,
    segments: nat,
    written: nat,
    consumed: Seq<i16>,
    pcm: Seq<i16>,
    frames: nat,
    done: nat,
)
    requires
        done >= frames,
    ensures
        feed(config, prefix, capacity, segments, written, consumed, pcm, frames, done) == Some(
            Fed { entries: Seq::empty(), sealed: Seq::empty(), consumed },
        ),
{
    reveal(feed);
}

/// With frames left, a full segment is finished and the next is created
/// before the rest is done.
pub proof fn lemma_feed_rotate(
    config: EncoderConfig,
    prefix: Seq<char>,
    capacity: nat,
    segments: nat,
    written: nat,
    consumed: Seq<i16>,
    pcm: Seq<i16>,
    frames: nat,
    done: nat,
)
    requires
        done < frames,
        1 <= capacity <= written,
    ensures
        feed(config, prefix, capacity, segments, written, consumed, pcm, frames, done) == (
        match codec_tail(config, consumed) {
            None => None,
            Some(tail) => if segments >= u32::MAX {
                None
            } else {
                fed_after(
                    tail_entries(tail).push(Entry::Created(segment_path(prefix, segments))),
                    seq![consumed],
                    feed(
                        config,
                        prefix,
                        capacity,
                        segments + 1,
                        0,
                        Seq::empty(),
                        pcm,
                        frames,
                        done,
                    ),
                )
            },
        }),
{
    reveal(feed);
}

/// With frames left and room in the segment, the frames that fit go to
/// the encoder before the rest is done.
pub proof fn lemma_feed_take(
    config: EncoderConfig,
    prefix: Seq<char>,
    capacity: nat,
    segments: nat,
    written: nat,
    consumed: Seq<i16>,
    pcm: Seq<i16>,
    frames: nat,
    done: nat,
    take: nat,
)
    requires
        done < frames,
        written < capacity,
        take == if capacity - written < frames - done {
            capacity - written
        } else {
            frames - done
        },
    ensures
        feed(config, prefix, capacity, segments, written, consumed, pcm, frames, done) == (
        match codec_blocks(config, consumed, chunk_at(config, pcm, done, take)) {
            None => None,
            Some(blocks) => fed_after(
                block_entries(blocks),
                Seq::empty(),
                feed(
                    config,
                    prefix,
                    capacity,
                    segments,
                    written + take,
                    consumed + chunk_at(config, pcm, done, take),
                    pcm,
                    frames,
                    done + take,
                ),
            ),
        }),
{
    reveal(feed);
}

/// Segments that hold their chunks of a stream hold them of a longer
/// stream too.
pub proof fn lemma_chunks_stay(sealed: Seq<Seq<i16>>, stream: Seq<i16>, more: Seq<i16>, size: int)
    requires
        size >= 0,
        sealed.len() * size <= stream.len(),
        forall|i: int|
            0 <= i < sealed.len() ==> #[trigger] sealed[i] == stream.subrange(
                i * size,
                (i + 1) * size,
            ),
    ensures
        forall|i: int|
            0 <= i < sealed.len() ==> #[trigger] sealed[i] == (stream + more).subrange(
                i * size,
                (i + 1) * size,
            ),
{
    assert forall|i: int| 0 <= i < sealed.len() implies #[trigger] sealed[i] == (stream
        + more).subrange(i * size, (i + 1) * size) by {
        assert(0 <= i * size <= (i + 1) * size <= sealed.len() * size) by (nonlinear_arith)
            requires
                0 <= i < sealed.len(),
                size >= 0,
        ;
        assert((stream + more).subrange(i * size, (i + 1) * size) =~= stream.subrange(
            i * size,
            (i + 1) * size,
        ));
    }
}

/// Doing one thing, then another, then the rest is doing both and then
/// the rest.
pub proof fn lemma_fed_after_twice(
    first: Seq<Entry>,
    sealed_first: Seq<Seq<i16>>,
    second: Seq<Entry>,
    sealed_second: Seq<Seq<i16>>,
    then: Option<Fed>,
)
    ensures
        fed_after(first, sealed_first, fed_after(second, sealed_second, then)) == fed_after(
            first + second,
            sealed_first + sealed_second,
            then,
        ),
{
    match then {
        Some(fed) => {
            assert(first + (second + fed.entries) =~= (first + second) + fed.entries);
            assert(sealed_first + (sealed_second + fed.sealed) =~= (sealed_first + sealed_second)
                + fed.sealed);
        },
        None => {},
    }
}

/// The boundary marks of `count` rotations, the first of which creates the
/// segment with index `first`.
pub open spec fn rotation_marks(prefix: Seq<char>, first: nat, count: nat) -> Seq<Mark>
    decreases count,
{
    if count == 0 {
        Seq::empty()
    } else {
        rotation_marks(prefix, first, (count - 1) as nat) + seq![
            Mark::Closed,
            Mark::Created(segment_path(prefix, (first + count - 1) as nat)),
        ]
    }
}

/// A write that finds its segment full with frames left needs a segment
/// beyond those started so far.
pub proof fn lemma_needs_more_segments(
    carried: int,
    done: int,
    total: int,
    capacity: int,
    rotations: int,
)
    requires
        capacity >= 1,
        0 <= done < total,
        0 <= carried,
        0 <= rotations,
        rotations * capacity + capacity == carried + done,
    ensures
        (carried + total - 1) / capacity >= rotations + 1,
{
    assert((rotations + 1) * capacity == carried + done) by (nonlinear_arith)
        requires
            rotations * capacity + capacity == carried + done,
    ;
    lemma_div_multiples_vanish(rotations + 1, capacity);
    lemma_div_is_ordered(
        (rotations + 1) * capacity,
        carried + total - 1,
        capacity,
    );
}

/// Frame accounting. A writer on which nothing has failed and which has
/// taken `frames > 0` frames has started `frames / capacity` segments,
/// rounded up: no segment is left empty at the end, also when the frames
/// fill the last one exactly.
pub proof fn law_segment_count(v: SplitterView, frames: nat)
    requires
        v.wf(),
        v.regular(),
        frames > 0,
        v.stream.len() == frames * v.channels(),
    ensures
        frames % v.capacity == 0 ==> v.segments == frames / v.capacity,
        frames % v.capacity != 0 ==> v.segments == frames / v.capacity + 1,
{
    let k = v.capacity as int;
    let ch = v.channels() as int;
    assert(frames == v.frames()) by (nonlinear_arith)
        requires
            frames * ch == v.frames() * ch,
            ch >= 1,
    ;
    assert(v.segments >= 1);
    if v.segments == 1 {
        assert((v.segments - 1) * k == 0) by (nonlinear_arith)
            requires
                v.segments == 1,
        ;
    }
    assert(v.written >= 1);
    if v.written == v.capacity {
        assert(frames == v.segments * k) by (nonlinear_arith)
            requires
                frames == (v.segments - 1) * k + k,
        ;
        lemma_fundamental_div_mod_converse(frames as int, k, v.segments as int, 0);
    } else {
        lemma_fundamental_div_mod_converse(
            frames as int,
            k,
            v.segments - 1,
            v.written as int,
        );
    }
}

/// A write on which nothing fails leaves the writer in a state in which
/// every segment but the last is full and the last is not empty, if it was
/// in such a state before.
pub proof fn law_write_keeps_regular(v: SplitterView, pcm: Seq<i16>)
    requires
        v.wf(),
        v.regular(),
        pcm.len() % v.channels() == 0,
        v.after_write(pcm).segments <= u32::MAX,
    ensures
        v.after_write(pcm).wf(),
        v.after_write(pcm).regular(),
{
    let k = v.capacity as int;
    let ch = v.channels() as int;
    let frames = pcm.len() as int / ch;
    let after = v.after_write(pcm);
    law_capacity_bound(v, pcm);
    lemma_fundamental_div_mod(pcm.len() as int, ch);
    lemma_div_pos_is_pos(pcm.len() as int, ch);
    if frames > 0 {
        let x = v.carried() + frames - 1;
        lemma_fundamental_div_mod(x, k);
        lemma_div_pos_is_pos(x, k);
        lemma_mod_bound(x, k);
        assert(after.frames() == v.frames() + frames) by (nonlinear_arith)
            requires
                after.frames() == (after.segments - 1) * k + after.written,
                after.segments == v.started() + x / k,
                after.written == x % k + 1,
                x == k * (x / k) + x % k,
                x == v.carried() + frames - 1,
                v.frames() == (v.started() - 1) * k + v.carried(),
        ;
    } else {
        assert(after.frames() == v.frames()) by (nonlinear_arith)
            requires
                after.frames() == (after.segments - 1) * k + after.written,
                after.segments == v.started(),
                after.written == v.carried(),
                v.frames() == (v.started() - 1) * k + v.carried(),
        ;
    }
    assert(after.stream.len() == after.frames() * ch) by (nonlinear_arith)
        requires
            after.stream.len() == v.stream.len() + pcm.len(),
            v.stream.len() == v.frames() * ch,
            pcm.len() == ch * frames,
            after.frames() == v.frames() + frames,
    ;
}

/// Capacity bound. After a write no segment holds more frames than the
/// capacity, and a write that finds the open segment full starts a new
/// segment before it takes a frame: what it adds to the open segment are
/// frames of this write alone.
pub proof fn law_capacity_bound(v: SplitterView, pcm: Seq<i16>)
    requires
        v.wf(),
        pcm.len() % v.channels() == 0,
    ensures
        1 <= v.after_write(pcm).segments,
        v.after_write(pcm).written <= v.capacity,
        v.open && v.written == v.capacity && pcm.len() > 0 ==> {
            &&& v.after_write(pcm).segments > v.segments
            &&& v.after_write(pcm).written <= pcm.len() / v.channels()
        },
{
    let k = v.capacity as int;
    let ch = v.channels() as int;
    let frames = pcm.len() as int / ch;
    lemma_fundamental_div_mod(pcm.len() as int, ch);
    if frames > 0 {
        let x = v.carried() + frames - 1;
        lemma_fundamental_div_mod(x, k);
        lemma_mod_bound(x, k);
        lemma_div_pos_is_pos(x, k);
        if v.open && v.written == v.capacity {
            lemma_div_is_ordered(k, x, k);
            lemma_div_basics_3(k);
            assert(x / k >= 1);
            assert(k * (x / k) >= k) by (nonlinear_arith)
                requires
                    x / k >= 1,
                    k >= 1,
            ;
        }
    } else {
        assert(pcm.len() == 0) by (nonlinear_arith)
            requires
                pcm.len() == ch * frames + 0,
                frames <= 0,
                ch >= 1,
                pcm.len() >= 0,
        ;
    }
}

/// The marks of one more rotation.
pub proof fn lemma_marks_rotate(
    base: Seq<Mark>,
    prefix: Seq<char>,
    started: nat,
    rotations: nat,
    before: Seq<Mark>,
    after: Seq<Mark>,
)
    requires
        before == base + rotation_marks(prefix, started, rotations),
        after == before + seq![Mark::Closed] + seq![
            Mark::Created(segment_path(prefix, started + rotations)),
        ],
    ensures
        after == base + rotation_marks(prefix, started, rotations + 1),
{
    assert(rotation_marks(prefix, started, rotations + 1) == rotation_marks(
        prefix,
        started,
        rotations,
    ) + seq![Mark::Closed, Mark::Created(segment_path(prefix, started + rotations))]);
    assert(after =~= base + rotation_marks(prefix, started, rotations + 1));
}

/// Rotations one run after the other are one run of rotations.
pub proof fn lemma_rotation_marks_add(prefix: Seq<char>, first: nat, a: nat, b: nat)
    ensures
        rotation_marks(prefix, first, a + b) == rotation_marks(prefix, first, a) + rotation_marks(
            prefix,
            first + a,
            b,
        ),
    decreases b,
{
    if b == 0 {
        assert(rotation_marks(prefix, first, a) + rotation_marks(prefix, first + a, 0)
            =~= rotation_marks(prefix, first, a));
    } else {
        lemma_rotation_marks_add(prefix, first, a, (b - 1) as nat);
        let last = seq![
            Mark::Closed,
            Mark::Created(segment_path(prefix, (first + a + b - 1) as nat)),
        ];
        assert(rotation_marks(prefix, first, a + b) == rotation_marks(
            prefix,
            first,
            (a + b - 1) as nat,
        ) + last);
        assert(rotation_marks(prefix, first + a, b) == rotation_marks(
            prefix,
            first + a,
            (b - 1) as nat,
        ) + last);
        assert((rotation_marks(prefix, first, a) + rotation_marks(
            prefix,
            first + a,
            (b - 1) as nat,
        )) + last =~= rotation_marks(prefix, first, a) + (rotation_marks(
            prefix,
            first + a,
            (b - 1) as nat,
        ) + last));
    }
}

/// Segment boundaries do not depend on how the frames are cut into writes:
/// two writes leave the writer where one write of both buffers leaves it,
/// and they create and close the same files.
pub proof fn law_write_boundaries(v: SplitterView, first: Seq<i16>, second: Seq<i16>)
    requires
        v.wf(),
        first.len() % v.channels() == 0,
        second.len() % v.channels() == 0,
    ensures
        v.after_write(first).after_write(second) == v.after_write(first + second),
        v.write_marks(first.len() / v.channels()) + v.after_write(first).write_marks(
            second.len() / v.channels(),
        ) == v.write_marks((first + second).len() / v.channels()),
{
    let k = v.capacity as int;
    let ch = v.channels() as int;
    let fa = first.len() as int / ch;
    let fb = second.len() as int / ch;
    lemma_fundamental_div_mod(first.len() as int, ch);
    lemma_fundamental_div_mod(second.len() as int, ch);
    assert((first + second).len() == ch * (fa + fb)) by (nonlinear_arith)
        requires
            (first + second).len() == first.len() + second.len(),
            first.len() == ch * fa,
            second.len() == ch * fb,
    ;
    lemma_fundamental_div_mod_converse((first + second).len() as int, ch, fa + fb, 0);
    lemma_div_pos_is_pos(first.len() as int, ch);
    lemma_div_pos_is_pos(second.len() as int, ch);
    let mid = v.after_write(first);
    law_capacity_bound(v, first);
    assert((v.stream + first) + second =~= v.stream + (first + second));
    if fa > 0 && fb > 0 {
        let x = v.carried() + fa - 1;
        let y = mid.written + fb - 1;
        lemma_fundamental_div_mod(x, k);
        lemma_fundamental_div_mod(y, k);
        lemma_mod_bound(y, k);
        lemma_div_pos_is_pos(x, k);
        lemma_div_pos_is_pos(y, k);
        let z = v.carried() + fa + fb - 1;
        assert(z == (x / k + y / k) * k + y % k) by (nonlinear_arith)
            requires
                x == k * (x / k) + x % k,
                y == k * (y / k) + y % k,
                y == x % k + 1 + fb - 1,
                z == x + fb,
        ;
        lemma_fundamental_div_mod_converse(z, k, x / k + y / k, y % k);
    }
    let opening = if v.open {
        Seq::<Mark>::empty()
    } else {
        seq![Mark::Created(segment_path(v.prefix, v.segments))]
    };
    lemma_rotation_marks_add(v.prefix, v.started(), v.rotations(fa as nat), mid.rotations(fb as nat));
    assert(v.rotations((fa + fb) as nat) == v.rotations(fa as nat) + mid.rotations(fb as nat));
    assert((opening + rotation_marks(v.prefix, v.started(), v.rotations(fa as nat))) + (Seq::<
        Mark,
    >::empty() + rotation_marks(v.prefix, mid.started(), mid.rotations(fb as nat))) =~= opening + (
    rotation_marks(v.prefix, v.started(), v.rotations(fa as nat)) + rotation_marks(
        v.prefix,
        mid.started(),
        mid.rotations(fb as nat),
    )));
}

/// A full segment takes no more. A write of at least one frame that finds
/// the open segment full finishes that segment first, with the bytes that
/// end its stream, and seals it with what its encoder had accepted before;
/// then it creates the next segment, whose encoder starts with nothing and
/// takes the frames from the first on.
pub proof fn law_full_segment_rotates_first(v: SplitterView, consumed: Seq<i16>, pcm: Seq<i16>)
    requires
        v.wf(),
        v.open,
        v.written == v.capacity,
        pcm.len() / v.channels() >= 1,
    ensures
        v.write_plan(consumed, pcm) == (match codec_tail(v.config, consumed) {
            None => None,
            Some(tail) => if v.segments >= u32::MAX {
                None
            } else {
                fed_after(
                    tail_entries(tail).push(Entry::Created(segment_path(v.prefix, v.segments))),
                    seq![consumed],
                    feed(
                        v.config,
                        v.prefix,
                        v.capacity,
                        v.segments + 1,
                        0,
                        Seq::empty(),
                        pcm,
                        pcm.len() / v.channels(),
                        0,
                    ),
                )
            },
        }),
{
    lemma_feed_rotate(
        v.config,
        v.prefix,
        v.capacity,
        v.segments,
        v.written,
        consumed,
        pcm,
        pcm.len() / v.channels(),
        0,
    );
}

/// Finishing is idempotent: finishing a finished writer changes nothing
/// and asks for no file operation.
pub proof fn law_finish_twice(v: SplitterView)
    ensures
        v.after_finish().after_finish() == v.after_finish(),
        v.after_finish().finish_marks() == Seq::<Mark>::empty(),
{
}

} // verus!
