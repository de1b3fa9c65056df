//! The journal of file operations.
//!
//! The writer does not touch the file system. It appends the operations
//! that are due to a journal, and the caller carries them out in order.

use crate::codec::block_views;
use vstd::prelude::*;

verus! {

/// A file operation that the writer asks for.
#[derive(Debug, Clone, PartialEq, Eq)]
pub enum SegmentOp {
    /// Create the file of a new segment and make it the current file.
    Create { path: String },
    /// Append bytes to the current file.
    Append { bytes: Vec<u8> },
    /// Flush and close the current file.
    Close,
}

/// What a file operation says: the path to create, the bytes to append,
/// or that the file is closed.
pub enum Entry {
    Created(Seq<char>),
    Appended(Seq<u8>),
    Closed,
}

/// What one file operation says.
pub open spec fn entry(op: SegmentOp) -> Entry {
    match op {
        SegmentOp::Create { path } => Entry::Created(path@),
        SegmentOp::Append { bytes } => Entry::Appended(bytes@),
        SegmentOp::Close => Entry::Closed,
    }
}

/// What a journal says, operation by operation.
pub open spec fn entries(ops: Seq<SegmentOp>) -> Seq<Entry> {
    Seq::new(ops.len(), |i: int| entry(ops[i]))
}

/// One `Appended` entry for each block, in order.
pub open spec fn block_entries(blocks: Seq<Seq<u8>>) -> Seq<Entry> {
    Seq::new(blocks.len(), |i: int| Entry::Appended(blocks[i]))
}

/// The entries that end the file of a segment: the last bytes, if there
/// are any, and the close.
pub open spec fn tail_entries(tail: Seq<u8>) -> Seq<Entry> {
    if tail.len() > 0 {
        seq![Entry::Appended(tail), Entry::Closed]
    } else {
        seq![Entry::Closed]
    }
}

/// The entries of a journal with one more operation.
pub proof fn lemma_entries_push(ops: Seq<SegmentOp>, op: SegmentOp)
    ensures
        entries(ops.push(op)) == entries(ops).push(entry(op)),
{
    assert(entries(ops.push(op)) =~= entries(ops).push(entry(op)));
}

/// What a journal says of segment boundaries: the operations that are no
/// `Append`.
pub enum Mark {
    Created(Seq<char>),
    Closed,
}

/// The boundary marks of a journal, in order.
pub open spec fn marks(ops: Seq<SegmentOp>) -> Seq<Mark>
    decreases ops.len(),
{
    if ops.len() == 0 {
        Seq::empty()
    } else {
        let before = marks(ops.drop_last());
        match ops.last() {
            SegmentOp::Create { path } => before.push(Mark::Created(path@)),
            SegmentOp::Append { .. } => before,
            SegmentOp::Close => before.push(Mark::Closed),
        }
    }
}

/// The marks of a journal with one more operation.
pub proof fn lemma_marks_push(ops: Seq<SegmentOp>, op: SegmentOp)
    ensures
        marks(ops.push(op)) == match op {
            SegmentOp::Create { path } => marks(ops).push(Mark::Created(path@)),
            SegmentOp::Append { .. } => marks(ops),
            SegmentOp::Close => marks(ops).push(Mark::Closed),
        },
{
    assert(ops.push(op).drop_last() =~= ops);
}

/// Whether `longer` starts with `shorter`.
pub open spec fn extends<T>(longer: Seq<T>, shorter: Seq<T>) -> bool {
    shorter.len() <= longer.len() && longer.subrange(0, shorter.len() as int) == shorter
}

/// A sequence that extends one that extends a third extends the third.
pub proof fn lemma_extends_transitive<T>(a: Seq<T>, b: Seq<T>, c: Seq<T>)
    requires
        extends(a, b),
        extends(b, c),
    ensures
        extends(a, c),
{
    assert(a.subrange(0, c.len() as int) =~= a.subrange(0, b.len() as int).subrange(
        0,
        c.len() as int,
    ));
}

/// Adding to a sum of two sequences is adding the sum of the last two.
pub proof fn lemma_add_twice<T>(start: Seq<T>, done: Seq<T>, step: Seq<T>, before: Seq<T>, after: Seq<T>)
    requires
        before == start + done,
        after == before + step,
    ensures
        after == start + (done + step),
{
    assert((start + done) + step =~= start + (done + step));
}

/// What a sequence holds up to a point, and on to a later point, it holds
/// up to the later point.
pub proof fn lemma_subrange_joins<T>(
    start: Seq<T>,
    s: Seq<T>,
    a: int,
    b: int,
    before: Seq<T>,
    after: Seq<T>,
)
    requires
        0 <= a <= b <= s.len(),
        before == start + s.subrange(0, a),
        after == before + s.subrange(a, b),
    ensures
        after == start + s.subrange(0, b),
{
    assert(s.subrange(0, a) + s.subrange(a, b) =~= s.subrange(0, b));
    assert((start + s.subrange(0, a)) + s.subrange(a, b) =~= start + s.subrange(0, b));
}

/// A sequence with more at its end extends the sequence.
pub proof fn lemma_extends_add<T>(a: Seq<T>, b: Seq<T>)
    ensures
        extends(a + b, a),
{
    assert((a + b).subrange(0, a.len() as int) =~= a);
}

/// Whether a file is open after the operations, given whether one was open
/// before them.
pub open spec fn open_after(ops: Seq<SegmentOp>, open: bool) -> bool
    decreases ops.len(),
{
    if ops.len() == 0 {
        open
    } else {
        match ops.last() {
            SegmentOp::Create { .. } => true,
            SegmentOp::Append { .. } => open_after(ops.drop_last(), open),
            SegmentOp::Close => false,
        }
    }
}

/// Whether the operations can be carried out in order, given whether a file
/// is open before them: a file is created only while none is open, and
/// bytes are appended and the file is closed only while one is.
pub open spec fn performable(ops: Seq<SegmentOp>, open: bool) -> bool
    decreases ops.len(),
{
    if ops.len() == 0 {
        true
    } else {
        &&& performable(ops.drop_last(), open)
        &&& (ops.last() is Create) != open_after(ops.drop_last(), open)
    }
}

/// Whether the journal `after` is the journal `before` with operations at
/// its end that can be carried out when a file was open or not as
/// `was_open` says, and that leave one open or not as `is_open` says.
pub open spec fn journal_grows(
    after: Seq<SegmentOp>,
    before: Seq<SegmentOp>,
    was_open: bool,
    is_open: bool,
) -> bool {
    &&& extends(after, before)
    &&& performable(after.skip(before.len() as int), was_open)
    &&& open_after(after.skip(before.len() as int), was_open) == is_open
}

/// A journal grows from itself by nothing.
pub proof fn lemma_grows_by_nothing(journal: Seq<SegmentOp>, open: bool)
    ensures
        journal_grows(journal, journal, open, open),
{
    assert(journal.subrange(0, journal.len() as int) =~= journal);
    assert(journal.skip(journal.len() as int) =~= Seq::<SegmentOp>::empty());
}

/// A journal that has grown grows by one more operation that fits.
pub proof fn lemma_grows_by_one(
    journal: Seq<SegmentOp>,
    before: Seq<SegmentOp>,
    op: SegmentOp,
    was_open: bool,
    is_open: bool,
)
    requires
        journal_grows(journal, before, was_open, is_open),
        (op is Create) != is_open,
    ensures
        journal_grows(
            journal.push(op),
            before,
            was_open,
            match op {
                SegmentOp::Create { .. } => true,
                SegmentOp::Append { .. } => is_open,
                SegmentOp::Close => false,
            },
        ),
{
    let added = journal.push(op).skip(before.len() as int);
    assert(added.drop_last() =~= journal.skip(before.len() as int));
    assert(added.last() == op);
    assert(journal.push(op).subrange(0, before.len() as int) =~= journal.subrange(
        0,
        before.len() as int,
    ));
}

/// Operations that can be carried out one run after the other can be
/// carried out as one run.
pub proof fn lemma_performable_add(first: Seq<SegmentOp>, second: Seq<SegmentOp>, open: bool)
    requires
        performable(first, open),
        performable(second, open_after(first, open)),
    ensures
        performable(first + second, open),
        open_after(first + second, open) == open_after(second, open_after(first, open)),
    decreases second.len(),
{
    if second.len() == 0 {
        assert(first + second =~= first);
    } else {
        lemma_performable_add(first, second.drop_last(), open);
        assert((first + second).drop_last() =~= first + second.drop_last());
        assert((first + second).last() == second.last());
    }
}

/// A journal that has grown from one that has grown has grown from the
/// first.
pub proof fn lemma_grows_transitive(
    last: Seq<SegmentOp>,
    middle: Seq<SegmentOp>,
    first: Seq<SegmentOp>,
    open_first: bool,
    open_middle: bool,
    open_last: bool,
)
    requires
        journal_grows(middle, first, open_first, open_middle),
        journal_grows(last, middle, open_middle, open_last),
    ensures
        journal_grows(last, first, open_first, open_last),
{
    lemma_extends_transitive(last, middle, first);
    assert(last.skip(first.len() as int) =~= middle.skip(first.len() as int) + last.skip(
        middle.len() as int,
    )) by {
        assert(middle =~= last.subrange(0, middle.len() as int));
    }
    lemma_performable_add(
        middle.skip(first.len() as int),
        last.skip(middle.len() as int),
        open_first,
    );
}

/// Appends one `Append` operation for each block to the journal.
pub fn append_blocks(blocks: Vec<Vec<u8>>, journal: &mut Vec<SegmentOp>)
    ensures
        final(journal)@.len() == old(journal)@.len() + blocks@.len(),
        extends(final(journal)@, old(journal)@),
        forall|i: int|
            0 <= i < blocks@.len() ==> #[trigger] final(journal)@[old(journal)@.len() + i]
                == (SegmentOp::Append { bytes: blocks@[i] }),
        marks(final(journal)@) == marks(old(journal)@),
        journal_grows(final(journal)@, old(journal)@, true, true),
        entries(final(journal)@) == entries(old(journal)@) + block_entries(block_views(blocks@)),
{
    let mut blocks = blocks;
    let ghost all = blocks@;
    let ghost before = journal@;
    let mut rest: Vec<Vec<u8>> = Vec::new();
    // Blocks leave `blocks` from its end, so turn it round first.
    while blocks.len() > 0
        invariant
            blocks@.len() + rest@.len() == all.len(),
            forall|i: int| 0 <= i < blocks@.len() ==> blocks@[i] == all[i],
            forall|i: int|
                0 <= i < rest@.len() ==> #[trigger] rest@[i] == all[all.len() - 1 - i],
        decreases blocks@.len(),
    {
        let block = blocks.pop().unwrap();
        rest.push(block);
    }
    assert(journal@.subrange(0, before.len() as int) =~= before);
    proof {
        lemma_grows_by_nothing(before, true);
    }
    while rest.len() > 0
        invariant
            journal_grows(journal@, before, true, true),
            rest@.len() <= all.len(),
            forall|i: int|
                0 <= i < rest@.len() ==> #[trigger] rest@[i] == all[all.len() - 1 - i],
            journal@.len() == before.len() + all.len() - rest@.len(),
            extends(journal@, before),
            forall|i: int|
                0 <= i < all.len() - rest@.len() ==> #[trigger] journal@[before.len() + i]
                    == (SegmentOp::Append { bytes: all[i] }),
            marks(journal@) == marks(before),
        decreases rest@.len(),
    {
        let ghost prior = journal@;
        let block = rest.pop().unwrap();
        journal.push(SegmentOp::Append { bytes: block });
        proof {
            lemma_marks_push(prior, SegmentOp::Append { bytes: block });
            lemma_grows_by_one(prior, before, SegmentOp::Append { bytes: block }, true, true);
        }
    }
    proof {
        let told = entries(before) + block_entries(block_views(all));
        assert(entries(journal@).len() == told.len());
        assert forall|i: int| 0 <= i < told.len() implies entries(journal@)[i] == told[i] by {
            if i < before.len() {
                assert(journal@.subrange(0, before.len() as int)[i] == journal@[i]);
            } else {
                assert(journal@[before.len() + (i - before.len())] == (SegmentOp::Append {
                    bytes: all[i - before.len()],
                }));
            }
        }
        assert(entries(journal@) =~= told);
    }
}

/// Ends the file of a segment: the bytes with which the encoder ends its
/// stream are appended, if there are any, and the file is closed.
pub fn append_tail(tail: Vec<u8>, journal: &mut Vec<SegmentOp>)
    ensures
        final(journal)@ == if tail@.len() > 0 {
            old(journal)@.push(SegmentOp::Append { bytes: tail }).push(SegmentOp::Close)
        } else {
            old(journal)@.push(SegmentOp::Close)
        },
        marks(final(journal)@) == marks(old(journal)@).push(Mark::Closed),
        journal_grows(final(journal)@, old(journal)@, true, false),
        entries(final(journal)@) == entries(old(journal)@) + tail_entries(tail@),
{
    let ghost before = journal@;
    proof {
        lemma_grows_by_nothing(before, true);
    }
    if tail.len() > 0 {
        journal.push(SegmentOp::Append { bytes: tail });
        proof {
            lemma_marks_push(before, SegmentOp::Append { bytes: tail });
            lemma_grows_by_one(before, before, SegmentOp::Append { bytes: tail }, true, true);
        }
    }
    let ghost appended = journal@;
    journal.push(SegmentOp::Close);
    proof {
        lemma_marks_push(appended, SegmentOp::Close);
        lemma_grows_by_one(appended, before, SegmentOp::Close, true, true);
        assert(entries(journal@) =~= entries(before) + tail_entries(tail@));
    }
}

} // verus!
