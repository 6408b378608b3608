//! What the words of the contracts come to.
//!
//! The contracts speak of models and of relations between them. The laws here
//! say of each such word what a caller sees of it, in terms of the bytes, counts
//! and buffers that go in and come out.

use crate::arena::{on_heap, room, written};
use crate::error::Error;
use crate::laws::{ReadStep, WriteStep};
use crate::pieces::{
    extended, heap_with_new_tail, lemma_flatten, lemma_flatten_extend_last, lemma_flatten_first,
    lemma_flatten_new_tail, lemma_offset_prefix, lemma_run, lemma_unconsumed, min, offset,
    with_new_tail,
};
use crate::reader::{
    answered, encoded, filled, fits, fresh, held, lemma_advanced, received_more, ReaderModel,
};
use crate::segments::{
    heaps, lemma_new_tail, linked, next_size, pieces, received, receives, reserved, spare, Segment,
};
use crate::shared::{
    byte_seen, bytes_read, bytes_seen, left, moved_on, skipped, text_read,
};
use crate::writer::{
    appended, lemma_tail_filled, opened_in_turn, reserves, size_after, stored, WriterModel,
};
use brz_ds::EphemeralBytesMut;
use vstd::prelude::*;
use vstd::string::StringSliceAdditionalSpecFns;
use vstd::utf8::valid_utf8;

verus! {

/// The smaller of two numbers is one of them and exceeds none.
pub proof fn lemma_min(a: int, b: int)
    ensures
        min(a, b) <= a,
        min(a, b) <= b,
        min(a, b) == a || min(a, b) == b,
{
}

/// The contents of a writer are its segments joined, and what it still takes and
/// what it holds add up to its limit.
pub proof fn lemma_writer_contents(model: WriterModel)
    ensures
        model.contents().len() + model.remaining() == model.limit,
        offset(model.pieces, model.pieces.len() as int) == model.contents().len(),
        forall|i: int|
            0 <= i < model.pieces.len() ==> model.contents().subrange(
                offset(model.pieces, i),
                offset(model.pieces, i + 1),
            ) == #[trigger] model.pieces[i],
{
    lemma_flatten(model.pieces);
}

/// A write takes a prefix of what it is given: all of it, or as much as brings
/// the writer to its limit. It never passes the limit, and what it takes is
/// appended.
pub proof fn lemma_write_takes_up_to_the_limit(
    before: WriterModel,
    after: WriterModel,
    bytes: Seq<u8>,
)
    requires
        before.wf(),
        WriteStep::Write(bytes).leads(before, after),
    ensures
        ({
            let taken = WriteStep::Write(bytes).accepted(before);
            let held = before.pieces.flatten().len();
            &&& taken.len() <= bytes.len()
            &&& taken == bytes.subrange(0, taken.len() as int)
            &&& held + taken.len() <= before.limit
            &&& taken.len() < bytes.len() ==> held + taken.len() == before.limit
            &&& after.pieces.flatten() == before.pieces.flatten() + taken
            &&& after.limit == before.limit
        }),
{
}

/// A fresh writer with a limit takes any bytes up to as many, in one write, and
/// its reader has just these to read.
pub proof fn lemma_fresh_writer_takes_its_limit(
    fresh: WriterModel,
    after: WriterModel,
    bytes: Seq<u8>,
)
    requires
        fresh.wf(),
        fresh.pieces.len() == 0,
        bytes.len() <= fresh.limit,
        WriteStep::Write(bytes).leads(fresh, after),
    ensures
        WriteStep::Write(bytes).accepted(fresh) == bytes,
        after.reader().unread() == bytes,
        after.remaining() == fresh.limit - bytes.len(),
{
    lemma_flatten(fresh.pieces);
    assert(fresh.contents() =~= Seq::<u8>::empty());
    assert(WriteStep::Write(bytes).accepted(fresh) =~= bytes);
    assert(after.reader().unread() =~= bytes);
}

/// A write leaves the limit, the first size and the arena as they are, and the
/// next size depends only on how many segments it opened.
pub proof fn lemma_write_keeps(before: WriterModel, after: WriterModel, added: Seq<u8>)
    requires
        before.wf(),
        after.wf(),
        appended(before, after, added),
    ensures
        after.limit == before.limit,
        after.first == before.first,
        after.chunk == before.chunk,
        after.pieces.len() == before.pieces.len() ==> after.size == before.size,
        after.pieces.len() == before.pieces.len() + 1 ==> after.size == next_size(
            before.size,
            before.chunk,
        ),
        forall|i: int| 0 <= i < before.pieces.len() ==> #[trigger] after.heap[i] == before.heap[i],
{
    reveal_with_fuel(size_after, 2);
    let n = before.pieces.len() as int;
    assert forall|i: int| 0 <= i < n implies #[trigger] after.heap[i] == before.heap[i] by {
        assert(after.heap.take(n)[i] == before.heap[i]);
    }
}

/// A write opens a segment only when the last one is full.
pub proof fn lemma_write_fills_the_tail_first(
    before: WriterModel,
    after: WriterModel,
    added: Seq<u8>,
)
    requires
        before.wf(),
        after.wf(),
        appended(before, after, added),
        before.pieces.len() > 0,
        after.pieces.len() > before.pieces.len(),
    ensures
        before.spare <= added.len(),
        after.pieces[before.pieces.len() - 1] == before.pieces.last() + added.subrange(
            0,
            before.spare as int,
        ),
{
    let n = before.pieces.len() as int;
    lemma_tail_filled(before, after, added);
    assert(after.pieces.take(n)[n - 1] == after.pieces[n - 1]);
    assert(added.take(min(added.len() as int, before.spare as int)) =~= added.subrange(
        0,
        before.spare as int,
    ));
}

/// A segment that a write opens holds something. Full, it holds the size of its
/// turn or what the limit left, and so many bytes and its room add up for the
/// last one. One on the heap may take more.
pub proof fn lemma_opened_sizes(
    before: WriterModel,
    after: WriterModel,
    added: Seq<u8>,
    i: int,
)
    requires
        appended(before, after, added),
        before.pieces.len() <= i < after.pieces.len(),
    ensures
        ({
            let size = size_after(before.size, before.chunk, i - before.pieces.len()) as int;
            let allowed = before.limit - offset(after.pieces, i);
            let takes = after.pieces[i].len() + if i == after.pieces.len() - 1 {
                after.spare as int
            } else {
                0
            };
            &&& after.pieces[i].len() > 0
            &&& takes >= size || takes >= allowed
            &&& after.heap[i] || takes <= size && takes <= allowed && (takes == size || takes
                == allowed)
        }),
{
    assert(opened_in_turn(before, after, i));
}

/// A new tail comes behind the segments that hold something and is empty.
pub proof fn lemma_new_tail_shape(pieces: Seq<Seq<u8>>, on_heap: Seq<bool>, heap: bool)
    requires
        on_heap.len() == pieces.len(),
    ensures
        ({
            let after = with_new_tail(pieces);
            let flags = heap_with_new_tail(pieces, on_heap, heap);
            let kept = if pieces.len() > 0 && pieces[pieces.len() - 1].len() == 0 {
                pieces.len() - 1
            } else {
                pieces.len() as int
            };
            &&& after.len() == kept + 1
            &&& flags.len() == kept + 1
            &&& after[kept].len() == 0
            &&& flags[kept] == heap
            &&& forall|i: int| 0 <= i < kept ==> #[trigger] after[i] == pieces[i]
            &&& forall|i: int| 0 <= i < kept ==> #[trigger] flags[i] == on_heap[i]
            &&& after.flatten() == pieces.flatten()
        }),
{
    lemma_flatten_new_tail(pieces);
}

/// A reservation leaves the bytes, the limit and the sizes of a writer, and room
/// for what was asked. Where there was room it changes nothing, else it adds one
/// segment, of just that size unless it is on the heap.
pub proof fn lemma_reservation(before: WriterModel, after: WriterModel, additional: int)
    requires
        before.wf(),
        0 <= additional,
        reserves(before, after, additional),
    ensures
        after.spare >= additional,
        after.pieces.flatten() == before.pieces.flatten(),
        after.limit == before.limit,
        after.size == before.size,
        after.first == before.first,
        after.chunk == before.chunk,
        before.spare >= additional ==> after == before,
        before.spare < additional ==> {
            &&& after.pieces == with_new_tail(before.pieces)
            &&& after.heap.last() || after.spare == additional
        },
{
    lemma_flatten_new_tail(before.pieces);
}

/// A buffer that got bytes appended in place, no more than were wanted, received
/// just these.
pub proof fn lemma_receives(
    before: EphemeralBytesMut,
    after: EphemeralBytesMut,
    added: Seq<u8>,
    maximum: int,
)
    requires
        written(after) == written(before) + added,
        added.len() <= maximum,
        room(after) == room(before) - added.len(),
        on_heap(after) == on_heap(before),
    ensures
        receives(before, after, maximum),
        received(before, after) == added,
{
    assert(written(after).take(written(before).len() as int) =~= written(before));
    assert(received(before, after) =~= added);
}

/// A receive appends to the buffer, in place, no more than was wanted.
pub proof fn lemma_received(before: EphemeralBytesMut, after: EphemeralBytesMut, maximum: int)
    requires
        receives(before, after, maximum),
    ensures
        written(after) == written(before) + received(before, after),
        received(before, after).len() <= maximum,
        room(after) == room(before) - received(before, after).len(),
        on_heap(after) == on_heap(before),
{
    assert(written(after) =~= written(before) + received(before, after));
}

/// A receive into a writer appends to the tail if that has room, else to a new
/// one of the next size or of what was wanted, whichever is less. All else stays.
pub proof fn lemma_writer_receives(
    before: WriterModel,
    after: WriterModel,
    wanted: int,
    count: int,
    old_tail: EphemeralBytesMut,
    new_tail: EphemeralBytesMut,
)
    requires
        before.wf(),
        receives(old_tail, new_tail, wanted),
        stored(before, after, wanted, count, old_tail, new_tail),
    ensures
        ({
            let added = received(old_tail, new_tail);
            let n = before.pieces.len() as int;
            &&& count == added.len()
            &&& count <= wanted
            &&& after.pieces.flatten() == before.pieces.flatten() + added
            &&& after.limit == before.limit
            &&& after.first == before.first
            &&& after.chunk == before.chunk
            &&& forall|i: int| 0 <= i < n - 1 ==> #[trigger] after.pieces[i] == before.pieces[i]
            &&& before.spare > 0 ==> {
                &&& after.pieces.len() == n
                &&& after.pieces[n - 1] == before.pieces[n - 1] + added
                &&& after.spare == before.spare - count
                &&& after.size == before.size
                &&& after.heap == before.heap
            }
            &&& before.spare == 0 ==> {
                &&& after.pieces.len() == n + 1
                &&& n > 0 ==> after.pieces[n - 1] == before.pieces[n - 1]
                &&& after.pieces[n] == added
                &&& count + after.spare >= before.size || count + after.spare >= wanted
                &&& after.heap[n] || count + after.spare <= before.size && count + after.spare
                    <= wanted
                &&& after.size == next_size(before.size, before.chunk)
            }
        }),
{
}

/// A receive into a reader does as one into a writer, and leaves the position.
pub proof fn lemma_reader_receives(
    before: ReaderModel,
    after: ReaderModel,
    wanted: int,
    count: int,
    old_tail: EphemeralBytesMut,
    new_tail: EphemeralBytesMut,
)
    requires
        before.wf(),
        receives(old_tail, new_tail, wanted),
        received_more(before, after, wanted, count, old_tail, new_tail),
    ensures
        ({
            let added = received(old_tail, new_tail);
            let n = before.pieces.len() as int;
            &&& count == added.len()
            &&& count <= wanted
            &&& after.pieces.flatten() == before.pieces.flatten() + added
            &&& after.unread() == before.unread() + added
            &&& after.position == before.position
            &&& after.end == before.end + count
            &&& after.first == before.first
            &&& after.chunk == before.chunk
            &&& forall|i: int| 0 <= i < n - 1 ==> #[trigger] after.pieces[i] == before.pieces[i]
            &&& before.spare > 0 ==> {
                &&& after.pieces.len() == n
                &&& after.pieces[n - 1] == before.pieces[n - 1] + added
                &&& after.spare == before.spare - count
                &&& after.size == before.size
                &&& after.heap == before.heap
            }
            &&& before.spare == 0 ==> {
                &&& after.pieces.len() == n + 1
                &&& n > 0 ==> after.pieces[n - 1] == before.pieces[n - 1]
                &&& after.pieces[n] == added
                &&& count + after.spare >= before.size || count + after.spare >= wanted
                &&& after.heap[n] || count + after.spare <= before.size && count + after.spare
                    <= wanted
                &&& after.size == next_size(before.size, before.chunk)
            }
        }),
{
    assert(after.unread() =~= before.unread() + received(old_tail, new_tail));
}

/// A reader takes over the segments of a writer as they are, and starts with the
/// first byte.
pub proof fn lemma_hand_over(writer: WriterModel)
    ensures
        writer.reader().pieces == writer.pieces,
        writer.reader().heap == writer.heap,
        writer.reader().spare == writer.spare,
        writer.reader().size == writer.size,
        writer.reader().first == writer.first,
        writer.reader().chunk == writer.chunk,
        writer.reader().position == 0,
        writer.reader().end == writer.pieces.flatten().len(),
        writer.reader().unread() == writer.pieces.flatten(),
{
    assert(writer.reader().unread() =~= writer.pieces.flatten());
}

/// What a reader holds is its segments joined: bytes that were read, and behind
/// them those that are to be read. The last of these stands before the end.
pub proof fn lemma_reader_contents(model: ReaderModel)
    requires
        model.wf(),
    ensures
        offset(model.pieces, model.pieces.len() as int) == model.contents().len(),
        forall|i: int|
            0 <= i < model.pieces.len() ==> model.contents().subrange(
                offset(model.pieces, i),
                offset(model.pieces, i + 1),
            ) == #[trigger] model.pieces[i],
        model.base() + model.contents().len() == model.end,
        model.position + model.unread().len() == model.end,
        model.unread() == model.contents().subrange(
            model.contents().len() - model.unread().len(),
            model.contents().len() as int,
        ),
{
    lemma_flatten(model.pieces);
    assert(model.unread() =~= model.contents().subrange(
        model.contents().len() - model.unread().len(),
        model.contents().len() as int,
    ));
}

/// The next chunk ends where its segment ends.
pub proof fn lemma_chunk_ends_with_its_segment(model: ReaderModel, i: int)
    requires
        model.wf(),
        0 <= i < model.pieces.len(),
        offset(model.pieces, i) <= model.position - model.base() < offset(model.pieces, i + 1),
    ensures
        model.chunk() == model.pieces[i].subrange(
            model.position - model.base() - offset(model.pieces, i),
            model.pieces[i].len() as int,
        ),
{
    let at = model.position - model.base();
    lemma_run(model.pieces, i, at);
    assert(model.chunk() =~= model.pieces[i].subrange(
        at - offset(model.pieces, i),
        model.pieces[i].len() as int,
    ));
}

/// A read moves the position by what it reads and takes it from the front. It
/// leaves sizes and end. Only an exclusive read lets segments go, those from the
/// front that it leaves without an unread byte, and no others.
pub proof fn lemma_read_step(model: ReaderModel, step: ReadStep)
    requires
        model.wf(),
    ensures
        ({
            let after = step.after(model);
            let taken = step.taken(model);
            let gone = model.pieces.len() - after.pieces.len();
            &&& taken + after.unread() == model.unread()
            &&& after.position == model.position + taken.len()
            &&& after.end == model.end
            &&& after.size == model.size
            &&& after.first == model.first
            &&& after.chunk == model.chunk
            &&& 0 <= gone
            &&& forall|i: int|
                0 <= i < after.pieces.len() ==> #[trigger] after.pieces[i] == model.pieces[i + gone]
            &&& forall|i: int|
                0 <= i < after.pieces.len() ==> #[trigger] after.heap[i] == model.heap[i + gone]
            &&& after.pieces.len() > 0 ==> after.spare == model.spare
            &&& after.pieces.len() == 0 ==> after.spare == 0
            &&& match step {
                ReadStep::Exclusive(count) => {
                    &&& taken.len() <= count
                    &&& taken.len() < count ==> after.unread().len() == 0
                    &&& after.pieces.len() > 0 ==> after.unread().len() > 0 && after.unread().len()
                        > after.pieces.flatten().len() - after.pieces[0].len()
                    &&& after.pieces.flatten().len() >= after.unread().len()
                },
                ReadStep::Borrowed(count) => {
                    &&& gone == 0
                    &&& taken.len() == if count <= model.unread().len() {
                        count
                    } else {
                        0
                    }
                },
            }
        }),
{
    let after = step.after(model);
    assert(model.heap =~= model.heap.skip(0));
    if step is Exclusive {
        let count = step->Exclusive_0 as int;
        lemma_advanced(model, count);
        lemma_unconsumed(model.pieces, after.position - model.base());
        if after.pieces.len() > 0 {
            lemma_flatten_first(after.pieces);
        }
    }
    assert(step.taken(model) + after.unread() =~= model.unread());
}

/// Buffers, by what each of them holds.
pub proof fn lemma_held(buffers: Seq<&mut [u8]>, i: int)
    requires
        0 <= i < buffers.len(),
    ensures
        held(buffers).len() == buffers.len(),
        held(buffers)[i] == (*buffers[i])@,
{
}

/// A read into several buffers fills them from the front: with the buffers
/// joined, their first bytes become the first that were to be read, as many as
/// there are of either, and the rest stays. Each buffer keeps its length.
pub proof fn lemma_vectored_read(before: Seq<Seq<u8>>, after: Seq<Seq<u8>>, unread: Seq<u8>)
    requires
        after.len() == before.len(),
        forall|i: int|
            0 <= i < before.len() ==> #[trigger] after[i] == filled(
                before[i],
                unread,
                offset(before, i),
            ),
    ensures
        ({
            let count = if before.flatten().len() < unread.len() {
                before.flatten().len() as int
            } else {
                unread.len() as int
            };
            &&& after.flatten() == unread.subrange(0, count) + before.flatten().subrange(
                count,
                before.flatten().len() as int,
            )
            &&& forall|i: int|
                0 <= i < before.len() ==> (#[trigger] after[i]).len() == before[i].len()
        }),
    decreases before.len(),
{
    lemma_flatten(before);
    if before.len() == 0 {
        assert(after =~= before);
        assert(after.flatten() =~= unread.subrange(0, 0) + before.flatten().subrange(0, 0));
    } else {
        let n = before.len() - 1;
        let front = before.drop_last();
        let done = after.drop_last();
        assert forall|i: int| 0 <= i < n implies #[trigger] done[i] == filled(
            front[i],
            unread,
            offset(front, i),
        ) by {
            assert(done[i] == after[i]);
            lemma_offset_prefix(front, before, i);
        }
        lemma_vectored_read(front, done, unread);
        lemma_flatten(front);
        lemma_offset_prefix(front, before, n);
        front.lemma_flatten_push(before[n]);
        done.lemma_flatten_push(after[n]);
        assert(front.push(before[n]) =~= before);
        assert(done.push(after[n]) =~= after);
        assert(after[n] == filled(before[n], unread, offset(before, n)));
        let count = if before.flatten().len() < unread.len() {
            before.flatten().len() as int
        } else {
            unread.len() as int
        };
        assert(after.flatten() =~= unread.subrange(0, count) + before.flatten().subrange(
            count,
            before.flatten().len() as int,
        ));
        assert forall|i: int| 0 <= i < before.len() implies (#[trigger] after[i]).len()
            == before[i].len() by {
            if i < n {
                assert(done[i] == after[i]);
            }
        }
    }
}

/// Only a range that is there and is larger than any allocation does not fit.
pub proof fn lemma_fits(len: int, available: int)
    ensures
        fits(len, available) <==> len > available || len <= isize::MAX,
{
}

/// A fresh buffer is an empty one with the capacity asked for, or on the heap
/// with more.
pub proof fn lemma_fresh(buffer: EphemeralBytesMut, capacity: int)
    ensures
        fresh(buffer, capacity) <==> written(buffer).len() == 0 && (room(buffer) == capacity
            || on_heap(buffer) && room(buffer) > capacity),
{
}

/// The bytes kept are those that the encoder wrote to a fresh buffer, and its
/// error is handed on.
pub proof fn lemma_encoded<E>(
    before: EphemeralBytesMut,
    after: EphemeralBytesMut,
    capacity: int,
    outcome: Result<&[u8], E>,
)
    requires
        encoded(before, after, capacity, outcome),
    ensures
        fresh(before, capacity),
        outcome is Ok ==> outcome->Ok_0@ == written(after) && answered(outcome) is Ok,
        outcome is Err ==> answered(outcome) is Err && answered(outcome)->Err_0 == outcome->Err_0,
{
}

/// When shared reads have come `ahead` bytes on and nobody else reads, a read of
/// `len` bytes gets those that come next and moves the count on by as many. It
/// is refused just when fewer are left, and then moves nothing.
pub proof fn lemma_lone_read(
    model: ReaderModel,
    ahead: usize,
    len: usize,
    outcome: Result<&[u8], Error>,
)
    requires
        ahead <= model.unread().len() <= usize::MAX,
        bytes_read(model, ahead, len, outcome),
    ensures
        outcome is Ok <==> ahead + len <= model.unread().len(),
        outcome is Ok ==> {
            &&& outcome->Ok_0@ == model.unread().subrange(ahead as int, ahead + len)
            &&& moved_on(ahead, model.unread().len() as int, len) == Some((ahead + len) as usize)
            &&& left(model, (ahead + len) as usize) == left(model, ahead).subrange(
                len as int,
                left(model, ahead).len() as int,
            )
        },
        outcome is Err ==> {
            &&& outcome->Err_0 == Error::UnexpectedEof
            &&& moved_on(ahead, model.unread().len() as int, len) is None
        },
{
    if outcome is Ok {
        assert(outcome->Ok_0@ =~= model.unread().subrange(ahead as int, ahead + len));
        assert(left(model, (ahead + len) as usize) =~= left(model, ahead).subrange(
            len as int,
            left(model, ahead).len() as int,
        ));
    }
}

/// A read of text does as one of bytes, and is refused too where they are not
/// text.
pub proof fn lemma_lone_text(
    model: ReaderModel,
    ahead: usize,
    len: usize,
    outcome: Result<&str, Error>,
)
    requires
        ahead <= model.unread().len() <= usize::MAX,
        text_read(model, ahead, len, outcome),
    ensures
        outcome is Ok <==> ahead + len <= model.unread().len() && valid_utf8(
            model.unread().subrange(ahead as int, ahead + len),
        ),
        outcome is Ok ==> {
            &&& outcome->Ok_0.spec_bytes() == model.unread().subrange(ahead as int, ahead + len)
            &&& moved_on(ahead, model.unread().len() as int, len) == Some((ahead + len) as usize)
        },
        outcome is Err ==> outcome->Err_0 == if ahead + len > model.unread().len() {
            Error::UnexpectedEof
        } else {
            Error::InvalidUtf8
        },
{
    if ahead + len <= model.unread().len() {
        assert(left(model, ahead).take(len as int) =~= model.unread().subrange(
            ahead as int,
            ahead + len,
        ));
    }
}

/// A skip is granted just when that many bytes are left, and moves the count on
/// by as many.
pub proof fn lemma_lone_skip(
    model: ReaderModel,
    ahead: usize,
    len: usize,
    outcome: Result<(), Error>,
)
    requires
        ahead <= model.unread().len() <= usize::MAX,
        skipped(model, ahead, len, outcome),
    ensures
        outcome is Ok <==> ahead + len <= model.unread().len(),
        outcome is Ok ==> moved_on(ahead, model.unread().len() as int, len) == Some(
            (ahead + len) as usize,
        ),
        outcome is Err ==> outcome->Err_0 == Error::UnexpectedEof && moved_on(
            ahead,
            model.unread().len() as int,
            len,
        ) is None,
{
}

/// When shared reads have come `ahead` bytes on, looks show the bytes behind
/// these, and nothing past the end.
pub proof fn lemma_lone_look(
    model: ReaderModel,
    ahead: usize,
    offset: usize,
    len: usize,
    byte: Option<u8>,
    outcome: Result<&[u8], Error>,
)
    requires
        ahead <= model.unread().len(),
        byte_seen(model, ahead, offset, byte),
        bytes_seen(model, ahead, offset, len, outcome),
    ensures
        left(model, ahead) == model.unread().subrange(
            ahead as int,
            model.unread().len() as int,
        ),
        byte == if ahead + offset < model.unread().len() {
            Some(model.unread()[ahead + offset])
        } else {
            None
        },
        outcome is Ok <==> ahead + offset + len <= model.unread().len(),
        outcome is Ok ==> outcome->Ok_0@ == model.unread().subrange(
            ahead + offset,
            ahead + offset + len,
        ),
        outcome is Err ==> outcome->Err_0 == Error::UnexpectedEof,
{
    assert(left(model, ahead) =~= model.unread().subrange(
        ahead as int,
        model.unread().len() as int,
    ));
    if outcome is Ok {
        assert(outcome->Ok_0@ =~= model.unread().subrange(ahead + offset, ahead + offset + len));
    }
}

/// Segments, by what each of them holds and where it lies, and the room in the
/// last one.
pub proof fn lemma_segments(segments: Seq<Segment>, i: int)
    requires
        0 <= i < segments.len(),
    ensures
        pieces(segments).len() == segments.len(),
        heaps(segments).len() == segments.len(),
        pieces(segments)[i] == written(segments[i].bytes),
        heaps(segments)[i] == on_heap(segments[i].bytes),
        i == segments.len() - 1 ==> spare(segments) == room(segments[i].bytes),
{
}

/// No segments hold no bytes, from any position on.
pub proof fn lemma_linked_empty(base: int)
    ensures
        linked(Seq::empty(), base, base),
        pieces(Seq::empty()).len() == 0,
        spare(Seq::empty()) == 0,
{
    lemma_flatten(pieces(Seq::empty()));
}

/// A segment that starts where linked segments end goes on with them, if the last
/// of them holds something.
#[verifier::spinoff_prover]
#[verifier::rlimit(30)]
pub proof fn lemma_linked_push(segments: Seq<Segment>, base: int, end: int, next: Segment)
    requires
        linked(segments, base, end),
        segments.len() > 0 ==> written(segments[segments.len() - 1].bytes).len() > 0,
        next.start == end,
    ensures
        linked(segments.push(next), base, end + written(next.bytes).len()),
{
    let all = segments.push(next);
    let p = pieces(segments);
    p.lemma_flatten_push(written(next.bytes));
    assert(pieces(all) =~= p.push(written(next.bytes)));
    lemma_flatten(p);
    assert forall|i: int| 0 <= i < all.len() implies (#[trigger] all[i]).start == base + offset(
        pieces(all),
        i,
    ) by {
        lemma_offset_prefix(p, pieces(all), i);
        if i < segments.len() {
            assert(all[i] == segments[i]);
        }
    }
    assert forall|i: int| 0 <= i < all.len() - 1 implies written(#[trigger] all[i].bytes).len()
        > 0 by {
        assert(all[i] == segments[i]);
    }
}

/// A reservation on a queue keeps the segments that hold something. Where room is
/// missing it adds one at the end, empty, of just the size asked for unless it is
/// on the heap; else it changes nothing.
pub proof fn lemma_queue_reservation(
    before: Seq<Segment>,
    after: Seq<Segment>,
    end: int,
    additional: int,
)
    requires
        0 <= additional,
        reserved(before, after, end, additional),
    ensures
        spare(after) >= additional,
        spare(before) >= additional ==> after == before,
        spare(before) < additional ==> {
            let last = after[after.len() - 1];
            let kept = if before.len() > 0 && written(before[before.len() - 1].bytes).len() == 0 {
                before.len() - 1
            } else {
                before.len() as int
            };
            &&& after.len() == kept + 1
            &&& forall|i: int| 0 <= i < kept ==> #[trigger] after[i] == before[i]
            &&& last.start == end
            &&& written(last.bytes).len() == 0
            &&& on_heap(last.bytes) || room(last.bytes) == additional
        },
{
    if spare(before) < additional {
        lemma_new_tail(before, after, end, additional);
        assert forall|i: int| 0 <= i < after.len() - 1 implies #[trigger] after[i] == before[i] by {
            assert(after.drop_last()[i] == after[i]);
        }
    }
}

/// Bytes written to the last of some pieces make it longer and leave the others.
pub proof fn lemma_extended(pieces: Seq<Seq<u8>>, added: Seq<u8>)
    requires
        pieces.len() > 0,
    ensures
        extended(pieces, added).len() == pieces.len(),
        extended(pieces, added).last() == pieces.last() + added,
        forall|i: int|
            0 <= i < pieces.len() - 1 ==> #[trigger] extended(pieces, added)[i] == pieces[i],
        extended(pieces, added).flatten() == pieces.flatten() + added,
{
    lemma_flatten_extend_last(pieces, added);
}

} // verus!
