//! The writing end of a stream.

use crate::arena::{chunk_size, on_heap, room, written};
use crate::error::Error;
use crate::pieces::{
    extended, heap_with_new_tail, lemma_flatten, lemma_flatten_extend_last, lemma_offset_monotone,
    lemma_offset_prefix, min, offset, with_new_tail,
};
use crate::reader::{Reader, ReaderModel};
use crate::segments::{
    heaps, lemma_linked_extend, lemma_new_tail, lemma_placed, lemma_reserved, linked, next_size,
    pieces, placed, received, receives, spare, Segments,
};
use brz_ds::{EphemeralBytesArena, EphemeralBytesMut};
use vstd::prelude::*;

verus! {

/// The size of the first implicit segment, unless another is asked for.
pub const FIRST_SEGMENT_SIZE: usize = 2048;

/// What a writer holds.
#[verifier::ext_equal]
pub struct WriterModel {
    /// The bytes of each segment.
    pub pieces: Seq<Seq<u8>>,
    /// Which segments are on the heap.
    pub heap: Seq<bool>,
    /// The room in the last segment.
    pub spare: nat,
    /// The size of the next implicit segment.
    pub size: nat,
    /// The size of the first implicit segment.
    pub first: nat,
    /// How many bytes are taken in all.
    pub limit: nat,
    /// The chunk size of the arena.
    pub chunk: nat,
}

impl WriterModel {
    /// The bytes written.
    pub open spec fn contents(self) -> Seq<u8> {
        self.pieces.flatten()
    }

    /// How many more bytes are taken.
    pub open spec fn remaining(self) -> int {
        self.limit - self.contents().len()
    }

    /// How many bytes segment `i` holds or has room for.
    pub open spec fn capacity(self, i: int) -> nat {
        if i == self.pieces.len() - 1 {
            self.pieces[i].len() + self.spare
        } else {
            self.pieces[i].len()
        }
    }

    /// The reader of what is written, at its start.
    pub open spec fn reader(self) -> ReaderModel {
        ReaderModel {
            pieces: self.pieces,
            heap: self.heap,
            spare: self.spare,
            end: self.contents().len(),
            position: 0,
            size: self.size,
            first: self.first,
            chunk: self.chunk,
        }
    }

    /// What every writer keeps: the limit is not passed, only the last segment
    /// may be empty and has room then, sizes are positive and within a chunk.
    pub open spec fn wf(self) -> bool {
        &&& self.contents().len() <= self.limit <= usize::MAX
        &&& self.heap.len() == self.pieces.len()
        &&& forall|i: int| 0 <= i < self.pieces.len() - 1 ==> (#[trigger] self.pieces[i]).len() > 0
        &&& self.pieces.len() == 0 ==> self.spare == 0
        &&& self.pieces.len() > 0 && self.pieces.last().len() == 0 ==> self.spare > 0
        &&& 0 < self.size <= self.chunk
        &&& 0 < self.first <= self.chunk
        &&& 2 * self.chunk <= isize::MAX
    }
}

/// The size of the implicit segment after `count` more.
pub open spec fn size_after(size: nat, chunk: nat, count: int) -> nat
    decreases count,
{
    if count <= 0 {
        size
    } else {
        next_size(size_after(size, chunk, count - 1), chunk)
    }
}

/// How a write places `added`: the last segment is filled up, the rest goes to
/// new segments, one at a time. Each of those has the implicit size of its turn,
/// or what the limit leaves. One on the heap may take more. Nothing written
/// before moves.
pub open spec fn appended(before: WriterModel, after: WriterModel, added: Seq<u8>) -> bool {
    let old_count = before.pieces.len() as int;
    let new_count = after.pieces.len() as int;
    &&& old_count <= new_count
    &&& after.limit == before.limit
    &&& after.first == before.first
    &&& after.chunk == before.chunk
    &&& after.size == size_after(before.size, before.chunk, new_count - old_count)
    &&& after.contents() == before.contents() + added
    &&& after.pieces.take(old_count) == extended(
        before.pieces,
        added.take(min(added.len() as int, before.spare as int)),
    )
    &&& after.heap.take(old_count) == before.heap
    &&& new_count == old_count ==> after.spare == before.spare - added.len()
    &&& forall|i: int| old_count <= i < new_count ==> #[trigger] opened_in_turn(before, after, i)
}

/// The capacity of segment `i`, which a write opens: the implicit size of its
/// turn, or what the limit leaves.
pub open spec fn turn_size(before: WriterModel, after: WriterModel, i: int) -> int {
    min(
        size_after(before.size, before.chunk, i - before.pieces.len()) as int,
        before.limit - offset(after.pieces, i),
    )
}

/// Whether segment `i`, which a write opened, holds something and has the
/// capacity of its turn, or more if it is on the heap.
pub open spec fn opened_in_turn(before: WriterModel, after: WriterModel, i: int) -> bool {
    &&& after.pieces[i].len() > 0
    &&& after.capacity(i) >= turn_size(before, after, i)
    &&& after.heap[i] || after.capacity(i) == turn_size(before, after, i)
}

/// One step of a write: `added` goes to the last segment where that has room,
/// else to one new segment.
spec fn appended_once(before: WriterModel, after: WriterModel, added: Seq<u8>) -> bool {
    &&& after.limit == before.limit
    &&& after.first == before.first
    &&& after.chunk == before.chunk
    &&& added.len() > 0
    &&& if before.spare > 0 {
        &&& added.len() <= before.spare
        &&& after.pieces == extended(before.pieces, added)
        &&& after.heap == before.heap
        &&& after.spare == before.spare - added.len()
        &&& after.size == before.size
    } else {
        &&& after.pieces == before.pieces.push(added)
        &&& after.heap == before.heap.push(after.heap.last())
        &&& added.len() + after.spare >= min(before.size as int, before.remaining())
        &&& after.heap.last() || added.len() + after.spare == min(
            before.size as int,
            before.remaining(),
        )
        &&& after.size == next_size(before.size, before.chunk)
    }
}

/// A write of nothing changes nothing.
proof fn lemma_appended_nothing(model: WriterModel)
    requires
        model.wf(),
    ensures
        appended(model, model, Seq::empty()),
{
    assert(model.contents() + Seq::<u8>::empty() =~= model.contents());
    assert(model.heap.take(model.pieces.len() as int) =~= model.heap);
    assert(Seq::<u8>::empty().take(0) =~= Seq::<u8>::empty());
    if model.pieces.len() > 0 {
        assert(model.pieces.last() + Seq::<u8>::empty() =~= model.pieces.last());
    }
    assert(model.pieces.take(model.pieces.len() as int) =~= extended(
        model.pieces,
        Seq::<u8>::empty(),
    ));
}

/// One step is a write.
proof fn lemma_appended_once(before: WriterModel, after: WriterModel, added: Seq<u8>)
    requires
        before.wf(),
        appended_once(before, after, added),
    ensures
        appended(before, after, added),
{
    let n = before.pieces.len() as int;
    let kept = added.take(min(added.len() as int, before.spare as int));
    assert(after.heap.take(n) =~= before.heap);
    if before.spare > 0 {
        lemma_flatten_extend_last(before.pieces, added);
        assert(kept =~= added);
        assert(after.pieces.take(n) =~= extended(before.pieces, added));
    } else {
        before.pieces.lemma_flatten_push(added);
        if n > 0 {
            assert(before.pieces.last() + kept =~= before.pieces.last());
        }
        assert(after.pieces.take(n) =~= extended(before.pieces, kept));
        lemma_flatten(before.pieces);
        lemma_offset_prefix(before.pieces, after.pieces, n);
        reveal_with_fuel(size_after, 2);
    }
}

/// Sizes of implicit segments are counted through.
pub proof fn lemma_size_after(size: nat, chunk: nat, a: int, b: int)
    requires
        0 <= a,
        0 <= b,
    ensures
        size_after(size_after(size, chunk, a), chunk, b) == size_after(size, chunk, a + b),
    decreases b,
{
    if b > 0 {
        lemma_size_after(size, chunk, a, b - 1);
    }
}

/// Two writes in a row do what one write of both would do: the same bytes,
/// in segments of the same kind.
pub proof fn lemma_writes_compose(
    before: WriterModel,
    middle: WriterModel,
    after: WriterModel,
    added: Seq<u8>,
    more: Seq<u8>,
)
    requires
        before.wf(),
        middle.wf(),
        after.wf(),
        appended(before, middle, added),
        appended(middle, after, more),
    ensures
        appended(before, after, added + more),
{
    let n0 = before.pieces.len() as int;
    let n1 = middle.pieces.len() as int;
    let n2 = after.pieces.len() as int;
    let all = added + more;
    lemma_size_after(before.size, before.chunk, n1 - n0, n2 - n1);
    assert(after.contents() =~= before.contents() + all);
    assert(after.heap.take(n0) =~= after.heap.take(n1).take(n0));
    lemma_compose_old_pieces(before, middle, after, added, more);
    assert forall|i: int| n0 <= i < n2 implies #[trigger] opened_in_turn(before, after, i) by {
        if i >= n1 {
            lemma_size_after(before.size, before.chunk, n1 - n0, i - n1);
            assert(opened_in_turn(middle, after, i));
        } else {
            lemma_compose_middle_piece(middle, after, more, i);
            assert(opened_in_turn(before, middle, i));
            assert(after.heap[i] == after.heap.take(n1)[i]);
        }
    }
}

/// The part of composition that speaks of the segments of the start.
proof fn lemma_compose_old_pieces(
    before: WriterModel,
    middle: WriterModel,
    after: WriterModel,
    added: Seq<u8>,
    more: Seq<u8>,
)
    requires
        before.wf(),
        middle.wf(),
        after.wf(),
        appended(before, middle, added),
        appended(middle, after, more),
    ensures
        after.pieces.take(before.pieces.len() as int) == extended(
            before.pieces,
            (added + more).take(min((added + more).len() as int, before.spare as int)),
        ),
{
    let n0 = before.pieces.len() as int;
    let n1 = middle.pieces.len() as int;
    let all = added + more;
    let first = added.take(min(added.len() as int, before.spare as int));
    let second = more.take(min(more.len() as int, middle.spare as int));
    let both = all.take(min(all.len() as int, before.spare as int));
    if n1 == n0 {
        assert(middle.pieces =~= middle.pieces.take(n0));
        assert(both =~= first + second);
        if n0 > 0 {
            assert(before.pieces.last() + both =~= (before.pieces.last() + first) + second);
        }
        assert(after.pieces.take(n0) =~= extended(before.pieces, both));
    } else {
        lemma_tail_filled(before, middle, added);
        assert(both =~= first);
        assert(after.pieces.take(n0) =~= after.pieces.take(n1).take(n0));
        assert(after.pieces.take(n0) =~= middle.pieces.take(n0));
    }
}

/// A write leaves the capacity and the place of every earlier segment.
proof fn lemma_compose_middle_piece(
    middle: WriterModel,
    after: WriterModel,
    more: Seq<u8>,
    i: int,
)
    requires
        middle.wf(),
        after.wf(),
        appended(middle, after, more),
        0 <= i < middle.pieces.len(),
    ensures
        after.pieces[i].len() >= middle.pieces[i].len(),
        after.capacity(i) == middle.capacity(i),
        offset(after.pieces, i) == offset(middle.pieces, i),
{
    let n1 = middle.pieces.len() as int;
    let kept = extended(middle.pieces, more.take(min(more.len() as int, middle.spare as int)));
    assert forall|k: int| 0 <= k < n1 implies #[trigger] after.pieces[k] == kept[k] by {
        assert(after.pieces[k] == after.pieces.take(n1)[k]);
    }
    assert(after.pieces[i] == kept[i]);
    lemma_offset_prefix(middle.pieces, after.pieces, i);
    if after.pieces.len() > n1 {
        lemma_tail_filled(middle, after, more);
    }
}

/// Where a write opened a new segment, or used the last one up, it wrote as
/// much as the last one had room for.
pub proof fn lemma_tail_filled(before: WriterModel, after: WriterModel, added: Seq<u8>)
    requires
        before.wf(),
        after.wf(),
        appended(before, after, added),
        after.pieces.len() > before.pieces.len() || after.spare == 0,
    ensures
        added.len() >= before.spare,
{
    let n = before.pieces.len() as int;
    if after.pieces.len() > n {
        let kept = extended(
            before.pieces,
            added.take(min(added.len() as int, before.spare as int)),
        );
        if added.len() < before.spare {
            assert(added.take(min(added.len() as int, before.spare as int)) =~= added);
            lemma_flatten_extend_last(before.pieces, added);
            lemma_flatten(after.pieces);
            lemma_flatten(kept);
            lemma_offset_prefix(kept, after.pieces, n);
            assert(opened_in_turn(before, after, n));
            assert(false);
        }
    }
}

/// How a reservation changes a writer: not at all where the last segment has the
/// room, else by a new, empty tail that takes just what was asked for. One on
/// the heap may take more.
pub open spec fn reserves(before: WriterModel, after: WriterModel, additional: int) -> bool {
    &&& after.spare >= additional
    &&& if additional == 0 || before.spare >= additional {
        after == before
    } else {
        &&& after == (WriterModel {
            pieces: with_new_tail(before.pieces),
            heap: heap_with_new_tail(before.pieces, before.heap, after.heap.last()),
            spare: after.spare,
            ..before
        })
        &&& after.heap.last() || after.spare == additional
    }
}

/// How a receive of at most `wanted` bytes changed a writer: `count` bytes were
/// appended to the tail and to the stream.
pub open spec fn stored(
    before: WriterModel,
    after: WriterModel,
    wanted: int,
    count: int,
    old_tail: EphemeralBytesMut,
    new_tail: EphemeralBytesMut,
) -> bool {
    &&& count == received(old_tail, new_tail).len()
    &&& after.contents() == before.contents() + received(old_tail, new_tail)
    &&& after.limit == before.limit
    &&& after.first == before.first
    &&& after.chunk == before.chunk
    &&& placed(
        before.pieces,
        before.heap,
        before.spare,
        before.size,
        wanted,
        old_tail,
        new_tail,
        after.pieces,
        after.heap,
        after.spare,
        after.size,
        before.chunk,
    )
}

/// A byte stream that grows on demand, backed by arena allocations.
///
/// No payload storage is allocated until the first nonempty write. Writes
/// append across segments without moving bytes that are there. Once the limit
/// is reached, `write` takes nothing more; what was written stays available
/// through [`Writer::into_reader`].
#[derive(Debug)]
pub struct Writer {
    arena: EphemeralBytesArena,
    segments: Segments,
    segment_size: usize,
    initial_segment_size: usize,
    limit: usize,
    len: usize,
}

impl Writer {
    /// What this writer holds.
    pub closed spec fn model(&self) -> WriterModel {
        WriterModel {
            pieces: pieces(self.segments@),
            heap: heaps(self.segments@),
            spare: spare(self.segments@),
            size: self.segment_size as nat,
            first: self.initial_segment_size as nat,
            limit: self.limit as nat,
            chunk: chunk_size(self.arena),
        }
    }

    /// The segments hold the stream from its start, and the model is sound.
    pub closed spec fn wf(&self) -> bool {
        &&& self.segments.wf()
        &&& linked(self.segments@, 0, self.len as int)
        &&& self.model().wf()
    }

    /// The model speaks of the segments that the writer holds, of its limit and of
    /// its arena.
    proof fn lemma_model(&self)
        requires
            self.wf(),
        ensures
            self.model().pieces.len() == self.segments@.len(),
            forall|i: int|
                0 <= i < self.segments@.len() ==> {
                    &&& #[trigger] self.model().pieces[i] == written(self.segments@[i].bytes)
                    &&& self.model().heap[i] == on_heap(self.segments@[i].bytes)
                    &&& i == self.segments@.len() - 1 ==> self.model().spare == room(
                        self.segments@[i].bytes,
                    )
                },
            self.model().limit == self.limit,
            self.model().size == self.segment_size,
            self.model().chunk == chunk_size(self.arena),
    {
    }

    /// The limit is never passed, whatever was done with the writer.
    pub proof fn lemma_wf(&self)
        requires
            self.wf(),
        ensures
            self.model().wf(),
    {
    }

    /// A writer without a byte limit. The first allocation is of 2 KiB, each
    /// next one doubles up to 64 KiB. Sizes are also capped to the chunk size
    /// of the arena.
    pub fn new(arena: &EphemeralBytesArena) -> (writer: Self)
        ensures
            writer.wf(),
            writer.model().pieces.len() == 0,
            writer.model().contents().len() == 0,
            writer.model().spare == 0,
            writer.model().limit == usize::MAX,
            writer.model().chunk == chunk_size(*arena),
            writer.model().first == min(2048, chunk_size(*arena) as int),
            writer.model().size == writer.model().first,
    {
        Self::with_initial_segment_size(arena, FIRST_SEGMENT_SIZE)
    }

    /// A writer whose first implicit segment has the given size, or that of a
    /// chunk if that is less. The size must not be zero.
    pub fn with_initial_segment_size(arena: &EphemeralBytesArena, size: usize) -> (writer: Self)
        requires
            size > 0,
        ensures
            writer.wf(),
            writer.model().pieces.len() == 0,
            writer.model().contents().len() == 0,
            writer.model().spare == 0,
            writer.model().limit == usize::MAX,
            writer.model().chunk == chunk_size(*arena),
            writer.model().first == min(size as int, chunk_size(*arena) as int),
            writer.model().size == writer.model().first,
    {
        let chunk: usize = arena.chunk_capacity();
        let size: usize = if size < chunk {
            size
        } else {
            chunk
        };
        Self {
            arena: arena.clone(),
            segments: Segments::new(),
            segment_size: size,
            initial_segment_size: size,
            limit: usize::MAX,
            len: 0,
        }
    }

    /// A writer that takes at most `max_bytes` bytes, which may be zero.
    /// Allocations are capped to what the limit leaves.
    pub fn with_limit(arena: &EphemeralBytesArena, max_bytes: usize) -> (writer: Self)
        ensures
            writer.wf(),
            writer.model().pieces.len() == 0,
            writer.model().contents().len() == 0,
            writer.model().spare == 0,
            writer.model().limit == max_bytes,
            writer.model().chunk == chunk_size(*arena),
            writer.model().first == min(2048, chunk_size(*arena) as int),
            writer.model().size == writer.model().first,
    {
        let mut writer = Self::new(arena);
        writer.limit = max_bytes;
        writer
    }

    /// Number of bytes written so far.
    pub fn len(&self) -> (count: usize)
        requires
            self.wf(),
        ensures
            count == self.model().contents().len(),
    {
        self.len
    }

    /// Whether nothing was written yet.
    pub fn is_empty(&self) -> (empty: bool)
        requires
            self.wf(),
        ensures
            empty == (self.model().contents().len() == 0),
    {
        self.len == 0
    }

    /// How many more bytes this writer takes.
    pub fn remaining(&self) -> (count: usize)
        requires
            self.wf(),
        ensures
            count == self.model().remaining(),
            count == self.model().limit - self.model().contents().len(),
    {
        self.limit - self.len
    }

    /// Number of segments, a reserved and possibly empty tail among them.
    pub fn segment_count(&self) -> (count: usize)
        requires
            self.wf(),
        ensures
            count == self.model().pieces.len(),
    {
        self.segments.len()
    }

    /// Whether a segment is on the heap, if there are that many. One that is not
    /// has just the size that was asked for.
    pub fn is_heap_allocated(&self, index: usize) -> (heap: Option<bool>)
        requires
            self.wf(),
        ensures
            heap == if index < self.model().pieces.len() {
                Some(self.model().heap[index as int])
            } else {
                None
            },
    {
        proof {
            self.lemma_model();
            assert(index < self.model().pieces.len() ==> self.model().pieces[index as int]
                == written(self.segments@[index as int].bytes));
        }
        match self.segments.get(index) {
            Some(segment) => Some(segment.bytes.is_heap_allocated()),
            None => None,
        }
    }

    /// Have room for `additional` more bytes in the writable tail. What was
    /// written neither changes nor moves. A tail that is too small is left
    /// behind and one segment of that size is added, whatever the cap on
    /// implicit growth.
    pub fn reserve_exact(&mut self, additional: usize) -> (outcome: Result<(), Error>)
        requires
            old(self).wf(),
        ensures
            final(self).wf(),
            ({
                let before = old(self).model();
                let after = final(self).model();
                match outcome {
                    Ok(()) => {
                        &&& additional <= before.remaining()
                        &&& additional <= isize::MAX
                        &&& after.contents() == before.contents()
                        &&& reserves(before, after, additional as int)
                        &&& after.spare >= additional
                        &&& after.limit == before.limit
                        &&& after.size == before.size
                    },
                    Err(error) => {
                        &&& after == before
                        &&& error == if additional > before.remaining() {
                            Error::LimitExceeded
                        } else {
                            Error::ReservationTooLarge
                        }
                        &&& additional > before.remaining() || additional > isize::MAX
                    },
                }
            }),
    {
        if additional > self.remaining() {
            return Err(Error::LimitExceeded);
        }
        let ghost before = self.segments@;
        assert(linked(before, 0, self.len as int));
        let outcome = self.segments.reserve_exact(&self.arena, self.len, additional);
        proof {
            if outcome is Ok {
                lemma_reserved(before, self.segments@, 0, self.len as int, additional as int);
                if additional > 0 && spare(before) < additional {
                    lemma_new_tail(before, self.segments@, self.len as int, additional as int);
                }
            }
        }
        outcome
    }
}

impl Writer {
    /// Write the first of `bytes` to the tail, or to a new one. One step of
    /// `write`.
    fn write_some(&mut self, bytes: &[u8]) -> (count: usize)
        requires
            old(self).wf(),
            0 < bytes@.len() <= old(self).model().remaining(),
        ensures
            final(self).wf(),
            0 < count <= bytes@.len(),
            appended_once(old(self).model(), final(self).model(), bytes@.take(count as int)),
    {
        let ghost before = self.segments@;
        let ghost len = self.len as int;
        let remaining: usize = self.limit - self.len;
        assert(linked(before, 0, self.len as int));
        let outcome = self.segments.ensure_tail(
            &self.arena,
            self.len,
            remaining,
            &mut self.segment_size,
        );
        assert(outcome is Ok);
        let ghost ready = self.segments@;
        proof {
            if spare(before) == 0 {
                let wanted = min(old(self).segment_size as int, remaining as int);
                lemma_reserved(before, ready, 0, len, wanted);
                lemma_new_tail(before, ready, len, wanted);
            }
        }
        let segment = self.segments.back_mut().unwrap();
        let space: usize = segment.bytes.remaining();
        let count: usize = if bytes.len() < space {
            bytes.len()
        } else {
            space
        };
        segment.bytes.extend_from_slice(&bytes[0..count]);
        self.len = self.len + count;
        proof {
            let added = bytes@.take(count as int);
            assert(bytes@.subrange(0, count as int) =~= added);
            lemma_linked_extend(ready, self.segments@, 0, len, added);
            if spare(before) == 0 {
                assert(pieces(self.segments@) =~= pieces(before).push(added));
            }
        }
        count
    }

    /// Append as many of `bytes` as the limit leaves.
    pub fn write(&mut self, bytes: &[u8]) -> (outcome: Result<usize, Error>)
        requires
            old(self).wf(),
        ensures
            final(self).wf(),
            ({
                let accepted = min(bytes@.len() as int, old(self).model().remaining());
                &&& outcome == Ok::<usize, Error>(accepted as usize)
                &&& appended(old(self).model(), final(self).model(), bytes@.take(accepted))
            }),
            ({
                let before = old(self).model();
                let after = final(self).model();
                let allowed = before.limit - before.contents().len();
                &&& outcome is Ok
                &&& outcome->Ok_0 == if bytes@.len() <= allowed {
                    bytes@.len() as int
                } else {
                    allowed
                }
                &&& after.contents() == before.contents() + bytes@.subrange(
                    0,
                    outcome->Ok_0 as int,
                )
                &&& after.limit == before.limit
            }),
    {
        let remaining: usize = self.limit - self.len;
        let accepted: usize = if bytes.len() < remaining {
            bytes.len()
        } else {
            remaining
        };
        let mut done: usize = 0;
        proof {
            lemma_appended_nothing(self.model());
            assert(bytes@.take(0) =~= Seq::<u8>::empty());
        }
        while done < accepted
            invariant
                self.wf(),
                old(self).wf(),
                done <= accepted <= bytes@.len(),
                accepted <= old(self).model().remaining(),
                appended(old(self).model(), self.model(), bytes@.take(done as int)),
            decreases accepted - done,
        {
            let ghost middle = self.model();
            let count: usize = self.write_some(&bytes[done..accepted]);
            proof {
                let more = bytes@.subrange(done as int, accepted as int).take(count as int);
                lemma_appended_once(middle, self.model(), more);
                lemma_writes_compose(
                    old(self).model(),
                    middle,
                    self.model(),
                    bytes@.take(done as int),
                    more,
                );
                assert(bytes@.take(done as int) + more =~= bytes@.take(done + count));
            }
            done = done + count;
        }
        Ok(accepted)
    }

    /// Append the buffers one after the other, as far as the limit leaves.
    pub fn write_vectored(&mut self, buffers: &[&[u8]]) -> (outcome: Result<usize, Error>)
        requires
            old(self).wf(),
        ensures
            final(self).wf(),
            ({
                let all = gathered(buffers@);
                let accepted = min(all.len() as int, old(self).model().remaining());
                &&& outcome == Ok::<usize, Error>(accepted as usize)
                &&& appended(old(self).model(), final(self).model(), all.take(accepted))
            }),
            ({
                let before = old(self).model();
                let after = final(self).model();
                let all = gathered(buffers@);
                let allowed = before.limit - before.contents().len();
                &&& outcome is Ok
                &&& outcome->Ok_0 == if all.len() <= allowed {
                    all.len() as int
                } else {
                    allowed
                }
                &&& after.contents() == before.contents() + all.subrange(0, outcome->Ok_0 as int)
                &&& after.limit == before.limit
            }),
    {
        let ghost all = gathered(buffers@);
        let ghost room = self.model().remaining();
        let mut total: usize = 0;
        let mut i: usize = 0;
        proof {
            lemma_appended_nothing(self.model());
            lemma_gathered(buffers@, 0);
            assert(all.take(0) =~= Seq::<u8>::empty());
        }
        while i < buffers.len()
            invariant
                self.wf(),
                old(self).wf(),
                all == gathered(buffers@),
                room == old(self).model().remaining(),
                0 <= i <= buffers@.len(),
                total == gathered(buffers@.take(i as int)).len(),
                total <= all.len(),
                self.model().remaining() == room - total,
                appended(old(self).model(), self.model(), all.take(total as int)),
            decreases buffers@.len() - i,
        {
            let buffer: &[u8] = buffers[i];
            let ghost middle = self.model();
            let count: usize = match self.write(buffer) {
                Ok(count) => count,
                Err(error) => return Err(error),
            };
            proof {
                let more = buffer@.take(count as int);
                lemma_writes_compose(
                    old(self).model(),
                    middle,
                    self.model(),
                    all.take(total as int),
                    more,
                );
                lemma_gathered(buffers@, i as int);
                assert(all.take(total as int) + more =~= all.take(total + count));
            }
            total = total + count;
            if count < buffer.len() {
                return Ok(total);
            }
            i = i + 1;
        }
        proof {
            assert(buffers@.take(i as int) =~= buffers@);
            assert(all.take(total as int) =~= all);
        }
        Ok(total)
    }

    /// Every write is stored at once: there is nothing to flush.
    pub fn flush(&mut self) -> (outcome: Result<(), Error>)
        ensures
            outcome == Ok::<(), Error>(()),
            *final(self) == *old(self),
    {
        Ok(())
    }
}

impl Writer {
    /// Receive straight into the writable tail: `poll` is handed the tail and
    /// the most it may append, which `maximum` and the limit bound. It is not
    /// called where that is zero. Its answer comes back with the number of
    /// bytes that it appended.
    #[verifier::spinoff_prover]
    pub fn poll_read_from<P, F: FnOnce(&mut EphemeralBytesMut, usize) -> P>(
        &mut self,
        maximum: usize,
        poll: F,
    ) -> (outcome: Result<Option<(P, usize)>, Error>)
        requires
            old(self).wf(),
            forall|tail: &mut EphemeralBytesMut, wanted: usize|
                room(*tail) > 0 && 0 < wanted <= maximum ==> #[trigger] call_requires(
                    poll,
                    (tail, wanted),
                ),
            forall|tail: &mut EphemeralBytesMut, wanted: usize, answer: P| #[trigger]
                call_ensures(poll, (tail, wanted), answer) ==> receives(
                    *tail,
                    *final(tail),
                    wanted as int,
                ),
        ensures
            final(self).wf(),
            ({
                let wanted = min(maximum as int, old(self).model().remaining());
                match outcome {
                    Ok(Some((answer, count))) => {
                        &&& wanted > 0
                        &&& count <= wanted
                        &&& count <= maximum
                        &&& final(self).model().limit == old(self).model().limit
                        &&& final(self).model().contents().len() == old(
                            self,
                        ).model().contents().len() + count
                    },
                    Ok(None) => wanted == 0 && *final(self) == *old(self),
                    Err(_) => false,
                }
            }),
            outcome matches Ok(Some((answer, count))) ==> exists|tail: &mut EphemeralBytesMut|
                call_ensures(
                    poll,
                    (tail, min(maximum as int, old(self).model().remaining()) as usize),
                    answer,
                ) && #[trigger] stored(
                    old(self).model(),
                    final(self).model(),
                    min(maximum as int, old(self).model().remaining()),
                    count as int,
                    *tail,
                    *final(tail),
                ),
    {
        let remaining: usize = self.limit - self.len;
        let wanted: usize = if maximum < remaining {
            maximum
        } else {
            remaining
        };
        if wanted == 0 {
            return Ok(None);
        }
        let ghost before = self.model();
        assert(linked(self.segments@, 0, self.len as int));
        assert(before.pieces.len() > 0 ==> before.pieces.last() == written(
            self.segments@.last().bytes,
        ));
        match self.segments.poll_tail(
            &self.arena,
            self.len,
            wanted,
            &mut self.segment_size,
            poll,
        ) {
            Ok((answer, count)) => {
                self.len = self.len + count;
                let result: Result<Option<(P, usize)>, Error> = Ok(Some((answer, count)));
                proof {
                    let after = self.model();
                    let tail = choose|tail: &mut EphemeralBytesMut|
                        call_ensures(poll, (tail, wanted), answer) && count == received(
                            *tail,
                            *final(tail),
                        ).len() && #[trigger] placed(
                            before.pieces,
                            before.heap,
                            before.spare,
                            before.size,
                            wanted as int,
                            *tail,
                            *final(tail),
                            after.pieces,
                            after.heap,
                            after.spare,
                            after.size,
                            before.chunk,
                        );
                    lemma_placed(
                        before.pieces,
                        before.heap,
                        before.spare,
                        before.size,
                        wanted as int,
                        *tail,
                        *final(tail),
                        after.pieces,
                        after.heap,
                        after.spare,
                        after.size,
                        before.chunk,
                    );
                    assert(call_ensures(
                        poll,
                        (tail, min(maximum as int, before.remaining()) as usize),
                        result->Ok_0->Some_0.0,
                    ));
                    assert(stored(
                        old(self).model(),
                        self.model(),
                        min(maximum as int, before.remaining()),
                        result->Ok_0->Some_0.1 as int,
                        *tail,
                        *final(tail),
                    ));
                }
                result
            },
            Err(error) => Err(error),
        }
    }
}

impl Writer {
    /// Hand the segments over to a reader, without copying bytes. The reader
    /// owns its storage and may outlive every other handle to the arena.
    pub fn into_reader(self) -> (reader: Reader)
        requires
            self.wf(),
        ensures
            reader.wf(),
            reader.model() == self.model().reader(),
            reader.model().unread() == self.model().contents(),
    {
        assert(self.model().pieces.len() > 0 ==> self.model().pieces.last() == written(
            self.segments@.last().bytes,
        ));
        let reader = Reader::new(
            self.arena,
            self.segments,
            self.len,
            self.initial_segment_size,
            self.segment_size,
        );
        assert(reader.model().unread() =~= self.model().contents());
        reader
    }
}

/// The buffers joined.
pub open spec fn gathered(buffers: Seq<&[u8]>) -> Seq<u8> {
    buffers.map_values(|buffer: &[u8]| buffer@).flatten()
}

/// Buffer `i` stands in the joined buffers behind those before it.
pub proof fn lemma_gathered(buffers: Seq<&[u8]>, i: int)
    requires
        0 <= i <= buffers.len(),
    ensures
        gathered(buffers.take(i)).len() <= gathered(buffers).len(),
        i == 0 ==> gathered(buffers.take(i)).len() == 0,
        i < buffers.len() ==> {
            let at = gathered(buffers.take(i)).len() as int;
            &&& gathered(buffers.take(i + 1)).len() == at + buffers[i]@.len()
            &&& at + buffers[i]@.len() <= gathered(buffers).len()
            &&& gathered(buffers).subrange(at, at + buffers[i]@.len()) == buffers[i]@
        },
{
    let view = |buffer: &[u8]| buffer@;
    let all = buffers.map_values(view);
    let front = buffers.take(i).map_values(view);
    lemma_flatten(all);
    lemma_flatten(front);
    lemma_offset_prefix(front, all, i);
    lemma_offset_monotone(all, i, all.len() as int);
    if i < buffers.len() {
        assert(all[i] == buffers[i]@);
        assert(buffers.take(i + 1).map_values(view) =~= front.push(buffers[i]@));
        front.lemma_flatten_push(buffers[i]@);
    }
}

} // verus!
