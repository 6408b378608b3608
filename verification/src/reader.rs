//! The reading end of a stream.

use crate::arena::{chunk_size, frozen, on_heap, room, written};
use crate::error::Error;
use crate::meaning::lemma_vectored_read;
use crate::pieces::{
    heap_with_new_tail, lemma_flatten, lemma_offset_monotone, lemma_run, lemma_run_is_next, lemma_unconsumed,
    lemma_unconsumed_again, min, offset, run, unconsumed, with_new_tail,
};
use crate::retained::Retained;
use crate::segments::{
    heaps, lemma_linked_drop_first, lemma_new_tail, lemma_placed, lemma_reserved, lemma_segment,
    linked, pieces, placed, received, receives, spare, Segment, Segments,
};
use brz_ds::{EphemeralBytes, EphemeralBytesArena, EphemeralBytesMut};
use vstd::prelude::*;
use vstd::string::StringSliceAdditionalSpecFns;
use vstd::utf8::valid_utf8;

verus! {

/// What a reader holds.
#[verifier::ext_equal]
pub struct ReaderModel {
    /// The bytes of each segment that is still held.
    pub pieces: Seq<Seq<u8>>,
    /// Which of these segments are on the heap.
    pub heap: Seq<bool>,
    /// The room in the last segment.
    pub spare: nat,
    /// The position after the last byte.
    pub end: nat,
    /// The position of the next byte to read.
    pub position: nat,
    /// The size of the next implicit segment.
    pub size: nat,
    /// The size of the first implicit segment.
    pub first: nat,
    /// The chunk size of the arena.
    pub chunk: nat,
}

impl ReaderModel {
    /// The bytes held, read ones among them.
    pub open spec fn contents(self) -> Seq<u8> {
        self.pieces.flatten()
    }

    /// The position of the first byte held.
    pub open spec fn base(self) -> int {
        self.end - self.contents().len()
    }

    /// The bytes that are still to be read.
    pub open spec fn unread(self) -> Seq<u8> {
        self.contents().skip(self.position - self.base())
    }

    /// The unread bytes of the segment that comes next.
    pub open spec fn chunk(self) -> Seq<u8> {
        run(self.pieces, self.position - self.base())
    }

    /// The reader with its position moved on.
    pub open spec fn moved(self, count: int) -> ReaderModel {
        ReaderModel { position: (self.position + count) as nat, ..self }
    }

    /// The reader after an exclusive read of `count` bytes, or of all that are
    /// left: the position moves on, and segments that lie before it go.
    pub open spec fn advanced(self, count: int) -> ReaderModel {
        let position = self.position + min(count, self.unread().len() as int);
        let rest = unconsumed(self.pieces, position - self.base());
        ReaderModel {
            pieces: rest,
            heap: self.heap.skip(self.pieces.len() - rest.len()),
            spare: if rest.len() == 0 {
                0
            } else {
                self.spare
            },
            position: position as nat,
            ..self
        }
    }

    /// What every reader keeps: the position lies within what is held, only
    /// the last segment may be empty and has room then, sizes are positive and
    /// within a chunk.
    pub open spec fn wf(self) -> bool {
        &&& 0 <= self.base() <= self.position <= self.end <= usize::MAX
        &&& forall|i: int| 0 <= i < self.pieces.len() - 1 ==> (#[trigger] self.pieces[i]).len() > 0
        &&& self.heap.len() == self.pieces.len()
        &&& self.pieces.len() == 0 ==> self.spare == 0
        &&& self.pieces.len() > 0 && self.pieces.last().len() == 0 ==> self.spare > 0
        &&& 0 < self.size <= self.chunk
        &&& 0 < self.first <= self.chunk
        &&& 2 * self.chunk <= isize::MAX
    }
}

/// An exclusive read keeps a reader sound, and leaves to be read what comes
/// after the bytes that it read.
pub proof fn lemma_advanced(model: ReaderModel, count: int)
    requires
        model.wf(),
        0 <= count,
    ensures
        model.advanced(count).wf(),
        model.advanced(count).unread() == model.unread().skip(
            min(count, model.unread().len() as int),
        ),
        model.advanced(count).pieces.len() > 0 ==> model.advanced(count).position
            < model.advanced(count).base() + model.advanced(count).pieces[0].len(),
{
    let after = model.advanced(count);
    let n = model.pieces.len() - after.pieces.len();
    lemma_unconsumed(model.pieces, after.position - model.base());
    assert forall|i: int| 0 <= i < after.pieces.len() - 1 implies (
    #[trigger] after.pieces[i]).len() > 0 by {
        assert(after.pieces[i] == model.pieces[i + n]);
    }
    if after.pieces.len() > 0 {
        assert(after.pieces.last() == model.pieces.last());
    }
    assert(after.unread() =~= model.unread().skip(min(count, model.unread().len() as int)));
}

/// Two exclusive reads in a row do what one read of both lengths would do.
pub proof fn lemma_advances_compose(model: ReaderModel, count: int, more: int)
    requires
        model.wf(),
        0 <= count,
        0 <= more,
    ensures
        model.advanced(count).advanced(more) == model.advanced(count + more),
{
    let after = model.advanced(count);
    lemma_advanced(model, count);
    lemma_unconsumed(model.pieces, after.position - model.base());
    lemma_unconsumed_again(
        model.pieces,
        after.position - model.base(),
        model.advanced(count + more).position - model.base(),
    );
    let last = model.advanced(count + more);
    lemma_unconsumed(after.pieces, last.position - after.base());
    assert(after.heap.skip(after.pieces.len() - last.pieces.len()) =~= model.heap.skip(
        model.pieces.len() - last.pieces.len(),
    ));
    assert(after.advanced(more) =~= last);
}

/// Whether a range of `len` bytes, if there are that many, can be merged into
/// one allocation.
pub open spec fn fits(len: int, available: int) -> bool {
    len <= available ==> len <= isize::MAX
}

/// What an encoder answered, by what came of it.
pub open spec fn answered<E>(outcome: Result<&[u8], E>) -> Result<(), E> {
    match outcome {
        Ok(_) => Ok(()),
        Err(error) => Err(error),
    }
}

/// Whether a buffer is empty and has the given capacity, or more if it is on the
/// heap.
pub open spec fn fresh(buffer: EphemeralBytesMut, capacity: int) -> bool {
    &&& written(buffer).len() == 0
    &&& room(buffer) >= capacity
    &&& on_heap(buffer) || room(buffer) == capacity
}

/// Whether `before` is a fresh buffer of the given capacity, and the bytes
/// kept, if any, are what `after` holds.
pub open spec fn encoded<E>(
    before: EphemeralBytesMut,
    after: EphemeralBytesMut,
    capacity: int,
    outcome: Result<&[u8], E>,
) -> bool {
    &&& fresh(before, capacity)
    &&& outcome matches Ok(bytes) ==> bytes@ == written(after)
}

/// An owned, segmented byte reader for both copying and borrowed reads.
///
/// Borrowed reads leave the segments where they are. Bytes that cross segments
/// are merged into an allocation that is kept, as are the segments, until the
/// next exclusive read: `read`, `read_vectored`, `fill_buf` or `consume`. Those
/// let segments go that were read to their end.
///
/// Reads that move the position take the reader by exclusive reference, and
/// say what the position is afterwards. [`crate::SharedReader`] has them through
/// a shared reference, so that what several reads return can be held together.
pub struct Reader {
    arena: EphemeralBytesArena,
    segments: Segments,
    cursor: usize,
    end: usize,
    retained: Retained,
    initial_segment_size: usize,
    segment_size: usize,
}

impl Reader {
    /// What this reader holds.
    pub closed spec fn model(&self) -> ReaderModel {
        ReaderModel {
            pieces: pieces(self.segments@),
            heap: heaps(self.segments@),
            spare: spare(self.segments@),
            end: self.end as nat,
            position: self.cursor as nat,
            size: self.segment_size as nat,
            first: self.initial_segment_size as nat,
            chunk: chunk_size(self.arena),
        }
    }

    /// The segments hold the stream, the kept ranges are of it, and the model
    /// is sound.
    pub closed spec fn wf(&self) -> bool {
        &&& self.segments.wf()
        &&& linked(self.segments@, self.model().base(), self.end as int)
        &&& self.retained.wf()
        &&& self.retained.base() == self.model().base()
        &&& self.retained.contents() == self.model().contents()
        &&& self.model().wf()
    }

    /// The model speaks of the segments that the reader holds and of its arena.
    proof fn lemma_model(&self)
        requires
            self.wf(),
        ensures
            self.model().pieces.len() == self.segments@.len(),
            forall|i: int|
                0 <= i < self.segments@.len() ==> {
                    &&& #[trigger] self.model().pieces[i] == written(self.segments@[i].bytes)
                    &&& self.model().heap[i] == on_heap(self.segments@[i].bytes)
                    &&& i == self.segments@.len() - 1 ==> self.model().spare == room(
                        self.segments@[i].bytes,
                    )
                },
            self.model().position == self.cursor,
            self.model().end == self.end,
            self.model().size == self.segment_size,
            self.model().chunk == chunk_size(self.arena),
    {
    }

    /// A reader is always within its bounds, whatever was done with it.
    pub proof fn lemma_wf(&self)
        requires
            self.wf(),
        ensures
            self.model().wf(),
    {
    }

    /// A reader of a stream of `len` bytes, at its start.
    pub(crate) fn new(
        arena: EphemeralBytesArena,
        segments: Segments,
        len: usize,
        initial_segment_size: usize,
        segment_size: usize,
    ) -> (reader: Self)
        requires
            segments.wf(),
            linked(segments@, 0, len as int),
            segments@.len() > 0 && written(segments@.last().bytes).len() == 0 ==> spare(segments@)
                > 0,
            0 < segment_size <= chunk_size(arena),
            0 < initial_segment_size <= chunk_size(arena),
            2 * chunk_size(arena) <= isize::MAX,
        ensures
            reader.wf(),
            reader.model() == (ReaderModel {
                pieces: pieces(segments@),
                heap: heaps(segments@),
                spare: spare(segments@),
                end: len as nat,
                position: 0,
                size: segment_size as nat,
                first: initial_segment_size as nat,
                chunk: chunk_size(arena),
            }),
    {
        let retained = Retained::new(Ghost(0), Ghost(pieces(segments@).flatten()));
        Self {
            arena,
            segments,
            cursor: 0,
            end: len,
            retained,
            initial_segment_size,
            segment_size,
        }
    }

    /// The position of the next byte, counted from the start of the stream.
    pub fn position(&self) -> (position: usize)
        requires
            self.wf(),
        ensures
            position == self.model().position,
    {
        self.cursor
    }

    /// The position after the last byte.
    pub(crate) fn end_position(&self) -> (end: usize)
        ensures
            end == self.model().end,
    {
        self.end
    }

    /// Number of unread bytes.
    pub fn len(&self) -> (count: usize)
        requires
            self.wf(),
        ensures
            count == self.model().unread().len(),
    {
        self.end - self.cursor
    }

    /// Whether everything was read.
    pub fn is_empty(&self) -> (empty: bool)
        requires
            self.wf(),
        ensures
            empty == (self.model().unread().len() == 0),
    {
        self.len() == 0
    }

    /// Number of segments held, a reserved and possibly empty tail among them.
    pub fn segment_count(&self) -> (count: usize)
        requires
            self.wf(),
        ensures
            count == self.model().pieces.len(),
    {
        self.segments.len()
    }

    /// Whether a segment is on the heap, if that many are held. One that is not
    /// has just the size that was asked for.
    pub fn is_heap_allocated(&self, index: usize) -> (heap: Option<bool>)
        requires
            self.wf(),
        ensures
            heap == if index < self.model().pieces.len() {
                Some(self.model().heap[index as int])
            } else {
                None
            },
    {
        proof {
            self.lemma_model();
            assert(index < self.model().pieces.len() ==> self.model().pieces[index as int]
                == written(self.segments@[index as int].bytes));
        }
        match self.segments.get(index) {
            Some(segment) => Some(segment.bytes.is_heap_allocated()),
            None => None,
        }
    }

    /// Number of bytes held, those among them that were read but not let go.
    pub fn held_len(&self) -> (count: usize)
        requires
            self.wf(),
        ensures
            count == self.model().contents().len(),
    {
        match self.segments.front() {
            Some(segment) => {
                proof {
                    lemma_segment(self.segments@, self.model().base(), self.end as int, 0);
                }
                self.end - segment.start
            },
            None => {
                assert(self.model().pieces =~= Seq::empty());
                0
            },
        }
    }

    /// The index of the segment that holds a position.
    fn locate(&self, position: usize) -> (index: usize)
        requires
            self.wf(),
            self.model().base() <= position < self.end,
        ensures
            index < self.segments@.len(),
            self.segments@[index as int].start <= position,
            position < self.segments@[index as int].start + written(
                self.segments@[index as int].bytes,
            ).len(),
    {
        let started = |segment: &Segment| -> (before: bool)
            ensures
                before == (segment.start <= position),
            { segment.start <= position };
        let index: usize = self.segments.partition_point(started);
        proof {
            let base = self.model().base();
            let end = self.end as int;
            assert(self.segments@.len() > 0) by {
                if self.segments@.len() == 0 {
                    assert(pieces(self.segments@) =~= Seq::empty());
                }
            }
            lemma_segment(self.segments@, base, end, 0);
            if index > 0 {
                lemma_segment(self.segments@, base, end, index - 1);
            }
        }
        index - 1
    }

    /// The byte at a position, if it is in the stream.
    pub(crate) fn byte_at(&self, position: usize) -> (byte: Option<u8>)
        requires
            self.wf(),
            self.model().base() <= position,
        ensures
            byte == if position < self.model().end {
                Some(self.model().contents()[position - self.model().base()])
            } else {
                None
            },
    {
        if position >= self.end {
            return None;
        }
        let index: usize = self.locate(position);
        let segment = self.segments.index(index);
        proof {
            lemma_segment(self.segments@, self.model().base(), self.end as int, index as int);
        }
        Some(segment.bytes.as_slice()[position - segment.start])
    }

    /// The bytes from a position to the end of its segment, none at the end.
    pub(crate) fn run_at(&self, position: usize) -> (bytes: &[u8])
        requires
            self.wf(),
            self.model().base() <= position <= self.model().end,
        ensures
            bytes@ == run(self.model().pieces, position - self.model().base()),
    {
        proof {
            lemma_run_is_next(self.model().pieces, position - self.model().base());
        }
        if position == self.end {
            return &[];
        }
        let index: usize = self.locate(position);
        let segment = self.segments.index(index);
        let bytes = segment.bytes.as_slice();
        proof {
            let base = self.model().base();
            lemma_segment(self.segments@, base, self.end as int, index as int);
            lemma_run(self.model().pieces, index as int, position - base);
            assert(bytes@.subrange(position - segment.start, bytes@.len() as int) =~= bytes@.skip(
                position - segment.start,
            ));
        }
        &bytes[position - segment.start..bytes.len()]
    }

    /// Copy a range into one allocation.
    #[verifier::spinoff_prover]
    #[verifier::rlimit(30)]
    fn merge(&self, start: usize, len: usize) -> (merged: EphemeralBytes)
        requires
            self.wf(),
            self.model().base() <= start,
            0 < len <= isize::MAX,
            start + len <= self.model().end,
        ensures
            frozen(merged) == self.model().contents().subrange(
                start - self.model().base(),
                start + len - self.model().base(),
            ),
    {
        let ghost base = self.model().base();
        let ghost contents = self.model().contents();
        let mut output = self.arena.alloc(len);
        let segment_count: usize = self.segments.len();
        let mut index: usize = self.locate(start);
        let mut done: usize = 0;
        assert(written(output) =~= contents.subrange(start - base, start - base));
        while done < len
            invariant
                self.wf(),
                segment_count == self.segments@.len(),
                base == self.model().base(),
                contents == self.model().contents(),
                base <= start,
                start + len <= self.end,
                done <= len,
                written(output) == contents.subrange(start - base, start + done - base),
                room(output) >= len - done,
                done < len ==> {
                    &&& index < self.segments@.len()
                    &&& self.segments@[index as int].start <= start + done
                    &&& start + done < self.segments@[index as int].start + written(
                        self.segments@[index as int].bytes,
                    ).len()
                },
            decreases len - done,
        {
            let segment = self.segments.index(index);
            let bytes = segment.bytes.as_slice();
            let from: usize = start + done - segment.start;
            let left: usize = bytes.len() - from;
            let count: usize = if left < len - done {
                left
            } else {
                len - done
            };
            proof {
                let end = self.end as int;
                lemma_segment(self.segments@, base, end, index as int);
                assert(bytes@.subrange(from as int, from + count) =~= contents.subrange(
                    start + done - base,
                    start + done + count - base,
                ));
                assert(contents.subrange(start - base, start + done - base) + contents.subrange(
                    start + done - base,
                    start + done + count - base,
                ) =~= contents.subrange(start - base, start + done + count - base));
                if index + 1 < self.segments@.len() {
                    lemma_segment(self.segments@, base, end, index + 1);
                }
            }
            output.extend_from_slice(&bytes[from..from + count]);
            done = done + count;
            index = index + 1;
        }
        output.freeze()
    }

    /// Borrow a range: from its segment where it lies in one, else from one
    /// allocation into which it is merged, once.
    pub(crate) fn range(&self, position: usize, len: usize) -> (outcome: Result<&[u8], Error>)
        requires
            self.wf(),
            self.model().base() <= position,
            fits(len as int, self.model().end - position),
        ensures
            match outcome {
                Ok(bytes) => {
                    &&& position + len <= self.model().end
                    &&& bytes@ == self.model().contents().subrange(
                        position - self.model().base(),
                        position + len - self.model().base(),
                    )
                },
                Err(error) => {
                    &&& position + len > self.model().end
                    &&& error == Error::UnexpectedEof
                },
            },
    {
        if position > self.end || len > self.end - position {
            return Err(Error::UnexpectedEof);
        }
        let ghost base = self.model().base();
        let ghost contents = self.model().contents();
        if len == 0 {
            assert(contents.subrange(position - base, position - base) =~= Seq::<u8>::empty());
            return Ok(&[]);
        }
        let next = self.run_at(position);
        proof {
            lemma_run_is_next(self.model().pieces, position - base);
        }
        if len <= next.len() {
            assert(next@.subrange(0, len as int) =~= contents.subrange(
                position - base,
                position + len - base,
            ));
            return Ok(&next[0..len]);
        }
        let merge = || -> (merged: EphemeralBytes)
            ensures
                frozen(merged) == contents.subrange(position - base, position + len - base),
            { self.merge(position, len) };
        Ok(self.retained.range_or_merge(position, len, merge))
    }
}

impl Reader {
    /// Borrow all unread bytes without reading them. Where they lie in one
    /// segment they are borrowed from it. Else all that is held is merged into
    /// one allocation, which serves until the next exclusive read.
    pub fn as_slice(&self) -> (bytes: &[u8])
        requires
            self.wf(),
            self.model().chunk() == self.model().unread() || self.model().contents().len()
                <= isize::MAX,
        ensures
            bytes@ == self.model().unread(),
    {
        self.rest_at(self.cursor)
    }

    /// Borrow all bytes from a position on.
    pub(crate) fn rest_at(&self, position: usize) -> (bytes: &[u8])
        requires
            self.wf(),
            self.model().base() <= position <= self.model().end,
            run(self.model().pieces, position - self.model().base()).len() == self.model().end
                - position || self.model().contents().len() <= isize::MAX,
        ensures
            bytes@ == self.model().contents().skip(position - self.model().base()),
    {
        let ghost model = self.model();
        let next = self.run_at(position);
        proof {
            lemma_run_is_next(model.pieces, position - model.base());
        }
        if next.len() == self.end - position {
            assert(next@ =~= model.contents().skip(position - model.base()));
            return next;
        }
        let start: usize = match self.segments.front() {
            Some(segment) => segment.start,
            None => self.end,
        };
        let merged = self.range(start, self.end - start).unwrap();
        assert(merged@.subrange(position - start, merged@.len() as int) =~= model.contents().skip(
            position - model.base(),
        ));
        &merged[position - start..merged.len()]
    }

    /// The byte `offset` past the next one, without reading it.
    pub fn peek_byte(&self, offset: usize) -> (byte: Option<u8>)
        requires
            self.wf(),
        ensures
            byte == if offset < self.model().unread().len() {
                Some(self.model().unread()[offset as int])
            } else {
                None
            },
    {
        match self.cursor.checked_add(offset) {
            Some(position) => self.byte_at(position),
            None => None,
        }
    }

    /// Borrow `len` bytes that lie `offset` past the next one, without reading
    /// them.
    pub fn peek_bytes(&self, offset: usize, len: usize) -> (outcome: Result<&[u8], Error>)
        requires
            self.wf(),
            fits(len as int, self.model().unread().len() - offset),
        ensures
            match outcome {
                Ok(bytes) => {
                    &&& offset + len <= self.model().unread().len()
                    &&& bytes@ == self.model().unread().subrange(offset as int, offset + len)
                },
                Err(error) => {
                    &&& offset + len > self.model().unread().len()
                    &&& error == Error::UnexpectedEof
                },
            },
    {
        match self.cursor.checked_add(offset) {
            Some(position) => {
                let outcome = self.range(position, len);
                proof {
                    if outcome is Ok {
                        assert(outcome->Ok_0@ =~= self.model().unread().subrange(
                            offset as int,
                            offset + len,
                        ));
                    }
                }
                outcome
            },
            None => Err(Error::UnexpectedEof),
        }
    }

    /// Read exactly `len` bytes. Where fewer are left, nothing is read.
    pub fn read_bytes(&mut self, len: usize) -> (outcome: Result<&[u8], Error>)
        requires
            old(self).wf(),
            fits(len as int, old(self).model().unread().len() as int),
        ensures
            final(self).wf(),
            match outcome {
                Ok(bytes) => {
                    &&& len <= old(self).model().unread().len()
                    &&& bytes@ == old(self).model().unread().take(len as int)
                    &&& final(self).model() == old(self).model().moved(len as int)
                    &&& final(self).model().position == old(self).model().position + len
                    &&& final(self).model().unread() == old(self).model().unread().subrange(
                        len as int,
                        old(self).model().unread().len() as int,
                    )
                    &&& final(self).model().pieces == old(self).model().pieces
                },
                Err(error) => {
                    &&& len > old(self).model().unread().len()
                    &&& error == Error::UnexpectedEof
                    &&& final(self).model() == old(self).model()
                },
            },
    {
        let position: usize = self.cursor;
        match self.skip(len) {
            Ok(()) => {},
            Err(error) => return Err(error),
        }
        let outcome = self.range(position, len);
        assert(outcome->Ok_0@ =~= old(self).model().unread().take(len as int));
        outcome
    }

    /// Read exactly `len` bytes as text. Where fewer are left, or they are not
    /// UTF-8, nothing is read.
    pub fn read_str(&mut self, len: usize) -> (outcome: Result<&str, Error>)
        requires
            old(self).wf(),
            fits(len as int, old(self).model().unread().len() as int),
        ensures
            final(self).wf(),
            ({
                let next = old(self).model().unread().take(len as int);
                match outcome {
                    Ok(text) => {
                        &&& len <= old(self).model().unread().len()
                        &&& valid_utf8(next)
                        &&& text.spec_bytes() == next
                        &&& final(self).model() == old(self).model().moved(len as int)
                        &&& final(self).model().position == old(self).model().position + len
                        &&& final(self).model().unread() == old(self).model().unread().subrange(
                            len as int,
                            old(self).model().unread().len() as int,
                        )
                        &&& final(self).model().pieces == old(self).model().pieces
                    },
                    Err(error) => {
                        &&& len > old(self).model().unread().len() || !valid_utf8(next)
                        &&& error == if len > old(self).model().unread().len() {
                            Error::UnexpectedEof
                        } else {
                            Error::InvalidUtf8
                        }
                        &&& final(self).model() == old(self).model()
                    },
                }
            }),
    {
        let position: usize = self.cursor;
        assert(len <= self.model().unread().len() ==> self.model().contents().subrange(
            position - self.model().base(),
            position + len - self.model().base(),
        ) =~= self.model().unread().take(len as int));
        match self.text_at(position, len) {
            Ok(_) => {},
            Err(error) => return Err(error),
        }
        self.cursor = position + len;
        assert(self.model().unread() =~= old(self).model().unread().subrange(
            len as int,
            old(self).model().unread().len() as int,
        ));
        self.text_at(position, len)
    }

    /// Borrow a range as text.
    pub(crate) fn text_at(&self, position: usize, len: usize) -> (outcome: Result<&str, Error>)
        requires
            self.wf(),
            self.model().base() <= position,
            fits(len as int, self.model().end - position),
        ensures
            ({
                let bytes = self.model().contents().subrange(
                    position - self.model().base(),
                    position + len - self.model().base(),
                );
                match outcome {
                    Ok(text) => {
                        &&& position + len <= self.model().end
                        &&& valid_utf8(bytes)
                        &&& text.spec_bytes() == bytes
                    },
                    Err(error) => {
                        &&& position + len > self.model().end || !valid_utf8(bytes)
                        &&& error == if position + len > self.model().end {
                            Error::UnexpectedEof
                        } else {
                            Error::InvalidUtf8
                        }
                    },
                }
            }),
    {
        match self.range(position, len) {
            Ok(bytes) => match core::str::from_utf8(bytes) {
                Ok(text) => Ok(text),
                Err(_) => Err(Error::InvalidUtf8),
            },
            Err(error) => Err(error),
        }
    }

    /// Read `len` bytes without looking at them. Where fewer are left, nothing
    /// is read.
    pub fn skip(&mut self, len: usize) -> (outcome: Result<(), Error>)
        requires
            old(self).wf(),
        ensures
            final(self).wf(),
            match outcome {
                Ok(()) => {
                    &&& len <= old(self).model().unread().len()
                    &&& final(self).model() == old(self).model().moved(len as int)
                    &&& final(self).model().position == old(self).model().position + len
                    &&& final(self).model().unread() == old(self).model().unread().subrange(
                        len as int,
                        old(self).model().unread().len() as int,
                    )
                    &&& final(self).model().pieces == old(self).model().pieces
                },
                Err(error) => {
                    &&& len > old(self).model().unread().len()
                    &&& error == Error::UnexpectedEof
                    &&& final(self).model() == old(self).model()
                },
            },
    {
        if len > self.end - self.cursor {
            return Err(Error::UnexpectedEof);
        }
        self.cursor = self.cursor + len;
        assert(self.model().unread() =~= old(self).model().unread().subrange(
            len as int,
            old(self).model().unread().len() as int,
        ));
        Ok(())
    }
}

impl Reader {
    /// Keep bytes that `encode` writes to a fresh buffer of the given capacity,
    /// without reading anything. Where it fails nothing is kept.
    pub fn store_bytes_with<E, F: FnOnce(&mut EphemeralBytesMut) -> Result<(), E>>(
        &self,
        capacity: usize,
        encode: F,
    ) -> (outcome: Result<&[u8], E>)
        requires
            self.wf(),
            capacity <= isize::MAX,
            forall|buffer: &mut EphemeralBytesMut|
                fresh(*buffer, capacity as int) ==> #[trigger] call_requires(encode, (buffer,)),
        ensures
            exists|buffer: &mut EphemeralBytesMut|
                call_ensures(encode, (buffer,), answered(outcome)) && #[trigger] encoded(
                    *buffer,
                    *final(buffer),
                    capacity as int,
                    outcome,
                ),
    {
        let mut bytes = self.arena.alloc(capacity);
        let ghost empty = bytes;
        let answer = encode(&mut bytes);
        let ghost filled = bytes;
        let ghost given = answer;
        let outcome = match answer {
            Ok(nothing) => {
                assert(nothing == ());
                Ok(self.retained.store(bytes.freeze()))
            },
            Err(error) => Err(error),
        };
        assert(answered(outcome) == given);
        assert(encoded(empty, filled, capacity as int, outcome));
        outcome
    }
}

/// Whether the first segment ends at or before a position.
fn front_is_past(segments: &Segments, position: usize) -> (past: bool)
    requires
        segments.wf(),
        segments@.len() > 0 ==> segments@[0].start + written(segments@[0].bytes).len()
            <= usize::MAX,
    ensures
        past == (segments@.len() > 0 && segments@[0].start + written(segments@[0].bytes).len()
            <= position),
{
    match segments.front() {
        Some(segment) => segment.start + segment.bytes.len() <= position,
        None => false,
    }
}

/// Copy `bytes` into `output`, from the place `at` on.
fn copy_at(output: &mut [u8], at: usize, bytes: &[u8])
    requires
        at + bytes@.len() <= old(output)@.len(),
    ensures
        final(output)@ == old(output)@.take(at as int) + bytes@ + old(output)@.skip(
            at + bytes@.len(),
        ),
{
    let size: usize = output.len();
    let mut i: usize = 0;
    while i < bytes.len()
        invariant
            i <= bytes@.len(),
            at + bytes@.len() <= size,
            size == old(output)@.len(),
            output@ == old(output)@.take(at as int) + bytes@.take(i as int) + old(output)@.skip(
                at + i,
            ),
        decreases bytes@.len() - i,
    {
        output[at + i] = bytes[i];
        i = i + 1;
    }
    assert(bytes@.take(i as int) =~= bytes@);
}

impl Reader {
    /// The unread bytes of the segment that comes next, none at the end.
    pub(crate) fn chunk(&self) -> (bytes: &[u8])
        requires
            self.wf(),
        ensures
            bytes@ == self.model().chunk(),
    {
        self.run_at(self.cursor)
    }

    /// Move on by `count` bytes, or by all that are left. Segments that were
    /// read to their end go, as does all that was kept for borrowed reads.
    pub(crate) fn advance(&mut self, count: usize)
        requires
            old(self).wf(),
        ensures
            final(self).wf(),
            final(self).model() == old(self).model().advanced(count as int),
    {
        let ghost before = self.model();
        let left: usize = self.end - self.cursor;
        self.cursor = self.cursor + if count < left {
            count
        } else {
            left
        };
        let ghost mut base = before.base();
        assert(linked(self.segments@, base, self.end as int));
        proof {
            assert(before.heap =~= before.heap.skip(0));
            if self.segments@.len() > 0 {
                lemma_segment(self.segments@, base, self.end as int, 0);
            }
        }
        while front_is_past(&self.segments, self.cursor)
            invariant
                old(self).wf(),
                before == old(self).model(),
                self.arena == old(self).arena,
                self.end == old(self).end,
                self.initial_segment_size == old(self).initial_segment_size,
                self.segment_size == old(self).segment_size,
                self.cursor == before.advanced(count as int).position,
                self.segments.wf(),
                linked(self.segments@, base, self.end as int),
                self.segments@.len() > 0 ==> self.segments@[0].start + written(
                    self.segments@[0].bytes,
                ).len() <= usize::MAX,
                self.segments@.len() > 0 ==> spare(self.segments@) == before.spare,
                self.segments@.len() <= before.heap.len(),
                heaps(self.segments@) == before.heap.skip(
                    before.heap.len() - self.segments@.len(),
                ),
                unconsumed(pieces(self.segments@), self.cursor - base) == unconsumed(
                    before.pieces,
                    self.cursor - before.base(),
                ),
            decreases self.segments@.len(),
        {
            proof {
                let segments = self.segments@;
                lemma_segment(segments, base, self.end as int, 0);
                lemma_linked_drop_first(segments, base, self.end as int);
                assert(pieces(segments)[0] == written(segments[0].bytes));
                assert(heaps(segments).drop_first() =~= before.heap.skip(
                    before.heap.len() - (segments.len() - 1),
                ));
                base = base + written(segments[0].bytes).len();
                if segments.len() > 1 {
                    lemma_segment(segments.drop_first(), base, self.end as int, 0);
                }
            }
            self.segments.pop_front();
        }
        proof {
            lemma_advanced(before, count as int);
            if self.segments@.len() > 0 {
                lemma_segment(self.segments@, base, self.end as int, 0);
                assert(pieces(self.segments@)[0] == written(self.segments@[0].bytes));
            }
            assert(self.model() =~= before.advanced(count as int));
        }
        self.retained = Retained::new(Ghost(base), Ghost(pieces(self.segments@).flatten()));
    }

    /// Read as many bytes as `output` takes, or all that are left.
    pub fn read(&mut self, output: &mut [u8]) -> (outcome: Result<usize, Error>)
        requires
            old(self).wf(),
        ensures
            final(self).wf(),
            ({
                let unread = old(self).model().unread();
                let count = min(old(output)@.len() as int, unread.len() as int);
                &&& outcome == Ok::<usize, Error>(count as usize)
                &&& final(output)@ == unread.take(count) + old(output)@.skip(count)
                &&& final(self).model() == old(self).model().advanced(count)
                &&& final(self).model().unread() == unread.skip(count)
            }),
            ({
                let before = old(self).model();
                let after = final(self).model();
                let size = old(output)@.len();
                &&& outcome is Ok
                &&& outcome->Ok_0 == if size < before.unread().len() {
                    size
                } else {
                    before.unread().len()
                }
                &&& final(output)@ == before.unread().subrange(0, outcome->Ok_0 as int)
                    + old(output)@.subrange(outcome->Ok_0 as int, size as int)
                &&& after.position == before.position + outcome->Ok_0
                &&& before.unread() == before.unread().subrange(0, outcome->Ok_0 as int)
                    + after.unread()
            }),
    {
        let ghost before = self.model();
        let ghost unread = before.unread();
        self.advance(0);
        proof {
            lemma_advanced(before, 0);
        }
        let left: usize = self.len();
        let count: usize = if output.len() < left {
            output.len()
        } else {
            left
        };
        let mut done: usize = 0;
        assert(output@ =~= unread.take(0) + output@.skip(0));
        while done < count
            invariant
                self.wf(),
                before.wf(),
                unread == before.unread(),
                done <= count <= unread.len(),
                output@.len() == old(output)@.len(),
                count <= output@.len(),
                output@ == unread.take(done as int) + old(output)@.skip(done as int),
                self.model() == before.advanced(done as int),
            decreases count - done,
        {
            proof {
                let model = self.model();
                lemma_advanced(before, done as int);
                lemma_run_is_next(model.pieces, model.position - model.base());
            }
            let chunk = self.chunk();
            let len: usize = if chunk.len() < count - done {
                chunk.len()
            } else {
                count - done
            };
            copy_at(output, done, &chunk[0..len]);
            proof {
                assert(chunk@.subrange(0, len as int) =~= unread.subrange(
                    done as int,
                    done + len,
                ));
                assert(output@ =~= unread.take(done + len) + old(output)@.skip(done + len));
                lemma_advances_compose(before, done as int, len as int);
            }
            self.advance(len);
            done = done + len;
        }
        proof {
            lemma_advanced(before, count as int);
            assert(unread =~= unread.subrange(0, count as int) + unread.skip(count as int));
            assert(output@ =~= unread.subrange(0, count as int) + old(output)@.subrange(
                count as int,
                old(output)@.len() as int,
            ));
        }
        Ok(count)
    }

    /// Borrow the unread bytes of the segment that comes next. They are empty
    /// only when everything was read.
    pub fn fill_buf(&mut self) -> (outcome: Result<&[u8], Error>)
        requires
            old(self).wf(),
        ensures
            final(self).wf(),
            final(self).model() == old(self).model().advanced(0),
            final(self).model().unread() == old(self).model().unread(),
            outcome is Ok,
            outcome->Ok_0@ == final(self).model().chunk(),
            outcome->Ok_0@.len() <= old(self).model().unread().len(),
            outcome->Ok_0@ == old(self).model().unread().subrange(
                0,
                outcome->Ok_0@.len() as int,
            ),
            old(self).model().unread().len() > 0 ==> outcome->Ok_0@.len() > 0,
            final(self).model().position == old(self).model().position,
    {
        proof {
            lemma_advanced(self.model(), 0);
        }
        self.advance(0);
        proof {
            let model = self.model();
            lemma_run_is_next(model.pieces, model.position - model.base());
            assert(model.chunk() =~= model.unread().subrange(0, model.chunk().len() as int));
        }
        Ok(self.chunk())
    }

    /// Leave `count` bytes behind, or all that are left.
    pub fn consume(&mut self, count: usize)
        requires
            old(self).wf(),
        ensures
            final(self).wf(),
            final(self).model() == old(self).model().advanced(count as int),
            final(self).model().unread() == old(self).model().unread().skip(
                min(count as int, old(self).model().unread().len() as int),
            ),
            final(self).model().position == if count < old(self).model().unread().len() {
                old(self).model().position + count
            } else {
                old(self).model().end as int
            },
            final(self).model().unread() == if count < old(self).model().unread().len() {
                old(self).model().unread().subrange(
                    count as int,
                    old(self).model().unread().len() as int,
                )
            } else {
                Seq::empty()
            },
    {
        proof {
            let unread = self.model().unread();
            lemma_advanced(self.model(), count as int);
            assert(unread.skip(unread.len() as int) =~= Seq::empty());
            if count < unread.len() {
                assert(unread.skip(count as int) =~= unread.subrange(
                    count as int,
                    unread.len() as int,
                ));
            }
        }
        self.advance(count);
    }
}

/// What the buffers hold.
pub open spec fn held(buffers: Seq<&mut [u8]>) -> Seq<Seq<u8>> {
    Seq::new(buffers.len(), |i: int| (*buffers[i])@)
}

/// A buffer after bytes were read into it from the place `from` of `unread` on.
/// What is not filled stays as it was.
pub open spec fn filled(buffer: Seq<u8>, unread: Seq<u8>, from: int) -> Seq<u8> {
    if from >= unread.len() {
        buffer
    } else {
        let count = min(buffer.len() as int, unread.len() - from);
        unread.subrange(from, from + count) + buffer.skip(count)
    }
}

impl Reader {
    /// Read into the buffers one after the other, as far as bytes are left.
    pub fn read_vectored(&mut self, buffers: &mut [&mut [u8]]) -> (outcome: Result<usize, Error>)
        requires
            old(self).wf(),
        ensures
            final(self).wf(),
            forall|i: int|
                0 <= i < old(buffers)@.len() ==> final(#[trigger] final(buffers)@[i])@ == final(
                    old(buffers)@[i]
                )@,
            ({
                let before = held(old(buffers)@);
                let after = held(final(buffers)@);
                let unread = old(self).model().unread();
                let count = min(offset(before, before.len() as int), unread.len() as int);
                &&& outcome == Ok::<usize, Error>(count as usize)
                &&& after.len() == before.len()
                &&& forall|i: int|
                    0 <= i < before.len() ==> #[trigger] after[i] == filled(
                        before[i],
                        unread,
                        offset(before, i),
                    )
                &&& final(self).model() == if before.len() == 0 {
                    old(self).model()
                } else {
                    old(self).model().advanced(count)
                }
                &&& final(self).model().unread() == unread.skip(count)
            }),
            ({
                let before = held(old(buffers)@);
                let after = held(final(buffers)@);
                let unread = old(self).model().unread();
                &&& outcome is Ok
                &&& outcome->Ok_0 == if before.flatten().len() < unread.len() {
                    before.flatten().len()
                } else {
                    unread.len()
                }
                &&& after.flatten() == unread.subrange(0, outcome->Ok_0 as int)
                    + before.flatten().subrange(
                    outcome->Ok_0 as int,
                    before.flatten().len() as int,
                )
                &&& forall|i: int|
                    0 <= i < before.len() ==> (#[trigger] after[i]).len() == before[i].len()
                &&& final(self).model().position == old(self).model().position + outcome->Ok_0
                &&& unread == unread.subrange(0, outcome->Ok_0 as int)
                    + final(self).model().unread()
            }),
    {
        let ghost before = held(buffers@);
        let ghost model = self.model();
        let ghost unread = model.unread();
        let mut total: usize = 0;
        let mut i: usize = 0;
        while i < buffers.len()
            invariant
                self.wf(),
                model.wf(),
                model == old(self).model(),
                unread == model.unread(),
                before == held(old(buffers)@),
                i <= before.len(),
                before.len() == buffers@.len(),
                forall|k: int|
                    0 <= k < before.len() ==> final(#[trigger] buffers@[k])@ == final(
                        old(buffers)@[k]
                    )@,
                total == offset(before, i as int),
                total <= unread.len(),
                self.model() == if i == 0 {
                    model
                } else {
                    model.advanced(total as int)
                },
                forall|k: int|
                    0 <= k < i ==> #[trigger] held(buffers@)[k] == filled(
                        before[k],
                        unread,
                        offset(before, k),
                    ),
                forall|k: int| i <= k < before.len() ==> #[trigger] held(buffers@)[k] == before[k],
            decreases before.len() - i,
        {
            let ghost earlier = held(buffers@);
            proof {
                if i > 0 {
                    lemma_advanced(model, total as int);
                }
                assert(earlier[i as int] == before[i as int]);
                assert(self.model().unread() =~= unread.skip(total as int));
            }
            let size: usize = buffers[i].len();
            let count: usize = match self.read(buffers[i]) {
                Ok(count) => count,
                Err(error) => return Err(error),
            };
            proof {
                let now = held(buffers@);
                assert(offset(before, i + 1) == total + size);
                assert(now[i as int] =~= filled(before[i as int], unread, total as int));
                assert forall|k: int| 0 <= k < before.len() && k != i implies #[trigger] now[k]
                    == earlier[k] by {}
                lemma_advances_compose(model, total as int, count as int);
                lemma_advanced(model, total + count);
                lemma_offset_monotone(before, i + 1, before.len() as int);
                if count < size {
                    assert forall|k: int| i < k < before.len() implies #[trigger] now[k] == filled(
                        before[k],
                        unread,
                        offset(before, k),
                    ) by {
                        lemma_offset_monotone(before, i + 1, k);
                    }
                }
            }
            total = total + count;
            if count < size {
                proof {
                    lemma_vectored_read(before, held(buffers@), unread);
                    lemma_flatten(before);
                    assert(unread =~= unread.subrange(0, total as int) + self.model().unread());
                }
                return Ok(total);
            }
            i = i + 1;
        }
        proof {
            if i > 0 {
                lemma_advanced(model, total as int);
            } else {
                assert(unread.skip(0) =~= unread);
            }
            lemma_vectored_read(before, held(buffers@), unread);
            lemma_flatten(before);
            assert(unread =~= unread.subrange(0, total as int) + self.model().unread());
        }
        Ok(total)
    }
}

impl Reader {
    /// Have room for `additional` more bytes in the writable tail. What is held
    /// neither changes nor moves. A tail that is too small is left behind and
    /// one segment of that size is added.
    pub fn reserve_exact(&mut self, additional: usize) -> (outcome: Result<(), Error>)
        requires
            old(self).wf(),
        ensures
            final(self).wf(),
            ({
                let before = old(self).model();
                let after = final(self).model();
                match outcome {
                    Ok(()) => {
                        &&& additional <= isize::MAX
                        &&& before.end + additional <= usize::MAX
                        &&& after.contents() == before.contents()
                        &&& after.unread() == before.unread()
                        &&& after.position == before.position
                        &&& after.end == before.end
                        &&& after.size == before.size
                        &&& after.spare >= additional
                        &&& if additional == 0 || before.spare >= additional {
                            after == before
                        } else {
                            &&& after == (ReaderModel {
                                pieces: with_new_tail(before.pieces),
                                heap: heap_with_new_tail(
                                    before.pieces,
                                    before.heap,
                                    after.heap.last(),
                                ),
                                spare: after.spare,
                                ..before
                            })
                            &&& after.heap.last() || after.spare == additional
                        }
                    },
                    Err(error) => {
                        &&& after == before
                        &&& error == if additional > isize::MAX {
                            Error::ReservationTooLarge
                        } else {
                            Error::LengthOverflow
                        }
                        &&& additional > isize::MAX || before.end + additional > usize::MAX
                    },
                }
            }),
    {
        let ghost before = self.segments@;
        let ghost base = self.model().base();
        assert(linked(before, base, self.end as int));
        let outcome = self.segments.reserve_exact(&self.arena, self.end, additional);
        proof {
            if outcome is Ok {
                lemma_reserved(before, self.segments@, base, self.end as int, additional as int);
                if additional > 0 && spare(before) < additional {
                    lemma_new_tail(before, self.segments@, self.end as int, additional as int);
                }
            }
        }
        outcome
    }

    /// Drop everything that is held and start over at position zero, with the
    /// first implicit segment size.
    pub fn clear(&mut self)
        requires
            old(self).wf(),
        ensures
            final(self).wf(),
            final(self).model() == (ReaderModel {
                pieces: Seq::empty(),
                heap: Seq::empty(),
                spare: 0,
                end: 0,
                position: 0,
                size: old(self).model().first,
                ..old(self).model()
            }),
            final(self).model().unread().len() == 0,
            final(self).model().contents().len() == 0,
    {
        self.segments.clear();
        self.cursor = 0;
        self.end = 0;
        self.segment_size = self.initial_segment_size;
        self.retained = Retained::new(Ghost(0), Ghost(Seq::empty()));
        assert(pieces(self.segments@) =~= Seq::empty());
        assert(heaps(self.segments@) =~= Seq::empty());
    }
}

/// How a receive of at most `wanted` bytes changed a reader: `count` bytes were
/// appended to the tail and to the stream.
pub open spec fn received_more(
    before: ReaderModel,
    after: ReaderModel,
    wanted: int,
    count: int,
    old_tail: EphemeralBytesMut,
    new_tail: EphemeralBytesMut,
) -> bool {
    &&& count == received(old_tail, new_tail).len()
    &&& after.contents() == before.contents() + received(old_tail, new_tail)
    &&& after.end == before.end + count
    &&& after.position == before.position
    &&& after.first == before.first
    &&& after.chunk == before.chunk
    &&& placed(
        before.pieces,
        before.heap,
        before.spare,
        before.size,
        wanted,
        old_tail,
        new_tail,
        after.pieces,
        after.heap,
        after.spare,
        after.size,
        before.chunk,
    )
}

impl Reader {
    /// Receive straight into the writable tail, behind what is held: `poll` is
    /// handed the tail and the most it may append. It is not called where that
    /// is zero. Its answer comes back with the number of bytes that it
    /// appended. What was kept for borrowed reads stays.
    #[verifier::spinoff_prover]
    pub fn poll_read_from<P, F: FnOnce(&mut EphemeralBytesMut, usize) -> P>(
        &mut self,
        maximum: usize,
        poll: F,
    ) -> (outcome: Result<Option<(P, usize)>, Error>)
        requires
            old(self).wf(),
            forall|tail: &mut EphemeralBytesMut|
                room(*tail) > 0 ==> #[trigger] call_requires(poll, (tail, maximum)),
            forall|tail: &mut EphemeralBytesMut, answer: P| #[trigger]
                call_ensures(poll, (tail, maximum), answer) ==> receives(
                    *tail,
                    *final(tail),
                    maximum as int,
                ),
        ensures
            final(self).wf(),
            match outcome {
                Ok(Some((answer, count))) => {
                    &&& 0 < maximum
                    &&& old(self).model().end + maximum <= usize::MAX
                    &&& count <= maximum
                },
                Ok(None) => maximum == 0 && *final(self) == *old(self),
                Err(error) => {
                    &&& old(self).model().end + maximum > usize::MAX
                    &&& error == Error::ReceiveOverflow
                    &&& *final(self) == *old(self)
                },
            },
            outcome matches Ok(Some((answer, count))) ==> exists|tail: &mut EphemeralBytesMut|
                call_ensures(poll, (tail, maximum), answer) && #[trigger] received_more(
                    old(self).model(),
                    final(self).model(),
                    maximum as int,
                    count as int,
                    *tail,
                    *final(tail),
                ),
    {
        if maximum == 0 {
            return Ok(None);
        }
        if self.end.checked_add(maximum).is_none() {
            return Err(Error::ReceiveOverflow);
        }
        let ghost before = self.model();
        let ghost base = before.base();
        assert(linked(self.segments@, base, self.end as int));
        assert(before.pieces.len() > 0 ==> before.pieces.last() == written(
            self.segments@.last().bytes,
        ));
        match self.segments.poll_tail(
            &self.arena,
            self.end,
            maximum,
            &mut self.segment_size,
            poll,
        ) {
            Ok((answer, count)) => {
                self.end = self.end + count;
                let result: Result<Option<(P, usize)>, Error> = Ok(Some((answer, count)));
                proof {
                    let after = self.model();
                    let tail = choose|tail: &mut EphemeralBytesMut|
                        call_ensures(poll, (tail, maximum), answer) && count == received(
                            *tail,
                            *final(tail),
                        ).len() && #[trigger] placed(
                            before.pieces,
                            before.heap,
                            before.spare,
                            before.size,
                            maximum as int,
                            *tail,
                            *final(tail),
                            after.pieces,
                            after.heap,
                            after.spare,
                            after.size,
                            before.chunk,
                        );
                    lemma_placed(
                        before.pieces,
                        before.heap,
                        before.spare,
                        before.size,
                        maximum as int,
                        *tail,
                        *final(tail),
                        after.pieces,
                        after.heap,
                        after.spare,
                        after.size,
                        before.chunk,
                    );
                    assert(call_ensures(poll, (tail, maximum), result->Ok_0->Some_0.0));
                    assert(received_more(
                        before,
                        after,
                        maximum as int,
                        result->Ok_0->Some_0.1 as int,
                        *tail,
                        *final(tail),
                    ));
                    assert(after.contents().take(before.contents().len() as int)
                        =~= before.contents());
                }
                let ghost after = self.model();
                self.keep_growing();
                assert(self.model() == after);
                result
            },
            Err(error) => Err(error),
        }
    }

    /// Take over what was kept for borrowed reads after the stream has grown.
    fn keep_growing(&mut self)
        requires
            old(self).retained.wf(),
            old(self).retained.contents().len() <= old(self).model().contents().len(),
            old(self).model().contents().take(old(self).retained.contents().len() as int) == old(
                self,
            ).retained.contents(),
        ensures
            final(self).retained.wf(),
            final(self).retained.base() == old(self).retained.base(),
            final(self).retained.contents() == old(self).model().contents(),
            *final(self) == (Reader { retained: final(self).retained, ..*old(self) }),
    {
        let mut kept = Retained::new(Ghost(0), Ghost(Seq::empty()));
        core::mem::swap(&mut self.retained, &mut kept);
        self.retained = kept.grown(Ghost(pieces(self.segments@).flatten()));
    }
}

} // verus!
