//! Borrowed ranges of a reader.

use crate::error::Error;
use crate::pieces::{lemma_run_is_next, min, run};
use crate::reader::{answered, encoded, fits, fresh, Reader, ReaderModel};
use brz_ds::EphemeralBytesMut;
use core::ops::Range;
use vstd::prelude::*;

verus! {

/// An immutable borrowed range of a reader. It keeps its bounds, whatever is
/// read from the reader meanwhile.
#[derive(Clone, Copy)]
pub struct ReaderView<'a> {
    reader: &'a Reader,
    start: usize,
    end: usize,
}

impl<'a> ReaderView<'a> {
    /// What the reader holds.
    pub closed spec fn source(&self) -> ReaderModel {
        self.reader.model()
    }

    /// The position of the first byte.
    pub closed spec fn start(&self) -> int {
        self.start as int
    }

    /// The position after the last byte.
    pub closed spec fn end(&self) -> int {
        self.end as int
    }

    /// The bytes of this view.
    pub open spec fn contents(&self) -> Seq<u8> {
        self.source().contents().subrange(
            self.start() - self.source().base(),
            self.end() - self.source().base(),
        )
    }

    /// Whether this view is the part of another between two offsets.
    pub open spec fn is_part(&self, whole: ReaderView<'a>, from: int, to: int) -> bool {
        &&& 0 <= from <= to <= whole.contents().len()
        &&& self.source() == whole.source()
        &&& self.start() == whole.start() + from
        &&& self.end() == whole.start() + to
    }

    /// The range lies within what the reader holds.
    pub closed spec fn wf(&self) -> bool {
        &&& self.reader.wf()
        &&& self.source().wf()
        &&& self.source().base() <= self.start <= self.end <= self.source().end
    }

    /// A view never leaves what its reader holds.
    pub proof fn lemma_wf(&self)
        requires
            self.wf(),
        ensures
            self.source().wf(),
            self.source().base() <= self.start() <= self.end() <= self.source().end,
    {
    }

    /// The range of a reader between two positions.
    pub(crate) fn new(reader: &'a Reader, start: usize, end: usize) -> (view: ReaderView<'a>)
        requires
            reader.wf(),
            reader.model().base() <= start <= end <= reader.model().end,
        ensures
            view.wf(),
            view.source() == reader.model(),
            view.start() == start,
            view.end() == end,
    {
        proof {
            reader.lemma_wf();
        }
        ReaderView { reader, start, end }
    }

    /// Number of bytes.
    pub fn len(&self) -> (count: usize)
        requires
            self.wf(),
        ensures
            count == self.contents().len(),
    {
        self.end - self.start
    }

    /// Whether there are no bytes.
    pub fn is_empty(&self) -> (empty: bool)
        requires
            self.wf(),
        ensures
            empty == (self.contents().len() == 0),
    {
        self.len() == 0
    }

    /// The byte at an offset.
    pub fn peek_byte(&self, offset: usize) -> (byte: Option<u8>)
        requires
            self.wf(),
        ensures
            byte == if offset < self.contents().len() {
                Some(self.contents()[offset as int])
            } else {
                None
            },
    {
        if offset < self.end - self.start {
            self.reader.byte_at(self.start + offset)
        } else {
            None
        }
    }

    /// Borrow `len` bytes at an offset. Only a range that crosses segments is
    /// merged, once. The bytes live as long as the borrow of the reader.
    pub fn peek_bytes(&self, offset: usize, len: usize) -> (outcome: Result<&'a [u8], Error>)
        requires
            self.wf(),
            fits(len as int, self.contents().len() - offset),
        ensures
            match outcome {
                Ok(bytes) => {
                    &&& offset + len <= self.contents().len()
                    &&& bytes@ == self.contents().subrange(offset as int, offset + len)
                },
                Err(error) => {
                    &&& offset + len > self.contents().len()
                    &&& error == Error::UnexpectedEof
                },
            },
    {
        let available: usize = self.end - self.start;
        if offset > available || len > available - offset {
            return Err(Error::UnexpectedEof);
        }
        let reader: &'a Reader = self.reader;
        let outcome = reader.range(self.start + offset, len);
        assert(outcome->Ok_0@ =~= self.contents().subrange(offset as int, offset + len));
        outcome
    }

    /// The part of this view between two offsets.
    pub fn slice(&self, range: Range<usize>) -> (outcome: Result<ReaderView<'a>, Error>)
        requires
            self.wf(),
        ensures
            match outcome {
                Ok(part) => {
                    &&& range.start <= range.end <= self.contents().len()
                    &&& part.wf()
                    &&& part.is_part(*self, range.start as int, range.end as int)
                    &&& part.contents() == self.contents().subrange(
                        range.start as int,
                        range.end as int,
                    )
                },
                Err(error) => {
                    &&& range.start > range.end || range.end > self.contents().len()
                    &&& error == Error::UnexpectedEof
                },
            },
    {
        if range.start > range.end || range.end > self.end - self.start {
            return Err(Error::UnexpectedEof);
        }
        let view = ReaderView {
            reader: self.reader,
            start: self.start + range.start,
            end: self.start + range.end,
        };
        assert(view.contents() =~= self.contents().subrange(range.start as int, range.end as int));
        Ok(view)
    }

    /// Borrow the bytes from an offset to the end of their segment, or to the
    /// end of this view if that comes first. There are none past the end.
    pub fn chunk_at(&self, offset: usize) -> (bytes: &'a [u8])
        requires
            self.wf(),
        ensures
            bytes@ == if offset < self.contents().len() {
                let next = run(
                    self.source().pieces,
                    self.start() + offset - self.source().base(),
                );
                next.take(min(next.len() as int, self.contents().len() - offset))
            } else {
                Seq::empty()
            },
            bytes@ == self.contents().subrange(
                min(offset as int, self.contents().len() as int),
                min(offset as int, self.contents().len() as int) + bytes@.len(),
            ),
            offset < self.contents().len() ==> bytes@.len() > 0,
    {
        let available: usize = self.end - self.start;
        if offset >= available {
            let bytes: &'a [u8] = &[];
            assert(bytes@ =~= Seq::empty());
            assert(bytes@ =~= self.contents().subrange(available as int, available as int));
            return bytes;
        }
        let reader: &'a Reader = self.reader;
        let position: usize = self.start + offset;
        proof {
            lemma_run_is_next(self.source().pieces, position - self.source().base());
        }
        let next = reader.run_at(position);
        let left: usize = available - offset;
        let len: usize = if next.len() < left {
            next.len()
        } else {
            left
        };
        assert(next@.subrange(0, len as int) =~= next@.take(len as int));
        assert(next@.take(len as int) =~= self.contents().subrange(offset as int, offset + len));
        &next[0..len]
    }

    /// Borrow all bytes of this view.
    pub fn as_slice(&self) -> (bytes: &'a [u8])
        requires
            self.wf(),
            self.contents().len() <= isize::MAX,
        ensures
            bytes@ == self.contents(),
    {
        let reader: &'a Reader = self.reader;
        reader.range(self.start, self.end - self.start).unwrap()
    }

    /// Keep bytes that `encode` writes to a fresh buffer, as
    /// [`Reader::store_bytes_with`] does.
    pub fn store_bytes_with<E, F: FnOnce(&mut EphemeralBytesMut) -> Result<(), E>>(
        &self,
        capacity: usize,
        encode: F,
    ) -> (outcome: Result<&'a [u8], E>)
        requires
            self.wf(),
            capacity <= isize::MAX,
            forall|buffer: &mut EphemeralBytesMut|
                fresh(*buffer, capacity as int) ==> #[trigger] call_requires(encode, (buffer,)),
        ensures
            exists|buffer: &mut EphemeralBytesMut|
                call_ensures(encode, (buffer,), answered(outcome)) && #[trigger] encoded(
                    *buffer,
                    *final(buffer),
                    capacity as int,
                    outcome,
                ),
    {
        let reader: &'a Reader = self.reader;
        reader.store_bytes_with(capacity, encode)
    }
}

impl Reader {
    /// The unread bytes as a view, which keeps its bounds.
    pub fn view(&self) -> (view: ReaderView<'_>)
        requires
            self.wf(),
        ensures
            view.wf(),
            view.source() == self.model(),
            view.start() == self.model().position,
            view.end() == self.model().end,
            view.contents() == self.model().unread(),
    {
        proof {
            self.lemma_wf();
        }
        let view = ReaderView::new(self, self.position(), self.end_position());
        assert(view.contents() =~= self.model().unread());
        view
    }
}

} // verus!
