//! Reading through a shared reference.
//!
//! A shared reader counts in an atomic how far it has come. Each read claims
//! its bytes in one atomic step, so that reads from several places get
//! different bytes, and what they return stays valid together.
//!
//! What the counter holds at a given moment depends on all who read. Contracts
//! here say what a read returns for each value of the counter, and that the
//! counter stood at such a value.

use crate::error::Error;
use crate::pieces::min;
use crate::reader::{answered, encoded, fits, fresh, Reader, ReaderModel};
use crate::view::ReaderView;
use brz_ds::EphemeralBytesMut;
use core::sync::atomic::{AtomicUsize, Ordering};
use vstd::prelude::*;
use vstd::string::StringSliceAdditionalSpecFns;
use vstd::utf8::valid_utf8;

verus! {

/// Whether a counter ever stood at a value. What was once stays so.
pub uninterp spec fn stood(counter: AtomicUsize, value: usize) -> bool;

/// Whether a counter was ever replaced, in one atomic step, from one value by
/// another. What was done once stays done.
pub uninterp spec fn replaced(counter: AtomicUsize, from: usize, to: usize) -> bool;

/// `AtomicUsize::new` makes a counter that stands at a value.
#[verifier::external_body]
fn counter_at(value: usize) -> (counter: AtomicUsize)
    ensures
        stood(counter, value),
{
    AtomicUsize::new(value)
}

/// `AtomicUsize::load` returns the value at which the counter stands. Which one
/// that is, is not claimed: others may change it at any time.
#[verifier::external_body]
fn look(counter: &AtomicUsize) -> (value: usize)
    ensures
        stood(*counter, value),
{
    counter.load(Ordering::Relaxed)
}

/// `AtomicUsize::fetch_update` replaces the value by what `next` makes of it,
/// in one atomic step, and returns the value replaced. Where `next` makes
/// nothing of it, the value stays and is returned as an error. Which value that
/// is, is not claimed: others may change it at any time.
#[verifier::external_body]
fn claim<F: Fn(usize) -> Option<usize>>(counter: &AtomicUsize, next: F) -> (outcome: Result<
    usize,
    usize,
>)
    requires
        forall|value: usize| call_requires(next, (value,)),
    ensures
        match outcome {
            Ok(value) => exists|to: usize|
                {
                    &&& call_ensures(next, (value,), Some(to))
                    &&& #[trigger] replaced(*counter, value, to)
                    &&& stood(*counter, value)
                    &&& stood(*counter, to)
                },
            Err(value) => call_ensures(next, (value,), None) && stood(*counter, value),
        },
{
    counter.fetch_update(Ordering::Relaxed, Ordering::Relaxed, next)
}

/// Where a shared read of `len` bytes moves the counter to, if `available`
/// bytes suffice.
pub open spec fn moved_on(ahead: usize, available: int, len: usize) -> Option<usize> {
    if min(ahead as int, available) + len <= available {
        Some((min(ahead as int, available) + len) as usize)
    } else {
        None
    }
}

/// Where a shared read of `len` bytes moves the counter to, if `available`
/// bytes suffice.
pub fn claimed(ahead: usize, available: usize, len: usize) -> (next: Option<usize>)
    ensures
        next == moved_on(ahead, available as int, len),
{
    let at: usize = if ahead < available {
        ahead
    } else {
        available
    };
    if len <= available - at {
        Some(at + len)
    } else {
        None
    }
}

/// The bytes that are left when shared reads have come `ahead` bytes on.
pub open spec fn left(model: ReaderModel, ahead: usize) -> Seq<u8> {
    model.unread().skip(min(ahead as int, model.unread().len() as int))
}

/// What a read of `len` bytes returns when the counter stands at `ahead`.
pub open spec fn bytes_read(
    model: ReaderModel,
    ahead: usize,
    len: usize,
    outcome: Result<&[u8], Error>,
) -> bool {
    match outcome {
        Ok(bytes) => {
            &&& len <= left(model, ahead).len()
            &&& bytes@ == left(model, ahead).take(len as int)
        },
        Err(error) => len > left(model, ahead).len() && error == Error::UnexpectedEof,
    }
}

/// What a read of `len` bytes as text returns when the counter stands at
/// `ahead`.
pub open spec fn text_read(
    model: ReaderModel,
    ahead: usize,
    len: usize,
    outcome: Result<&str, Error>,
) -> bool {
    let next = left(model, ahead).take(len as int);
    match outcome {
        Ok(text) => {
            &&& len <= left(model, ahead).len()
            &&& valid_utf8(next)
            &&& text.spec_bytes() == next
        },
        Err(error) => {
            &&& len > left(model, ahead).len() || !valid_utf8(next)
            &&& error == if len > left(model, ahead).len() {
                Error::UnexpectedEof
            } else {
                Error::InvalidUtf8
            }
        },
    }
}

/// What a skip of `len` bytes returns when the counter stands at `ahead`.
pub open spec fn skipped(
    model: ReaderModel,
    ahead: usize,
    len: usize,
    outcome: Result<(), Error>,
) -> bool {
    match outcome {
        Ok(()) => len <= left(model, ahead).len(),
        Err(error) => len > left(model, ahead).len() && error == Error::UnexpectedEof,
    }
}

/// What a look at one byte returns when the counter stands at `ahead`.
pub open spec fn byte_seen(
    model: ReaderModel,
    ahead: usize,
    offset: usize,
    byte: Option<u8>,
) -> bool {
    byte == if offset < left(model, ahead).len() {
        Some(left(model, ahead)[offset as int])
    } else {
        None
    }
}

/// What a look at a range returns when the counter stands at `ahead`.
pub open spec fn bytes_seen(
    model: ReaderModel,
    ahead: usize,
    offset: usize,
    len: usize,
    outcome: Result<&[u8], Error>,
) -> bool {
    match outcome {
        Ok(bytes) => {
            &&& offset + len <= left(model, ahead).len()
            &&& bytes@ == left(model, ahead).subrange(offset as int, offset + len)
        },
        Err(error) => {
            &&& offset + len > left(model, ahead).len()
            &&& error == Error::UnexpectedEof
        },
    }
}

/// A reader that is read through a shared reference. All that its reads return
/// stays valid while they go on.
pub struct SharedReader {
    reader: Reader,
    ahead: AtomicUsize,
}

impl Reader {
    /// Go on reading through a shared reference.
    pub fn share(self) -> (shared: SharedReader)
        requires
            self.wf(),
        ensures
            shared.wf(),
            shared.source() == self.model(),
            shared.has_come(0),
    {
        proof {
            self.lemma_wf();
        }
        SharedReader { reader: self, ahead: counter_at(0) }
    }
}

impl SharedReader {
    /// The reader as it was when sharing began.
    pub closed spec fn source(&self) -> ReaderModel {
        self.reader.model()
    }

    /// The reader is sound.
    pub closed spec fn wf(&self) -> bool {
        &&& self.reader.wf()
        &&& self.source().wf()
    }

    /// Whether shared reads had come `ahead` bytes on at some time since sharing
    /// began, or since the last exclusive access.
    pub closed spec fn has_come(&self, ahead: usize) -> bool {
        stood(self.ahead, ahead)
    }

    /// Whether a read has claimed `len` bytes: when reads had come `ahead` bytes
    /// on, it moved them on by as many, in one atomic step.
    pub closed spec fn has_claimed(&self, ahead: usize, len: usize) -> bool {
        moved_on(ahead, self.source().unread().len() as int, len) matches Some(next) && {
            &&& replaced(self.ahead, ahead, next)
            &&& self.has_come(ahead)
            &&& self.has_come(next)
        }
    }

    /// What is said of shared reads is what their own counter went through.
    proof fn lemma_counter(&self, ahead: usize, len: usize)
        ensures
            self.has_come(ahead) ==> stood(self.ahead, ahead),
            self.has_claimed(ahead, len) ==> (moved_on(
                ahead,
                self.source().unread().len() as int,
                len,
            ) matches Some(next) && replaced(self.ahead, ahead, next)),
            self.source() == self.reader.model(),
    {
    }

    /// A claim leads from where shared reads had come to where they then were.
    pub proof fn lemma_has_claimed(&self, ahead: usize, len: usize)
        requires
            self.has_claimed(ahead, len),
        ensures
            self.has_come(ahead),
            moved_on(ahead, self.source().unread().len() as int, len) matches Some(next)
                && self.has_come(next),
    {
    }

    /// A shared reader is within its bounds.
    pub proof fn lemma_wf(&self)
        requires
            self.wf(),
        ensures
            self.source().wf(),
    {
    }

    /// The position that a value of the counter stands for.
    fn position_at(&self, ahead: usize) -> (position: usize)
        requires
            self.wf(),
        ensures
            position == self.source().end - left(self.source(), ahead).len(),
            self.source().position <= position <= self.source().end,
    {
        let available: usize = self.reader.len();
        self.reader.position() + if ahead < available {
            ahead
        } else {
            available
        }
    }

    /// The position of the next byte, counted from the start of the stream.
    pub fn position(&self) -> (position: usize)
        requires
            self.wf(),
        ensures
            exists|ahead: usize| #[trigger]
                self.has_come(ahead) && position == self.source().end - left(
                    self.source(),
                    ahead,
                ).len(),
            self.source().position <= position <= self.source().end,
    {
        let ahead: usize = look(&self.ahead);
        assert(self.has_come(ahead));
        self.position_at(ahead)
    }

    /// Number of unread bytes.
    pub fn len(&self) -> (count: usize)
        requires
            self.wf(),
        ensures
            exists|ahead: usize| #[trigger]
                self.has_come(ahead) && count == left(self.source(), ahead).len(),
    {
        self.reader.end_position() - self.position()
    }

    /// Whether everything was read.
    pub fn is_empty(&self) -> (empty: bool)
        requires
            self.wf(),
        ensures
            exists|ahead: usize| #[trigger]
                self.has_come(ahead) && empty == (left(self.source(), ahead).len() == 0),
    {
        self.len() == 0
    }

    /// Number of segments held. Shared reads let none go.
    pub fn segment_count(&self) -> (count: usize)
        requires
            self.wf(),
        ensures
            count == self.source().pieces.len(),
    {
        self.reader.segment_count()
    }

    /// Number of bytes held. Shared reads let none go.
    pub fn held_len(&self) -> (count: usize)
        requires
            self.wf(),
        ensures
            count == self.source().contents().len(),
    {
        self.reader.held_len()
    }

    /// The bytes that a read of `len` gets when the counter stands at `ahead`.
    pub fn bytes_at(&self, ahead: usize, len: usize) -> (outcome: Result<&[u8], Error>)
        requires
            self.wf(),
            fits(len as int, self.source().unread().len() as int),
        ensures
            bytes_read(self.source(), ahead, len, outcome),
    {
        let outcome = self.reader.range(self.position_at(ahead), len);
        assert(outcome is Ok ==> outcome->Ok_0@ =~= left(self.source(), ahead).take(len as int));
        outcome
    }

    /// The text that a read of `len` gets when the counter stands at `ahead`.
    pub fn text_at(&self, ahead: usize, len: usize) -> (outcome: Result<&str, Error>)
        requires
            self.wf(),
            fits(len as int, self.source().unread().len() as int),
        ensures
            text_read(self.source(), ahead, len, outcome),
    {
        let ghost model = self.source();
        let position: usize = self.position_at(ahead);
        assert(len <= left(model, ahead).len() ==> model.contents().subrange(
            position - model.base(),
            position + len - model.base(),
        ) =~= left(model, ahead).take(len as int));
        self.reader.text_at(position, len)
    }

    /// How a read of `len` bytes as text moves the counter: on by that many,
    /// where they are available and are text.
    fn claimed_as_text(&self, ahead: usize, len: usize) -> (next: Option<usize>)
        requires
            self.wf(),
            fits(len as int, self.source().unread().len() as int),
        ensures
            ({
                let bytes = left(self.source(), ahead);
                next == if len <= bytes.len() && valid_utf8(bytes.take(len as int)) {
                    moved_on(ahead, self.source().unread().len() as int, len)
                } else {
                    None
                }
            }),
    {
        match self.text_at(ahead, len) {
            Ok(_) => claimed(ahead, self.reader.len(), len),
            Err(_) => None,
        }
    }

    /// Read exactly `len` bytes. Where fewer are left, nothing is read.
    pub fn read_bytes(&self, len: usize) -> (outcome: Result<&[u8], Error>)
        requires
            self.wf(),
            fits(len as int, self.source().unread().len() as int),
        ensures
            exists|ahead: usize| #[trigger]
                bytes_read(self.source(), ahead, len, outcome) && if outcome is Ok {
                    self.has_claimed(ahead, len)
                } else {
                    self.has_come(ahead)
                },
    {
        let available: usize = self.reader.len();
        let next = |ahead: usize| -> (next: Option<usize>)
            ensures
                next == moved_on(ahead, available as int, len),
            { claimed(ahead, available, len) };
        match claim(&self.ahead, next) {
            Ok(ahead) => self.bytes_at(ahead, len),
            Err(ahead) => {
                assert(bytes_read(
                    self.source(),
                    ahead,
                    len,
                    Err::<&[u8], Error>(Error::UnexpectedEof),
                ));
                Err(Error::UnexpectedEof)
            },
        }
    }

    /// Read exactly `len` bytes as text. Where fewer are left, or they are not
    /// UTF-8, nothing is read.
    pub fn read_str(&self, len: usize) -> (outcome: Result<&str, Error>)
        requires
            self.wf(),
            fits(len as int, self.source().unread().len() as int),
        ensures
            exists|ahead: usize| #[trigger]
                text_read(self.source(), ahead, len, outcome) && if outcome is Ok {
                    self.has_claimed(ahead, len)
                } else {
                    self.has_come(ahead)
                },
    {
        let next = |ahead: usize| -> (next: Option<usize>)
            ensures
                next == if len <= left(self.source(), ahead).len() && valid_utf8(
                    left(self.source(), ahead).take(len as int),
                ) {
                    moved_on(ahead, self.source().unread().len() as int, len)
                } else {
                    None
                },
            { self.claimed_as_text(ahead, len) };
        match claim(&self.ahead, next) {
            Ok(ahead) => self.text_at(ahead, len),
            Err(ahead) => self.text_at(ahead, len),
        }
    }

    /// Read `len` bytes without looking at them. Where fewer are left, nothing
    /// is read.
    pub fn skip(&self, len: usize) -> (outcome: Result<(), Error>)
        requires
            self.wf(),
        ensures
            exists|ahead: usize| #[trigger]
                skipped(self.source(), ahead, len, outcome) && if outcome is Ok {
                    self.has_claimed(ahead, len)
                } else {
                    self.has_come(ahead)
                },
    {
        let available: usize = self.reader.len();
        let next = |ahead: usize| -> (next: Option<usize>)
            ensures
                next == moved_on(ahead, available as int, len),
            { claimed(ahead, available, len) };
        match claim(&self.ahead, next) {
            Ok(ahead) => {
                assert(skipped(self.source(), ahead, len, Ok::<(), Error>(())));
                Ok(())
            },
            Err(ahead) => {
                assert(skipped(
                    self.source(),
                    ahead,
                    len,
                    Err::<(), Error>(Error::UnexpectedEof),
                ));
                Err(Error::UnexpectedEof)
            },
        }
    }

    /// The byte `offset` past the next one, without reading it.
    pub fn peek_byte(&self, offset: usize) -> (byte: Option<u8>)
        requires
            self.wf(),
        ensures
            exists|ahead: usize| #[trigger]
                byte_seen(self.source(), ahead, offset, byte) && self.has_come(ahead),
    {
        let ahead: usize = look(&self.ahead);
        let byte = match self.position_at(ahead).checked_add(offset) {
            Some(position) => self.reader.byte_at(position),
            None => None,
        };
        assert(byte_seen(self.source(), ahead, offset, byte));
        byte
    }

    /// Borrow `len` bytes that lie `offset` past the next one, without reading
    /// them.
    pub fn peek_bytes(&self, offset: usize, len: usize) -> (outcome: Result<&[u8], Error>)
        requires
            self.wf(),
            fits(len as int, self.source().unread().len() - offset),
        ensures
            exists|ahead: usize| #[trigger]
                bytes_seen(self.source(), ahead, offset, len, outcome) && self.has_come(ahead),
    {
        let ahead: usize = look(&self.ahead);
        let outcome = match self.position_at(ahead).checked_add(offset) {
            Some(position) => self.reader.range(position, len),
            None => Err(Error::UnexpectedEof),
        };
        assert(outcome is Ok ==> outcome->Ok_0@ =~= left(self.source(), ahead).subrange(
            offset as int,
            offset + len,
        ));
        assert(bytes_seen(self.source(), ahead, offset, len, outcome));
        outcome
    }

    /// Borrow all unread bytes without reading them.
    pub fn as_slice(&self) -> (bytes: &[u8])
        requires
            self.wf(),
            self.source().contents().len() <= isize::MAX,
        ensures
            exists|ahead: usize| #[trigger]
                self.has_come(ahead) && bytes@ == left(self.source(), ahead),
    {
        let ahead: usize = look(&self.ahead);
        assert(self.has_come(ahead));
        let bytes = self.reader.rest_at(self.position_at(ahead));
        assert(bytes@ =~= left(self.source(), ahead));
        bytes
    }

    /// The unread bytes as a view, which keeps its bounds.
    pub fn view(&self) -> (view: ReaderView<'_>)
        requires
            self.wf(),
        ensures
            view.wf(),
            view.source() == self.source(),
            view.end() == self.source().end,
            exists|ahead: usize| #[trigger]
                self.has_come(ahead) && view.contents() == left(self.source(), ahead),
    {
        let ahead: usize = look(&self.ahead);
        assert(self.has_come(ahead));
        let view = ReaderView::new(
            &self.reader,
            self.position_at(ahead),
            self.reader.end_position(),
        );
        assert(view.contents() =~= left(self.source(), ahead));
        view
    }

    /// Keep bytes that `encode` writes to a fresh buffer, as
    /// [`Reader::store_bytes_with`] does.
    pub fn store_bytes_with<E, F: FnOnce(&mut EphemeralBytesMut) -> Result<(), E>>(
        &self,
        capacity: usize,
        encode: F,
    ) -> (outcome: Result<&[u8], E>)
        requires
            self.wf(),
            capacity <= isize::MAX,
            forall|buffer: &mut EphemeralBytesMut|
                fresh(*buffer, capacity as int) ==> #[trigger] call_requires(encode, (buffer,)),
        ensures
            exists|buffer: &mut EphemeralBytesMut|
                call_ensures(encode, (buffer,), answered(outcome)) && #[trigger] encoded(
                    *buffer,
                    *final(buffer),
                    capacity as int,
                    outcome,
                ),
    {
        self.reader.store_bytes_with(capacity, encode)
    }

    /// Go on with exclusive reads, from where shared reads have come to.
    pub fn exclusive(&mut self) -> (reader: &mut Reader)
        requires
            old(self).wf(),
        ensures
            (*reader).wf(),
            exists|ahead: usize| #[trigger]
                old(self).has_come(ahead) && (*reader).model() == old(self).source().moved(
                    old(self).source().unread().len() - left(old(self).source(), ahead).len(),
                ),
            final(reader).wf() ==> final(self).wf(),
            final(self).source() == final(reader).model(),
            final(self).has_come(0),
    {
        let ahead: usize = look(&self.ahead);
        assert(self.has_come(ahead));
        let count: usize = self.position_at(ahead) - self.reader.position();
        self.ahead = counter_at(0);
        let outcome = self.reader.skip(count);
        proof {
            assert(outcome is Ok);
            assert forall|reader: Reader| #[trigger] reader.wf() implies reader.model().wf() by {
                reader.lemma_wf();
            }
        }
        &mut self.reader
    }
}

} // verus!
