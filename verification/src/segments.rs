//! The queue of payload segments.
//!
//! Two segment descriptors are held inline. Only a third one allocates
//! descriptor storage. Payloads always follow the policy of the arena.

use crate::arena::{chunk_size, on_heap, room, written};
use crate::error::Error;
use crate::pieces::{
    extended, heap_with_new_tail, lemma_flatten, lemma_flatten_extend_last, lemma_flatten_first,
    lemma_flatten_push_empty, lemma_offset_drop_first, lemma_offset_prefix, min, offset,
    with_new_tail,
};
use brz_ds::{EphemeralBytesArena, EphemeralBytesMut};
use std::collections::VecDeque;
use vstd::prelude::*;

verus! {

/// The largest size that implicit growth asks the arena for.
pub const MAX_SEGMENT_SIZE: usize = 65536;

/// One payload segment of a stream.
#[derive(Debug)]
pub struct Segment {
    /// The position of its first byte in the stream.
    pub start: usize,
    /// Its buffer.
    pub bytes: EphemeralBytesMut,
}

/// The bytes of each segment.
pub open spec fn pieces(segments: Seq<Segment>) -> Seq<Seq<u8>> {
    segments.map_values(|segment: Segment| written(segment.bytes))
}

/// Which segments are on the heap.
pub open spec fn heaps(segments: Seq<Segment>) -> Seq<bool> {
    segments.map_values(|segment: Segment| on_heap(segment.bytes))
}

/// The room in the last segment.
pub open spec fn spare(segments: Seq<Segment>) -> nat {
    if segments.len() == 0 {
        0
    } else {
        room(segments.last().bytes)
    }
}

/// Whether the segments hold the stream positions from `base` to `end` without
/// a gap, none of them empty but possibly the last.
pub open spec fn linked(segments: Seq<Segment>, base: int, end: int) -> bool {
    &&& base + pieces(segments).flatten().len() == end
    &&& forall|i: int|
        0 <= i < segments.len() ==> (#[trigger] segments[i]).start == base + offset(
            pieces(segments),
            i,
        )
    &&& forall|i: int| 0 <= i < segments.len() - 1 ==> written(#[trigger] segments[i].bytes).len() > 0
}

/// Whether the segments hold the stream from some position up to `end`.
pub open spec fn ends_at(segments: Seq<Segment>, end: int) -> bool {
    exists|base: int| 0 <= base && linked(segments, base, end)
}

/// The size of the implicit segment after one of size `size`.
pub open spec fn next_size(size: nat, chunk: nat) -> nat {
    let cap: nat = if chunk < MAX_SEGMENT_SIZE {
        chunk
    } else {
        MAX_SEGMENT_SIZE as nat
    };
    if 2 * size < cap {
        2 * size
    } else {
        cap
    }
}

/// A queue of segments with two inline places.
#[derive(Debug)]
pub struct Segments {
    inline: [Option<Segment>; 2],
    overflow: VecDeque<Segment>,
    len: usize,
}

impl View for Segments {
    type V = Seq<Segment>;

    closed spec fn view(&self) -> Seq<Segment> {
        let first = match self.inline@[0] {
            Some(segment) => seq![segment],
            None => Seq::empty(),
        };
        let second = match self.inline@[1] {
            Some(segment) => seq![segment],
            None => Seq::empty(),
        };
        first + second + self.overflow@
    }
}

impl Segments {
    /// The inline places fill from the front, the rest follows, and the count
    /// is kept.
    pub closed spec fn wf(&self) -> bool {
        &&& self.inline@[0] is None ==> self.inline@[1] is None
        &&& self.inline@[1] is None ==> self.overflow@.len() == 0
        &&& self.len == self@.len()
    }

    /// An empty queue.
    pub fn new() -> (queue: Self)
        ensures
            queue.wf(),
            queue@.len() == 0,
    {
        Self { inline: [None, None], overflow: VecDeque::new(), len: 0 }
    }

    /// Number of segments.
    pub fn len(&self) -> (count: usize)
        requires
            self.wf(),
        ensures
            count == self@.len(),
    {
        self.len
    }

    /// The segment at `index`, counted from the front.
    pub fn get(&self, index: usize) -> (segment: Option<&Segment>)
        requires
            self.wf(),
        ensures
            segment == if index < self@.len() {
                Some(&self@[index as int])
            } else {
                None
            },
    {
        if index < 2 {
            self.inline[index].as_ref()
        } else if index - 2 < self.overflow.len() {
            Some(&self.overflow[index - 2])
        } else {
            None
        }
    }

    /// The first segment.
    pub fn front(&self) -> (segment: Option<&Segment>)
        requires
            self.wf(),
        ensures
            segment == if self@.len() > 0 {
                Some(&self@[0])
            } else {
                None
            },
    {
        self.inline[0].as_ref()
    }

    /// The last segment.
    pub fn back(&self) -> (segment: Option<&Segment>)
        requires
            self.wf(),
        ensures
            segment == if self@.len() > 0 {
                Some(&self@.last())
            } else {
                None
            },
    {
        if self.len == 0 {
            None
        } else {
            self.get(self.len - 1)
        }
    }

    /// The last segment, to be changed in place.
    pub fn back_mut(&mut self) -> (segment: Option<&mut Segment>)
        requires
            old(self).wf(),
        ensures
            match segment {
                Some(place) => {
                    &&& old(self)@.len() > 0
                    &&& *place == old(self)@.last()
                    &&& final(self).wf()
                    &&& final(self)@ == old(self)@.update(old(self)@.len() - 1, *final(place))
                },
                None => old(self)@.len() == 0 && *final(self) == *old(self),
            },
    {
        if self.len == 0 {
            None
        } else if self.len <= 2 {
            self.inline[self.len - 1].as_mut()
        } else {
            deque_back_mut(&mut self.overflow)
        }
    }

    /// Add a segment at the back.
    pub fn push_back(&mut self, segment: Segment)
        requires
            old(self).wf(),
            old(self)@.len() < usize::MAX,
        ensures
            final(self).wf(),
            final(self)@ == old(self)@.push(segment),
    {
        if self.len < 2 {
            self.inline[self.len] = Some(segment);
        } else {
            self.overflow.push_back(segment);
        }
        self.len += 1;
    }

    /// Take the first segment away.
    pub fn pop_front(&mut self) -> (segment: Option<Segment>)
        requires
            old(self).wf(),
        ensures
            final(self).wf(),
            match segment {
                Some(front) => {
                    &&& old(self)@.len() > 0
                    &&& front == old(self)@[0]
                    &&& final(self)@ == old(self)@.drop_first()
                },
                None => old(self)@.len() == 0 && final(self)@ == old(self)@,
            },
    {
        let first = match self.inline[0].take() {
            Some(first) => first,
            None => return None,
        };
        self.inline[0] = self.inline[1].take();
        self.inline[1] = self.overflow.pop_front();
        self.len -= 1;
        Some(first)
    }

    /// Take the last segment away.
    pub fn pop_back(&mut self) -> (segment: Option<Segment>)
        requires
            old(self).wf(),
        ensures
            final(self).wf(),
            match segment {
                Some(back) => {
                    &&& old(self)@.len() > 0
                    &&& back == old(self)@.last()
                    &&& final(self)@ == old(self)@.drop_last()
                },
                None => old(self)@.len() == 0 && final(self)@ == old(self)@,
            },
    {
        if self.len == 0 {
            return None;
        }
        let value = if self.len <= 2 {
            self.inline[self.len - 1].take()
        } else {
            self.overflow.pop_back()
        };
        self.len -= 1;
        value
    }

    /// Drop every segment.
    pub fn clear(&mut self)
        ensures
            final(self).wf(),
            final(self)@.len() == 0,
    {
        self.inline = [None, None];
        self.overflow.clear();
        self.len = 0;
    }
}

/// The queue that a reservation leaves: as it was where the tail has the room,
/// else with one more, empty tail, which takes just what was asked for unless it
/// is on the heap. An empty tail that is too small goes.
pub open spec fn reserved(
    before: Seq<Segment>,
    after: Seq<Segment>,
    end: int,
    additional: int,
) -> bool {
    if additional == 0 || spare(before) >= additional {
        after == before
    } else {
        let kept = if before.len() > 0 && written(before.last().bytes).len() == 0 {
            before.drop_last()
        } else {
            before
        };
        &&& after.len() == kept.len() + 1
        &&& after.drop_last() == kept
        &&& after.last().start == end
        &&& written(after.last().bytes).len() == 0
        &&& room(after.last().bytes) >= additional
        &&& on_heap(after.last().bytes) || room(after.last().bytes) == additional
    }
}

/// A queue holds fewer segments than positions, but for an empty tail.
proof fn lemma_linked_count(segments: Seq<Segment>, base: int, end: int)
    requires
        linked(segments, base, end),
    ensures
        segments.len() <= end - base + 1,
        segments.len() > 0 && written(segments.last().bytes).len() > 0 ==> segments.len() <= end
            - base,
{
    let p = pieces(segments);
    lemma_flatten(p);
    if segments.len() > 0 {
        lemma_nonempty_offset(p, segments.len() - 1);
        assert(p.last() == written(segments.last().bytes));
    }
}

proof fn lemma_nonempty_offset(p: Seq<Seq<u8>>, i: int)
    requires
        0 <= i <= p.len(),
        forall|k: int| 0 <= k < i ==> (#[trigger] p[k]).len() > 0,
    ensures
        offset(p, i) >= i,
    decreases i,
{
    if i > 0 {
        lemma_nonempty_offset(p, i - 1);
    }
}

/// A reservation keeps the queue linked, and keeps its bytes.
pub proof fn lemma_reserved(
    before: Seq<Segment>,
    after: Seq<Segment>,
    base: int,
    end: int,
    additional: int,
)
    requires
        linked(before, base, end),
        reserved(before, after, end, additional),
    ensures
        linked(after, base, end),
        pieces(after).flatten() == pieces(before).flatten(),
        spare(after) >= additional,
{
    if !(additional == 0 || spare(before) >= additional) {
        let empty_tail = before.len() > 0 && written(before.last().bytes).len() == 0;
        let kept = if empty_tail {
            before.drop_last()
        } else {
            before
        };
        let tail = written(after.last().bytes);
        if empty_tail {
            lemma_flatten_push_empty(pieces(kept), written(before.last().bytes));
            assert(pieces(kept).push(written(before.last().bytes)) =~= pieces(before));
        }
        lemma_flatten_push_empty(pieces(kept), tail);
        assert(after =~= kept.push(after.last()));
        assert(pieces(kept).push(tail) =~= pieces(after));
        lemma_flatten(pieces(kept));
        assert forall|i: int| 0 <= i < after.len() implies (#[trigger] after[i]).start == base
            + offset(pieces(after), i) by {
            lemma_offset_prefix(pieces(kept), pieces(after), i);
            if i < kept.len() {
                assert(after[i] == before[i]);
                lemma_offset_prefix(pieces(kept), pieces(before), i);
            }
        }
        assert forall|i: int| 0 <= i < after.len() - 1 implies written(
            #[trigger] after[i].bytes,
        ).len() > 0 by {
            assert(after[i] == before[i]);
        }
    }
}

impl Segments {
    /// Where the predicate turns from true to false along the queue, found by
    /// bisection.
    pub fn partition_point<P: Fn(&Segment) -> bool>(&self, predicate: P) -> (index: usize)
        requires
            self.wf(),
            forall|i: int|
                0 <= i < self@.len() ==> call_requires(predicate, (&#[trigger] self@[i],)),
        ensures
            index <= self@.len(),
            index > 0 ==> call_ensures(predicate, (&self@[index - 1],), true),
            index < self@.len() ==> call_ensures(predicate, (&self@[index as int],), false),
    {
        let mut lo: usize = 0;
        let mut hi: usize = self.len;
        while lo < hi
            invariant
                self.wf(),
                lo <= hi <= self@.len(),
                forall|i: int|
                    0 <= i < self@.len() ==> call_requires(predicate, (&#[trigger] self@[i],)),
                lo > 0 ==> call_ensures(predicate, (&self@[lo - 1],), true),
                hi < self@.len() ==> call_ensures(predicate, (&self@[hi as int],), false),
            decreases hi - lo,
        {
            let mid: usize = lo + (hi - lo) / 2;
            if predicate(self.index(mid)) {
                lo = mid + 1;
            } else {
                hi = mid;
            }
        }
        lo
    }

    /// The segment at `index`, which must be there.
    pub fn index(&self, index: usize) -> (segment: &Segment)
        requires
            self.wf(),
            index < self@.len(),
        ensures
            *segment == self@[index as int],
    {
        self.get(index).unwrap()
    }

    /// Reserve a contiguous tail without relocating bytes already written. A
    /// tail that is partly filled and too small is left behind, neither copied
    /// nor extended.
    pub fn reserve_exact(
        &mut self,
        arena: &EphemeralBytesArena,
        end: usize,
        additional: usize,
    ) -> (outcome: Result<(), Error>)
        requires
            old(self).wf(),
            ends_at(old(self)@, end as int),
        ensures
            final(self).wf(),
            match outcome {
                Ok(()) => {
                    &&& additional <= isize::MAX
                    &&& end + additional <= usize::MAX
                    &&& reserved(old(self)@, final(self)@, end as int, additional as int)
                },
                Err(error) => {
                    &&& *final(self) == *old(self)
                    &&& error == if additional > isize::MAX {
                        Error::ReservationTooLarge
                    } else {
                        Error::LengthOverflow
                    }
                    &&& additional > isize::MAX || end + additional > usize::MAX
                },
            },
    {
        if additional > isize::MAX as usize {
            return Err(Error::ReservationTooLarge);
        }
        if end.checked_add(additional).is_none() {
            return Err(Error::LengthOverflow);
        }
        if additional == 0 {
            return Ok(());
        }
        let (enough, empty) = match self.back() {
            Some(segment) => (segment.bytes.remaining() >= additional, segment.bytes.is_empty()),
            None => (false, false),
        };
        if enough {
            return Ok(());
        }
        proof {
            let base = choose|base: int| 0 <= base && linked(self@, base, end as int);
            lemma_linked_count(self@, base, end as int);
        }
        if empty {
            self.pop_back();
        }
        let ghost kept = self@;
        self.push_back(Segment { start: end, bytes: arena.alloc(additional) });
        assert(self@.drop_last() =~= kept);
        Ok(())
    }

    /// Have a tail with room, of the next implicit size or of `maximum`,
    /// whichever is less. Nothing is done where nothing is wanted or the tail
    /// has room; else the next size doubles, up to the caps.
    pub fn ensure_tail(
        &mut self,
        arena: &EphemeralBytesArena,
        end: usize,
        maximum: usize,
        size: &mut usize,
    ) -> (outcome: Result<(), Error>)
        requires
            old(self).wf(),
            ends_at(old(self)@, end as int),
        ensures
            final(self).wf(),
            ({
                let wanted = if *old(size) < maximum {
                    *old(size)
                } else {
                    maximum
                };
                let idle = maximum == 0 || spare(old(self)@) > 0;
                match outcome {
                    Ok(()) => if idle {
                        *final(self) == *old(self) && *final(size) == *old(size)
                    } else {
                        &&& wanted <= isize::MAX
                        &&& end + wanted <= usize::MAX
                        &&& reserved(old(self)@, final(self)@, end as int, wanted as int)
                        &&& *final(size) == next_size(*old(size) as nat, chunk_size(*arena))
                    },
                    Err(error) => {
                        &&& !idle
                        &&& *final(self) == *old(self)
                        &&& *final(size) == *old(size)
                        &&& error == if wanted > isize::MAX {
                            Error::ReservationTooLarge
                        } else {
                            Error::LengthOverflow
                        }
                        &&& wanted > isize::MAX || end + wanted > usize::MAX
                    },
                }
            }),
    {
        if maximum == 0 {
            return Ok(());
        }
        let ready = match self.back() {
            Some(segment) => segment.bytes.remaining() > 0,
            None => false,
        };
        if ready {
            return Ok(());
        }
        let wanted: usize = if *size < maximum {
            *size
        } else {
            maximum
        };
        match self.reserve_exact(arena, end, wanted) {
            Ok(()) => {},
            Err(error) => return Err(error),
        }
        let chunk: usize = arena.chunk_capacity();
        let cap: usize = if chunk < MAX_SEGMENT_SIZE {
            chunk
        } else {
            MAX_SEGMENT_SIZE
        };
        let doubled: usize = size.saturating_add(*size);
        *size =
        if doubled < cap {
            doubled
        } else {
            cap
        };
        Ok(())
    }
}

/// What a receive call does to the buffer that it is handed: it appends at most
/// `maximum` bytes in place, as far as there is room.
pub open spec fn receives(before: EphemeralBytesMut, after: EphemeralBytesMut, maximum: int) -> bool {
    let old_len = written(before).len();
    &&& old_len <= written(after).len() <= old_len + maximum
    &&& written(after).take(old_len as int) == written(before)
    &&& written(after).len() + room(after) == old_len + room(before)
    &&& on_heap(after) == on_heap(before)
}

/// The bytes by which `after` is longer than `before`.
pub open spec fn received(before: EphemeralBytesMut, after: EphemeralBytesMut) -> Seq<u8> {
    written(after).skip(written(before).len() as int)
}

/// How a receive of at most `wanted` bytes places what came: in the last
/// segment where that has room, else in a new one of the implicit size or of
/// `wanted`, whichever is less. One on the heap may take more.
pub open spec fn placed(
    old_pieces: Seq<Seq<u8>>,
    old_heap: Seq<bool>,
    old_spare: nat,
    old_size: nat,
    wanted: int,
    before: EphemeralBytesMut,
    after: EphemeralBytesMut,
    new_pieces: Seq<Seq<u8>>,
    new_heap: Seq<bool>,
    new_spare: nat,
    new_size: nat,
    chunk: nat,
) -> bool {
    &&& new_spare == room(after)
    &&& if old_spare > 0 {
        &&& written(before) == old_pieces.last()
        &&& room(before) == old_spare
        &&& new_pieces == extended(old_pieces, received(before, after))
        &&& new_heap == old_heap
        &&& new_size == old_size
    } else {
        &&& written(before).len() == 0
        &&& room(before) >= min(old_size as int, wanted)
        &&& on_heap(before) || room(before) == min(old_size as int, wanted)
        &&& new_pieces == old_pieces.push(received(before, after))
        &&& new_heap == old_heap.push(on_heap(before))
        &&& new_size == next_size(old_size, chunk)
    }
}

/// A receive appends to the stream what was received, and leaves no empty
/// segment without room.
pub proof fn lemma_placed(
    old_pieces: Seq<Seq<u8>>,
    old_heap: Seq<bool>,
    old_spare: nat,
    old_size: nat,
    wanted: int,
    before: EphemeralBytesMut,
    after: EphemeralBytesMut,
    new_pieces: Seq<Seq<u8>>,
    new_heap: Seq<bool>,
    new_spare: nat,
    new_size: nat,
    chunk: nat,
)
    requires
        placed(
            old_pieces,
            old_heap,
            old_spare,
            old_size,
            wanted,
            before,
            after,
            new_pieces,
            new_heap,
            new_spare,
            new_size,
            chunk,
        ),
        receives(before, after, wanted),
        old_heap.len() == old_pieces.len(),
        old_pieces.len() == 0 ==> old_spare == 0,
        0 < wanted,
        0 < old_size <= chunk,
    ensures
        new_pieces.flatten() == old_pieces.flatten() + received(before, after),
        new_pieces.len() > 0,
        new_heap.len() == new_pieces.len(),
        new_pieces.last().len() == 0 ==> new_spare > 0,
        0 < new_size <= chunk,
{
    if old_spare > 0 {
        lemma_flatten_extend_last(old_pieces, received(before, after));
    } else {
        old_pieces.lemma_flatten_push(received(before, after));
    }
}

/// Bytes written to the tail keep the queue linked.
pub proof fn lemma_linked_extend(
    before: Seq<Segment>,
    after: Seq<Segment>,
    base: int,
    end: int,
    added: Seq<u8>,
)
    requires
        linked(before, base, end),
        before.len() > 0,
        after == before.update(before.len() - 1, after.last()),
        after.last().start == before.last().start,
        written(after.last().bytes) == written(before.last().bytes) + added,
        on_heap(after.last().bytes) == on_heap(before.last().bytes),
    ensures
        linked(after, base, end + added.len()),
        pieces(after) == extended(pieces(before), added),
        heaps(after) == heaps(before),
        pieces(after).flatten() == pieces(before).flatten() + added,
{
    assert(pieces(after) =~= extended(pieces(before), added));
    assert(heaps(after) =~= heaps(before));
    lemma_flatten_extend_last(pieces(before), added);
    assert forall|i: int| 0 <= i < after.len() implies (#[trigger] after[i]).start == base + offset(
        pieces(after),
        i,
    ) by {
        lemma_offset_prefix(pieces(before), pieces(after), i);
        assert(before[i].start == base + offset(pieces(before), i));
    }
    assert forall|i: int| 0 <= i < after.len() - 1 implies written(
        #[trigger] after[i].bytes,
    ).len() > 0 by {
        assert(after[i] == before[i]);
    }
}

/// A segment holds the part of the stream that its start and length say, and
/// the next one goes on where it ends.
pub proof fn lemma_segment(segments: Seq<Segment>, base: int, end: int, i: int)
    requires
        linked(segments, base, end),
        0 <= i < segments.len(),
    ensures
        ({
            let from = segments[i].start - base;
            let to = from + written(segments[i].bytes).len();
            &&& from == offset(pieces(segments), i)
            &&& 0 <= from <= to <= end - base
            &&& pieces(segments).flatten().subrange(from, to) == written(segments[i].bytes)
            &&& i + 1 < segments.len() ==> segments[i + 1].start == base + to
            &&& i + 1 == segments.len() ==> base + to == end
        }),
{
    let p = pieces(segments);
    lemma_flatten(p);
    assert(p[i] == written(segments[i].bytes));
    assert(offset(p, i + 1) == offset(p, i) + p[i].len());
}

/// Without its first segment a queue starts where that one ended.
pub proof fn lemma_linked_drop_first(segments: Seq<Segment>, base: int, end: int)
    requires
        linked(segments, base, end),
        segments.len() > 0,
    ensures
        linked(segments.drop_first(), base + written(segments[0].bytes).len(), end),
        pieces(segments.drop_first()) == pieces(segments).drop_first(),
        heaps(segments.drop_first()) == heaps(segments).drop_first(),
{
    let p = pieces(segments);
    let rest = segments.drop_first();
    assert(pieces(rest) =~= p.drop_first());
    assert(heaps(rest) =~= heaps(segments).drop_first());
    lemma_flatten_first(p);
    assert(p[0] == written(segments[0].bytes));
    assert forall|i: int| 0 <= i < rest.len() implies (#[trigger] rest[i]).start == base + p[0].len()
        + offset(pieces(rest), i) by {
        lemma_offset_drop_first(p, i);
        assert(rest[i] == segments[i + 1]);
    }
    assert forall|i: int| 0 <= i < rest.len() - 1 implies written(
        #[trigger] rest[i].bytes,
    ).len() > 0 by {
        assert(rest[i] == segments[i + 1]);
    }
}

/// A reservation that adds a segment changes the pieces in one way.
pub proof fn lemma_new_tail(
    before: Seq<Segment>,
    after: Seq<Segment>,
    end: int,
    additional: int,
)
    requires
        reserved(before, after, end, additional),
        additional > 0,
        spare(before) < additional,
    ensures
        pieces(after) == with_new_tail(pieces(before)),
        heaps(after) == heap_with_new_tail(
            pieces(before),
            heaps(before),
            on_heap(after.last().bytes),
        ),
        pieces(after).len() > 0,
        pieces(after).last().len() == 0,
        heaps(after).last() == on_heap(after.last().bytes),
        spare(after) >= additional,
        on_heap(after.last().bytes) || spare(after) == additional,
{
    assert(after =~= after.drop_last().push(after.last()));
    assert(written(after.last().bytes) =~= Seq::<u8>::empty());
    assert(pieces(after) =~= with_new_tail(pieces(before)));
    assert(heaps(after) =~= heap_with_new_tail(
        pieces(before),
        heaps(before),
        on_heap(after.last().bytes),
    ));
}

impl Segments {
    /// Hand the tail to `poll`, a new one where it has no room, and count what
    /// was appended.
    pub fn poll_tail<P, F: FnOnce(&mut EphemeralBytesMut, usize) -> P>(
        &mut self,
        arena: &EphemeralBytesArena,
        end: usize,
        wanted: usize,
        size: &mut usize,
        poll: F,
    ) -> (outcome: Result<(P, usize), Error>)
        requires
            old(self).wf(),
            ends_at(old(self)@, end as int),
            old(self)@.len() > 0 && written(old(self)@.last().bytes).len() == 0 ==> spare(
                old(self)@,
            ) > 0,
            0 < wanted,
            0 < *old(size),
            forall|tail: &mut EphemeralBytesMut|
                room(*tail) > 0 ==> #[trigger] call_requires(poll, (tail, wanted)),
            forall|tail: &mut EphemeralBytesMut, answer: P| #[trigger]
                call_ensures(poll, (tail, wanted), answer) ==> receives(
                    *tail,
                    *final(tail),
                    wanted as int,
                ),
        ensures
            final(self).wf(),
            ({
                let asked = min(*old(size) as int, wanted as int);
                let refused = spare(old(self)@) == 0 && (asked > isize::MAX || end + asked
                    > usize::MAX);
                match outcome {
                    Ok((answer, count)) => {
                        &&& !refused
                        &&& count <= wanted
                        &&& forall|base: int| #[trigger]
                            linked(old(self)@, base, end as int) ==> linked(
                                final(self)@,
                                base,
                                end + count,
                            )
                    },
                    Err(error) => {
                        &&& refused
                        &&& *final(self) == *old(self)
                        &&& *final(size) == *old(size)
                        &&& error == if asked > isize::MAX {
                            Error::ReservationTooLarge
                        } else {
                            Error::LengthOverflow
                        }
                    },
                }
            }),
            outcome matches Ok((answer, count)) ==> exists|tail: &mut EphemeralBytesMut|
                {
                    &&& call_ensures(poll, (tail, wanted), answer)
                    &&& count == received(*tail, *final(tail)).len()
                    &&& #[trigger] placed(
                        pieces(old(self)@),
                        heaps(old(self)@),
                        spare(old(self)@),
                        *old(size) as nat,
                        wanted as int,
                        *tail,
                        *final(tail),
                        pieces(final(self)@),
                        heaps(final(self)@),
                        spare(final(self)@),
                        *final(size) as nat,
                        chunk_size(*arena),
                    )
                },
    {
        let ghost before = self@;
        match self.ensure_tail(arena, end, wanted, size) {
            Ok(()) => {},
            Err(error) => return Err(error),
        }
        let ghost ready = self@;
        let ghost asked = min(*old(size) as int, wanted as int);
        proof {
            let base = choose|base: int| 0 <= base && linked(before, base, end as int);
            assert(linked(before, base, end as int));
            if spare(before) == 0 {
                lemma_reserved(before, ready, base, end as int, asked);
                lemma_new_tail(before, ready, end as int, asked);
            }
        }
        let segment = self.back_mut().unwrap();
        let earlier: usize = segment.bytes.len();
        let answer = poll(&mut segment.bytes, wanted);
        let count: usize = segment.bytes.len() - earlier;
        proof {
            let added = written(self@.last().bytes).skip(earlier as int);
            assert(written(self@.last().bytes) =~= written(ready.last().bytes) + added);
            assert forall|base: int| #[trigger] linked(before, base, end as int) implies linked(
                self@,
                base,
                end + count,
            ) by {
                if spare(before) == 0 {
                    lemma_reserved(before, ready, base, end as int, asked);
                }
                lemma_linked_extend(ready, self@, base, end as int, added);
            }
            assert(pieces(self@) =~= extended(pieces(ready), added));
            assert(heaps(self@) =~= heaps(ready));
            if spare(before) == 0 {
                assert(pieces(self@) =~= pieces(before).push(added));
                assert(heaps(self@) =~= heaps(before).push(on_heap(ready.last().bytes)));
            }
            assert(added == received(ready.last().bytes, self@.last().bytes));
            assert(placed(
                pieces(before),
                heaps(before),
                spare(before),
                *old(size) as nat,
                wanted as int,
                ready.last().bytes,
                self@.last().bytes,
                pieces(self@),
                heaps(self@),
                spare(self@),
                *size as nat,
                chunk_size(*arena),
            ));
        }
        Ok((answer, count))
    }
}

/// `VecDeque::back_mut` borrows the last item to be changed in place, and
/// nothing of an empty queue.
#[verifier::external_body]
fn deque_back_mut(queue: &mut VecDeque<Segment>) -> (item: Option<&mut Segment>)
    ensures
        match item {
            Some(place) => {
                &&& old(queue)@.len() > 0
                &&& *place == old(queue)@.last()
                &&& final(queue)@ == old(queue)@.update(old(queue)@.len() - 1, *final(place))
            },
            None => old(queue)@.len() == 0 && *final(queue) == *old(queue),
        },
{
    queue.back_mut()
}

} // verus!
