//! What holds of streams as a whole.
//!
//! The laws speak of the models that the contracts of [`crate::Writer`],
//! [`crate::Reader`], [`crate::ReaderView`] and [`crate::SharedReader`] are
//! written in.

use crate::pieces::{
    lemma_flatten, lemma_flatten_extend_last, lemma_flatten_new_tail, lemma_offset_prefix,
    lemma_run_is_next, lemma_unconsumed, min, offset,
};
use crate::reader::{lemma_advanced, received_more, ReaderModel};
use crate::segments::received;
use crate::shared::{left, moved_on};
use crate::view::ReaderView;
use crate::writer::{
    appended, lemma_writes_compose, opened_in_turn, reserves, size_after, stored, WriterModel,
};
use brz_ds::EphemeralBytesMut;
use vstd::arithmetic::power2::{lemma2_to64, lemma_pow2_unfold, pow2};
use vstd::prelude::*;

verus! {

/// What was written to a fresh writer is what its reader has to read.
pub proof fn lemma_read_back(fresh: WriterModel, writer: WriterModel, added: Seq<u8>)
    requires
        fresh.wf(),
        fresh.pieces.len() == 0,
        appended(fresh, writer, added),
    ensures
        writer.reader().unread() == added,
{
    lemma_flatten(fresh.pieces);
    assert(fresh.contents() =~= Seq::<u8>::empty());
    assert(writer.reader().unread() =~= added);
}

/// What was received is read back behind what was written before.
pub proof fn lemma_received_read_back(
    before: WriterModel,
    after: WriterModel,
    wanted: int,
    count: int,
    old_tail: EphemeralBytesMut,
    new_tail: EphemeralBytesMut,
)
    requires
        before.wf(),
        stored(before, after, wanted, count, old_tail, new_tail),
    ensures
        after.reader().unread() == before.reader().unread() + received(old_tail, new_tail),
{
    assert(after.reader().unread() =~= before.reader().unread() + received(old_tail, new_tail));
}

/// A write of nothing opens no segment and leaves the growth where it is.
pub proof fn lemma_empty_write(before: WriterModel, after: WriterModel)
    requires
        before.wf(),
        after.wf(),
        appended(before, after, Seq::empty()),
    ensures
        after == before,
{
    lemma_short_write(before, after, Seq::empty());
    if before.pieces.len() > 0 {
        assert(before.pieces.last() + Seq::<u8>::empty() =~= before.pieces.last());
    }
    assert(after.pieces =~= before.pieces);
    assert(after =~= before);
}

/// A write that the last segment has room for stays in it, in one piece. So it
/// is of every write of what was reserved.
pub proof fn lemma_short_write(before: WriterModel, after: WriterModel, added: Seq<u8>)
    requires
        before.wf(),
        after.wf(),
        appended(before, after, added),
        added.len() <= before.spare,
    ensures
        after.pieces.len() == before.pieces.len(),
        before.pieces.len() > 0 ==> after.pieces == before.pieces.update(
            before.pieces.len() - 1,
            before.pieces.last() + added,
        ),
        after.spare == before.spare - added.len(),
        after.size == before.size,
{
    let n = before.pieces.len() as int;
    let kept = after.pieces.take(n);
    assert(added.take(min(added.len() as int, before.spare as int)) =~= added);
    if after.pieces.len() > n {
        if n > 0 {
            lemma_flatten_extend_last(before.pieces, added);
        } else {
            assert(kept =~= before.pieces);
            assert(before.contents() + added =~= before.contents());
        }
        lemma_flatten(kept);
        lemma_flatten(after.pieces);
        lemma_offset_prefix(kept, after.pieces, n);
        assert(opened_in_turn(before, after, n));
        assert(false);
    }
    assert(after.pieces =~= kept);
}

/// A write leaves every segment before the last one as it is, and only appends
/// to the last one.
pub proof fn lemma_nothing_moves(before: WriterModel, after: WriterModel, added: Seq<u8>, i: int)
    requires
        before.wf(),
        appended(before, after, added),
        0 <= i < before.pieces.len(),
    ensures
        before.pieces[i].len() <= after.pieces[i].len(),
        after.pieces[i].take(before.pieces[i].len() as int) == before.pieces[i],
        i < before.pieces.len() - 1 ==> after.pieces[i] == before.pieces[i],
        offset(after.pieces, i) == offset(before.pieces, i),
{
    let n = before.pieces.len() as int;
    let kept = after.pieces.take(n);
    assert(kept[i] == after.pieces[i]);
    assert(after.pieces[i].take(before.pieces[i].len() as int) =~= before.pieces[i]);
    assert forall|k: int| 0 <= k < i implies #[trigger] after.pieces[k] == before.pieces[k] by {
        assert(kept[k] == after.pieces[k]);
    }
    lemma_offset_prefix(after.pieces, before.pieces, i);
}

/// Implicit segments double in size, up to 64 KiB and to a chunk of the arena.
pub proof fn lemma_growth(size: nat, chunk: nat, count: nat)
    requires
        0 < count,
    ensures
        size_after(size, chunk, count as int) == min(
            (size * pow2(count)) as int,
            min(chunk as int, 65536),
        ),
    decreases count,
{
    let cap = min(chunk as int, 65536);
    let earlier = (count - 1) as nat;
    lemma_pow2_unfold(count);
    assert(size * pow2(count) == 2 * (size * pow2(earlier))) by (nonlinear_arith)
        requires
            pow2(count) == 2 * pow2(earlier),
    ;
    if count == 1 {
        reveal_with_fuel(size_after, 2);
        lemma2_to64();
        assert(size * pow2(earlier) == size) by (nonlinear_arith)
            requires
                pow2(earlier) == 1,
        ;
    } else {
        lemma_growth(size, chunk, earlier);
    }
}

/// In a fresh writer, however it was written to, each segment has the size of
/// its turn: the first size, then twice as much each time up to the caps, or what
/// the limit leaves. That is never more than a chunk. All but the last hold as
/// many bytes. A segment on the heap may take more.
pub proof fn lemma_segment_sizes(fresh: WriterModel, writer: WriterModel, added: Seq<u8>, i: int)
    requires
        fresh.wf(),
        fresh.pieces.len() == 0,
        appended(fresh, writer, added),
        0 <= i < writer.pieces.len(),
    ensures
        ({
            let size = if i == 0 {
                fresh.size as int
            } else {
                min(
                    (fresh.size * pow2(i as nat)) as int,
                    min(fresh.chunk as int, 65536),
                )
            };
            let turn = min(size, fresh.limit - offset(writer.pieces, i));
            &&& turn <= fresh.chunk
            &&& writer.capacity(i) >= turn
            &&& writer.heap[i] || writer.capacity(i) == turn
            &&& i < writer.pieces.len() - 1 ==> {
                &&& writer.pieces[i].len() >= turn
                &&& writer.heap[i] || writer.pieces[i].len() == turn
            }
        }),
{
    assert(opened_in_turn(fresh, writer, i));
    if i > 0 {
        lemma_growth(fresh.size, fresh.chunk, i as nat);
    }
}

/// Whether a write opened no segment on the heap.
pub open spec fn opened_in_arena(before: WriterModel, after: WriterModel) -> bool {
    forall|i: int| before.pieces.len() <= i < after.pieces.len() ==> !(#[trigger] after.heap[i])
}

/// Two outcomes of one write agree on where a segment starts that both have.
proof fn lemma_same_offset(
    before: WriterModel,
    one: WriterModel,
    other: WriterModel,
    added: Seq<u8>,
    i: int,
)
    requires
        before.wf(),
        appended(before, one, added),
        appended(before, other, added),
        opened_in_arena(before, one),
        opened_in_arena(before, other),
        0 <= i <= before.pieces.len() || i < one.pieces.len() && i < other.pieces.len(),
    ensures
        offset(one.pieces, i) == offset(other.pieces, i),
    decreases i,
{
    let n = before.pieces.len() as int;
    if i <= n {
        assert forall|k: int| 0 <= k < i implies one.pieces[k] == other.pieces[k] by {
            assert(one.pieces[k] == one.pieces.take(n)[k]);
            assert(other.pieces[k] == other.pieces.take(n)[k]);
        }
        lemma_offset_prefix(one.pieces, other.pieces, i);
    } else {
        lemma_same_offset(before, one, other, added, i - 1);
        assert(opened_in_turn(before, one, i - 1));
        assert(opened_in_turn(before, other, i - 1));
        assert(!one.heap[i - 1]);
        assert(!other.heap[i - 1]);
    }
}

/// Of two outcomes of one write, none has fewer segments.
proof fn lemma_not_fewer(
    before: WriterModel,
    one: WriterModel,
    other: WriterModel,
    added: Seq<u8>,
)
    requires
        before.wf(),
        appended(before, one, added),
        appended(before, other, added),
        opened_in_arena(before, one),
        opened_in_arena(before, other),
    ensures
        one.pieces.len() >= other.pieces.len(),
{
    let n = before.pieces.len() as int;
    let last = one.pieces.len() - 1;
    if one.pieces.len() < other.pieces.len() {
        lemma_flatten(one.pieces);
        lemma_flatten(other.pieces);
        if last < n {
            lemma_same_offset(before, one, other, added, n);
        } else {
            lemma_same_offset(before, one, other, added, last);
            assert(opened_in_turn(before, one, last));
            assert(opened_in_turn(before, other, last));
            assert(!one.heap[last]);
            assert(!other.heap[last]);
        }
        assert(opened_in_turn(before, other, last + 1));
        assert(other.pieces[last + 1].len() > 0);
        assert(false);
    }
}

/// What a write leaves is determined, segment by segment, where it opens none on
/// the heap: writers that are alike stay alike.
pub proof fn lemma_writes_determined(
    before: WriterModel,
    one: WriterModel,
    other: WriterModel,
    added: Seq<u8>,
)
    requires
        before.wf(),
        one.wf(),
        other.wf(),
        appended(before, one, added),
        appended(before, other, added),
        opened_in_arena(before, one),
        opened_in_arena(before, other),
    ensures
        one == other,
{
    let n = before.pieces.len() as int;
    let count = one.pieces.len() as int;
    lemma_not_fewer(before, one, other, added);
    lemma_not_fewer(before, other, one, added);
    lemma_flatten(one.pieces);
    lemma_flatten(other.pieces);
    assert forall|i: int| 0 <= i < count implies one.pieces[i] == other.pieces[i] by {
        lemma_same_offset(before, one, other, added, i);
        if i + 1 < count {
            lemma_same_offset(before, one, other, added, i + 1);
        }
        assert(offset(one.pieces, i + 1) == offset(one.pieces, i) + one.pieces[i].len());
        assert(offset(other.pieces, i + 1) == offset(other.pieces, i) + other.pieces[i].len());
    }
    assert(one.pieces =~= other.pieces);
    assert forall|i: int| 0 <= i < count implies one.heap[i] == other.heap[i] by {
        if i < n {
            assert(one.heap[i] == one.heap.take(n)[i]);
            assert(other.heap[i] == other.heap.take(n)[i]);
        }
    }
    assert(one.heap =~= other.heap);
    if count > n {
        assert(opened_in_turn(before, one, count - 1));
        assert(opened_in_turn(before, other, count - 1));
        assert(!one.heap[count - 1]);
        assert(!other.heap[count - 1]);
    }
    assert(one =~= other);
}

/// How bytes are split into writes does not matter: as many are taken, and they
/// lie in the same segments, where none of these is opened on the heap.
pub proof fn lemma_split_is_immaterial(
    before: WriterModel,
    middle: WriterModel,
    split: WriterModel,
    whole: WriterModel,
    first: Seq<u8>,
    second: Seq<u8>,
)
    requires
        before.wf(),
        middle.wf(),
        split.wf(),
        whole.wf(),
        WriteStep::Write(first).leads(before, middle),
        WriteStep::Write(second).leads(middle, split),
        WriteStep::Write(first + second).leads(before, whole),
        opened_in_arena(before, split),
        opened_in_arena(before, whole),
    ensures
        WriteStep::Write(first).accepted(before) + WriteStep::Write(second).accepted(middle)
            == WriteStep::Write(first + second).accepted(before),
        split == whole,
{
    let added = WriteStep::Write(first).accepted(before);
    let more = WriteStep::Write(second).accepted(middle);
    assert(added + more =~= WriteStep::Write(first + second).accepted(before));
    lemma_writes_compose(before, middle, split, added, more);
    lemma_writes_determined(before, split, whole, added + more);
}

/// A call that adds to a writer.
pub enum WriteStep {
    /// A write of these bytes, or of these buffers joined.
    Write(Seq<u8>),
    /// A reservation of so many bytes, granted or refused.
    Reserve(int),
    /// A receive of at most so many bytes, which changed the tail from one state
    /// to the other.
    Receive(int, EphemeralBytesMut, EphemeralBytesMut),
}

impl WriteStep {
    /// The bytes that the call adds.
    pub open spec fn accepted(self, before: WriterModel) -> Seq<u8> {
        match self {
            WriteStep::Write(bytes) => bytes.take(min(bytes.len() as int, before.remaining())),
            WriteStep::Reserve(_) => Seq::empty(),
            WriteStep::Receive(_, old_tail, new_tail) => received(old_tail, new_tail),
        }
    }

    /// Whether the call may leave `after`.
    pub open spec fn leads(self, before: WriterModel, after: WriterModel) -> bool {
        match self {
            WriteStep::Write(_) => appended(before, after, self.accepted(before)),
            WriteStep::Reserve(additional) => after == before || reserves(
                before,
                after,
                additional,
            ),
            WriteStep::Receive(wanted, old_tail, new_tail) => stored(
                before,
                after,
                wanted,
                received(old_tail, new_tail).len() as int,
                old_tail,
                new_tail,
            ),
        }
    }
}

/// Whether a writer went through the states, one call after the other.
pub open spec fn writing(states: Seq<WriterModel>, steps: Seq<WriteStep>) -> bool {
    &&& states.len() == steps.len() + 1
    &&& forall|i: int| 0 <= i < states.len() ==> (#[trigger] states[i]).wf()
    &&& forall|i: int|
        0 <= i < steps.len() ==> (#[trigger] steps[i]).leads(states[i], states[i + 1])
}

/// The bytes that the calls added, in order.
pub open spec fn all_accepted(states: Seq<WriterModel>, steps: Seq<WriteStep>) -> Seq<u8>
    decreases steps.len(),
{
    if steps.len() == 0 {
        Seq::empty()
    } else {
        all_accepted(states.drop_last(), steps.drop_last()) + steps.last().accepted(
            states[steps.len() - 1],
        )
    }
}

/// After any sequence of calls a writer holds what it held before and behind it
/// the bytes accepted, in order.
pub proof fn lemma_writing(states: Seq<WriterModel>, steps: Seq<WriteStep>)
    requires
        writing(states, steps),
    ensures
        states.last().contents() == states[0].contents() + all_accepted(states, steps),
    decreases steps.len(),
{
    if steps.len() == 0 {
        assert(states[0].contents() + Seq::<u8>::empty() =~= states[0].contents());
    } else {
        let n = steps.len() - 1;
        let before = states[n];
        let after = states[n + 1];
        let step = steps[n];
        assert(writing(states.drop_last(), steps.drop_last())) by {
            assert forall|i: int| 0 <= i < n implies (#[trigger] steps.drop_last()[i]).leads(
                states.drop_last()[i],
                states.drop_last()[i + 1],
            ) by {
                assert(steps[i].leads(states[i], states[i + 1]));
            }
        }
        lemma_writing(states.drop_last(), steps.drop_last());
        assert(step.leads(before, after));
        assert(after.contents() =~= before.contents() + step.accepted(before)) by {
            if step is Reserve {
                lemma_flatten_new_tail(before.pieces);
            }
        }
        assert(after.contents() =~= states[0].contents() + all_accepted(states, steps));
    }
}

/// A call that reads.
pub enum ReadStep {
    /// An exclusive read of so many bytes, or of all that are left: `read`,
    /// `read_vectored`, `consume`, or `fill_buf` with none.
    Exclusive(nat),
    /// A borrowed read of exactly so many bytes, or of none where fewer are left:
    /// `read_bytes`, `read_str` of text, or `skip`.
    Borrowed(nat),
}

impl ReadStep {
    /// The bytes that the call reads.
    pub open spec fn taken(self, before: ReaderModel) -> Seq<u8> {
        match self {
            ReadStep::Exclusive(count) => before.unread().take(
                min(count as int, before.unread().len() as int),
            ),
            ReadStep::Borrowed(count) => if count <= before.unread().len() {
                before.unread().take(count as int)
            } else {
                Seq::empty()
            },
        }
    }

    /// The reader after the call.
    pub open spec fn after(self, before: ReaderModel) -> ReaderModel {
        match self {
            ReadStep::Exclusive(count) => before.advanced(count as int),
            ReadStep::Borrowed(count) => if count <= before.unread().len() {
                before.moved(count as int)
            } else {
                before
            },
        }
    }
}

/// The reader after a sequence of reads.
pub open spec fn after_reads(model: ReaderModel, steps: Seq<ReadStep>) -> ReaderModel
    decreases steps.len(),
{
    if steps.len() == 0 {
        model
    } else {
        steps.last().after(after_reads(model, steps.drop_last()))
    }
}

/// The bytes that a sequence of reads gets, in order.
pub open spec fn all_taken(model: ReaderModel, steps: Seq<ReadStep>) -> Seq<u8>
    decreases steps.len(),
{
    if steps.len() == 0 {
        Seq::empty()
    } else {
        all_taken(model, steps.drop_last()) + steps.last().taken(
            after_reads(model, steps.drop_last()),
        )
    }
}

/// Over any sequence of reads, the bytes read and those left are the stream,
/// none lost and none twice. Position and number of bytes left add up to the
/// end, and the position never moves back.
pub proof fn lemma_reading(model: ReaderModel, steps: Seq<ReadStep>)
    requires
        model.wf(),
    ensures
        ({
            let after = after_reads(model, steps);
            &&& after.wf()
            &&& all_taken(model, steps) + after.unread() == model.unread()
            &&& after.position == model.position + all_taken(model, steps).len()
            &&& after.position + after.unread().len() == model.position + model.unread().len()
            &&& after.end == model.end
        }),
    decreases steps.len(),
{
    if steps.len() == 0 {
        assert(Seq::<u8>::empty() + model.unread() =~= model.unread());
    } else {
        let before = after_reads(model, steps.drop_last());
        let step = steps.last();
        lemma_reading(model, steps.drop_last());
        if step is Exclusive {
            lemma_advanced(before, step->Exclusive_0 as int);
        }
        assert(step.taken(before) + step.after(before).unread() =~= before.unread());
        assert(all_taken(model, steps) + after_reads(model, steps).unread() =~= model.unread());
    }
}

/// An exclusive read with a nonempty buffer gets nothing just when everything is
/// read. From then on reads get nothing and the next chunk is empty. The reads up
/// to there got all that was to be read.
pub proof fn lemma_read_until_nothing(model: ReaderModel, steps: Seq<ReadStep>, size: nat)
    requires
        model.wf(),
        0 < size,
    ensures
        ({
            let after = after_reads(model, steps);
            &&& ReadStep::Exclusive(size).taken(after).len() == 0 <==> after.unread().len() == 0
            &&& ReadStep::Exclusive(size).taken(after).len() == 0 ==> {
                &&& all_taken(model, steps) == model.unread()
                &&& after.chunk().len() == 0
                &&& forall|count: nat| #[trigger]
                    ReadStep::Exclusive(count).taken(after).len() == 0
            }
        }),
{
    let after = after_reads(model, steps);
    lemma_reading(model, steps);
    lemma_chunk_comes_next(after);
    if after.unread().len() == 0 {
        assert(all_taken(model, steps) + after.unread() =~= all_taken(model, steps));
    }
}

/// Whatever calls write to a fresh writer and whatever reads follow, once a read
/// with a nonempty buffer gets nothing, the reads got the bytes accepted, in
/// order.
pub proof fn lemma_round_trip(
    states: Seq<WriterModel>,
    writes: Seq<WriteStep>,
    reads: Seq<ReadStep>,
    size: nat,
)
    requires
        writing(states, writes),
        states[0].pieces.len() == 0,
        0 < size,
        ReadStep::Exclusive(size).taken(after_reads(states.last().reader(), reads)).len() == 0,
    ensures
        all_taken(states.last().reader(), reads) == all_accepted(states, writes),
{
    let reader = states.last().reader();
    lemma_writing(states, writes);
    lemma_flatten(states[0].pieces);
    assert(states[0].contents() =~= Seq::<u8>::empty());
    assert(reader.unread() =~= all_accepted(states, writes));
    assert(states.last() == states[writes.len() as int]);
    assert(reader.wf());
    lemma_read_until_nothing(reader, reads, size);
}

/// Two reads in a row get what one read of both lengths would get.
pub proof fn lemma_reads_join(model: ReaderModel, count: int, more: int)
    requires
        model.wf(),
        0 <= count,
        0 <= more,
        count + more <= model.unread().len(),
    ensures
        model.unread().take(count) + model.moved(count).unread().take(more)
            == model.unread().take(count + more),
        model.unread().take(count) + model.advanced(count).unread().take(more)
            == model.unread().take(count + more),
        model.moved(count).moved(more) == model.moved(count + more),
{
    lemma_advanced(model, count);
    assert(model.unread().take(count) + model.moved(count).unread().take(more)
        =~= model.unread().take(count + more));
    assert(model.unread().take(count) + model.advanced(count).unread().take(more)
        =~= model.unread().take(count + more));
}

/// Borrowed and exclusive reads share one position: an exclusive read goes on
/// where a borrowed one ended.
pub proof fn lemma_reads_share_position(model: ReaderModel, borrowed: int, exclusive: int)
    requires
        model.wf(),
        0 <= borrowed <= model.unread().len(),
        0 <= exclusive,
    ensures
        model.moved(borrowed).wf(),
        model.moved(borrowed).unread() == model.unread().skip(borrowed),
        model.moved(borrowed).advanced(exclusive) == model.advanced(borrowed + exclusive),
{
    assert(model.moved(borrowed).unread() =~= model.unread().skip(borrowed));
}

/// A look ahead shows what is read after as many bytes are skipped.
pub proof fn lemma_peek_shows_what_is_read(model: ReaderModel, offset: int, len: int)
    requires
        model.wf(),
        0 <= offset,
        0 <= len,
        offset + len <= model.unread().len(),
    ensures
        model.unread().subrange(offset, offset + len) == model.moved(offset).unread().take(len),
{
    assert(model.unread().subrange(offset, offset + len) =~= model.moved(offset).unread().take(
        len,
    ));
}

/// The next chunk is what comes next in the stream, and there is one until
/// everything is read.
pub proof fn lemma_chunk_comes_next(model: ReaderModel)
    requires
        model.wf(),
    ensures
        model.chunk().len() <= model.unread().len(),
        model.chunk() == model.unread().take(model.chunk().len() as int),
        model.unread().len() > 0 ==> model.chunk().len() > 0,
{
    lemma_run_is_next(model.pieces, model.position - model.base());
    assert(model.chunk() =~= model.unread().take(model.chunk().len() as int));
}

/// An exclusive read to the end lets every segment go.
pub proof fn lemma_read_to_end(model: ReaderModel, count: int)
    requires
        model.wf(),
        model.unread().len() <= count,
    ensures
        model.advanced(count).pieces.len() == 0,
        model.advanced(count).unread().len() == 0,
        model.advanced(count).position == model.end,
{
    lemma_advanced(model, count);
    let rest = model.advanced(count).pieces;
    lemma_unconsumed(model.pieces, model.end - model.base());
    if rest.len() > 0 {
        lemma_flatten(rest);
        assert(offset(rest, 0) + rest[0].len() <= rest.flatten().len());
    }
}

/// A receive shows its bytes behind those that are to be read. What was read
/// does not come back.
pub proof fn lemma_received_behind(
    before: ReaderModel,
    after: ReaderModel,
    wanted: int,
    count: int,
    old_tail: EphemeralBytesMut,
    new_tail: EphemeralBytesMut,
)
    requires
        before.wf(),
        received_more(before, after, wanted, count, old_tail, new_tail),
    ensures
        after.base() == before.base(),
        after.unread() == before.unread() + received(old_tail, new_tail),
{
    assert(after.unread() =~= before.unread() + received(old_tail, new_tail));
}

/// A part of a part is a part of the whole.
pub proof fn lemma_parts_compose(
    whole: ReaderView,
    part: ReaderView,
    inner: ReaderView,
    from: int,
    to: int,
    inner_from: int,
    inner_to: int,
)
    requires
        whole.wf(),
        part.wf(),
        part.is_part(whole, from, to),
        inner.is_part(part, inner_from, inner_to),
    ensures
        inner.is_part(whole, from + inner_from, from + inner_to),
        inner.contents() == whole.contents().subrange(from + inner_from, from + inner_to),
{
    whole.lemma_wf();
    part.lemma_wf();
    assert(inner.contents() =~= whole.contents().subrange(from + inner_from, from + inner_to));
}

/// A call that asks for bytes through a shared reference.
pub enum ClaimStep {
    /// A read that claimed so many bytes.
    Granted(usize),
    /// A read that was refused, or a look.
    Refused,
}

impl ClaimStep {
    /// Whether the call moves the counter from one value to another.
    pub open spec fn leads(self, available: int, from: usize, to: usize) -> bool {
        match self {
            ClaimStep::Granted(len) => moved_on(from, available, len) == Some(to),
            ClaimStep::Refused => to == from,
        }
    }

    /// The bytes that the call gets when the counter stands at `ahead`.
    pub open spec fn taken(self, model: ReaderModel, ahead: usize) -> Seq<u8> {
        match self {
            ClaimStep::Granted(len) => left(model, ahead).take(len as int),
            ClaimStep::Refused => Seq::empty(),
        }
    }
}

/// Whether a counter that started at zero went through the values, one atomic
/// step after the other.
pub open spec fn claiming(
    model: ReaderModel,
    counters: Seq<usize>,
    steps: Seq<ClaimStep>,
) -> bool {
    &&& counters.len() == steps.len() + 1
    &&& counters[0] == 0
    &&& forall|i: int|
        0 <= i < steps.len() ==> (#[trigger] steps[i]).leads(
            model.unread().len() as int,
            counters[i],
            counters[i + 1],
        )
}

/// The bytes that the calls got, in the order of their claims.
pub open spec fn all_claimed(
    model: ReaderModel,
    counters: Seq<usize>,
    steps: Seq<ClaimStep>,
) -> Seq<u8>
    decreases steps.len(),
{
    if steps.len() == 0 {
        Seq::empty()
    } else {
        all_claimed(model, counters.drop_last(), steps.drop_last()) + steps.last().taken(
            model,
            counters[steps.len() - 1],
        )
    }
}

/// Shared reads together get the bytes from the start to where the counter
/// stands, in the order of their claims, none lost and none twice. The counter
/// stands at the number of bytes claimed.
pub proof fn lemma_claims_tile(model: ReaderModel, counters: Seq<usize>, steps: Seq<ClaimStep>)
    requires
        model.wf(),
        claiming(model, counters, steps),
    ensures
        counters.last() == all_claimed(model, counters, steps).len(),
        counters.last() <= model.unread().len(),
        all_claimed(model, counters, steps) + left(model, counters.last()) == model.unread(),
    decreases steps.len(),
{
    if steps.len() == 0 {
        assert(Seq::<u8>::empty() + left(model, 0) =~= model.unread());
    } else {
        let n = steps.len() - 1;
        let earlier = all_claimed(model, counters.drop_last(), steps.drop_last());
        let step = steps[n];
        let ahead = counters[n];
        lemma_claiming_prefix(model, counters, steps);
        lemma_claims_tile(model, counters.drop_last(), steps.drop_last());
        assert(step.leads(model.unread().len() as int, ahead, counters[n + 1]));
        assert(step.taken(model, ahead) + left(model, counters[n + 1]) =~= left(model, ahead));
        assert(earlier + step.taken(model, ahead) + left(model, counters[n + 1]) =~= earlier + left(
            model,
            ahead,
        ));
    }
}

/// The calls but the last are such a sequence too.
proof fn lemma_claiming_prefix(
    model: ReaderModel,
    counters: Seq<usize>,
    steps: Seq<ClaimStep>,
)
    requires
        claiming(model, counters, steps),
        steps.len() > 0,
    ensures
        claiming(model, counters.drop_last(), steps.drop_last()),
{
    assert forall|i: int| 0 <= i < steps.len() - 1 implies (#[trigger] steps.drop_last()[i]).leads(
        model.unread().len() as int,
        counters.drop_last()[i],
        counters.drop_last()[i + 1],
    ) by {
        assert(steps[i].leads(model.unread().len() as int, counters[i], counters[i + 1]));
    }
}

/// Each call moves the counter by all that it asked for or by nothing, and the
/// bytes of one claim end at or before those of a later one begin.
pub proof fn lemma_claims_disjoint(
    model: ReaderModel,
    counters: Seq<usize>,
    steps: Seq<ClaimStep>,
    i: int,
    j: int,
)
    requires
        model.wf(),
        claiming(model, counters, steps),
        0 <= i < j < steps.len(),
    ensures
        counters[i + 1] == counters[i] + steps[i].taken(model, counters[i]).len(),
        steps[i] matches ClaimStep::Granted(len) ==> counters[i + 1] == counters[i] + len,
        counters[i] + steps[i].taken(model, counters[i]).len() <= counters[j],
        steps[i].taken(model, counters[i]) == model.unread().subrange(
            counters[i] as int,
            counters[i + 1] as int,
        ),
        counters[j] + steps[j].taken(model, counters[j]).len() <= model.unread().len(),
    decreases steps.len(),
{
    if j < steps.len() - 1 {
        lemma_claiming_prefix(model, counters, steps);
        lemma_claims_disjoint(model, counters.drop_last(), steps.drop_last(), i, j);
    } else {
        lemma_claiming_prefix(model, counters, steps);
        lemma_claims_tile(model, counters.drop_last(), steps.drop_last());
        assert(steps[j].leads(model.unread().len() as int, counters[j], counters[j + 1]));
        if i + 1 < j {
            lemma_claims_disjoint(model, counters.drop_last(), steps.drop_last(), i, j - 1);
            lemma_claiming_prefix(model, counters.drop_last(), steps.drop_last());
            assert(steps[j - 1].leads(
                model.unread().len() as int,
                counters[j - 1],
                counters[j],
            ));
        } else {
            assert(steps[i].leads(model.unread().len() as int, counters[i], counters[i + 1]));
            lemma_claiming_prefix(model, counters.drop_last(), steps.drop_last());
            lemma_claims_tile(
                model,
                counters.drop_last().drop_last(),
                steps.drop_last().drop_last(),
            );
        }
        assert(steps[i].taken(model, counters[i]) =~= model.unread().subrange(
            counters[i] as int,
            counters[i + 1] as int,
        ));
    }
}

} // verus!
