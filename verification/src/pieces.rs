//! Byte streams held in pieces.
//!
//! A stream is stored as a sequence of pieces. Its bytes are the pieces joined,
//! `pieces.flatten()`. This module relates places in the stream to places in
//! the pieces.

use vstd::prelude::*;

verus! {

/// The smaller of two numbers.
pub open spec fn min(a: int, b: int) -> int {
    if a < b {
        a
    } else {
        b
    }
}

/// The segments with `added` written to the last one.
pub open spec fn extended(pieces: Seq<Seq<u8>>, added: Seq<u8>) -> Seq<Seq<u8>> {
    if pieces.len() == 0 {
        pieces
    } else {
        pieces.update(pieces.len() - 1, pieces.last() + added)
    }
}

/// The segments after a reservation that needed a new one: an empty last
/// segment is replaced, any other is left behind.
pub open spec fn with_new_tail(pieces: Seq<Seq<u8>>) -> Seq<Seq<u8>> {
    if pieces.len() > 0 && pieces.last().len() == 0 {
        pieces.drop_last().push(Seq::empty())
    } else {
        pieces.push(Seq::empty())
    }
}

/// Which segments are on the heap after such a reservation, where `heap` says so
/// of the new one.
pub open spec fn heap_with_new_tail(
    pieces: Seq<Seq<u8>>,
    on_heap: Seq<bool>,
    heap: bool,
) -> Seq<bool> {
    if pieces.len() > 0 && pieces.last().len() == 0 {
        on_heap.drop_last().push(heap)
    } else {
        on_heap.push(heap)
    }
}

/// Where piece `i` starts in the joined stream: the length of all before it.
pub open spec fn offset(pieces: Seq<Seq<u8>>, i: int) -> int
    decreases i,
{
    if i <= 0 {
        0
    } else {
        offset(pieces, i - 1) + pieces[i - 1].len()
    }
}

/// Offsets grow with the index.
pub proof fn lemma_offset_monotone(pieces: Seq<Seq<u8>>, i: int, j: int)
    requires
        0 <= i <= j,
    ensures
        0 <= offset(pieces, i) <= offset(pieces, j),
    decreases j,
{
    if j > i {
        lemma_offset_monotone(pieces, i, j - 1);
    } else if i > 0 {
        lemma_offset_monotone(pieces, i - 1, i - 1);
    }
}

/// The offset of a piece depends only on the pieces before it.
pub proof fn lemma_offset_prefix(a: Seq<Seq<u8>>, b: Seq<Seq<u8>>, i: int)
    requires
        i <= a.len(),
        i <= b.len(),
        forall|k: int| 0 <= k < i ==> a[k] == b[k],
    ensures
        offset(a, i) == offset(b, i),
    decreases i,
{
    if i > 0 {
        lemma_offset_prefix(a, b, i - 1);
    }
}

/// Taking the first piece away moves every other offset down by its length.
pub proof fn lemma_offset_drop_first(pieces: Seq<Seq<u8>>, i: int)
    requires
        0 <= i < pieces.len(),
    ensures
        offset(pieces.drop_first(), i) == offset(pieces, i + 1) - pieces[0].len(),
    decreases i,
{
    reveal_with_fuel(offset, 2);
    if i > 0 {
        lemma_offset_drop_first(pieces, i - 1);
    }
}

/// The last offset is the length of the stream, and piece `i` is the part of
/// the stream that begins at its offset.
pub proof fn lemma_flatten(pieces: Seq<Seq<u8>>)
    ensures
        offset(pieces, pieces.len() as int) == pieces.flatten().len(),
        forall|i: int|
            #![trigger pieces[i]]
            0 <= i < pieces.len() ==> {
                &&& 0 <= offset(pieces, i)
                &&& offset(pieces, i) + pieces[i].len() <= pieces.flatten().len()
                &&& pieces.flatten().subrange(offset(pieces, i), offset(pieces, i) + pieces[i].len())
                    == pieces[i]
            },
    decreases pieces.len(),
{
    if pieces.len() > 0 {
        let front = pieces.drop_last();
        let last = pieces.last();
        lemma_flatten(front);
        front.lemma_flatten_push(last);
        assert(front.push(last) =~= pieces);
        lemma_offset_prefix(front, pieces, front.len() as int);
        assert forall|i: int| #![trigger pieces[i]] 0 <= i < pieces.len() implies {
            &&& 0 <= offset(pieces, i)
            &&& offset(pieces, i) + pieces[i].len() <= pieces.flatten().len()
            &&& pieces.flatten().subrange(offset(pieces, i), offset(pieces, i) + pieces[i].len())
                == pieces[i]
        } by {
            lemma_offset_prefix(front, pieces, i);
            if i < front.len() {
                assert(front[i] == pieces[i]);
                assert(pieces.flatten().subrange(
                    offset(pieces, i),
                    offset(pieces, i) + pieces[i].len(),
                ) =~= front.flatten().subrange(
                    offset(front, i),
                    offset(front, i) + front[i].len(),
                ));
            } else {
                assert(pieces.flatten().subrange(
                    offset(pieces, i),
                    offset(pieces, i) + pieces[i].len(),
                ) =~= last);
            }
        }
    }
}

/// The stream is its first piece followed by the rest.
pub proof fn lemma_flatten_first(pieces: Seq<Seq<u8>>)
    requires
        pieces.len() > 0,
    ensures
        pieces.flatten() == pieces[0] + pieces.drop_first().flatten(),
        pieces.drop_first().flatten() == pieces.flatten().skip(pieces[0].len() as int),
{
    assert(pieces.flatten() == pieces[0] + pieces.drop_first().flatten());
    assert(pieces.drop_first().flatten() =~= pieces.flatten().skip(pieces[0].len() as int));
}

/// Writing to the last piece appends to the stream.
pub proof fn lemma_flatten_extend_last(pieces: Seq<Seq<u8>>, added: Seq<u8>)
    requires
        pieces.len() > 0,
    ensures
        pieces.update(pieces.len() - 1, pieces.last() + added).flatten() == pieces.flatten()
            + added,
{
    let front = pieces.drop_last();
    let extended = pieces.update(pieces.len() - 1, pieces.last() + added);
    front.lemma_flatten_push(pieces.last());
    front.lemma_flatten_push(pieces.last() + added);
    assert(front.push(pieces.last()) =~= pieces);
    assert(front.push(pieces.last() + added) =~= extended);
    assert(extended.flatten() =~= pieces.flatten() + added);
}

/// An empty piece at the end adds nothing.
pub proof fn lemma_flatten_push_empty(pieces: Seq<Seq<u8>>, empty: Seq<u8>)
    requires
        empty.len() == 0,
    ensures
        pieces.push(empty).flatten() == pieces.flatten(),
{
    pieces.lemma_flatten_push(empty);
    assert(pieces.push(empty).flatten() =~= pieces.flatten());
}

/// The bytes from `at` to the end of the piece that holds it.
pub open spec fn run(pieces: Seq<Seq<u8>>, at: int) -> Seq<u8>
    decreases pieces.len(),
{
    if pieces.len() == 0 {
        Seq::empty()
    } else if at < pieces[0].len() {
        pieces[0].skip(at)
    } else {
        run(pieces.drop_first(), at - pieces[0].len())
    }
}

/// The pieces that are left when those within the first `past` bytes go.
pub open spec fn unconsumed(pieces: Seq<Seq<u8>>, past: int) -> Seq<Seq<u8>>
    decreases pieces.len(),
{
    if pieces.len() > 0 && pieces[0].len() <= past {
        unconsumed(pieces.drop_first(), past - pieces[0].len())
    } else {
        pieces
    }
}

/// The run from a place is the rest of the piece that holds the place.
pub proof fn lemma_run(pieces: Seq<Seq<u8>>, i: int, at: int)
    requires
        0 <= i < pieces.len(),
        offset(pieces, i) <= at < offset(pieces, i) + pieces[i].len(),
    ensures
        run(pieces, at) == pieces[i].skip(at - offset(pieces, i)),
    decreases i,
{
    if i > 0 {
        lemma_offset_monotone(pieces, 1, i);
        reveal_with_fuel(offset, 2);
        lemma_offset_drop_first(pieces, i - 1);
        lemma_run(pieces.drop_first(), i - 1, at - pieces[0].len());
    }
}

/// A run is what comes next in the stream. It is empty only at the end.
pub proof fn lemma_run_is_next(pieces: Seq<Seq<u8>>, at: int)
    requires
        0 <= at <= pieces.flatten().len(),
    ensures
        at + run(pieces, at).len() <= pieces.flatten().len(),
        run(pieces, at) == pieces.flatten().subrange(at, at + run(pieces, at).len()),
        at < pieces.flatten().len() ==> run(pieces, at).len() > 0,
    decreases pieces.len(),
{
    let all = pieces.flatten();
    let next = run(pieces, at);
    if pieces.len() > 0 {
        lemma_flatten_first(pieces);
        if at < pieces[0].len() {
            assert(next =~= all.subrange(at, at + next.len()));
        } else {
            let rest = pieces.drop_first();
            lemma_run_is_next(rest, at - pieces[0].len());
            assert(next =~= all.subrange(at, at + next.len()));
        }
    } else {
        assert(next =~= all.subrange(at, at));
    }
}

/// Only whole pieces go from the front, as many as lie within the first `past`
/// bytes.
pub proof fn lemma_unconsumed(pieces: Seq<Seq<u8>>, past: int)
    requires
        0 <= past <= pieces.flatten().len(),
    ensures
        ({
            let rest = unconsumed(pieces, past);
            let gone = pieces.flatten().len() - rest.flatten().len();
            &&& rest.len() <= pieces.len()
            &&& rest == pieces.skip(pieces.len() - rest.len())
            &&& 0 <= gone <= past
            &&& rest.flatten() == pieces.flatten().skip(gone)
            &&& rest.len() > 0 ==> past < gone + rest[0].len()
            &&& rest.len() == 0 ==> past == pieces.flatten().len()
        }),
    decreases pieces.len(),
{
    let rest = unconsumed(pieces, past);
    let all = pieces.flatten();
    if pieces.len() > 0 && pieces[0].len() <= past {
        let others = pieces.drop_first();
        lemma_flatten_first(pieces);
        lemma_unconsumed(others, past - pieces[0].len());
        assert(pieces.skip(pieces.len() - rest.len()) =~= others.skip(others.len() - rest.len()));
        assert(rest.flatten() =~= all.skip(all.len() - rest.flatten().len()));
    } else {
        assert(rest =~= pieces.skip(0));
        assert(all =~= all.skip(0));
    }
}

/// Going on from where an earlier release stopped is the same as one release.
pub proof fn lemma_unconsumed_again(pieces: Seq<Seq<u8>>, past: int, further: int)
    requires
        0 <= past <= further <= pieces.flatten().len(),
    ensures
        ({
            let rest = unconsumed(pieces, past);
            let gone = pieces.flatten().len() - rest.flatten().len();
            unconsumed(rest, further - gone) == unconsumed(pieces, further)
        }),
    decreases pieces.len(),
{
    if pieces.len() > 0 && pieces[0].len() <= past {
        lemma_flatten_first(pieces);
        lemma_unconsumed_again(
            pieces.drop_first(),
            past - pieces[0].len(),
            further - pieces[0].len(),
        );
    }
}

/// A new, empty tail adds nothing.
pub proof fn lemma_flatten_new_tail(pieces: Seq<Seq<u8>>)
    ensures
        with_new_tail(pieces).flatten() == pieces.flatten(),
{
    let empty = Seq::<u8>::empty();
    if pieces.len() > 0 && pieces.last().len() == 0 {
        lemma_flatten_push_empty(pieces.drop_last(), pieces.last());
        lemma_flatten_push_empty(pieces.drop_last(), empty);
        assert(pieces.drop_last().push(pieces.last()) =~= pieces);
    } else {
        lemma_flatten_push_empty(pieces, empty);
    }
}

} // verus!
