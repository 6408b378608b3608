//! What the library relies on of the byte arena.
//!
//! Payload bytes live in buffers of `brz_ds`, whose types are opaque here.
//! Four functions name what the contracts need of a buffer: the bytes written
//! to it, the room it has left, whether it is on the heap, and the bytes of a
//! frozen buffer.

use brz_ds::{EphemeralBytes, EphemeralBytesArena, EphemeralBytesMut};
use vstd::prelude::*;

verus! {

/// `brz_ds::EphemeralBytesArena`: a shared handle to the storage that buffers
/// are allocated from.
#[verifier::external_type_specification]
#[verifier::external_body]
pub struct ExEphemeralBytesArena(EphemeralBytesArena);

/// `brz_ds::EphemeralBytesMut`: a writable buffer of fixed capacity.
#[verifier::external_type_specification]
#[verifier::external_body]
pub struct ExEphemeralBytesMut(EphemeralBytesMut);

/// `brz_ds::EphemeralBytes`: a frozen, immutable buffer.
#[verifier::external_type_specification]
#[verifier::external_body]
pub struct ExEphemeralBytes(EphemeralBytes);

/// The size of one chunk of the arena, fixed when the arena is made.
pub uninterp spec fn chunk_size(arena: EphemeralBytesArena) -> nat;

/// The bytes written to a buffer so far.
pub uninterp spec fn written(buffer: EphemeralBytesMut) -> Seq<u8>;

/// How many more bytes a buffer takes: its capacity less what is written. It is
/// a property of the buffer at hand: two buffers asked for with one capacity may
/// differ in it.
pub uninterp spec fn room(buffer: EphemeralBytesMut) -> nat;

/// Whether a buffer lies on the heap instead of in a chunk of the arena. As its
/// room, it is a property of the buffer at hand.
pub uninterp spec fn on_heap(buffer: EphemeralBytesMut) -> bool;

/// The bytes of a frozen buffer.
pub uninterp spec fn frozen(buffer: EphemeralBytes) -> Seq<u8>;

/// `EphemeralBytesArena::chunk_capacity` returns the size that the arena was
/// made with. It is positive, and the arena holds a live allocation of two
/// chunks, so that twice the size is a possible allocation size.
pub assume_specification[ EphemeralBytesArena::chunk_capacity ](
    arena: &EphemeralBytesArena,
) -> (size: usize)
    ensures
        size == chunk_size(*arena),
        0 < size,
        2 * size <= isize::MAX,
;

/// `EphemeralBytesArena::clone` makes another handle to the same storage.
pub assume_specification[ <EphemeralBytesArena as Clone>::clone ](
    arena: &EphemeralBytesArena,
) -> (handle: EphemeralBytesArena)
    ensures
        chunk_size(handle) == chunk_size(*arena),
;

/// `EphemeralBytesArena::alloc` returns an empty buffer that takes at least
/// `capacity` bytes, and exactly that many unless it is on the heap. A buffer on
/// the heap may take more. A capacity above `isize::MAX` panics and is left out.
pub assume_specification[ EphemeralBytesArena::alloc ](
    arena: &EphemeralBytesArena,
    capacity: usize,
) -> (buffer: EphemeralBytesMut)
    requires
        capacity <= isize::MAX,
    ensures
        written(buffer).len() == 0,
        room(buffer) >= capacity,
        on_heap(buffer) || room(buffer) == capacity,
;

/// `EphemeralBytesMut::is_heap_allocated` tells whether a buffer is on the heap.
pub assume_specification[ EphemeralBytesMut::is_heap_allocated ](
    buffer: &EphemeralBytesMut,
) -> (heap: bool)
    ensures
        heap == on_heap(*buffer),
;

/// `EphemeralBytesMut::len` is the number of bytes written.
pub assume_specification[ EphemeralBytesMut::len ](buffer: &EphemeralBytesMut) -> (count: usize)
    ensures
        count == written(*buffer).len(),
;

/// `EphemeralBytesMut::is_empty` holds while nothing is written.
pub assume_specification[ EphemeralBytesMut::is_empty ](
    buffer: &EphemeralBytesMut,
) -> (empty: bool)
    ensures
        empty == (written(*buffer).len() == 0),
;

/// `EphemeralBytesMut::remaining` is the room left.
pub assume_specification[ EphemeralBytesMut::remaining ](
    buffer: &EphemeralBytesMut,
) -> (count: usize)
    ensures
        count == room(*buffer),
;

/// `EphemeralBytesMut::as_slice` borrows the bytes written.
pub assume_specification[ EphemeralBytesMut::as_slice ](buffer: &EphemeralBytesMut) -> (bytes:
    &[u8])
    ensures
        bytes@ == written(*buffer),
;

/// `EphemeralBytesMut::extend_from_slice` appends `bytes` and uses up as much
/// room, in place. It panics where the room does not suffice: that is left out.
pub assume_specification[ EphemeralBytesMut::extend_from_slice ](
    buffer: &mut EphemeralBytesMut,
    bytes: &[u8],
)
    requires
        bytes@.len() <= room(*old(buffer)),
    ensures
        written(*final(buffer)) == written(*old(buffer)) + bytes@,
        room(*final(buffer)) == room(*old(buffer)) - bytes@.len(),
        on_heap(*final(buffer)) == on_heap(*old(buffer)),
;

/// `EphemeralBytesMut::freeze` keeps the bytes written, without copying them.
pub assume_specification[ EphemeralBytesMut::freeze ](buffer: EphemeralBytesMut) -> (bytes:
    EphemeralBytes)
    ensures
        frozen(bytes) == written(buffer),
;

/// `EphemeralBytes::as_slice` borrows the frozen bytes.
pub assume_specification[ EphemeralBytes::as_slice ](buffer: &EphemeralBytes) -> (bytes: &[u8])
    ensures
        bytes@ == frozen(*buffer),
;

} // verus!
