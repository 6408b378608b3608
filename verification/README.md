# brz-io

Byte streams in memory, held in segments that an arena allocates.

`Writer` appends to a stream without moving what is there. The first segment has
2 KiB, each next one twice as much up to 64 KiB, none more than a chunk of the
arena or than the limit leaves. `Writer::with_limit` bounds the bytes that are
taken, and `reserve_exact` has room for a given number of bytes in one segment of
that size. Where the arena has no room a segment is allocated on the heap, and
may turn out larger than was asked for: `is_heap_allocated` tells which are.

`Writer::into_reader` hands the segments over to a `Reader`, without copying.
A reader

- copies bytes out with `read` and `read_vectored`, lends the next segment with
  `fill_buf` and lets segments go that are read to their end;
- lends bytes with `read_bytes`, `read_str`, `peek_bytes` and `as_slice`, from
  where they lie if that is one segment, else from an allocation into which they
  are merged once;
- shows a fixed range of them as a `ReaderView`;
- receives more bytes behind those that it holds.

`Reader::share` makes a `SharedReader`, which reads through a shared reference:
what its reads return can be held together while they go on.

## Layout

- `src/` is the library. Every function there has a contract, and its body is
  proved to meet it. The contracts speak of `WriterModel` and `ReaderModel`,
  plain mathematical values; `src/laws.rs` states what holds of streams as a
  whole.
- What the library takes on trust is declared where it is used: the arena in
  `src/arena.rs`, the append-only list and the place that is filled once in
  `src/retained.rs`, UTF-8 validation in `src/text.rs`, one method of the
  double-ended queue in `src/segments.rs`, the atomic counter in `src/shared.rs`,
  the buffers of asynchronous readers in `src/read_buf.rs`.
- `app/` puts the streams under the IO traits of the standard library and of
  Tokio.
- `tests/` runs the library with the real arena.
