use brz_io::segments::{Segment, Segments};
use brz_io::shared::claimed;
use brz_io::{EphemeralBytesArena, Error, ErrorKind, Reader, Writer};
use tokio::io::ReadBuf;

fn written(parts: &[&[u8]], first: usize) -> Writer {
    let arena = EphemeralBytesArena::new(4096);
    let mut writer = Writer::with_initial_segment_size(&arena, first);
    for part in parts {
        assert_eq!(writer.write(part), Ok(part.len()));
    }
    writer
}

fn read_all(reader: &mut Reader) -> Vec<u8> {
    let mut all = Vec::new();
    while !reader.is_empty() {
        let chunk = reader.fill_buf().unwrap().to_vec();
        assert!(!chunk.is_empty());
        reader.consume(chunk.len());
        all.extend(chunk);
    }
    all
}

#[test]
fn what_is_written_is_read_back() {
    let mut reader = written(&[b"abc", b"", b"defgh"], 2).into_reader();
    assert_eq!(reader.as_slice(), b"abcdefgh");
    assert_eq!(read_all(&mut reader), b"abcdefgh");
    assert_eq!(reader.segment_count(), 0);
}

#[test]
fn two_writes_are_one_write_of_both() {
    let mut split = written(&[b"abc", b"defghij"], 2).into_reader();
    let mut whole = written(&[b"abcdefghij"], 2).into_reader();
    assert_eq!(split.segment_count(), whole.segment_count());
    while !whole.is_empty() {
        let chunk = whole.fill_buf().unwrap().to_vec();
        assert_eq!(split.fill_buf().unwrap(), chunk);
        split.consume(chunk.len());
        whole.consume(chunk.len());
    }
    assert!(split.is_empty());
}

#[test]
fn an_empty_write_opens_no_segment() {
    let mut writer = written(&[], 2);
    assert_eq!(writer.write(b""), Ok(0));
    assert_eq!(writer.write_vectored(&[b"", b""]), Ok(0));
    assert_eq!(writer.segment_count(), 0);
    assert!(writer.is_empty());
    assert_eq!(writer.write(b"abcdefg"), Ok(7));
    assert_eq!(writer.segment_count(), 3);
}

#[test]
fn segments_double_from_the_first_size_up_to_a_chunk() {
    let arena = EphemeralBytesArena::new(10);
    let mut writer = Writer::with_initial_segment_size(&arena, 3);
    assert_eq!(writer.write(&[7; 30]), Ok(30));
    let mut reader = writer.into_reader();
    for size in [3, 6, 10, 10, 1] {
        assert_eq!(reader.fill_buf().unwrap(), vec![7; size]);
        reader.consume(size);
    }
    assert!(reader.is_empty());
}

#[test]
fn a_segment_in_the_arena_has_just_its_size() {
    let arena = EphemeralBytesArena::new(64);
    let mut queue = Segments::new();
    let mut bytes = arena.alloc(8);
    bytes.extend_from_slice(b"abc");
    queue.push_back(Segment { start: 0, bytes });
    assert_eq!(queue.reserve_exact(&arena, 3, 6), Ok(()));
    assert_eq!(queue.len(), 2);
    assert_eq!(queue.index(0).bytes.as_slice(), b"abc");
    assert_eq!(queue.index(1).start, 3);
    assert!(!queue.index(1).bytes.is_heap_allocated());
    assert_eq!(queue.index(1).bytes.remaining(), 6);

    let arena = EphemeralBytesArena::new(32768);
    let mut queue = Segments::new();
    let mut size = 2048;
    for _ in 0..2 {
        assert_eq!(queue.ensure_tail(&arena, 0, 100, &mut size), Ok(()));
        assert_eq!(queue.len(), 1);
        assert_eq!(queue.index(0).bytes.remaining(), 100);
        assert_eq!(size, 4096);
    }
}

#[test]
fn one_receive_fills_at_most_one_tail() {
    let arena = EphemeralBytesArena::new(4096);
    let mut writer = Writer::with_initial_segment_size(&arena, 4);
    let received = writer.poll_read_from(8, |tail, wanted| {
        let count = tail.remaining().min(wanted);
        tail.extend_from_slice(&b"abcdefgh"[..count]);
        count
    });
    assert_eq!(received, Ok(Some((4, 4))));
    assert_eq!((writer.len(), writer.segment_count()), (4, 1));
    assert_eq!(writer.is_heap_allocated(0), Some(false));
    assert_eq!(writer.is_heap_allocated(1), None);
    assert_eq!(writer.into_reader().as_slice(), b"abcd");
}

#[test]
fn a_segment_that_no_chunk_takes_is_on_the_heap() {
    let arena = EphemeralBytesArena::new(4);
    let mut writer = Writer::new(&arena);
    assert_eq!(writer.reserve_exact(9), Ok(()));
    assert_eq!(writer.is_heap_allocated(0), Some(true));
    assert_eq!(writer.write(b"abcdefghi"), Ok(9));
    assert_eq!(writer.segment_count(), 1);
    assert_eq!(writer.into_reader().is_heap_allocated(0), Some(true));
}

#[test]
fn how_bytes_are_split_into_writes_does_not_matter() {
    let data: Vec<u8> = (0..100).collect();
    let mut shapes = Vec::new();
    for size in [1, 7, 100] {
        let arena = EphemeralBytesArena::new(128);
        let mut writer = Writer::with_initial_segment_size(&arena, 3);
        let mut accepted = 0;
        for part in data.chunks(size) {
            accepted += writer.write(part).unwrap();
        }
        assert_eq!(accepted, 100);
        let mut reader = writer.into_reader();
        let mut shape = Vec::new();
        while !reader.is_empty() {
            assert_eq!(reader.is_heap_allocated(0), Some(false));
            shape.push(reader.fill_buf().unwrap().to_vec());
            reader.consume(shape.last().unwrap().len());
        }
        shapes.push(shape);
    }
    assert_eq!(shapes[0], shapes[1]);
    assert_eq!(shapes[1], shapes[2]);
    assert_eq!(
        shapes[0].iter().map(Vec::len).collect::<Vec<_>>(),
        [3, 6, 12, 24, 48, 7]
    );
}

#[test]
fn reads_until_nothing_get_all_that_any_calls_wrote() {
    let arena = EphemeralBytesArena::new(16);
    let mut writer = Writer::with_limit(&arena, 20);
    assert_eq!(writer.write(b"abc"), Ok(3));
    assert_eq!(writer.reserve_exact(15), Ok(()));
    assert_eq!(writer.reserve_exact(18), Err(Error::LimitExceeded));
    let received = writer.poll_read_from(4, |tail, _| tail.extend_from_slice(b"defg"));
    assert_eq!(received, Ok(Some(((), 4))));
    assert_eq!(writer.write_vectored(&[b"hi", b"", b"jkl"]), Ok(5));
    assert_eq!(writer.write(b"mnopqrstuvwxyz"), Ok(8));
    let mut reader = writer.into_reader();
    let mut all = Vec::new();
    all.extend_from_slice(reader.read_bytes(2).unwrap());
    assert_eq!(reader.read_bytes(19), Err(Error::UnexpectedEof));
    let mut buffer = [0; 3];
    loop {
        assert_eq!(reader.position(), all.len());
        assert_eq!(reader.position() + reader.len(), 20);
        let count = reader.read(&mut buffer).unwrap();
        if count == 0 {
            break;
        }
        all.extend_from_slice(&buffer[..count]);
    }
    assert_eq!(all, b"abcdefghijklmnopqrst");
    assert!(reader.is_empty());
    assert_eq!(reader.read(&mut buffer), Ok(0));
    assert_eq!(reader.fill_buf(), Ok(&b""[..]));
}

#[test]
fn a_larger_first_size_is_cut_to_a_chunk() {
    let arena = EphemeralBytesArena::new(5);
    let mut writer = Writer::with_initial_segment_size(&arena, 100);
    assert_eq!(writer.write(b"abcdefgh"), Ok(8));
    assert_eq!(writer.into_reader().fill_buf(), Ok(&b"abcde"[..]));
}

#[test]
fn a_first_size_above_the_growth_cap_falls_back_to_it() {
    let arena = EphemeralBytesArena::new(512 * 1024);
    let mut writer = Writer::with_initial_segment_size(&arena, 100 * 1024);
    let data = vec![1; 100 * 1024 + 64 * 1024 + 1];
    assert_eq!(writer.write(&data), Ok(data.len()));
    let mut reader = writer.into_reader();
    for size in [100 * 1024, 64 * 1024, 1] {
        assert_eq!(reader.fill_buf().unwrap().len(), size);
        reader.consume(size);
    }
    assert!(reader.is_empty());
}

#[test]
fn a_write_of_what_was_reserved_stays_in_one_segment() {
    let mut writer = written(&[b"abc"], 2);
    assert_eq!(writer.segment_count(), 2);
    assert_eq!(writer.reserve_exact(40), Ok(()));
    assert_eq!(writer.len(), 3);
    assert_eq!(writer.segment_count(), 3);
    assert_eq!(writer.write(&[9; 40]), Ok(40));
    assert_eq!(writer.segment_count(), 3);
    let mut reader = writer.into_reader();
    reader.consume(3);
    assert_eq!(reader.fill_buf(), Ok(&[9; 40][..]));
}

#[test]
fn a_larger_reservation_replaces_an_empty_tail() {
    let mut writer = written(&[], 2);
    assert_eq!(writer.reserve_exact(4), Ok(()));
    assert_eq!(writer.reserve_exact(8), Ok(()));
    assert_eq!(writer.segment_count(), 1);
    assert_eq!(writer.reserve_exact(3), Ok(()));
    assert_eq!(writer.segment_count(), 1);
}

#[test]
fn vectored_writes_join_their_buffers_up_to_the_limit() {
    let arena = EphemeralBytesArena::new(4);
    let mut writer = Writer::with_limit(&arena, 6);
    assert_eq!(writer.write_vectored(&[b"ab", b"", b"cdefg", b"h"]), Ok(6));
    assert_eq!(writer.remaining(), 0);
    assert_eq!(writer.flush(), Ok(()));
    assert_eq!(writer.into_reader().as_slice(), b"abcdef");
}

#[test]
fn two_reads_are_one_read_of_both() {
    let mut reader = written(&[b"abcdefghij"], 2).into_reader();
    assert_eq!(reader.read_bytes(3).unwrap(), b"abc");
    assert_eq!(reader.read_bytes(4).unwrap(), b"defg");
    let mut other = written(&[b"abcdefghij"], 2).into_reader();
    assert_eq!(other.read_bytes(7).unwrap(), b"abcdefg");
    assert_eq!(reader.position(), other.position());
    assert_eq!(reader.as_slice(), other.as_slice());
}

#[test]
fn borrowed_and_exclusive_reads_share_one_position() {
    let mut reader = written(&[b"abcdefghij"], 2).into_reader();
    assert_eq!(reader.read_str(3).unwrap(), "abc");
    let mut output = [0; 4];
    assert_eq!(reader.read(&mut output), Ok(4));
    assert_eq!(&output, b"defg");
    assert_eq!(reader.position(), 7);
    assert_eq!(reader.read_bytes(3).unwrap(), b"hij");
    assert_eq!(reader.segment_count(), 1);
    assert_eq!(reader.fill_buf(), Ok(&b""[..]));
    assert_eq!(reader.segment_count(), 0);
}

#[test]
fn a_look_ahead_shows_what_is_read_later() {
    let mut reader = written(&[b"abcdefghij"], 2).into_reader();
    let seen = reader.peek_bytes(4, 3).unwrap().to_vec();
    assert_eq!(reader.peek_byte(4), Some(b'e'));
    assert_eq!(reader.peek_byte(10), None);
    assert_eq!(reader.position(), 0);
    assert_eq!(reader.skip(4), Ok(()));
    assert_eq!(reader.read_bytes(3).unwrap(), seen);
}

#[test]
fn a_failed_read_changes_nothing() {
    let mut reader = written(&[b"ab\xffd"], 2).into_reader();
    assert_eq!(reader.read_bytes(5), Err(Error::UnexpectedEof));
    assert_eq!(reader.read_str(5), Err(Error::UnexpectedEof));
    assert_eq!(reader.read_str(3), Err(Error::InvalidUtf8));
    assert_eq!(reader.skip(5), Err(Error::UnexpectedEof));
    assert_eq!(reader.peek_bytes(3, 2), Err(Error::UnexpectedEof));
    assert_eq!(reader.peek_bytes(5, 0), Err(Error::UnexpectedEof));
    assert_eq!(reader.position(), 0);
    assert_eq!(reader.read_str(2), Ok("ab"));
}

#[test]
fn vectored_reads_fill_buffers_in_order() {
    let mut reader = written(&[b"abcde"], 2).into_reader();
    let mut first = [0; 2];
    let mut second = [0; 1];
    let mut third = [7; 4];
    let mut fourth = [8; 1];
    let mut buffers: [&mut [u8]; 4] = [&mut first, &mut second, &mut third, &mut fourth];
    assert_eq!(reader.read_vectored(&mut buffers), Ok(5));
    assert_eq!(&first, b"ab");
    assert_eq!(&second, b"c");
    assert_eq!(third, [b'd', b'e', 7, 7]);
    assert_eq!(fourth, [8]);
}

#[test]
fn a_part_of_a_part_is_a_part_of_the_whole() {
    let reader = written(&[b"abcdefghij"], 2).into_reader();
    let view = reader.view();
    let part = view.slice(2..9).unwrap();
    let inner = part.slice(1..4).unwrap();
    assert_eq!(part.as_slice(), b"cdefghi");
    assert_eq!(inner.as_slice(), view.slice(3..6).unwrap().as_slice());
    assert_eq!(inner.as_slice(), b"def");
    assert!(inner.slice(3..3).unwrap().is_empty());
    assert_eq!(inner.slice(2..4).map(|view| view.len()), Err(Error::UnexpectedEof));
    let backwards = std::ops::Range { start: 2, end: 1 };
    assert_eq!(inner.slice(backwards).map(|view| view.len()), Err(Error::UnexpectedEof));
}

#[test]
fn chunks_of_a_view_end_at_a_segment_or_at_the_view() {
    let reader = written(&[b"abcdefghij"], 2).into_reader();
    let view = reader.view().slice(1..8).unwrap();
    assert_eq!(view.chunk_at(0), b"b");
    assert_eq!(view.chunk_at(1), b"cdef");
    assert_eq!(view.chunk_at(5), b"gh");
    assert_eq!(view.chunk_at(7), b"");
    assert_eq!(view.chunk_at(usize::MAX), b"");
}

#[test]
fn received_bytes_come_behind_those_to_be_read() {
    let mut reader = written(&[b"abcd"], 2).into_reader();
    reader.consume(3);
    let received = reader.poll_read_from(3, |tail, wanted| {
        assert_eq!(wanted, 3);
        assert_eq!(tail.remaining(), 2);
        tail.extend_from_slice(b"ef");
        "done"
    });
    assert_eq!(received, Ok(Some(("done", 2))));
    assert_eq!(reader.as_slice(), b"def");
    assert_eq!(reader.position(), 3);
    let nothing = reader.poll_read_from(0, |_, _| unreachable!());
    assert_eq!(nothing, Ok(None::<((), usize)>));
    let too_much = reader.poll_read_from(usize::MAX, |_, _| unreachable!());
    assert_eq!(too_much, Err::<Option<((), usize)>, Error>(Error::ReceiveOverflow));
}

#[test]
fn a_writer_receives_no_more_than_its_limit_leaves() {
    let arena = EphemeralBytesArena::new(64);
    let mut writer = Writer::with_limit(&arena, 5);
    assert_eq!(writer.write(b"abc"), Ok(3));
    let received = writer.poll_read_from(10, |tail, wanted| {
        assert_eq!(wanted, 2);
        tail.extend_from_slice(b"d");
    });
    assert_eq!(received, Ok(Some(((), 1))));
    let received = writer.poll_read_from(10, |tail, wanted| {
        assert_eq!(wanted, 1);
        tail.extend_from_slice(b"e");
    });
    assert_eq!(received, Ok(Some(((), 1))));
    let full = writer.poll_read_from(10, |_, _| unreachable!());
    assert_eq!(full, Ok(None::<((), usize)>));
    assert_eq!(writer.into_reader().as_slice(), b"abcde");
}

#[test]
fn an_unanswered_receive_leaves_an_empty_tail() {
    let mut reader = written(&[b"ab"], 2).into_reader();
    assert_eq!(reader.poll_read_from(3, |_, _| ()), Ok(Some(((), 0))));
    assert_eq!(reader.segment_count(), 2);
    assert_eq!(reader.as_slice(), b"ab");
    assert_eq!(reader.len(), 2);
}

#[test]
fn a_cleared_reader_starts_over_with_the_first_size() {
    let mut reader = written(&[b"abcdefghij"], 2).into_reader();
    reader.skip(3).unwrap();
    reader.clear();
    assert_eq!(reader.position(), 0);
    assert_eq!(reader.segment_count(), 0);
    assert!(reader.is_empty());
    let received = reader.poll_read_from(10, |tail, _| tail.remaining());
    assert_eq!(received, Ok(Some((2, 0))));
}

#[test]
fn merged_ranges_are_kept_beside_derived_bytes() {
    let reader = written(&[b"abcdefghij"], 2).into_reader();
    let derived = reader
        .store_bytes_with(4, |bytes| {
            bytes.extend_from_slice(b"a\nb\t");
            Ok::<(), ()>(())
        })
        .unwrap();
    let first = reader.peek_bytes(1, 4).unwrap();
    let second = reader.peek_bytes(4, 5).unwrap();
    for _ in 0..32 {
        let more = reader
            .view()
            .store_bytes_with(8, |bytes| {
                bytes.extend_from_slice(b"derived!");
                Ok::<(), ()>(())
            })
            .unwrap();
        assert_eq!(more, b"derived!");
    }
    assert_eq!(reader.peek_bytes(1, 4).unwrap().as_ptr(), first.as_ptr());
    assert_eq!(reader.peek_bytes(4, 5).unwrap().as_ptr(), second.as_ptr());
    assert_eq!(derived, b"a\nb\t");
    assert_eq!(first, b"bcde");
    assert_eq!(second, b"efghi");
}

#[test]
fn a_failed_encoder_answers_with_its_error() {
    let reader = written(&[b"ab"], 2).into_reader();
    let refused = reader.store_bytes_with(1, |bytes| {
        bytes.extend_from_slice(b"x");
        Err("refused")
    });
    assert_eq!(refused, Err("refused"));
    let shared = reader.share();
    let kept = shared.store_bytes_with(3, |bytes| {
        bytes.extend_from_slice(b"xyz");
        Ok::<(), ()>(())
    });
    assert_eq!(kept, Ok(&b"xyz"[..]));
    assert_eq!(shared.position(), 0);
}

#[test]
fn shared_claims_follow_each_other() {
    assert_eq!(claimed(0, 10, 4), Some(4));
    assert_eq!(claimed(4, 10, 6), Some(10));
    assert_eq!(claimed(4, 10, 7), None);
    assert_eq!(claimed(10, 10, 0), Some(10));
    assert_eq!(claimed(3, 10, usize::MAX), None);
    let mut shared = written(&[b"abcdefghij"], 2).into_reader().share();
    let first = shared.read_bytes(4).unwrap();
    let second = shared.read_str(3).unwrap();
    assert_eq!((first, second), (&b"abcd"[..], "efg"));
    assert_eq!(shared.skip(1), Ok(()));
    assert_eq!(shared.peek_byte(0), Some(b'i'));
    assert_eq!(shared.peek_byte(2), None);
    assert_eq!(shared.peek_bytes(0, 2), Ok(&b"ij"[..]));
    assert_eq!(shared.as_slice(), b"ij");
    assert_eq!(shared.len(), 2);
    assert!(!shared.is_empty());
    let reader = shared.exclusive();
    assert_eq!(reader.position(), 8);
    assert_eq!(reader.read_bytes(1), Ok(&b"i"[..]));
    assert_eq!(shared.position(), 9);
    assert_eq!(shared.read_bytes(2), Err(Error::UnexpectedEof));
    assert_eq!(shared.read_bytes(1), Ok(&b"j"[..]));
    assert!(shared.is_empty());
}

#[test]
fn shared_reads_tile_the_stream_from_where_sharing_begins() {
    let mut reader = written(&[b"abcdefghij"], 2).into_reader();
    assert_eq!(reader.skip(2), Ok(()));
    let mut shared = reader.share();
    assert_eq!((shared.position(), shared.len()), (2, 8));
    let mut all = Vec::new();
    for len in [1, 0, 9, 3, 5, 2] {
        let before = shared.position();
        match shared.read_bytes(len) {
            Ok(bytes) => {
                assert_eq!(shared.position(), before + len);
                all.extend_from_slice(bytes);
            }
            Err(error) => {
                assert_eq!(error, Error::UnexpectedEof);
                assert_eq!(shared.position(), before);
            }
        }
        assert_eq!(shared.position(), 2 + all.len());
    }
    assert_eq!(all, b"cdefgh");
    for _ in 0..2 {
        assert_eq!(shared.exclusive().position(), 8);
        assert_eq!(shared.position(), 8);
    }
    assert_eq!(shared.read_bytes(2), Ok(&b"ij"[..]));
}

#[test]
fn a_read_buffer_is_filled_behind_what_it_holds() {
    let mut reader = written(&[b"abcdefghij"], 2).into_reader();
    let mut memory = [b'-'; 8];
    let mut buffer = ReadBuf::new(&mut memory);
    buffer.put_slice(b"!");
    reader.poll_read(&mut buffer);
    assert_eq!(buffer.filled(), b"!abcdefg");
    assert_eq!(buffer.remaining(), 0);
    assert_eq!((reader.position(), reader.segment_count()), (7, 1));
    reader.poll_read(&mut buffer);
    assert_eq!(reader.position(), 7);
    buffer.clear();
    reader.poll_read(&mut buffer);
    assert_eq!(buffer.filled(), b"hij");
    assert_eq!(buffer.remaining(), 5);
    assert_eq!(reader.segment_count(), 0);
}

#[test]
fn only_exclusive_reads_let_segments_go() {
    let mut shared = written(&[b"abcdefghij"], 2).into_reader().share();
    assert_eq!(shared.skip(7), Ok(()));
    assert_eq!((shared.segment_count(), shared.held_len()), (3, 10));
    let reader = shared.exclusive();
    assert_eq!((reader.segment_count(), reader.held_len()), (3, 10));
    reader.consume(0);
    assert_eq!((reader.segment_count(), reader.held_len()), (1, 4));
    reader.consume(usize::MAX);
    assert_eq!((reader.segment_count(), reader.held_len()), (0, 0));
    assert_eq!(reader.position(), 10);
}

#[test]
fn shared_reads_answer_for_each_value_of_their_counter() {
    let shared = written(&[b"ab\xffd"], 2).into_reader().share();
    assert_eq!(shared.bytes_at(1, 3), Ok(&b"b\xffd"[..]));
    assert_eq!(shared.bytes_at(2, 3), Err(Error::UnexpectedEof));
    assert_eq!(shared.bytes_at(9, 0), Ok(&b""[..]));
    assert_eq!(shared.text_at(0, 2), Ok("ab"));
    assert_eq!(shared.text_at(1, 2), Err(Error::InvalidUtf8));
    assert_eq!(shared.text_at(3, 2), Err(Error::UnexpectedEof));
    assert_eq!(shared.position(), 0);
    assert_eq!(shared.read_str(4), Err(Error::InvalidUtf8));
    assert_eq!(shared.position(), 0);
}

#[test]
fn reservations_are_refused_with_their_reason() {
    let arena = EphemeralBytesArena::new(64);
    let mut writer = Writer::with_limit(&arena, 4);
    assert_eq!(writer.reserve_exact(5), Err(Error::LimitExceeded));
    let mut writer = Writer::new(&arena);
    let too_large = isize::MAX as usize + 1;
    assert_eq!(writer.reserve_exact(too_large), Err(Error::ReservationTooLarge));
    let mut queue = Segments::new();
    assert_eq!(
        queue.reserve_exact(&arena, usize::MAX, 1),
        Err(Error::LengthOverflow)
    );
    assert_eq!(queue.len(), 0);
}

#[test]
fn errors_have_a_kind_and_a_message() {
    for (error, kind, message) in [
        (
            Error::UnexpectedEof,
            ErrorKind::UnexpectedEof,
            "unexpected end of file",
        ),
        (Error::InvalidUtf8, ErrorKind::InvalidData, "invalid utf-8"),
        (
            Error::ReservationTooLarge,
            ErrorKind::InvalidInput,
            "reservation exceeds maximum allocation size",
        ),
        (
            Error::LengthOverflow,
            ErrorKind::InvalidInput,
            "byte length overflow",
        ),
        (
            Error::LimitExceeded,
            ErrorKind::InvalidInput,
            "reservation exceeds writer limit",
        ),
        (
            Error::ReceiveOverflow,
            ErrorKind::InvalidInput,
            "receive length overflow",
        ),
    ] {
        assert_eq!(error.kind(), kind);
        assert_eq!(error.message(), message);
    }
}

#[test]
fn the_queue_keeps_its_order() {
    let arena = EphemeralBytesArena::new(64);
    let mut queue = Segments::new();
    assert!(queue.front().is_none());
    assert!(queue.back().is_none());
    assert!(queue.back_mut().is_none());
    assert!(queue.pop_front().is_none());
    assert!(queue.pop_back().is_none());
    for start in [10, 20, 30, 40, 50] {
        queue.push_back(Segment { start, bytes: arena.alloc(1) });
    }
    assert_eq!(queue.len(), 5);
    assert_eq!(queue.get(3).map(|segment| segment.start), Some(40));
    assert!(queue.get(5).is_none());
    assert_eq!(queue.partition_point(|segment| segment.start <= 30), 3);
    queue.back_mut().unwrap().start = 55;
    assert_eq!(queue.pop_front().unwrap().start, 10);
    assert_eq!(queue.pop_back().unwrap().start, 55);
    assert_eq!(queue.front().unwrap().start, 20);
    assert_eq!(queue.back().unwrap().start, 40);
    assert_eq!(queue.index(1).start, 30);
    assert_eq!(queue.pop_back().unwrap().start, 40);
    queue.back_mut().unwrap().start = 35;
    assert_eq!(queue.back().unwrap().start, 35);
    assert_eq!(queue.len(), 2);
    queue.clear();
    assert_eq!(queue.len(), 0);
}
