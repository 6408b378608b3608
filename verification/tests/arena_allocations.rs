//! What small streams keep, and where: contents, segments and addresses. The
//! allocations themselves are not counted here.

use std::io::Write;

use brz_io::{EphemeralBytesArena, Writer};

fn write_all(writer: &mut Writer, bytes: &[u8]) {
    assert_eq!(writer.write(bytes), Ok(bytes.len()));
}

#[test]
fn two_segments_and_one_cross_segment_range_need_no_descriptor_heap_allocations() {
    let arena = EphemeralBytesArena::new(1024 * 1024);
    let mut writer = Writer::with_initial_segment_size(&arena, 8);
    write_all(&mut writer, b"abcdefgh");
    writer.reserve_exact(64).unwrap();
    write_all(&mut writer, &[b'z'; 64]);
    let reader = writer.into_reader();
    assert_eq!(reader.segment_count(), 2);
    assert_eq!(reader.view().peek_bytes(4, 8).unwrap(), b"efghzzzz");
    assert_eq!(reader.view().peek_bytes(4, 8).unwrap(), b"efghzzzz");
    assert_eq!(reader.is_heap_allocated(0), Some(false));
    assert_eq!(reader.is_heap_allocated(1), Some(false));
}

#[test]
fn derived_bytes_can_use_the_single_inline_slot_and_ranges_still_cache() {
    let arena = EphemeralBytesArena::new(1024 * 1024);
    let mut writer = Writer::with_initial_segment_size(&arena, 8);
    write_all(&mut writer, b"abcdefgh");
    writer.reserve_exact(8).unwrap();
    write_all(&mut writer, b"ijklmnop");
    let reader = writer.into_reader();

    let decoded = reader
        .store_bytes_with(4, |bytes| bytes.write_all(b"a\nb\t"))
        .unwrap();
    let first = reader.peek_bytes(4, 8).unwrap();
    let second = reader.peek_bytes(5, 8).unwrap();
    for _ in 0..32 {
        reader
            .store_bytes_with(8, |bytes| bytes.write_all(b"derived!"))
            .unwrap();
    }
    assert_eq!(reader.peek_bytes(4, 8).unwrap().as_ptr(), first.as_ptr());
    assert_eq!(reader.peek_bytes(5, 8).unwrap().as_ptr(), second.as_ptr());
    assert_eq!(
        (decoded, first, second),
        (&b"a\nb\t"[..], &b"efghijkl"[..], &b"fghijklm"[..])
    );
}

#[test]
fn range_occupies_the_shared_slot_until_clear() {
    let arena = EphemeralBytesArena::new(1024 * 1024);
    let mut writer = Writer::with_initial_segment_size(&arena, 4);
    write_all(&mut writer, b"abcd");
    writer.reserve_exact(4).unwrap();
    write_all(&mut writer, b"efgh");
    let mut reader = writer.into_reader().share();
    let range = reader.read_str(6).unwrap();
    let decoded = reader
        .store_bytes_with(2, |bytes| bytes.write_all(b"a\n"))
        .unwrap();
    assert_eq!((range, decoded), ("abcdef", &b"a\n"[..]));

    reader.exclusive().clear();
    let decoded = reader
        .store_bytes_with(2, |bytes| bytes.write_all(b"b\n"))
        .unwrap();
    assert_eq!(decoded, b"b\n");
}

#[test]
fn explicit_overflow_is_still_supported() {
    let arena = EphemeralBytesArena::new(1024 * 1024);
    let mut writer = Writer::with_initial_segment_size(&arena, 2);
    write_all(&mut writer, b"ab");
    writer.reserve_exact(2).unwrap();
    write_all(&mut writer, b"cd");
    writer.reserve_exact(2).unwrap();
    write_all(&mut writer, b"ef");
    assert_eq!(writer.segment_count(), 3);
    assert_eq!(writer.into_reader().as_slice(), b"abcdef");
}

#[test]
fn repeated_cross_segment_body_after_inline_cache_overflow_does_not_reallocate() {
    let arena = EphemeralBytesArena::new(1024 * 1024);
    let mut writer = Writer::with_initial_segment_size(&arena, 8);
    write_all(&mut writer, b"abcdefgh");
    writer.reserve_exact(64).unwrap();
    write_all(&mut writer, &[b'z'; 64]);
    let reader = writer.into_reader();
    for offset in [4, 5, 6, 7] {
        reader.peek_bytes(offset, 8).unwrap();
    }
    let body = reader.view().slice(2..72).unwrap();
    let first = body.as_slice();
    for _ in 0..10 {
        assert_eq!(body.as_slice().as_ptr(), first.as_ptr());
    }
}
