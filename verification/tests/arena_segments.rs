use std::future::{poll_fn, Future};
use std::io;
use std::pin::Pin;
use std::task::{Context, Poll};

use brz_io::{EphemeralBytesArena, Reader, Writer};
use tokio::io::{AsyncRead, ReadBuf};

fn write_all(writer: &mut Writer, bytes: &[u8]) {
    assert_eq!(writer.write(bytes), Ok(bytes.len()));
}

#[test]
fn exact_reservation_is_not_a_length_limit_and_does_not_relocate() {
    let arena = EphemeralBytesArena::new(64 * 1024);
    let mut writer = Writer::with_limit(&arena, 8192);
    writer.reserve_exact(0).unwrap();
    assert_eq!(writer.segment_count(), 0);
    write_all(&mut writer, b"prefix");
    writer.reserve_exact(3000).unwrap();
    assert_eq!(writer.len(), 6);
    assert_eq!(writer.segment_count(), 2);
    write_all(&mut writer, &[b'z'; 3000]);
    assert!(writer.reserve_exact(8192).is_err());
    assert_eq!(writer.len(), 3006);
    let mut reader = writer.into_reader();
    let first = reader.view().peek_bytes(0, 6).unwrap().as_ptr();
    assert_eq!(reader.view().chunk_at(0), b"prefix");
    let range = reader.view().peek_bytes(4, 6).unwrap();
    assert_eq!(range, b"ixzzzz");
    let merged = range.as_ptr();
    assert_eq!(reader.view().peek_bytes(4, 6).unwrap().as_ptr(), merged);
    assert_eq!(reader.view().peek_bytes(0, 6).unwrap().as_ptr(), first);
    let body = reader.view().slice(6..3006).unwrap();
    assert_eq!(body.len(), 3000);
    assert_eq!(body.chunk_at(2999), b"z");
    assert_eq!(body.peek_byte(3000), None);
    assert!(body.peek_bytes(2999, 2).is_err());
    assert!(body.slice(0..3001).is_err());
    reader.consume(6);
    assert_eq!(reader.segment_count(), 1);
    assert_eq!(reader.position(), 6);
    reader.consume(3000);
    assert!(reader.is_empty());
    assert_eq!(reader.segment_count(), 0);
    reader.clear();
    assert_eq!(reader.position(), 0);
}

#[test]
fn standard_io_and_many_segments_preserve_wire_order() {
    let arena = EphemeralBytesArena::new(7);
    let mut writer = Writer::new(&arena);
    let original: Vec<u8> = (0..=255).cycle().take(1025).collect();
    for bytes in original.chunks(11) {
        write_all(&mut writer, bytes);
    }
    let mut reader = writer.into_reader();
    assert!(reader.segment_count() > 2);
    let mut received = Vec::new();
    let mut buffer = [0; 100];
    loop {
        let count = reader.read(&mut buffer).unwrap();
        if count == 0 {
            break;
        }
        received.extend_from_slice(&buffer[..count]);
    }
    assert_eq!(received, original);
    assert_eq!(reader.position(), 1025);
    assert_eq!(reader.segment_count(), 0);
}

/// A source that hands out at most `maximum` bytes at a time, waits before each
/// part and notes where the first one was asked for.
struct Fragmented<'a> {
    bytes: &'a [u8],
    maximum: usize,
    pending: bool,
    first_address: Option<usize>,
}

impl AsyncRead for Fragmented<'_> {
    fn poll_read(
        mut self: Pin<&mut Self>,
        cx: &mut Context<'_>,
        out: &mut ReadBuf<'_>,
    ) -> Poll<io::Result<()>> {
        if self.pending {
            self.pending = false;
            cx.waker().wake_by_ref();
            return Poll::Pending;
        }
        let n = self.bytes.len().min(self.maximum).min(out.remaining());
        let address = out.initialize_unfilled_to(n).as_ptr() as usize;
        if self.first_address.is_none() {
            self.first_address = Some(address);
        }
        out.put_slice(&self.bytes[..n]);
        self.bytes = &self.bytes[n..];
        self.pending = true;
        Poll::Ready(Ok(()))
    }
}

/// Receive into a reader from a source, as an asynchronous caller does.
async fn read_from<R: AsyncRead + Unpin>(
    reader: &mut Reader,
    source: &mut R,
    maximum: usize,
) -> io::Result<usize> {
    poll_fn(|cx| {
        let received = reader.poll_read_from(maximum, |tail, wanted| {
            tail.poll_read_from(cx, Pin::new(&mut *source), wanted)
        });
        match received.unwrap() {
            Some((answer, count)) => {
                if let Poll::Ready(Ok(reported)) = &answer {
                    assert_eq!(*reported, count);
                }
                answer
            }
            None => Poll::Ready(Ok(0)),
        }
    })
    .await
}

fn block_on<F: Future>(future: F) -> F::Output {
    tokio::runtime::Builder::new_current_thread()
        .build()
        .unwrap()
        .block_on(future)
}

#[test]
fn direct_receive_preserves_pointer_across_reserve_and_partial_reads() {
    block_on(async {
        let arena = EphemeralBytesArena::new(64 * 1024);
        let data = [b'a'; 5000];
        let mut source = Fragmented {
            bytes: &data,
            maximum: 300,
            pending: true,
            first_address: None,
        };
        let mut reader = Writer::new(&arena).into_reader();
        let n = read_from(&mut reader, &mut source, data.len()).await.unwrap();
        assert_eq!(n, 300);
        let prefix_address = reader.view().peek_bytes(0, n).unwrap().as_ptr() as usize;
        assert_eq!(
            Some(prefix_address),
            source.first_address,
            "read target is final arena storage"
        );
        reader.reserve_exact(data.len() - n).unwrap();
        assert_eq!(reader.len(), n, "reserve must not publish bytes");
        while reader.len() < data.len() {
            let remaining = data.len() - reader.len();
            assert!(read_from(&mut reader, &mut source, remaining).await.unwrap() > 0);
        }
        assert_eq!(reader.segment_count(), 2);
        assert_eq!(
            reader.view().peek_bytes(0, n).unwrap().as_ptr() as usize,
            prefix_address
        );
        assert_eq!(reader.view().peek_bytes(290, 20).unwrap(), &[b'a'; 20]);
        assert_eq!(reader.len(), 5000);
        reader.consume(5000);
        reader.clear();
        assert_eq!(reader.segment_count(), 0);
    });
}

#[test]
fn bounded_append_preserves_pipelined_suffix_and_cached_header() {
    block_on(async {
        let arena = EphemeralBytesArena::new(4096);
        let mut writer = Writer::with_initial_segment_size(&arena, 4);
        write_all(&mut writer, b"HEADbodyNEXT");
        let mut reader = writer.into_reader();
        let header = reader.view().peek_bytes(0, 6).unwrap().as_ptr();
        let mut more = &b"tail"[..];
        reader.reserve_exact(4).unwrap();
        assert_eq!(read_from(&mut reader, &mut more, 4).await.unwrap(), 4);
        assert_eq!(
            reader.view().peek_bytes(0, 6).unwrap().as_ptr(),
            header,
            "append preserves immutable cached ranges"
        );
        let body = reader.view().slice(4..8).unwrap();
        assert_eq!(body.as_slice(), b"body");
        assert_eq!(body.peek_byte(4), None);
        reader.consume(8);
        assert_eq!(reader.view().as_slice(), b"NEXTtail");
    });
}

#[test]
fn impossible_reservation_preserves_empty_tail_and_initialized_prefix() {
    let arena = EphemeralBytesArena::new(64);
    let mut writer = Writer::new(&arena);
    writer.reserve_exact(8).unwrap();
    assert!(writer.reserve_exact(usize::MAX).is_err());
    assert_eq!(writer.segment_count(), 1);
    write_all(&mut writer, b"abc");
    let mut reader = writer.into_reader();
    reader.reserve_exact(64).unwrap();
    assert_eq!(reader.segment_count(), 2);
    assert!(reader.reserve_exact(isize::MAX as usize + 1).is_err());
    assert_eq!(reader.segment_count(), 2);
    assert_eq!(reader.as_slice(), b"abc");
    reader.consume(3);
    assert!(reader.is_empty());
    assert_eq!(reader.view().chunk_at(0), b"");
}

#[test]
fn shared_cached_ranges_remain_stable_under_concurrent_reads() {
    let arena = EphemeralBytesArena::new(4096);
    let mut writer = Writer::with_initial_segment_size(&arena, 4);
    write_all(&mut writer, b"abcdefghijklmnopqrstuvwxyz");
    let reader = writer.into_reader().share();
    let first = reader.peek_bytes(2, 10).unwrap();
    for _ in 0..8 {
        for _ in 0..100 {
            assert_eq!(reader.peek_bytes(2, 10).unwrap(), b"cdefghijkl");
            assert_eq!(reader.peek_bytes(2, 10).unwrap().as_ptr(), first.as_ptr());
            assert_eq!(reader.peek_bytes(10, 12).unwrap(), b"klmnopqrstuv");
        }
    }
    assert_eq!(first, b"cdefghijkl");
}
