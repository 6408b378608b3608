use std::future::Future;
use std::io::{self, IoSlice};
use std::mem::MaybeUninit;
use std::pin::Pin;
use std::task::{Context, Poll, Waker};

use brz_io::{EphemeralBytesArena, Reader, Writer};
use tokio::io::{
    AsyncBufRead, AsyncBufReadExt, AsyncRead, AsyncReadExt, AsyncWrite, AsyncWriteExt, ReadBuf,
};

/// A writer under the standard and the asynchronous trait.
struct Output(Writer);

impl Output {
    fn into_reader(self) -> Input {
        Input(self.0.into_reader())
    }
}

impl io::Write for Output {
    fn write(&mut self, bytes: &[u8]) -> io::Result<usize> {
        Ok(self.0.write(bytes).unwrap())
    }
    fn flush(&mut self) -> io::Result<()> {
        self.0.flush().unwrap();
        Ok(())
    }
}

impl AsyncWrite for Output {
    fn poll_write(
        mut self: Pin<&mut Self>,
        _cx: &mut Context<'_>,
        bytes: &[u8],
    ) -> Poll<io::Result<usize>> {
        Poll::Ready(Ok(self.0.write(bytes).unwrap()))
    }
    fn poll_write_vectored(
        mut self: Pin<&mut Self>,
        _cx: &mut Context<'_>,
        buffers: &[IoSlice<'_>],
    ) -> Poll<io::Result<usize>> {
        let buffers: Vec<&[u8]> = buffers.iter().map(|buffer| &**buffer).collect();
        Poll::Ready(Ok(self.0.write_vectored(&buffers).unwrap()))
    }
    fn is_write_vectored(&self) -> bool {
        true
    }
    fn poll_flush(mut self: Pin<&mut Self>, _cx: &mut Context<'_>) -> Poll<io::Result<()>> {
        self.0.flush().unwrap();
        Poll::Ready(Ok(()))
    }
    fn poll_shutdown(self: Pin<&mut Self>, cx: &mut Context<'_>) -> Poll<io::Result<()>> {
        self.poll_flush(cx)
    }
}

/// A reader under the standard and the asynchronous traits.
struct Input(Reader);

impl io::Read for Input {
    fn read(&mut self, output: &mut [u8]) -> io::Result<usize> {
        Ok(self.0.read(output).unwrap())
    }
}

impl AsyncRead for Input {
    fn poll_read(
        mut self: Pin<&mut Self>,
        _cx: &mut Context<'_>,
        output: &mut ReadBuf<'_>,
    ) -> Poll<io::Result<()>> {
        self.0.poll_read(output);
        Poll::Ready(Ok(()))
    }
}

impl AsyncBufRead for Input {
    fn poll_fill_buf(self: Pin<&mut Self>, _cx: &mut Context<'_>) -> Poll<io::Result<&[u8]>> {
        Poll::Ready(Ok(self.get_mut().0.fill_buf().unwrap()))
    }
    fn consume(mut self: Pin<&mut Self>, count: usize) {
        self.0.consume(count)
    }
}

fn writer(limit: usize, segment: usize) -> Output {
    Output(Writer::with_limit(&EphemeralBytesArena::new(segment), limit))
}

fn block_on<F: Future>(future: F) -> F::Output {
    tokio::runtime::Builder::new_current_thread()
        .build()
        .unwrap()
        .block_on(future)
}

#[test]
fn asynchronous_copy_accepts_a_source_that_waits_for_data() {
    block_on(async {
        let (mut sender, receiver) = tokio::io::duplex(2);
        let producer = tokio::spawn(async move {
            sender.write_all("你好\r\nworld".as_bytes()).await.unwrap();
            sender.shutdown().await.unwrap();
        });
        let mut output = writer(64, 2);
        assert_eq!(
            tokio::io::copy(&mut receiver.take(64), &mut output)
                .await
                .unwrap(),
            13
        );
        producer.await.unwrap();
        AsyncWriteExt::flush(&mut output).await.unwrap();
        output.shutdown().await.unwrap();
        let mut input = output.into_reader();
        let mut line = String::new();
        input.read_line(&mut line).await.unwrap();
        assert_eq!(line, "你好\r\n");
        let mut rest = Vec::new();
        tokio::io::copy(&mut input, &mut rest).await.unwrap();
        assert_eq!(rest, b"world");
    });
}

#[test]
fn asynchronous_limit_and_vectored_write_match_synchronous_behavior() {
    block_on(async {
        let mut output = writer(5, 2);
        assert!(AsyncWrite::is_write_vectored(&output));
        let buffers = [
            IoSlice::new(b""),
            IoSlice::new(b"abc"),
            IoSlice::new(b"def"),
        ];
        assert_eq!(
            AsyncWriteExt::write_vectored(&mut output, &buffers)
                .await
                .unwrap(),
            5
        );
        assert_eq!(
            AsyncWriteExt::write_all(&mut output, b"x")
                .await
                .unwrap_err()
                .kind(),
            io::ErrorKind::WriteZero
        );
        let mut input = output.into_reader();
        let mut bytes = [0; 5];
        AsyncReadExt::read_exact(&mut input, &mut bytes)
            .await
            .unwrap();
        assert_eq!(&bytes, b"abcde");
        assert_eq!(
            AsyncReadExt::read_exact(&mut input, &mut [0])
                .await
                .unwrap_err()
                .kind(),
            io::ErrorKind::UnexpectedEof
        );
    });
}

#[test]
fn take_preserves_input_after_limit_and_handles_zero_limit() {
    block_on(async {
        for limit in [0, 1, 5, 10, 20] {
            let mut source = &b"0123456789"[..];
            let mut output = writer(limit, 3);
            let bounded = &mut AsyncReadExt::take(&mut source, limit as u64);
            let count = tokio::io::copy(bounded, &mut output).await.unwrap();
            assert_eq!(count, limit.min(10) as u64);
            assert_eq!(source, &b"0123456789"[count as usize..]);
            assert_eq!(output.0.len(), count as usize);
        }
    });
}

#[test]
fn synchronous_and_asynchronous_access_share_one_cursor() {
    block_on(async {
        let mut output = writer(7, 2);
        io::Write::write_all(&mut output, b"abc").unwrap();
        AsyncWriteExt::write_all(&mut output, b"defg").await.unwrap();
        let mut input = output.into_reader();
        assert_eq!(AsyncBufReadExt::fill_buf(&mut input).await.unwrap(), b"ab");
        AsyncBufReadExt::consume(&mut input, 1);
        let mut bytes = [0; 3];
        io::Read::read_exact(&mut input, &mut bytes).unwrap();
        assert_eq!(&bytes, b"bcd");
        let mut tail = String::new();
        AsyncReadExt::read_to_string(&mut input, &mut tail)
            .await
            .unwrap();
        assert_eq!(tail, "efg");
    });
}

#[test]
fn poll_read_initializes_only_filled_bytes_and_preserves_the_prefix() {
    let mut output = writer(6, 2);
    io::Write::write_all(&mut output, b"abcdef").unwrap();
    let mut input = output.into_reader();
    let mut memory = [MaybeUninit::uninit(); 5];
    let mut buffer = ReadBuf::uninit(&mut memory);
    buffer.put_slice(b"!");
    let mut cx = Context::from_waker(Waker::noop());
    assert!(matches!(
        Pin::new(&mut input).poll_read(&mut cx, &mut buffer),
        Poll::Ready(Ok(()))
    ));
    assert_eq!(buffer.filled(), b"!abcd");
    assert_eq!(input.0.len(), 2);
    assert!(matches!(
        Pin::new(&mut input).poll_read(&mut cx, &mut buffer),
        Poll::Ready(Ok(()))
    ));
    assert_eq!(input.0.len(), 2);
}

#[test]
fn cancelling_copy_keeps_bytes_already_accepted_by_writer() {
    block_on(async {
        let (mut sender, mut receiver) = tokio::io::duplex(8);
        sender.write_all(b"abc").await.unwrap();
        let mut output = writer(10, 2);
        {
            let mut copy = Box::pin(tokio::io::copy(&mut receiver, &mut output));
            let mut cx = Context::from_waker(Waker::noop());
            assert!(Future::poll(copy.as_mut(), &mut cx).is_pending());
        }
        assert_eq!(output.0.len(), 3);
        sender.write_all(b"def").await.unwrap();
        sender.shutdown().await.unwrap();
        tokio::io::copy(&mut receiver, &mut output).await.unwrap();
        let mut text = String::new();
        AsyncReadExt::read_to_string(&mut output.into_reader(), &mut text)
            .await
            .unwrap();
        assert_eq!(text, "abcdef");
    });
}
