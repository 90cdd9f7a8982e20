use tokio::io::ReadBuf;
use tokio_uring::net::tcp::read_buf::fits;
use tokio_uring::net::tcp::stream::{Polled, Start, TcpStream, READ_LEN};
use tokio_uring::net::tcp::write_all::{WriteAllError, WRITE_ZERO};

fn stream() -> TcpStream<&'static str, u32> {
    TcpStream::new("socket")
}

#[test]
fn a_new_stream_is_idle() {
    let mut one = TcpStream::<_, u32>::from_socket("socket");
    assert_eq!(one.inner, "socket");
    assert!(matches!(one.poll_read_start(), Start::Fresh(_)));
    assert!(matches!(one.poll_write_start(b"x"), Start::Fresh(_)));
}

#[test]
fn a_connected_socket_becomes_a_stream() {
    let connected = TcpStream::<_, u32>::connect::<i32>("socket", Ok(()));
    assert_eq!(connected.ok().unwrap().inner, "socket");
    let refused = TcpStream::<_, u32>::connect("socket", Err(111));
    assert_eq!(refused.err(), Some(111));
}

#[test]
fn a_fresh_read_gets_a_buffer_of_zeros() {
    assert_eq!(READ_LEN, 4096);
    match stream().poll_read_start() {
        Start::Fresh(buf) => assert_eq!(buf, vec![0u8; 4096]),
        Start::Resume(_) => panic!("nothing was in flight"),
    }
}

#[test]
fn a_read_in_flight_is_resumed() {
    let mut stream = stream();
    let mut bytes = [0u8; 8];
    let mut buf = ReadBuf::new(&mut bytes);
    stream.poll_read_start();
    assert!(!stream.poll_read_end(Polled::Pending(3), &mut buf));
    assert!(buf.filled().is_empty());
    assert!(matches!(stream.poll_write_start(b""), Start::Fresh(_)));
    assert!(matches!(stream.poll_read_start(), Start::Resume(3)));
    assert!(matches!(stream.poll_read_start(), Start::Fresh(_)));
}

#[test]
fn a_ready_read_hands_its_bytes_over() {
    let mut stream = stream();
    let mut bytes = [9u8; 8];
    let mut buf = ReadBuf::new(&mut bytes);
    buf.put_slice(b"ab");
    assert!(fits(&buf, 6));
    assert!(!fits(&buf, 7));
    assert!(stream.poll_read_end(Polled::Ready(3, vec![1, 2, 3, 4, 5]), &mut buf));
    assert_eq!(buf.filled(), &[97u8, 98, 1, 2, 3]);
    assert!(stream.poll_read_end(Polled::Ready(0, vec![6]), &mut buf));
    assert_eq!(buf.filled().len(), 5);
    assert!(fits(&buf, 3));
    assert!(!fits(&buf, 4));
    assert!(matches!(stream.poll_read_start(), Start::Fresh(_)));
}

#[test]
fn a_fresh_write_gets_a_copy_of_the_bytes() {
    match stream().poll_write_start(b"hello world!") {
        Start::Fresh(buf) => assert_eq!(buf, b"hello world!".to_vec()),
        Start::Resume(_) => panic!("nothing was in flight"),
    }
}

#[test]
fn a_write_in_flight_is_resumed() {
    let mut stream = stream();
    stream.poll_write_start(b"first");
    assert_eq!(stream.poll_write_end(Polled::Pending(4)), None);
    assert!(matches!(stream.poll_read_start(), Start::Fresh(_)));
    assert!(matches!(stream.poll_write_start(b"second"), Start::Resume(4)));
    assert_eq!(stream.poll_write_end(Polled::Ready(5, b"first".to_vec())), Some(5));
    assert!(matches!(stream.poll_write_start(b"second"), Start::Fresh(_)));
}

/// Writes `data` through writes that come out as `outcomes`. Returns what was sent, and how
/// the whole ended.
fn write(
    data: &[u8],
    outcomes: &[Result<usize, i32>],
) -> (Vec<u8>, Option<Result<(), WriteAllError<i32>>>) {
    let mut whole = stream().write_all();
    let mut sent = Vec::new();
    let mut outcomes = outcomes.iter();
    while let Some(start) = whole.next(data.len()) {
        let outcome = match outcomes.next() {
            Some(outcome) => *outcome,
            None => return (sent, None),
        };
        if let Ok(taken) = outcome {
            sent.extend_from_slice(&data[start..start + taken]);
        }
        if let Err(error) = whole.wrote(outcome) {
            return (sent, Some(Err(error)));
        }
    }
    (sent, Some(Ok(())))
}

#[test]
fn an_empty_buffer_needs_no_write() {
    assert_eq!(stream().write_all().next(0), None);
    assert_eq!(write(b"", &[]), (vec![], Some(Ok(()))));
}

#[test]
fn partial_writes_send_the_whole_buffer() {
    assert_eq!(
        write(b"hello world!", &[Ok(5), Ok(1), Ok(6), Ok(9)]),
        (b"hello world!".to_vec(), Some(Ok(())))
    );
    assert_eq!(write(b"hello", &[Ok(5)]), (b"hello".to_vec(), Some(Ok(()))));
}

#[test]
fn writing_goes_on_to_the_end() {
    assert_eq!(write(b"hello", &[Ok(2), Ok(2)]), (b"hell".to_vec(), None));
}

#[test]
fn a_write_that_takes_nothing_is_an_error() {
    assert_eq!(
        write(b"hello", &[Ok(2), Ok(0), Ok(3)]),
        (b"he".to_vec(), Some(Err(WriteAllError::WriteZero)))
    );
    assert_eq!(WRITE_ZERO, "failed to write whole buffer");
}

#[test]
fn the_first_error_is_returned() {
    assert_eq!(
        write(b"hello", &[Ok(2), Err(32), Err(4)]),
        (b"he".to_vec(), Some(Err(WriteAllError::Io(32))))
    );
    // An interruption is an error like any other.
    assert_eq!(write(b"hello", &[Err(4)]), (vec![], Some(Err(WriteAllError::Io(4)))));
}

#[test]
fn writing_ends_within_the_length() {
    assert_eq!(write(b"abc", &[Ok(1), Ok(1), Ok(1)]), (b"abc".to_vec(), Some(Ok(()))));
    assert_eq!(write(b"abc", &[Ok(1), Ok(1)]), (b"ab".to_vec(), None));
}
