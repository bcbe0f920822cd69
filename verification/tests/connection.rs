use kvwire::codec::DecodeError;
use kvwire::connection::Connection;
use kvwire::connection::ConnectionError;
use kvwire::connection::ReadOutcome;
use kvwire::encode::encode;
use kvwire::frame::Frame;

#[test]
fn partial_then_complete() {
    let f = Frame::Bulk(b"hello".to_vec());
    let bytes = encode(&f);
    let mut conn = Connection::new();
    conn.feed(&bytes[..4]);
    assert_eq!(conn.parse_frame(), Ok(None));
    conn.feed(&bytes[4..]);
    assert_eq!(conn.parse_frame(), Ok(Some(f)));
    assert_eq!(conn.parse_frame(), Ok(None));
}

#[test]
fn two_frames_in_one_read_come_back_in_order() {
    let f1 = Frame::Simple(String::from("a"));
    let f2 = Frame::Bulk(b"b".to_vec());
    let mut wire = encode(&f1);
    wire.extend_from_slice(&encode(&f2));
    let mut conn = Connection::new();
    conn.feed(&wire);
    assert_eq!(conn.parse_frame(), Ok(Some(f1)));
    assert_eq!(conn.parse_frame(), Ok(Some(f2)));
    assert_eq!(conn.parse_frame(), Ok(None));
}

#[test]
fn invalid_bytes_fail_the_parse() {
    let mut conn = Connection::new();
    conn.feed(b"?nope\r\n");
    assert_eq!(conn.parse_frame(), Err(DecodeError::UnknownType));
}

#[test]
fn clean_close_with_empty_buffer_ends_the_stream() {
    let mut conn = Connection::new();
    match conn.read_frame(b"", true) {
        Ok(ReadOutcome::EndOfStream) => {}
        _ => panic!("clean close must end the stream, not error"),
    }
}

#[test]
fn close_mid_frame_is_a_reset() {
    let mut conn = Connection::new();
    match conn.read_frame(b"$5\r\nhe", false) {
        Ok(ReadOutcome::NeedRead) => {}
        _ => panic!("partial frame with open peer asks for more"),
    }
    match conn.read_frame(b"", true) {
        Err(ConnectionError::ResetByPeer) => {}
        _ => panic!("close over a partial frame is a reset, not end of stream"),
    }
}

#[test]
fn read_frame_returns_a_whole_frame() {
    let f = Frame::Integer(99);
    let mut conn = Connection::new();
    match conn.read_frame(&encode(&f), false) {
        Ok(ReadOutcome::Frame(g)) => assert_eq!(g, f),
        _ => panic!("whole frame expected"),
    }
}

#[test]
fn write_frame_stages_the_exact_encoding() {
    let f1 = Frame::Simple(String::from("OK"));
    let f2 = Frame::Null;
    let mut conn = Connection::new();
    assert_eq!(conn.write_frame(&f1), Ok(()));
    assert_eq!(conn.write_frame(&f2), Ok(()));
    let out = conn.take_outgoing();
    assert_eq!(out, b"+OK\r\n$-1\r\n".to_vec());
    assert_eq!(conn.take_outgoing(), Vec::<u8>::new());
}

#[test]
fn write_frame_refuses_malformed_frames() {
    let mut conn = Connection::new();
    let bad = Frame::Simple(String::from("split\r\nme"));
    assert_eq!(conn.write_frame(&bad), Err(ConnectionError::MalformedFrame));
    assert_eq!(conn.take_outgoing(), Vec::<u8>::new());
}
