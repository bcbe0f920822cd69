use kvwire::decode::decode;
use kvwire::decode::Decoded;
use kvwire::codec::DecodeError;
use kvwire::encode::encode;
use kvwire::frame::Frame;
use kvwire::frame::is_well_formed;

fn parsed(buf: &[u8]) -> (Frame, usize) {
    match decode(buf) {
        Decoded::Parsed(f, n) => (f, n),
        other => panic!("expected a parsed frame, got {:?}", kind(&other)),
    }
}

fn kind(d: &Decoded) -> &'static str {
    match d {
        Decoded::Parsed(_, _) => "Parsed",
        Decoded::Incomplete => "Incomplete",
        Decoded::Invalid(_) => "Invalid",
    }
}

fn invalid(buf: &[u8]) -> DecodeError {
    match decode(buf) {
        Decoded::Invalid(e) => e,
        other => panic!("expected invalid, got {}", kind(&other)),
    }
}

#[test]
fn encode_simple_exact_bytes() {
    let f = Frame::Simple(String::from("OK"));
    assert_eq!(encode(&f), b"+OK\r\n".to_vec());
}

#[test]
fn encode_error_exact_bytes() {
    let f = Frame::Error(String::from("ERR oops"));
    assert_eq!(encode(&f), b"-ERR oops\r\n".to_vec());
}

#[test]
fn encode_integer_exact_bytes() {
    assert_eq!(encode(&Frame::Integer(0)), b":0\r\n".to_vec());
    assert_eq!(encode(&Frame::Integer(12345)), b":12345\r\n".to_vec());
    assert_eq!(
        encode(&Frame::Integer(u64::MAX)),
        b":18446744073709551615\r\n".to_vec()
    );
}

#[test]
fn encode_bulk_null_array_exact_bytes() {
    assert_eq!(encode(&Frame::Bulk(b"abc".to_vec())), b"$3\r\nabc\r\n".to_vec());
    assert_eq!(encode(&Frame::Null), b"$-1\r\n".to_vec());
    let arr = Frame::Array(vec![
        Frame::Bulk(b"GET".to_vec()),
        Frame::Bulk(b"foo".to_vec()),
    ]);
    assert_eq!(encode(&arr), b"*2\r\n$3\r\nGET\r\n$3\r\nfoo\r\n".to_vec());
}

#[test]
fn round_trip_every_variant() {
    let frames = vec![
        Frame::Simple(String::from("PONG")),
        Frame::Simple(String::new()),
        Frame::Bulk(Vec::new()),
        Frame::Array(vec![]),
        Frame::Error(String::from("ERR wrong type")),
        Frame::Integer(42),
        Frame::Bulk(vec![0, 13, 10, 255, 7]),
        Frame::Null,
        Frame::Array(vec![
            Frame::Integer(1),
            Frame::Array(vec![Frame::Null, Frame::Bulk(b"x".to_vec())]),
            Frame::Simple(String::from("ok")),
        ]),
    ];
    for f in frames {
        let bytes = encode(&f);
        let (g, n) = parsed(&bytes);
        assert_eq!(n, bytes.len(), "full encoding consumed, zero bytes left");
        assert_eq!(g, f);
    }
}

#[test]
fn round_trip_non_ascii_text() {
    let f = Frame::Simple(String::from("héllo ∆"));
    let bytes = encode(&f);
    let (g, n) = parsed(&bytes);
    assert_eq!(n, bytes.len());
    match g {
        Frame::Simple(s) => assert_eq!(s, "héllo ∆"),
        _ => panic!("wrong variant"),
    }
}

#[test]
fn incremental_delivery_every_split() {
    let f = Frame::Array(vec![
        Frame::Bulk(b"SET".to_vec()),
        Frame::Bulk(b"key".to_vec()),
        Frame::Bulk(vec![1, 2, 13, 10, 5]),
    ]);
    let bytes = encode(&f);
    for k in 0..bytes.len() {
        match decode(&bytes[..k]) {
            Decoded::Incomplete => {}
            other => panic!("prefix of {} bytes gave {}", k, kind(&other)),
        }
    }
    let (g, n) = parsed(&bytes);
    assert_eq!(n, bytes.len());
    assert_eq!(g, f);
}

#[test]
fn buffer_retention_two_frames_one_read() {
    let f1 = Frame::Simple(String::from("first"));
    let f2 = Frame::Integer(2);
    let mut wire = encode(&f1);
    wire.extend_from_slice(&encode(&f2));
    let (g1, n1) = parsed(&wire);
    assert_eq!(g1, f1);
    let (g2, n2) = parsed(&wire[n1..]);
    assert_eq!(g2, f2);
    assert_eq!(n1 + n2, wire.len());
}

#[test]
fn malformed_inputs_are_invalid() {
    assert_eq!(invalid(b":-1\r\n"), DecodeError::BadDigit);
    assert_eq!(invalid(b":\r\n"), DecodeError::BadDigit);
    assert_eq!(invalid(b":12a\r\n"), DecodeError::BadDigit);
    assert_eq!(
        invalid(b":18446744073709551616\r\n"),
        DecodeError::IntegerOverflow
    );
    assert_eq!(invalid(b"$8388609\r\n"), DecodeError::BulkTooLong);
    assert_eq!(invalid(b"$99999999999999999999\r\n"), DecodeError::BulkTooLong);
    assert_eq!(invalid(b"*1025\r\n"), DecodeError::ArrayTooLong);
    assert_eq!(invalid(b"$-2\r\n"), DecodeError::BadDigit);
    assert_eq!(invalid(b"$3\r\nabcXY"), DecodeError::BadTerminator);
    assert_eq!(invalid(b"?hello\r\n"), DecodeError::UnknownType);
    assert_eq!(invalid(b"+a\rb\r\n"), DecodeError::BadText);
    assert_eq!(invalid(b"+\xff\r\n"), DecodeError::BadText);
}

#[test]
fn nesting_deeper_than_budget_is_invalid() {
    let mut bytes = Vec::new();
    for _ in 0..9 {
        bytes.extend_from_slice(b"*1\r\n");
    }
    bytes.extend_from_slice(b":1\r\n");
    assert_eq!(invalid(&bytes), DecodeError::TooDeep);
}

#[test]
fn nesting_at_budget_round_trips() {
    let mut f = Frame::Integer(7);
    for _ in 0..8 {
        f = Frame::Array(vec![f]);
    }
    assert!(is_well_formed(&f));
    let bytes = encode(&f);
    let (g, n) = parsed(&bytes);
    assert_eq!(n, bytes.len());
    assert_eq!(g, f);
}

#[test]
fn well_formedness_checker() {
    assert!(is_well_formed(&Frame::Simple(String::from("fine"))));
    assert!(!is_well_formed(&Frame::Simple(String::from("bad\r\n"))));
    assert!(!is_well_formed(&Frame::Error(String::from("bad\nline"))));
    assert!(is_well_formed(&Frame::Bulk(vec![0; 16])));
    let mut f = Frame::Null;
    for _ in 0..9 {
        f = Frame::Array(vec![f]);
    }
    assert!(!is_well_formed(&f));
}

#[test]
fn bulk_at_exactly_the_largest_size_round_trips() {
    let f = Frame::Bulk(vec![7u8; 8 * 1024 * 1024]);
    assert!(is_well_formed(&f));
    let bytes = encode(&f);
    let (g, n) = parsed(&bytes);
    assert_eq!(n, bytes.len());
    assert_eq!(g, f);
    assert!(!is_well_formed(&Frame::Bulk(vec![7u8; 8 * 1024 * 1024 + 1])));
}

#[test]
fn empty_input_is_incomplete() {
    match decode(b"") {
        Decoded::Incomplete => {}
        other => panic!("got {}", kind(&other)),
    }
}
