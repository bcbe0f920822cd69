use kvwire::command::get_reply;
use kvwire::command::process;
use kvwire::command::request_frame;
use kvwire::command::set_reply;
use kvwire::command::Command;
use kvwire::command::CommandError;
use kvwire::command::ReplyError;
use kvwire::connection::Connection;
use kvwire::encode::encode;
use kvwire::frame::Frame;
use kvwire::mux::Multiplexer;
use kvwire::mux::Reply;
use kvwire::store::str_eq;
use kvwire::store::Store;

fn get(key: &str) -> Frame {
    request_frame(&Command::Get { key: String::from(key) })
}

fn put(key: &str, value: &[u8]) -> Frame {
    request_frame(&Command::Put { key: String::from(key), value: value.to_vec() })
}

#[test]
fn set_then_get_returns_the_value() {
    let mut store = Store::new();
    let r = process(&mut store, &put("k", b"v"));
    assert_eq!(r, Frame::Simple(String::from("OK")));
    let r = process(&mut store, &get("k"));
    assert_eq!(r, Frame::Bulk(b"v".to_vec()));
}

#[test]
fn get_on_absent_key_returns_null() {
    let mut store = Store::new();
    let r = process(&mut store, &get("missing"));
    assert_eq!(r, Frame::Null);
}

#[test]
fn second_set_overwrites_not_appends() {
    let mut store = Store::new();
    process(&mut store, &put("k", b"v"));
    process(&mut store, &put("k", b"v2"));
    let r = process(&mut store, &get("k"));
    assert_eq!(r, Frame::Bulk(b"v2".to_vec()));
}

#[test]
fn distinct_keys_stay_isolated() {
    let mut store = Store::new();
    process(&mut store, &put("a", b"1"));
    process(&mut store, &put("b", b"2"));
    process(&mut store, &put("a", b"3"));
    assert_eq!(process(&mut store, &get("a")), Frame::Bulk(b"3".to_vec()));
    assert_eq!(process(&mut store, &get("b")), Frame::Bulk(b"2".to_vec()));
}

#[test]
fn request_frames_use_the_wire_shape() {
    assert_eq!(encode(&get("foo")), b"*2\r\n$3\r\nGET\r\n$3\r\nfoo\r\n".to_vec());
    assert_eq!(
        encode(&put("foo", b"bar")),
        b"*3\r\n$3\r\nSET\r\n$3\r\nfoo\r\n$3\r\nbar\r\n".to_vec()
    );
}

#[test]
fn from_frame_rejects_malformed_commands() {
    let empty = Frame::Array(vec![]);
    assert_eq!(Command::from_frame(&empty), Err(CommandError::Unrecognized));
    let wrong_name = Frame::Array(vec![
        Frame::Bulk(b"DEL".to_vec()),
        Frame::Bulk(b"k".to_vec()),
    ]);
    assert_eq!(Command::from_frame(&wrong_name), Err(CommandError::Unrecognized));
    let lowercase = Frame::Array(vec![
        Frame::Bulk(b"get".to_vec()),
        Frame::Bulk(b"k".to_vec()),
    ]);
    assert_eq!(Command::from_frame(&lowercase), Err(CommandError::Unrecognized));
    let wrong_arity = Frame::Array(vec![Frame::Bulk(b"GET".to_vec())]);
    assert_eq!(Command::from_frame(&wrong_arity), Err(CommandError::Unrecognized));
    let non_bulk = Frame::Array(vec![
        Frame::Simple(String::from("GET")),
        Frame::Bulk(b"k".to_vec()),
    ]);
    assert_eq!(Command::from_frame(&non_bulk), Err(CommandError::Unrecognized));
    let bad_key = Frame::Array(vec![
        Frame::Bulk(b"GET".to_vec()),
        Frame::Bulk(vec![0xff, 0xfe]),
    ]);
    assert_eq!(Command::from_frame(&bad_key), Err(CommandError::Unrecognized));
    assert_eq!(Command::from_frame(&Frame::Null), Err(CommandError::Unrecognized));
    let r = process(&mut Store::new(), &wrong_name);
    assert_eq!(r, Frame::Error(String::from("ERR unknown command")));
}

#[test]
fn command_survives_its_own_request_frame() {
    let f = put("key", b"value");
    match Command::from_frame(&f) {
        Ok(Command::Put { key, value }) => {
            assert_eq!(key, "key");
            assert_eq!(value, b"value".to_vec());
        }
        _ => panic!("request frame must decode back to its command"),
    }
}

#[test]
fn replies_decode_for_their_own_request() {
    assert_eq!(get_reply(&Frame::Bulk(b"v".to_vec())), Ok(Some(b"v".to_vec())));
    assert_eq!(get_reply(&Frame::Null), Ok(None));
    assert_eq!(
        get_reply(&Frame::Simple(String::from("OK"))),
        Err(ReplyError::Unexpected)
    );
    assert_eq!(set_reply(&Frame::Simple(String::from("OK"))), Ok(()));
    assert_eq!(
        set_reply(&Frame::Simple(String::from("NO"))),
        Err(ReplyError::Unexpected)
    );
    assert_eq!(set_reply(&Frame::Null), Err(ReplyError::Unexpected));
}

#[test]
fn multiplexed_requests_arrive_in_enqueue_order() {
    let req_a = put("shared", b"from-a");
    let req_b = get("shared");
    let mut owner = Connection::new();
    owner.write_frame(&req_a).unwrap();
    owner.write_frame(&req_b).unwrap();
    let wire = owner.take_outgoing();

    let mut server_conn = Connection::new();
    server_conn.feed(&wire);
    let mut store = Store::new();
    let mut replies = Vec::new();
    while let Ok(Some(req)) = server_conn.parse_frame() {
        replies.push(process(&mut store, &req));
    }
    assert_eq!(replies.len(), 2);
    assert_eq!(set_reply(&replies[0]), Ok(()));
    assert_eq!(get_reply(&replies[1]), Ok(Some(b"from-a".to_vec())));
}

#[test]
fn str_eq_matches_string_equality() {
    assert!(str_eq("", ""));
    assert!(str_eq("abc", "abc"));
    assert!(str_eq("héllo", "héllo"));
    assert!(!str_eq("abc", "abd"));
    assert!(!str_eq("abc", "ab"));
}

#[test]
fn multiplexer_pairs_each_reply_with_its_own_request() {
    let mut store = Store::new();
    let mut mux = Multiplexer::new();

    let f = mux.begin_request(Command::Put {
        key: String::from("k"),
        value: b"v".to_vec(),
    });
    let reply = process(&mut store, &f);
    assert_eq!(mux.complete_request(&reply), Ok(Reply::Done));

    let f = mux.begin_request(Command::Get { key: String::from("k") });
    let reply = process(&mut store, &f);
    assert_eq!(
        mux.complete_request(&reply),
        Ok(Reply::Value(Some(b"v".to_vec())))
    );

    let f = mux.begin_request(Command::Get { key: String::from("absent") });
    let reply = process(&mut store, &f);
    assert_eq!(mux.complete_request(&reply), Ok(Reply::Value(None)));

    let f = mux.begin_request(Command::Put {
        key: String::from("k"),
        value: b"w".to_vec(),
    });
    assert_eq!(
        mux.complete_request(&Frame::Integer(3)),
        Err(ReplyError::Unexpected)
    );
    let _ = f;
}
