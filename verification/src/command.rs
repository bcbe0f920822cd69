//! Commands: the typed operations a peer encodes as array frames, the
//! server's dispatch of a request frame against the store, and the client
//! side that builds request frames and reads reply frames back. Command
//! names are uppercase and matched exactly: `GET key`, `SET key value`,
//! each element a bulk frame.
use vstd::prelude::*;
use vstd::utf8::decode_utf8;
use vstd::utf8::encode_utf8;
use vstd::utf8::valid_utf8;

use crate::decode::string_from_utf8;
use crate::frame::lemma_array_view;
use crate::frame::views_of;
use crate::frame::Frame;
use crate::frame::FrameView;
use crate::store::clone_bytes;
use crate::store::str_eq;
use crate::store::Store;

verus! {

/// A typed operation against the store. `Put` is the wire command `SET`;
/// the name differs only because `Set` is reserved here.
#[derive(Debug, PartialEq, Eq)]
pub enum Command {
    Get { key: String },
    Put { key: String, value: Vec<u8> },
}

/// The mathematical shape of a [`Command`].
#[verifier::ext_equal]
pub enum CommandView {
    Get { key: Seq<char> },
    Put { key: Seq<char>, value: Seq<u8> },
}

impl View for Command {
    type V = CommandView;

    open spec fn view(&self) -> CommandView {
        match self {
            Command::Get { key } => CommandView::Get { key: key@ },
            Command::Put { key, value } => CommandView::Put { key: key@, value: value@ },
        }
    }
}

/// A frame that names no well-shaped command.
#[derive(Debug, Clone, Copy, PartialEq, Eq, Structural)]
pub enum CommandError {
    Unrecognized,
}

/// A reply frame of a shape the request cannot produce.
#[derive(Debug, Clone, Copy, PartialEq, Eq, Structural)]
pub enum ReplyError {
    Unexpected,
}

/// The `GET` name on the wire.
pub open spec fn get_name() -> Seq<u8> {
    seq![71u8, 69u8, 84u8]
}

/// The `SET` name on the wire.
pub open spec fn set_name() -> Seq<u8> {
    seq![83u8, 69u8, 84u8]
}

/// The command an array frame denotes, if any: `[Bulk "GET", Bulk key]` or
/// `[Bulk "SET", Bulk key, Bulk value]`, the key valid UTF-8.
pub open spec fn spec_command_of(f: FrameView) -> Option<CommandView> {
    match f {
        FrameView::Array(elems) => {
            if elems.len() == 2 && elems[0] == FrameView::Bulk(get_name()) && elems[1] is Bulk
                && valid_utf8(elems[1]->Bulk_0) {
                Some(CommandView::Get { key: decode_utf8(elems[1]->Bulk_0) })
            } else if elems.len() == 3 && elems[0] == FrameView::Bulk(set_name()) && elems[1] is Bulk
                && valid_utf8(elems[1]->Bulk_0) && elems[2] is Bulk {
                Some(
                    CommandView::Put {
                        key: decode_utf8(elems[1]->Bulk_0),
                        value: elems[2]->Bulk_0,
                    },
                )
            } else {
                None
            }
        },
        _ => None,
    }
}

/// The request frame a command is sent as.
pub open spec fn spec_request(c: CommandView) -> FrameView {
    match c {
        CommandView::Get { key } => FrameView::Array(
            seq![FrameView::Bulk(get_name()), FrameView::Bulk(encode_utf8(key))],
        ),
        CommandView::Put { key, value } => FrameView::Array(
            seq![
                FrameView::Bulk(set_name()),
                FrameView::Bulk(encode_utf8(key)),
                FrameView::Bulk(value),
            ],
        ),
    }
}

/// Compare a byte vector against a three-byte name.
fn is_name(b: &Vec<u8>, c0: u8, c1: u8, c2: u8) -> (r: bool)
    ensures
        r == (b@ == seq![c0, c1, c2]),
{
    if b.len() == 3 && b[0] == c0 && b[1] == c1 && b[2] == c2 {
        assert(b@ =~= seq![c0, c1, c2]);
        true
    } else {
        proof {
            if b@ == seq![c0, c1, c2] {
                assert(b@.len() == 3);
                assert(b@[0] == c0 && b@[1] == c1 && b@[2] == c2);
            }
        }
        false
    }
}

impl Command {
    /// Decode the command an array frame carries; a frame of any other
    /// shape is rejected, never a panic.
    pub fn from_frame(f: &Frame) -> (r: Result<Command, CommandError>)
        ensures
            match spec_command_of(f@) {
                Some(cv) => r matches Ok(c) && c@ == cv,
                None => r == Err::<Command, CommandError>(CommandError::Unrecognized),
            },
    {
        match f {
            Frame::Array(v) => {
                proof {
                    lemma_array_view(*v);
                }
                if v.len() == 2 {
                    match (&v[0], &v[1]) {
                        (Frame::Bulk(name), Frame::Bulk(kb)) => {
                            if is_name(name, 71, 69, 84) {
                                match string_from_utf8(clone_bytes(kb)) {
                                    Some(key) => {
                                        proof {
                                            vstd::utf8::encode_utf8_decode_utf8(key@);
                                        }
                                        Ok(Command::Get { key })
                                    },
                                    None => Err(CommandError::Unrecognized),
                                }
                            } else {
                                Err(CommandError::Unrecognized)
                            }
                        },
                        _ => Err(CommandError::Unrecognized),
                    }
                } else if v.len() == 3 {
                    match (&v[0], &v[1], &v[2]) {
                        (Frame::Bulk(name), Frame::Bulk(kb), Frame::Bulk(vb)) => {
                            if is_name(name, 83, 69, 84) {
                                match string_from_utf8(clone_bytes(kb)) {
                                    Some(key) => {
                                        proof {
                                            vstd::utf8::encode_utf8_decode_utf8(key@);
                                        }
                                        Ok(Command::Put { key, value: clone_bytes(vb) })
                                    },
                                    None => Err(CommandError::Unrecognized),
                                }
                            } else {
                                Err(CommandError::Unrecognized)
                            }
                        },
                        _ => Err(CommandError::Unrecognized),
                    }
                } else {
                    Err(CommandError::Unrecognized)
                }
            },
            _ => Err(CommandError::Unrecognized),
        }
    }
}

/// Build the request frame for a command.
pub fn request_frame(c: &Command) -> (r: Frame)
    ensures
        r@ == spec_request(c@),
{
    match c {
        Command::Get { key } => {
            let mut name: Vec<u8> = Vec::new();
            name.push(71);
            name.push(69);
            name.push(84);
            assert(name@ =~= get_name());
            let kb = key.as_str().as_bytes_vec();
            let mut elems: Vec<Frame> = Vec::new();
            elems.push(Frame::Bulk(name));
            elems.push(Frame::Bulk(kb));
            proof {
                lemma_array_view(elems);
                assert(views_of(elems@) =~= seq![
                    FrameView::Bulk(get_name()),
                    FrameView::Bulk(encode_utf8(key@)),
                ]);
            }
            Frame::Array(elems)
        },
        Command::Put { key, value } => {
            let mut name: Vec<u8> = Vec::new();
            name.push(83);
            name.push(69);
            name.push(84);
            assert(name@ =~= set_name());
            let kb = key.as_str().as_bytes_vec();
            let vb = clone_bytes(value);
            let mut elems: Vec<Frame> = Vec::new();
            elems.push(Frame::Bulk(name));
            elems.push(Frame::Bulk(kb));
            elems.push(Frame::Bulk(vb));
            proof {
                lemma_array_view(elems);
                assert(views_of(elems@) =~= seq![
                    FrameView::Bulk(set_name()),
                    FrameView::Bulk(encode_utf8(key@)),
                    FrameView::Bulk(value@),
                ]);
            }
            Frame::Array(elems)
        },
    }
}

/// A command sent as its request frame is decoded back as itself: the two
/// ends of a connection agree on what travelled.
pub proof fn lemma_request_roundtrip(c: CommandView)
    ensures
        spec_command_of(spec_request(c)) == Some(c),
{
    match c {
        CommandView::Get { key } => {
            vstd::utf8::encode_utf8_valid_utf8(key);
            vstd::utf8::encode_utf8_decode_utf8(key);
        },
        CommandView::Put { key, value } => {
            vstd::utf8::encode_utf8_valid_utf8(key);
            vstd::utf8::encode_utf8_decode_utf8(key);
        },
    }
}

/// Execute one command against the store: `SET` binds unconditionally and
/// answers `OK`; `GET` answers the value, or the null frame when absent.
pub fn apply(store: &mut Store, c: Command) -> (r: Frame)
    ensures
        match c@ {
            CommandView::Get { key } => final(store)@ == old(store)@ && r@ == (
            if old(store)@.contains_key(key) {
                FrameView::Bulk(old(store)@[key])
            } else {
                FrameView::Null
            }),
            CommandView::Put { key, value } => final(store)@ == old(store)@.insert(key, value)
                && r@ == FrameView::Simple("OK"@),
        },
{
    match c {
        Command::Get { key } => match store.get(key.as_str()) {
            Some(v) => Frame::Bulk(v),
            None => Frame::Null,
        },
        Command::Put { key, value } => {
            store.set(key, value);
            Frame::Simple(String::from_str("OK"))
        },
    }
}

/// One turn of the server's per-connection state machine: decode the
/// command a request frame carries, execute it against the store, and
/// return the response frame. An unrecognized command leaves the store
/// untouched and answers an error frame — the connection itself lives on.
pub fn process(store: &mut Store, request: &Frame) -> (r: Frame)
    ensures
        match spec_command_of(request@) {
            Some(CommandView::Get { key }) => final(store)@ == old(store)@ && r@ == (
            if old(store)@.contains_key(key) {
                FrameView::Bulk(old(store)@[key])
            } else {
                FrameView::Null
            }),
            Some(CommandView::Put { key, value }) => final(store)@ == old(store)@.insert(
                key,
                value,
            ) && r@ == FrameView::Simple("OK"@),
            None => final(store)@ == old(store)@ && r@ == FrameView::Error("ERR unknown command"@),
        },
{
    match Command::from_frame(request) {
        Ok(c) => apply(store, c),
        Err(_) => Frame::Error(String::from_str("ERR unknown command")),
    }
}

/// Read a `GET` reply: the value, the null frame for absence, anything
/// else is a protocol violation by the peer.
pub fn get_reply(f: &Frame) -> (r: Result<Option<Vec<u8>>, ReplyError>)
    ensures
        match f@ {
            FrameView::Bulk(b) => r matches Ok(Some(v)) && v@ == b,
            FrameView::Null => r == Ok::<Option<Vec<u8>>, ReplyError>(None),
            _ => r == Err::<Option<Vec<u8>>, ReplyError>(ReplyError::Unexpected),
        },
{
    match f {
        Frame::Bulk(b) => Ok(Some(clone_bytes(b))),
        Frame::Null => Ok(None),
        _ => Err(ReplyError::Unexpected),
    }
}

/// Read a `SET` reply: exactly the `OK` status frame.
pub fn set_reply(f: &Frame) -> (r: Result<(), ReplyError>)
    ensures
        match f@ {
            FrameView::Simple(t) => (t == "OK"@ ==> r == Ok::<(), ReplyError>(())) && (t != "OK"@
                ==> r == Err::<(), ReplyError>(ReplyError::Unexpected)),
            _ => r == Err::<(), ReplyError>(ReplyError::Unexpected),
        },
{
    match f {
        Frame::Simple(t) => {
            if str_eq(t.as_str(), "OK") {
                Ok(())
            } else {
                Err(ReplyError::Unexpected)
            }
        },
        _ => Err(ReplyError::Unexpected),
    }
}

} // verus!
