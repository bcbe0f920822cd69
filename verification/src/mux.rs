//! The client request multiplexer's decision core. One owner task holds the
//! connection and a `Multiplexer`; producers hand it typed commands. The
//! contract enforces the protocol's one-outstanding-request discipline:
//! a request can be begun only when none is pending, and a reply completes
//! exactly the pending request — so the answer a producer receives is the
//! one for its own command, never a neighbour's. The owner performs the
//! stream write and read between the two calls.
use vstd::prelude::*;

use crate::command::request_frame;
use crate::command::spec_request;
use crate::command::Command;
use crate::command::CommandView;
use crate::command::ReplyError;
use crate::frame::Frame;
use crate::frame::FrameView;

verus! {

/// The typed result a producer is handed back.
#[derive(Debug, PartialEq, Eq)]
pub enum Reply {
    /// Answer to a `Get`: the value, or `None` for an absent key.
    Value(Option<Vec<u8>>),
    /// Answer to a `Put`: the binding was made.
    Done,
}

/// The owner task's request/reply pairing state.
pub struct Multiplexer {
    pending: Option<Command>,
}

impl Multiplexer {
    /// The command currently awaiting its reply, if any.
    pub closed spec fn spec_pending(&self) -> Option<CommandView> {
        match self.pending {
            Some(c) => Some(c@),
            None => None,
        }
    }

    /// A multiplexer with no request in flight.
    pub fn new() -> (m: Multiplexer)
        ensures
            m.spec_pending() is None,
    {
        Multiplexer { pending: None }
    }

    /// Take on a command: remember it as pending and return the request
    /// frame to put on the wire. Only one request may be in flight.
    pub fn begin_request(&mut self, c: Command) -> (r: Frame)
        requires
            old(self).spec_pending() is None,
        ensures
            final(self).spec_pending() == Some(c@),
            r@ == spec_request(c@),
    {
        let frame = request_frame(&c);
        self.pending = Some(c);
        frame
    }

    /// Hand the reply frame read from the wire to the pending request,
    /// clearing it. The typed result is determined by the pending command's
    /// kind and the reply frame alone.
    pub fn complete_request(&mut self, reply: &Frame) -> (r: Result<Reply, ReplyError>)
        requires
            old(self).spec_pending() is Some,
        ensures
            final(self).spec_pending() is None,
            match old(self).spec_pending()->0 {
                CommandView::Get { key } => match reply@ {
                    FrameView::Bulk(b) => r matches Ok(Reply::Value(Some(v))) && v@ == b,
                    FrameView::Null => r == Ok::<Reply, ReplyError>(Reply::Value(None)),
                    _ => r == Err::<Reply, ReplyError>(ReplyError::Unexpected),
                },
                CommandView::Put { key, value } => match reply@ {
                    FrameView::Simple(t) => (t == "OK"@ ==> r == Ok::<Reply, ReplyError>(
                        Reply::Done,
                    )) && (t != "OK"@ ==> r == Err::<Reply, ReplyError>(ReplyError::Unexpected)),
                    _ => r == Err::<Reply, ReplyError>(ReplyError::Unexpected),
                },
            },
    {
        let mut taken: Option<Command> = None;
        core::mem::swap(&mut taken, &mut self.pending);
        match taken {
            Some(Command::Get { .. }) => match crate::command::get_reply(reply) {
                Ok(v) => Ok(Reply::Value(v)),
                Err(e) => Err(e),
            },
            Some(Command::Put { .. }) => match crate::command::set_reply(reply) {
                Ok(()) => Ok(Reply::Done),
                Err(e) => Err(e),
            },
            None => Err(ReplyError::Unexpected),
        }
    }
}

} // verus!
