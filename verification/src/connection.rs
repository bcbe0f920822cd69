//! Send and receive whole frames over a buffered byte stream.
//!
//! A `Connection` owns a read buffer of bytes received but not yet parsed
//! and a write buffer of encoded bytes not yet flushed. The caller performs
//! the actual stream reads and writes and hands the bytes over; everything
//! between those edges — retention of partial frames, delimiting, the clean
//! versus truncated close distinction — is decided here.
use vstd::prelude::*;

use crate::codec::spec_decode;
use crate::codec::spec_encode;
use crate::codec::DecodeError;
use crate::codec::SpecDecoded;
use crate::decode::copy_range;
use crate::decode::decode;
use crate::decode::Decoded;
use crate::encode::encode_into;
use crate::frame::frame_well_formed;
use crate::frame::is_well_formed;
use crate::frame::Frame;
use crate::frame::MAX_DEPTH;

verus! {

/// What one step of the read loop produced.
pub enum ReadOutcome {
    /// A whole frame was delimited and consumed from the buffer.
    Frame(Frame),
    /// The buffered bytes are a proper prefix of a frame: read more.
    NeedRead,
    /// The peer closed with an empty buffer: the frame sequence ended cleanly.
    EndOfStream,
}

/// Why a connection must be torn down.
#[derive(Debug, Clone, Copy, PartialEq, Eq, Structural)]
pub enum ConnectionError {
    /// The peer sent bytes that cannot be a frame; framing is lost for good.
    Protocol(DecodeError),
    /// The peer closed while a partial frame sat in the read buffer.
    ResetByPeer,
    /// The caller asked to write a frame that is not well formed.
    MalformedFrame,
}

/// One frame-granularity endpoint of a byte stream.
pub struct Connection {
    /// Bytes received and not yet parsed into a complete frame.
    pub read_buf: Vec<u8>,
    /// Encoded bytes staged and not yet handed to the stream.
    pub write_buf: Vec<u8>,
}

impl Connection {
    /// A fresh connection with empty buffers.
    pub fn new() -> (c: Connection)
        ensures
            c.read_buf@ == Seq::<u8>::empty(),
            c.write_buf@ == Seq::<u8>::empty(),
    {
        Connection { read_buf: Vec::new(), write_buf: Vec::new() }
    }

    /// Append bytes received from the stream to the read buffer.
    pub fn feed(&mut self, data: &[u8])
        ensures
            final(self).read_buf@ == old(self).read_buf@ + data@,
            final(self).write_buf == old(self).write_buf,
    {
        let mut i: usize = 0;
        while i < data.len()
            invariant
                i <= data@.len(),
                self.read_buf@ == old(self).read_buf@ + data@.take(i as int),
                self.write_buf == old(self).write_buf,
            decreases data@.len() - i,
        {
            self.read_buf.push(data[i]);
            assert(data@.take(i + 1) =~= data@.take(i as int) + seq![data@[i as int]]);
            assert(self.read_buf@ =~= old(self).read_buf@ + data@.take(i + 1));
            i = i + 1;
        }
        assert(data@.take(i as int) =~= data@);
    }

    /// Try to delimit one frame at the front of the read buffer. A parsed
    /// frame's bytes — exactly its encoded length — are consumed; later
    /// bytes stay buffered for the next call. `Ok(None)` means the buffer
    /// holds a proper prefix of a frame and is left untouched. `Err` means
    /// the bytes can never be a frame.
    pub fn parse_frame(&mut self) -> (r: Result<Option<Frame>, DecodeError>)
        ensures
            final(self).write_buf == old(self).write_buf,
            match spec_decode(old(self).read_buf@, MAX_DEPTH as nat) {
                SpecDecoded::Parsed(fv, n) => (r matches Ok(Some(f)) && f@ == fv
                    && frame_well_formed(f@)) && final(self).read_buf@ == old(
                    self,
                ).read_buf@.skip(n),
                SpecDecoded::Incomplete => r == Ok::<Option<Frame>, DecodeError>(None)
                    && final(self).read_buf@ == old(self).read_buf@,
                SpecDecoded::Invalid(e) => r == Err::<Option<Frame>, DecodeError>(e)
                    && final(self).read_buf@ == old(self).read_buf@,
            },
    {
        proof {
            crate::codec::lemma_decode_wf(self.read_buf@, MAX_DEPTH as nat);
        }
        match decode(self.read_buf.as_slice()) {
            Decoded::Parsed(f, n) => {
                let rest = copy_range(self.read_buf.as_slice(), n, self.read_buf.len());
                self.read_buf = rest;
                Ok(Some(f))
            },
            Decoded::Incomplete => Ok(None),
            Decoded::Invalid(e) => Err(e),
        }
    }

    /// One step of the read loop: buffer the bytes one stream read produced
    /// (`peer_closed` when that read returned end of stream), then try to
    /// delimit a frame. A clean close — peer gone, nothing buffered — ends
    /// the frame sequence; a close over a partial frame is a reset.
    pub fn read_frame(&mut self, data: &[u8], peer_closed: bool) -> (r: Result<
        ReadOutcome,
        ConnectionError,
    >)
        ensures
            final(self).write_buf == old(self).write_buf,
            ({
                let buf = old(self).read_buf@ + data@;
                match spec_decode(buf, MAX_DEPTH as nat) {
                    SpecDecoded::Parsed(fv, n) => (r matches Ok(ReadOutcome::Frame(f)) && f@ == fv
                        && frame_well_formed(f@)) && final(self).read_buf@ == buf.skip(n),
                    SpecDecoded::Incomplete => final(self).read_buf@ == buf && r == (
                    if peer_closed {
                        if buf.len() == 0 {
                            Ok::<ReadOutcome, ConnectionError>(ReadOutcome::EndOfStream)
                        } else {
                            Err::<ReadOutcome, ConnectionError>(ConnectionError::ResetByPeer)
                        }
                    } else {
                        Ok::<ReadOutcome, ConnectionError>(ReadOutcome::NeedRead)
                    }),
                    SpecDecoded::Invalid(e) => final(self).read_buf@ == buf && r == Err::<
                        ReadOutcome,
                        ConnectionError,
                    >(ConnectionError::Protocol(e)),
                }
            }),
    {
        self.feed(data);
        match self.parse_frame() {
            Ok(Some(f)) => Ok(ReadOutcome::Frame(f)),
            Ok(None) => {
                if peer_closed {
                    if self.read_buf.len() == 0 {
                        Ok(ReadOutcome::EndOfStream)
                    } else {
                        Err(ConnectionError::ResetByPeer)
                    }
                } else {
                    Ok(ReadOutcome::NeedRead)
                }
            },
            Err(e) => Err(ConnectionError::Protocol(e)),
        }
    }

    /// Stage a frame for sending: encode it onto the write buffer, whole or
    /// not at all. A frame that is not well formed is refused before a
    /// single byte is staged — better to fail fast than to corrupt the
    /// stream.
    pub fn write_frame(&mut self, frame: &Frame) -> (r: Result<(), ConnectionError>)
        ensures
            final(self).read_buf == old(self).read_buf,
            frame_well_formed(frame@) ==> r == Ok::<(), ConnectionError>(())
                && final(self).write_buf@ == old(self).write_buf@ + spec_encode(frame@),
            !frame_well_formed(frame@) ==> r == Err::<(), ConnectionError>(
                ConnectionError::MalformedFrame,
            ) && final(self).write_buf == old(self).write_buf,
    {
        if is_well_formed(frame) {
            encode_into(&mut self.write_buf, frame);
            Ok(())
        } else {
            Err(ConnectionError::MalformedFrame)
        }
    }

    /// Hand the staged bytes to the caller for writing and flushing, leaving
    /// the write buffer empty. Either all of them reach the stream or the
    /// connection must be abandoned; no partial frame is ever retried.
    pub fn take_outgoing(&mut self) -> (out: Vec<u8>)
        ensures
            out@ == old(self).write_buf@,
            final(self).write_buf@ == Seq::<u8>::empty(),
            final(self).read_buf == old(self).read_buf,
    {
        let mut out: Vec<u8> = Vec::new();
        core::mem::swap(&mut out, &mut self.write_buf);
        out
    }
}

} // verus!
