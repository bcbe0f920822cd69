//! The laws the library stands on, stated once over the specification
//! functions and proved for every value: the codec round trip, incremental
//! delivery, buffer retention across concatenated frames, first-in
//! first-out order on a shared wire, and the isolation and commutation of
//! store operations on distinct keys.
use vstd::prelude::*;

use crate::codec::all_digits;
use crate::codec::bytes_clean;
use crate::codec::dec_val;
use crate::codec::encode_seq;
use crate::codec::lemma_dec_val_nonneg;
use crate::codec::lemma_digits_clean;
use crate::codec::lemma_find_crlf_after;
use crate::codec::DecodeError;
use crate::codec::lemma_decode_encode;
use crate::codec::lemma_decode_encode_seq;
use crate::codec::lemma_decode_prefix;
use crate::codec::spec_decode;
use crate::codec::spec_decode_elems;
use crate::codec::spec_encode;
use crate::codec::SpecDecoded;
use crate::codec::SpecDecodedSeq;
use crate::frame::frame_well_formed;
use crate::frame::FrameView;
use crate::frame::MAX_DEPTH;

verus! {

/// Round trip: the encoding of any well-formed frame decodes to exactly
/// that frame, consuming the full encoding with nothing left over.
pub proof fn lemma_round_trip(f: FrameView)
    requires
        frame_well_formed(f),
    ensures
        spec_decode(spec_encode(f), MAX_DEPTH as nat) == SpecDecoded::Parsed(
            f,
            spec_encode(f).len() as int,
        ),
{
    lemma_decode_encode(f, Seq::empty(), MAX_DEPTH as nat);
    assert(spec_encode(f) + Seq::<u8>::empty() =~= spec_encode(f));
}

/// Incremental delivery: every proper prefix of a well-formed frame's
/// encoding decodes to `Incomplete` — a frame split at any byte boundary
/// is neither misparsed nor rejected, only deferred.
pub proof fn lemma_incremental_delivery(f: FrameView, k: int)
    requires
        frame_well_formed(f),
        0 <= k < spec_encode(f).len(),
    ensures
        spec_decode(spec_encode(f).take(k), MAX_DEPTH as nat) == SpecDecoded::Incomplete,
{
    lemma_decode_prefix(f, k, MAX_DEPTH as nat);
}

/// Buffer retention: two frames delivered concatenated in one read are
/// returned by two successive decodes, in order, with no byte lost or
/// read twice.
pub proof fn lemma_buffer_retention(f1: FrameView, f2: FrameView)
    requires
        frame_well_formed(f1),
        frame_well_formed(f2),
    ensures
        ({
            let w = spec_encode(f1) + spec_encode(f2);
            let n1 = spec_encode(f1).len() as int;
            &&& spec_decode(w, MAX_DEPTH as nat) == SpecDecoded::Parsed(f1, n1)
            &&& w.skip(n1) == spec_encode(f2)
            &&& spec_decode(w.skip(n1), MAX_DEPTH as nat) == SpecDecoded::Parsed(
                f2,
                spec_encode(f2).len() as int,
            )
            &&& n1 + spec_encode(f2).len() == w.len()
        }),
{
    let w = spec_encode(f1) + spec_encode(f2);
    let n1 = spec_encode(f1).len() as int;
    lemma_decode_encode(f1, spec_encode(f2), MAX_DEPTH as nat);
    assert(w.skip(n1) =~= spec_encode(f2));
    lemma_round_trip(f2);
}

/// Wire order: a run of well-formed frames encoded back to back — the
/// requests a multiplexer's owner writes in dequeue order — decodes one
/// frame at a time to exactly that run, in the same order. The reply a
/// waiting producer receives is therefore the one at its own request's
/// position, never a neighbour's.
pub proof fn lemma_wire_fifo(frames: Seq<FrameView>)
    requires
        forall|i: int| 0 <= i < frames.len() ==> frame_well_formed(#[trigger] frames[i]),
    ensures
        spec_decode_elems(encode_seq(frames), frames.len(), MAX_DEPTH as nat)
            == SpecDecodedSeq::Parsed(frames, encode_seq(frames).len() as int),
{
    lemma_decode_encode_seq(frames, Seq::empty(), MAX_DEPTH as nat);
    assert(encode_seq(frames) + Seq::<u8>::empty() =~= encode_seq(frames));
}

/// Store isolation: binding one key neither adds, removes, nor changes
/// any other key. Handlers working on distinct keys observe exactly their
/// own writes.
pub proof fn lemma_store_isolation(
    m: Map<Seq<char>, Seq<u8>>,
    k1: Seq<char>,
    v: Seq<u8>,
    k2: Seq<char>,
)
    requires
        k1 != k2,
    ensures
        m.insert(k1, v).contains_key(k2) == m.contains_key(k2),
        m.contains_key(k2) ==> m.insert(k1, v)[k2] == m[k2],
{
}

/// Store commutation: two bindings of distinct keys land in the same map
/// in either order, so no serialization of such writes loses an update.
pub proof fn lemma_store_commute(
    m: Map<Seq<char>, Seq<u8>>,
    k1: Seq<char>,
    v1: Seq<u8>,
    k2: Seq<char>,
    v2: Seq<u8>,
)
    requires
        k1 != k2,
    ensures
        m.insert(k1, v1).insert(k2, v2) == m.insert(k2, v2).insert(k1, v1),
{
    assert(m.insert(k1, v1).insert(k2, v2) =~= m.insert(k2, v2).insert(k1, v1));
}

/// Malformed input: a bulk length header that claims more than
/// [`crate::frame::MAX_BULK_LEN`] bytes is rejected outright, whatever
/// follows it — the decoder never waits for, or allocates, a payload of
/// that size.
pub proof fn lemma_oversized_bulk_rejected(h: Seq<u8>, rest: Seq<u8>)
    requires
        h.len() >= 1,
        all_digits(h),
        dec_val(h) > crate::frame::MAX_BULK_LEN,
    ensures
        spec_decode(seq![36u8] + h + seq![13u8, 10u8] + rest, MAX_DEPTH as nat)
            == SpecDecoded::Invalid(DecodeError::BulkTooLong),
{
    let s = seq![36u8] + h + seq![13u8, 10u8] + rest;
    lemma_digits_clean(h);
    assert(s[0] == 36);
    assert(s.drop_first() =~= h + seq![13u8, 10u8] + rest);
    lemma_find_crlf_after(h, rest);
    assert(s.drop_first().take(h.len() as int) =~= h);
    assert(48 <= h[0] <= 57);
    lemma_dec_val_nonneg(h);
}

/// Malformed input: an integer frame whose body is empty or holds any
/// non-digit byte is rejected, not skipped or misread.
pub proof fn lemma_non_numeric_integer_rejected(line: Seq<u8>, rest: Seq<u8>)
    requires
        bytes_clean(line),
        !(line.len() >= 1 && all_digits(line)),
    ensures
        spec_decode(seq![58u8] + line + seq![13u8, 10u8] + rest, MAX_DEPTH as nat)
            == SpecDecoded::Invalid(DecodeError::BadDigit),
{
    let s = seq![58u8] + line + seq![13u8, 10u8] + rest;
    assert(s[0] == 58);
    assert(s.drop_first() =~= line + seq![13u8, 10u8] + rest);
    lemma_find_crlf_after(line, rest);
    assert(s.drop_first().take(line.len() as int) =~= line);
}

} // verus!
