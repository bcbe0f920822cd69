//! The executable encoder: turns a [`Frame`] into exactly the bytes that
//! [`spec_encode`] describes. Encoding is total; only well-formed frames
//! are guaranteed to decode back (see the round-trip lemmas in `codec`).
use vstd::prelude::*;

use crate::codec::dec_digits;
use crate::codec::encode_seq;
use crate::codec::spec_encode;
use crate::frame::frame_view;
use crate::frame::Frame;
use crate::frame::FrameView;

verus! {

broadcast use vstd::std_specs::vec::axiom_vec_index_decreases;

/// Append a byte slice.
fn push_bytes(out: &mut Vec<u8>, b: &[u8])
    ensures
        final(out)@ == old(out)@ + b@,
{
    let mut i: usize = 0;
    while i < b.len()
        invariant
            i <= b@.len(),
            out@ == old(out)@ + b@.take(i as int),
        decreases b@.len() - i,
    {
        out.push(b[i]);
        assert(b@.take(i + 1) =~= b@.take(i as int) + seq![b@[i as int]]);
        assert(out@ =~= old(out)@ + b@.take(i + 1));
        i = i + 1;
    }
    assert(b@.take(i as int) =~= b@);
}

/// Append the shortest decimal digit run for `n`.
fn push_dec(out: &mut Vec<u8>, n: u64)
    ensures
        final(out)@ == old(out)@ + dec_digits(n as nat),
    decreases n,
{
    if n >= 10 {
        push_dec(out, n / 10);
    }
    out.push(48 + (n % 10) as u8);
    if n < 10 {
        assert(out@ =~= old(out)@ + dec_digits(n as nat));
    } else {
        assert(out@ =~= old(out)@ + (dec_digits((n / 10) as nat) + seq![
            (48 + (n as nat) % 10) as u8,
        ]));
    }
}

/// One encoding step of an element run: encoding one more element extends
/// the run's encoding by that element's encoding.
proof fn lemma_encode_seq_take(elems: Seq<FrameView>, i: int)
    requires
        0 <= i < elems.len(),
    ensures
        encode_seq(elems.take(i + 1)) == encode_seq(elems.take(i)) + spec_encode(elems[i]),
    decreases elems.len(),
{
    if i == 0 {
        assert(elems.take(1).first() == elems[0]);
        assert(elems.take(1).drop_first() =~= Seq::<FrameView>::empty());
        assert(elems.take(0) =~= Seq::<FrameView>::empty());
        assert(encode_seq(Seq::<FrameView>::empty()) =~= Seq::<u8>::empty());
        assert(encode_seq(elems.take(1)) == spec_encode(elems.take(1).first()) + encode_seq(
            elems.take(1).drop_first(),
        ));
        assert(encode_seq(elems.take(1)) =~= Seq::<u8>::empty() + spec_encode(elems[0]));
    } else {
        let t = elems.drop_first();
        lemma_encode_seq_take(t, i - 1);
        assert(elems.take(i + 1).first() == elems[0]);
        assert(elems.take(i + 1).drop_first() =~= t.take(i));
        assert(elems.take(i).first() == elems[0]);
        assert(elems.take(i).drop_first() =~= t.take(i - 1));
        assert(t[i - 1] == elems[i]);
        assert(spec_encode(elems[0]) + (encode_seq(t.take(i - 1)) + spec_encode(elems[i]))
            =~= (spec_encode(elems[0]) + encode_seq(t.take(i - 1))) + spec_encode(elems[i]));
    }
}

/// Append the encoding of a frame.
pub fn encode_into(out: &mut Vec<u8>, f: &Frame)
    ensures
        final(out)@ == old(out)@ + spec_encode(f@),
    decreases f,
{
    match f {
        Frame::Simple(t) => {
            out.push(43);
            push_bytes(out, t.as_str().as_bytes());
            out.push(13);
            out.push(10);
            assert(out@ =~= old(out)@ + spec_encode(f@));
        },
        Frame::Error(t) => {
            out.push(45);
            push_bytes(out, t.as_str().as_bytes());
            out.push(13);
            out.push(10);
            assert(out@ =~= old(out)@ + spec_encode(f@));
        },
        Frame::Integer(n) => {
            out.push(58);
            push_dec(out, *n);
            out.push(13);
            out.push(10);
            assert(out@ =~= old(out)@ + spec_encode(f@));
        },
        Frame::Bulk(b) => {
            out.push(36);
            push_dec(out, b.len() as u64);
            out.push(13);
            out.push(10);
            push_bytes(out, b.as_slice());
            out.push(13);
            out.push(10);
            assert(out@ =~= old(out)@ + spec_encode(f@));
        },
        Frame::Null => {
            out.push(36);
            out.push(45);
            out.push(49);
            out.push(13);
            out.push(10);
            assert(out@ =~= old(out)@ + spec_encode(f@));
        },
        Frame::Array(v) => {
            let ghost elems = match f@ {
                FrameView::Array(e) => e,
                _ => Seq::empty(),
            };
            out.push(42);
            push_dec(out, v.len() as u64);
            out.push(13);
            out.push(10);
            let ghost base = out@;
            let mut i: usize = 0;
            while i < v.len()
                invariant
                    *f == Frame::Array(*v),
                    i <= v@.len(),
                    elems.len() == v@.len(),
                    forall|k: int| 0 <= k < v@.len() ==> elems[k] == frame_view(v@[k]),
                    out@ == base + encode_seq(elems.take(i as int)),
                decreases v@.len() - i,
            {
                proof {
                    assert(decreases_to!(*f => f->Array_0@[i as int]));
                    assert(f->Array_0@[i as int] == v@[i as int]);
                }
                encode_into(out, &v[i]);
                proof {
                    lemma_encode_seq_take(elems, i as int);
                    assert(out@ =~= base + encode_seq(elems.take(i + 1)));
                }
                i = i + 1;
            }
            assert(elems.take(i as int) =~= elems);
            assert(out@ =~= old(out)@ + spec_encode(f@));
        },
    }
}

/// The encoding of a frame, as a fresh byte vector.
pub fn encode(f: &Frame) -> (r: Vec<u8>)
    ensures
        r@ == spec_encode(f@),
{
    let mut out: Vec<u8> = Vec::new();
    encode_into(&mut out, f);
    out
}

} // verus!
