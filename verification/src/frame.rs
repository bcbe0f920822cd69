//! The protocol's value model: the `Frame` tagged union and its mathematical
//! view, together with the well-formedness predicate that the wire format
//! demands of a frame before it can be encoded and decoded back.
use vstd::prelude::*;
use vstd::string::StrSliceExecFns;

verus! {

broadcast use vstd::std_specs::vec::axiom_vec_index_decreases;

/// Largest payload, in bytes, that a bulk frame may carry. A decoder that
/// honoured arbitrary length headers could be made to allocate without bound
/// by untrusted input, so longer headers are rejected as invalid.
pub const MAX_BULK_LEN: u64 = 8 * 1024 * 1024;

/// Largest element count an array frame may declare, for the same reason.
pub const MAX_ARRAY_LEN: u64 = 1024;

/// Deepest array nesting the decoder will follow. Nesting is peer-controlled
/// input and must not drive unbounded recursion.
pub const MAX_DEPTH: u64 = 8;

/// One self-delimited protocol message unit.
///
/// `Simple` and `Error` carry UTF-8 text that must not contain a carriage
/// return or line feed (those bytes terminate the wire header). `Bulk` is a
/// binary-safe byte string; `Null` marks the absence of a value; `Array` is an
/// ordered composite of sub-frames.
#[derive(Debug, PartialEq, Eq)]
pub enum Frame {
    Simple(String),
    Error(String),
    Integer(u64),
    Bulk(Vec<u8>),
    Null,
    Array(Vec<Frame>),
}

/// The mathematical shape of a [`Frame`]: the same tree, with every
/// executable container replaced by its abstract sequence.
#[verifier::ext_equal]
pub enum FrameView {
    Simple(Seq<char>),
    Error(Seq<char>),
    Integer(u64),
    Bulk(Seq<u8>),
    Null,
    Array(Seq<FrameView>),
}

/// The abstract value of a frame.
pub open spec fn frame_view(f: Frame) -> FrameView
    decreases f,
{
    match f {
        Frame::Simple(s) => FrameView::Simple(s@),
        Frame::Error(s) => FrameView::Error(s@),
        Frame::Integer(n) => FrameView::Integer(n),
        Frame::Bulk(b) => FrameView::Bulk(b@),
        Frame::Null => FrameView::Null,
        Frame::Array(v) => FrameView::Array(
            Seq::new(
                v@.len(),
                |i: int|
                    if 0 <= i < v@.len() {
                        frame_view(v@[i])
                    } else {
                        FrameView::Null
                    },
            ),
        ),
    }
}

/// The abstract values of a run of frames, elementwise.
pub open spec fn views_of(v: Seq<Frame>) -> Seq<FrameView> {
    Seq::new(v.len(), |i: int| frame_view(v[i]))
}

impl View for Frame {
    type V = FrameView;

    open spec fn view(&self) -> FrameView {
        frame_view(*self)
    }
}

/// Text that may stand in a `Simple` or `Error` frame: no carriage return and
/// no line feed, since those characters delimit the frame on the wire.
pub open spec fn text_clean(t: Seq<char>) -> bool {
    forall|i: int| 0 <= i < t.len() ==> (t[i] as u32) != 13 && (t[i] as u32) != 10
}

/// Well-formedness of a frame against a remaining nesting budget `depth`:
/// exactly the frames that the decoder, run with the same budget, can ever
/// produce, and that the encoder turns into decodable bytes.
pub open spec fn wf_frame(f: FrameView, depth: nat) -> bool
    decreases f,
{
    match f {
        FrameView::Simple(t) => text_clean(t),
        FrameView::Error(t) => text_clean(t),
        FrameView::Integer(_) => true,
        FrameView::Bulk(b) => b.len() <= MAX_BULK_LEN,
        FrameView::Null => true,
        FrameView::Array(elems) => depth >= 1 && elems.len() <= MAX_ARRAY_LEN && (forall|i: int|
            0 <= i < elems.len() ==> wf_frame(#[trigger] elems[i], (depth - 1) as nat)),
    }
}

/// A frame the connection accepts for writing: well formed within the
/// decoder's full nesting budget.
pub open spec fn frame_well_formed(f: FrameView) -> bool {
    wf_frame(f, MAX_DEPTH as nat)
}

/// An array frame's view is the elementwise view of its elements.
pub proof fn lemma_array_view(v: Vec<Frame>)
    ensures
        frame_view(Frame::Array(v)) == FrameView::Array(views_of(v@)),
{
    let fv = frame_view(Frame::Array(v));
    assert(fv is Array);
    assert forall|i: int| 0 <= i < v@.len() implies fv->Array_0[i] == views_of(v@)[i] by {}
    assert(fv->Array_0 =~= views_of(v@));
    assert(fv =~= FrameView::Array(views_of(v@)));
}

/// Check a text payload for the reserved terminator characters.
fn text_is_clean(t: &str) -> (r: bool)
    ensures
        r == text_clean(t@),
{
    let n = t.unicode_len();
    let mut i: usize = 0;
    while i < n
        invariant
            i <= n == t@.len(),
            forall|k: int| 0 <= k < i ==> (#[trigger] t@[k] as u32) != 13 && (t@[k] as u32) != 10,
        decreases n - i,
    {
        let c = t.get_char(i);
        if c as u32 == 13 || c as u32 == 10 {
            return false;
        }
        i = i + 1;
    }
    true
}

/// Check a frame against a remaining nesting budget.
fn wf_at(f: &Frame, depth: u64) -> (r: bool)
    ensures
        r == wf_frame(f@, depth as nat),
    decreases f,
{
    match f {
        Frame::Simple(t) => text_is_clean(t.as_str()),
        Frame::Error(t) => text_is_clean(t.as_str()),
        Frame::Integer(_) => true,
        Frame::Bulk(b) => b.len() as u64 <= MAX_BULK_LEN,
        Frame::Null => true,
        Frame::Array(v) => {
            proof {
                lemma_array_view(*v);
            }
            if depth == 0 || v.len() as u64 > MAX_ARRAY_LEN {
                false
            } else {
                let mut i: usize = 0;
                let mut ok: bool = true;
                while i < v.len() && ok
                    invariant
                        *f == Frame::Array(*v),
                        depth >= 1,
                        i <= v@.len(),
                        ok ==> forall|k: int|
                            0 <= k < i ==> wf_frame(
                                #[trigger] views_of(v@)[k],
                                (depth - 1) as nat,
                            ),
                        !ok ==> exists|k: int|
                            0 <= k < v@.len() && !wf_frame(
                                #[trigger] views_of(v@)[k],
                                (depth - 1) as nat,
                            ),
                    decreases v@.len() - i,
                {
                    proof {
                        assert(decreases_to!(*f => f->Array_0@[i as int]));
                        assert(f->Array_0@[i as int] == v@[i as int]);
                    }
                    if !wf_at(&v[i], depth - 1) {
                        proof {
                            assert(views_of(v@)[i as int] == frame_view(v@[i as int]));
                        }
                        ok = false;
                    }
                    i = i + 1;
                }
                proof {
                    lemma_array_view(*v);
                    if ok {
                        assert(forall|k: int|
                            0 <= k < v@.len() ==> wf_frame(
                                #[trigger] views_of(v@)[k],
                                (depth - 1) as nat,
                            ));
                    }
                }
                ok
            }
        },
    }
}

/// Decide whether a frame may be written to the wire: exactly
/// [`frame_well_formed`].
pub fn is_well_formed(f: &Frame) -> (r: bool)
    ensures
        r == frame_well_formed(f@),
{
    wf_at(f, MAX_DEPTH)
}

} // verus!
