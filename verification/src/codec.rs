//! The wire format, stated mathematically: what byte sequence a frame
//! encodes to, and what the incremental decoder yields on any byte
//! sequence — a parsed frame with its consumed length, a request for more
//! bytes, or a protocol error.
//!
//! The format is line oriented. Headers end in CRLF; `+` opens a simple
//! string, `-` an error string, `:` an unsigned decimal integer, `$` a
//! length-prefixed bulk byte string (with `$-1` as the null frame), and `*`
//! a count-prefixed array of sub-frames.
use vstd::prelude::*;
use vstd::utf8::decode_utf8;
use vstd::utf8::encode_utf8;
use vstd::utf8::valid_utf8;

use crate::frame::FrameView;
use crate::frame::MAX_ARRAY_LEN;
use crate::frame::MAX_BULK_LEN;

verus! {

/// Why the decoder rejected a byte sequence. A rejection is fatal to the
/// connection that produced the bytes: framing can no longer be trusted.
#[derive(Debug, Clone, Copy, PartialEq, Eq, Structural)]
pub enum DecodeError {
    /// The first byte names no known frame type.
    UnknownType,
    /// A decimal header was empty or held a non-digit byte.
    BadDigit,
    /// An integer frame's value does not fit in an unsigned 64-bit word.
    IntegerOverflow,
    /// A bulk length header exceeded [`MAX_BULK_LEN`].
    BulkTooLong,
    /// An array count header exceeded [`MAX_ARRAY_LEN`].
    ArrayTooLong,
    /// Arrays were nested deeper than the decoder's budget.
    TooDeep,
    /// A bulk payload was not followed by CRLF.
    BadTerminator,
    /// Simple or error text held CR, LF, or invalid UTF-8.
    BadText,
}

/// Outcome of decoding a byte sequence, at the specification level.
#[verifier::ext_equal]
pub enum SpecDecoded {
    /// A whole frame lay at the front of the input; `int` is its byte length.
    Parsed(FrameView, int),
    /// The input is a proper prefix of some encoded frame; more bytes are
    /// needed and nothing may be consumed.
    Incomplete,
    /// The input can begin no encoded frame.
    Invalid(DecodeError),
}

/// Outcome of decoding a run of consecutive frames (an array's elements).
#[verifier::ext_equal]
pub enum SpecDecodedSeq {
    Parsed(Seq<FrameView>, int),
    Incomplete,
    Invalid(DecodeError),
}

/// Byte sequence free of CR and LF.
pub open spec fn bytes_clean(b: Seq<u8>) -> bool {
    forall|i: int| 0 <= i < b.len() ==> #[trigger] b[i] != 13 && b[i] != 10
}

/// ASCII decimal digits only.
pub open spec fn all_digits(b: Seq<u8>) -> bool {
    forall|i: int| 0 <= i < b.len() ==> 48 <= #[trigger] b[i] <= 57
}

/// Numeric value of a digit run, most significant digit first.
pub open spec fn dec_val(b: Seq<u8>) -> int
    decreases b.len(),
{
    if b.len() == 0 {
        0
    } else {
        dec_val(b.drop_last()) * 10 + (b.last() - 48)
    }
}

/// Shortest decimal digit run for `n`: no leading zero except for zero itself.
pub open spec fn dec_digits(n: nat) -> Seq<u8>
    decreases n,
{
    if n < 10 {
        seq![(48 + n) as u8]
    } else {
        dec_digits(n / 10) + seq![(48 + n % 10) as u8]
    }
}

/// Position of the first CRLF pair, if any.
pub open spec fn find_crlf(b: Seq<u8>) -> Option<int>
    decreases b.len(),
{
    if b.len() < 2 {
        None
    } else if b[0] == 13 && b[1] == 10 {
        Some(0)
    } else {
        match find_crlf(b.drop_first()) {
            Some(j) => Some(j + 1),
            None => None,
        }
    }
}

/// A digit run's value is never negative.
pub proof fn lemma_dec_val_nonneg(b: Seq<u8>)
    requires
        all_digits(b),
    ensures
        dec_val(b) >= 0,
    decreases b.len(),
{
    if b.len() > 0 {
        assert(all_digits(b.drop_last())) by {
            assert(forall|i: int|
                0 <= i < b.drop_last().len() ==> b.drop_last()[i] == #[trigger] b[i]);
        }
        lemma_dec_val_nonneg(b.drop_last());
    }
}

/// What [`find_crlf`] finds is the first CRLF pair; `None` means there is none.
pub proof fn lemma_find_crlf_first(b: Seq<u8>)
    ensures
        match find_crlf(b) {
            Some(j) => 0 <= j && j + 2 <= b.len() && b[j] == 13 && b[j + 1] == 10 && (forall|i: int|
                0 <= i < j ==> !(#[trigger] b[i] == 13 && b[i + 1] == 10)),
            None => forall|i: int| 0 <= i && i + 2 <= b.len() ==> !(#[trigger] b[i] == 13 && b[i + 1] == 10),
        },
    decreases b.len(),
{
    if b.len() < 2 {
    } else if b[0] == 13 && b[1] == 10 {
    } else {
        lemma_find_crlf_first(b.drop_first());
        assert forall|i: int| 1 <= i && i + 2 <= b.len() implies #[trigger] b[i] == b.drop_first()[i - 1]
            && b[i + 1] == b.drop_first()[i] by {}
    }
}

/// The encoding of a frame. Total: any frame value has an encoding, though
/// only a well-formed one decodes back to itself.
pub open spec fn spec_encode(f: FrameView) -> Seq<u8>
    decreases f,
{
    match f {
        FrameView::Simple(t) => seq![43u8] + encode_utf8(t) + seq![13u8, 10u8],
        FrameView::Error(t) => seq![45u8] + encode_utf8(t) + seq![13u8, 10u8],
        FrameView::Integer(n) => seq![58u8] + dec_digits(n as nat) + seq![13u8, 10u8],
        FrameView::Bulk(b) => seq![36u8] + dec_digits(b.len()) + seq![13u8, 10u8] + b + seq![
            13u8,
            10u8,
        ],
        FrameView::Null => seq![36u8, 45u8, 49u8, 13u8, 10u8],
        FrameView::Array(elems) => seq![42u8] + dec_digits(elems.len()) + seq![13u8, 10u8]
            + encode_seq(elems),
    }
}

/// The concatenated encodings of a run of frames, in order.
pub open spec fn encode_seq(elems: Seq<FrameView>) -> Seq<u8>
    decreases elems,
{
    if elems.len() == 0 {
        Seq::empty()
    } else {
        spec_encode(elems.first()) + encode_seq(elems.drop_first())
    }
}

/// Decoding a text (simple or error) frame: everything up to the first CRLF
/// is the payload, which must be CR/LF-free valid UTF-8.
pub open spec fn spec_decode_text(s: Seq<u8>) -> SpecDecoded
    recommends
        s.len() >= 1,
        s[0] == 43 || s[0] == 45,
{
    match find_crlf(s.drop_first()) {
        None => SpecDecoded::Incomplete,
        Some(j) => {
            let line = s.drop_first().take(j);
            if !(bytes_clean(line) && valid_utf8(line)) {
                SpecDecoded::Invalid(DecodeError::BadText)
            } else if s[0] == 43 {
                SpecDecoded::Parsed(FrameView::Simple(decode_utf8(line)), 3 + j)
            } else {
                SpecDecoded::Parsed(FrameView::Error(decode_utf8(line)), 3 + j)
            }
        },
    }
}

/// Decoding an integer frame: a non-empty digit run whose value fits in u64.
pub open spec fn spec_decode_integer(s: Seq<u8>) -> SpecDecoded
    recommends
        s.len() >= 1,
        s[0] == 58,
{
    match find_crlf(s.drop_first()) {
        None => SpecDecoded::Incomplete,
        Some(j) => {
            let line = s.drop_first().take(j);
            if !(line.len() >= 1 && all_digits(line)) {
                SpecDecoded::Invalid(DecodeError::BadDigit)
            } else if dec_val(line) > u64::MAX {
                SpecDecoded::Invalid(DecodeError::IntegerOverflow)
            } else {
                SpecDecoded::Parsed(FrameView::Integer(dec_val(line) as u64), 3 + j)
            }
        },
    }
}

/// Decoding a bulk frame: a length header, that many payload bytes, CRLF.
/// The header `-1` is the null frame.
pub open spec fn spec_decode_bulk(s: Seq<u8>) -> SpecDecoded
    recommends
        s.len() >= 1,
        s[0] == 36,
{
    match find_crlf(s.drop_first()) {
        None => SpecDecoded::Incomplete,
        Some(j) => {
            let h = s.drop_first().take(j);
            if h.len() >= 1 && h[0] == 45 {
                if h == seq![45u8, 49u8] {
                    SpecDecoded::Parsed(FrameView::Null, 3 + j)
                } else {
                    SpecDecoded::Invalid(DecodeError::BadDigit)
                }
            } else if !(h.len() >= 1 && all_digits(h)) {
                SpecDecoded::Invalid(DecodeError::BadDigit)
            } else if dec_val(h) > MAX_BULK_LEN {
                SpecDecoded::Invalid(DecodeError::BulkTooLong)
            } else {
                let n = dec_val(h);
                let rest = s.skip(3 + j);
                if rest.len() < n + 2 {
                    SpecDecoded::Incomplete
                } else if !(rest[n] == 13 && rest[n + 1] == 10) {
                    SpecDecoded::Invalid(DecodeError::BadTerminator)
                } else {
                    SpecDecoded::Parsed(FrameView::Bulk(rest.take(n)), 3 + j + n + 2)
                }
            }
        },
    }
}

/// What decoding yields on any input, given a remaining nesting budget.
/// `Incomplete` consumes nothing: the caller reads more bytes and retries
/// on the grown input.
pub open spec fn spec_decode(s: Seq<u8>, depth: nat) -> SpecDecoded
    decreases depth, 0nat, 0nat,
{
    if s.len() == 0 {
        SpecDecoded::Incomplete
    } else if s[0] == 43 || s[0] == 45 {
        spec_decode_text(s)
    } else if s[0] == 58 {
        spec_decode_integer(s)
    } else if s[0] == 36 {
        spec_decode_bulk(s)
    } else if s[0] == 42 {
        match find_crlf(s.drop_first()) {
            None => SpecDecoded::Incomplete,
            Some(j) => {
                let h = s.drop_first().take(j);
                if !(h.len() >= 1 && all_digits(h)) {
                    SpecDecoded::Invalid(DecodeError::BadDigit)
                } else if dec_val(h) > MAX_ARRAY_LEN {
                    SpecDecoded::Invalid(DecodeError::ArrayTooLong)
                } else if depth == 0 {
                    SpecDecoded::Invalid(DecodeError::TooDeep)
                } else {
                    match spec_decode_elems(
                        s.skip(3 + j),
                        dec_val(h) as nat,
                        (depth - 1) as nat,
                    ) {
                        SpecDecodedSeq::Parsed(elems, m) => SpecDecoded::Parsed(
                            FrameView::Array(elems),
                            3 + j + m,
                        ),
                        SpecDecodedSeq::Incomplete => SpecDecoded::Incomplete,
                        SpecDecodedSeq::Invalid(e) => SpecDecoded::Invalid(e),
                    }
                }
            },
        }
    } else {
        SpecDecoded::Invalid(DecodeError::UnknownType)
    }
}

/// Decoding `count` consecutive frames from the front of the input.
pub open spec fn spec_decode_elems(s: Seq<u8>, count: nat, depth: nat) -> SpecDecodedSeq
    decreases depth, count, 1nat,
{
    if count == 0 {
        SpecDecodedSeq::Parsed(Seq::empty(), 0)
    } else {
        match spec_decode(s, depth) {
            SpecDecoded::Parsed(f, n) => match spec_decode_elems(
                s.skip(n),
                (count - 1) as nat,
                depth,
            ) {
                SpecDecodedSeq::Parsed(fs, m) => SpecDecodedSeq::Parsed(seq![f] + fs, n + m),
                SpecDecodedSeq::Incomplete => SpecDecodedSeq::Incomplete,
                SpecDecodedSeq::Invalid(e) => SpecDecodedSeq::Invalid(e),
            },
            SpecDecoded::Incomplete => SpecDecodedSeq::Incomplete,
            SpecDecoded::Invalid(e) => SpecDecodedSeq::Invalid(e),
        }
    }
}

/// A parsed frame consumes at least one byte and never more than the input.
pub proof fn lemma_spec_decode_bounds(s: Seq<u8>, depth: nat)
    ensures
        spec_decode(s, depth) matches SpecDecoded::Parsed(_, n) ==> 1 <= n <= s.len(),
    decreases depth, 0nat, 0nat,
{
    if s.len() == 0 {
    } else if s[0] == 43 || s[0] == 45 || s[0] == 58 || s[0] == 36 {
        lemma_find_crlf_first(s.drop_first());
        if s[0] == 36 {
            match find_crlf(s.drop_first()) {
                Some(j) => {
                    let h = s.drop_first().take(j);
                    if h.len() >= 1 && all_digits(h) {
                        lemma_dec_val_nonneg(h);
                    }
                },
                None => {},
            }
        }
    } else if s[0] == 42 {
        match find_crlf(s.drop_first()) {
            None => {},
            Some(j) => {
                lemma_find_crlf_first(s.drop_first());
                let h = s.drop_first().take(j);
                if h.len() >= 1 && all_digits(h) && dec_val(h) <= MAX_ARRAY_LEN && depth >= 1 {
                    lemma_dec_val_nonneg(h);
                    lemma_spec_decode_elems_bounds(
                        s.skip(3 + j),
                        dec_val(h) as nat,
                        (depth - 1) as nat,
                    );
                }
            },
        }
    } else {
    }
}

/// Bound on what a run of parsed frames consumes.
pub proof fn lemma_spec_decode_elems_bounds(s: Seq<u8>, count: nat, depth: nat)
    ensures
        spec_decode_elems(s, count, depth) matches SpecDecodedSeq::Parsed(fs, m) ==> 0 <= m
            <= s.len() && fs.len() == count,
    decreases depth, count, 1nat,
{
    if count == 0 {
    } else {
        lemma_spec_decode_bounds(s, depth);
        match spec_decode(s, depth) {
            SpecDecoded::Parsed(f, n) => {
                lemma_spec_decode_elems_bounds(s.skip(n), (count - 1) as nat, depth);
            },
            _ => {},
        }
    }
}

/// Digits are neither CR nor LF.
pub proof fn lemma_digits_clean(b: Seq<u8>)
    requires
        all_digits(b),
    ensures
        bytes_clean(b),
{
}

/// The canonical digit run of `n` is non-empty, all digits, and reads back
/// as `n`.
pub proof fn lemma_dec_digits(n: nat)
    ensures
        dec_digits(n).len() >= 1,
        all_digits(dec_digits(n)),
        dec_val(dec_digits(n)) == n,
    decreases n,
{
    if n < 10 {
        let d = dec_digits(n);
        assert(d =~= seq![(48 + n) as u8]);
        assert(d.drop_last() =~= Seq::<u8>::empty());
        assert(d.last() == (48 + n) as u8);
        assert(dec_val(d) == dec_val(d.drop_last()) * 10 + (d.last() - 48));
        assert(dec_val(d) == n);
    } else {
        lemma_dec_digits(n / 10);
        let d = dec_digits(n / 10);
        let whole = dec_digits(n);
        assert(whole =~= d + seq![(48 + n % 10) as u8]);
        assert(whole.drop_last() =~= d);
        assert(whole.last() == (48 + n % 10) as u8);
        assert(dec_val(whole) == dec_val(d) * 10 + n % 10);
        assert((n / 10) * 10 + n % 10 == n);
        assert forall|i: int| 0 <= i < whole.len() implies 48 <= #[trigger] whole[i] <= 57 by {
            if i < d.len() {
                assert(whole[i] == d[i]);
            }
        }
    }
}

/// In `clean CRLF rest`, the first CRLF pair stands right after `clean`.
pub proof fn lemma_find_crlf_after(c: Seq<u8>, rest: Seq<u8>)
    requires
        bytes_clean(c),
    ensures
        find_crlf(c + seq![13u8, 10u8] + rest) == Some(c.len() as int),
{
    let b = c + seq![13u8, 10u8] + rest;
    lemma_find_crlf_first(b);
    assert(b[c.len() as int] == 13);
    assert(b[c.len() as int + 1] == 10);
    match find_crlf(b) {
        None => {
            assert(false);
        },
        Some(j) => {
            if j < c.len() {
                assert(b[j] == c[j]);
                assert(false);
            }
            if j > c.len() {
                assert(!(b[c.len() as int] == 13 && b[c.len() as int + 1] == 10));
                assert(false);
            }
        },
    }
}

/// A proper prefix of `clean CRLF` holds no CRLF pair at all.
pub proof fn lemma_find_crlf_short(c: Seq<u8>, k: int)
    requires
        bytes_clean(c),
        0 <= k < c.len() + 2,
    ensures
        find_crlf((c + seq![13u8, 10u8]).take(k)) == Option::<int>::None,
{
    let p = (c + seq![13u8, 10u8]).take(k);
    lemma_find_crlf_first(p);
    match find_crlf(p) {
        Some(j) => {
            assert(j + 2 <= k);
            assert(p[j] == c[j]);
            assert(false);
        },
        None => {},
    }
}

/// Text free of CR and LF encodes to bytes free of CR and LF.
pub proof fn lemma_clean_text_encodes_clean(t: Seq<char>)
    requires
        crate::frame::text_clean(t),
    ensures
        bytes_clean(vstd::utf8::encode_utf8(t)),
    decreases t.len(),
{
    if t.len() == 0 {
    } else {
        let c = t[0] as u32;
        vstd::utf8::char_is_scalar(t[0]);
        lemma_encode_scalar_clean(c);
        assert(crate::frame::text_clean(t.drop_first()));
        lemma_clean_text_encodes_clean(t.drop_first());
        let head = vstd::utf8::encode_scalar(c);
        let tail = vstd::utf8::encode_utf8(t.drop_first());
        assert(vstd::utf8::encode_utf8(t) == head + tail);
        assert forall|i: int| 0 <= i < (head + tail).len() implies #[trigger] (head + tail)[i] != 13
            && (head + tail)[i] != 10 by {
            if i < head.len() {
                assert((head + tail)[i] == head[i]);
            } else {
                assert((head + tail)[i] == tail[i - head.len()]);
            }
        }
    }
}

/// No byte of the encoding of a scalar other than CR or LF is CR or LF.
proof fn lemma_encode_scalar_clean(c: u32)
    requires
        vstd::utf8::is_scalar(c),
        c != 13,
        c != 10,
    ensures
        bytes_clean(vstd::utf8::encode_scalar(c)),
{
    if vstd::utf8::has_width_1_encoding(c) {
        assert(c < 0x80 && c != 13 && c != 10 ==> ((c & 0x7F) as u8) != 13 && ((c & 0x7F) as u8)
            != 10) by (bit_vector);
    } else if vstd::utf8::has_width_2_encoding(c) {
        assert((0xC0 | (((c >> 6) & 0x1F) as u8)) >= 0xC0) by (bit_vector);
        assert((0x80 | ((c & 0x3F) as u8)) >= 0x80) by (bit_vector);
    } else if vstd::utf8::has_width_3_encoding(c) {
        assert((0xE0 | (((c >> 12) & 0x0F) as u8)) >= 0xE0) by (bit_vector);
        assert((0x80 | (((c >> 6) & 0x3F) as u8)) >= 0x80) by (bit_vector);
        assert((0x80 | ((c & 0x3F) as u8)) >= 0x80) by (bit_vector);
    } else {
        assert((0xF0 | (((c >> 18) & 0x7) as u8)) >= 0xF0) by (bit_vector);
        assert((0x80 | (((c >> 12) & 0x3F) as u8)) >= 0x80) by (bit_vector);
        assert((0x80 | (((c >> 6) & 0x3F) as u8)) >= 0x80) by (bit_vector);
        assert((0x80 | ((c & 0x3F) as u8)) >= 0x80) by (bit_vector);
    }
}

/// Round trip with retained suffix: the encoding of a well-formed frame,
/// however many bytes follow it, decodes to exactly that frame, consuming
/// exactly the encoding and leaving the suffix untouched. With an empty
/// suffix this is the round-trip law; with a second frame's encoding as the
/// suffix it is the buffer-retention law.
pub proof fn lemma_decode_encode(f: FrameView, rest: Seq<u8>, depth: nat)
    requires
        crate::frame::wf_frame(f, depth),
    ensures
        spec_decode(spec_encode(f) + rest, depth) == SpecDecoded::Parsed(
            f,
            spec_encode(f).len() as int,
        ),
    decreases f,
{
    let s = spec_encode(f) + rest;
    match f {
        FrameView::Simple(t) => {
            let c = vstd::utf8::encode_utf8(t);
            assert(s[0] == 43);
            assert(s.drop_first() =~= c + seq![13u8, 10u8] + rest);
            lemma_clean_text_encodes_clean(t);
            lemma_find_crlf_after(c, rest);
            let line = s.drop_first().take(c.len() as int);
            assert(line =~= c);
            vstd::utf8::encode_utf8_valid_utf8(t);
            vstd::utf8::encode_utf8_decode_utf8(t);
        },
        FrameView::Error(t) => {
            let c = vstd::utf8::encode_utf8(t);
            assert(s[0] == 45);
            assert(s.drop_first() =~= c + seq![13u8, 10u8] + rest);
            lemma_clean_text_encodes_clean(t);
            lemma_find_crlf_after(c, rest);
            let line = s.drop_first().take(c.len() as int);
            assert(line =~= c);
            vstd::utf8::encode_utf8_valid_utf8(t);
            vstd::utf8::encode_utf8_decode_utf8(t);
        },
        FrameView::Integer(n) => {
            let c = dec_digits(n as nat);
            lemma_dec_digits(n as nat);
            lemma_digits_clean(c);
            assert(s[0] == 58);
            assert(s.drop_first() =~= c + seq![13u8, 10u8] + rest);
            lemma_find_crlf_after(c, rest);
            let line = s.drop_first().take(c.len() as int);
            assert(line =~= c);
        },
        FrameView::Bulk(b) => {
            let h = dec_digits(b.len());
            lemma_dec_digits(b.len());
            lemma_digits_clean(h);
            assert(s[0] == 36);
            assert(s.drop_first() =~= h + seq![13u8, 10u8] + (b + seq![13u8, 10u8] + rest));
            lemma_find_crlf_after(h, b + seq![13u8, 10u8] + rest);
            let j = h.len() as int;
            let hh = s.drop_first().take(j);
            assert(hh =~= h);
            assert(48 <= h[0] <= 57);
            let n = b.len() as int;
            let tail = s.skip(3 + j);
            assert(tail =~= b + seq![13u8, 10u8] + rest);
            assert(tail[n] == 13);
            assert(tail[n + 1] == 10);
            assert(tail.take(n) =~= b);
            assert(spec_encode(f).len() == 3 + j + n + 2);
        },
        FrameView::Null => {
            assert(s[0] == 36);
            let c = seq![45u8, 49u8];
            assert(bytes_clean(c));
            assert(s.drop_first() =~= c + seq![13u8, 10u8] + rest);
            lemma_find_crlf_after(c, rest);
            let hh = s.drop_first().take(2);
            assert(hh =~= c);
            assert(hh == seq![45u8, 49u8]);
            assert(hh[0] == 45);
        },
        FrameView::Array(elems) => {
            let h = dec_digits(elems.len());
            lemma_dec_digits(elems.len());
            lemma_digits_clean(h);
            assert(s[0] == 42);
            let body = encode_seq(elems);
            assert(s.drop_first() =~= h + seq![13u8, 10u8] + (body + rest));
            lemma_find_crlf_after(h, body + rest);
            let j = h.len() as int;
            let hh = s.drop_first().take(j);
            assert(hh =~= h);
            assert(depth >= 1);
            assert(s.skip(3 + j) =~= body + rest);
            assert forall|i: int| 0 <= i < elems.len() implies crate::frame::wf_frame(
                #[trigger] elems[i],
                (depth - 1) as nat,
            ) by {}
            lemma_decode_encode_seq(elems, rest, (depth - 1) as nat);
            assert(spec_encode(f).len() == 3 + j + body.len());
        },
    }
}

/// A run of well-formed frames, encoded back to back and followed by any
/// suffix, decodes element by element to exactly that run, in order.
pub proof fn lemma_decode_encode_seq(elems: Seq<FrameView>, rest: Seq<u8>, depth: nat)
    requires
        forall|i: int| 0 <= i < elems.len() ==> crate::frame::wf_frame(#[trigger] elems[i], depth),
    ensures
        spec_decode_elems(encode_seq(elems) + rest, elems.len(), depth) == SpecDecodedSeq::Parsed(
            elems,
            encode_seq(elems).len() as int,
        ),
    decreases elems,
{
    let s = encode_seq(elems) + rest;
    if elems.len() == 0 {
        assert(elems =~= Seq::<FrameView>::empty());
        assert(encode_seq(elems).len() == 0);
        assert(spec_decode_elems(s, 0, depth) =~= SpecDecodedSeq::Parsed(
            Seq::<FrameView>::empty(),
            0,
        ));
    } else {
        let e0 = elems.first();
        let tail = elems.drop_first();
        let n0 = spec_encode(e0).len() as int;
        assert(s =~= spec_encode(e0) + (encode_seq(tail) + rest));
        lemma_decode_encode(e0, encode_seq(tail) + rest, depth);
        assert(spec_decode(s, depth) == SpecDecoded::Parsed(e0, n0));
        assert(s.skip(n0) =~= encode_seq(tail) + rest);
        assert forall|i: int| 0 <= i < tail.len() implies crate::frame::wf_frame(
            #[trigger] tail[i],
            depth,
        ) by {
            assert(tail[i] == elems[i + 1]);
        }
        lemma_decode_encode_seq(tail, rest, depth);
        assert(seq![e0] + tail =~= elems);
        assert(encode_seq(elems).len() == n0 + encode_seq(tail).len());
    }
}

/// Incremental delivery: any proper prefix of a well-formed frame's encoding
/// decodes to `Incomplete` — never to a frame, never to an error — so a
/// caller who buffers bytes and retries can never misparse a split frame.
pub proof fn lemma_decode_prefix(f: FrameView, k: int, depth: nat)
    requires
        crate::frame::wf_frame(f, depth),
        0 <= k < spec_encode(f).len(),
    ensures
        spec_decode(spec_encode(f).take(k), depth) == SpecDecoded::Incomplete,
    decreases f,
{
    let enc = spec_encode(f);
    let p = enc.take(k);
    if k == 0 {
        assert(p.len() == 0);
    } else {
        match f {
            FrameView::Simple(t) => {
                let c = vstd::utf8::encode_utf8(t);
                lemma_clean_text_encodes_clean(t);
                assert(p[0] == 43);
                assert(p.drop_first() =~= (c + seq![13u8, 10u8]).take(k - 1));
                lemma_find_crlf_short(c, k - 1);
            },
            FrameView::Error(t) => {
                let c = vstd::utf8::encode_utf8(t);
                lemma_clean_text_encodes_clean(t);
                assert(p[0] == 45);
                assert(p.drop_first() =~= (c + seq![13u8, 10u8]).take(k - 1));
                lemma_find_crlf_short(c, k - 1);
            },
            FrameView::Integer(n) => {
                let c = dec_digits(n as nat);
                lemma_dec_digits(n as nat);
                lemma_digits_clean(c);
                assert(p[0] == 58);
                assert(p.drop_first() =~= (c + seq![13u8, 10u8]).take(k - 1));
                lemma_find_crlf_short(c, k - 1);
            },
            FrameView::Null => {
                let c = seq![45u8, 49u8];
                assert(bytes_clean(c));
                assert(p[0] == 36);
                assert(p.drop_first() =~= (c + seq![13u8, 10u8]).take(k - 1));
                lemma_find_crlf_short(c, k - 1);
            },
            FrameView::Bulk(b) => {
                let h = dec_digits(b.len());
                lemma_dec_digits(b.len());
                lemma_digits_clean(h);
                assert(p[0] == 36);
                let hdr = 3 + h.len() as int;
                if k < hdr {
                    assert(p.drop_first() =~= (h + seq![13u8, 10u8]).take(k - 1));
                    lemma_find_crlf_short(h, k - 1);
                } else {
                    let tail = (b + seq![13u8, 10u8]).take(k - hdr);
                    assert(p.drop_first() =~= h + seq![13u8, 10u8] + tail);
                    lemma_find_crlf_after(h, tail);
                    let hh = p.drop_first().take(h.len() as int);
                    assert(hh =~= h);
                    assert(48 <= h[0] <= 57);
                    assert(p.skip(hdr) =~= tail);
                    assert(tail.len() < b.len() + 2);
                }
            },
            FrameView::Array(elems) => {
                let h = dec_digits(elems.len());
                lemma_dec_digits(elems.len());
                lemma_digits_clean(h);
                assert(p[0] == 42);
                let hdr = 3 + h.len() as int;
                let body = encode_seq(elems);
                if k < hdr {
                    assert(p.drop_first() =~= (h + seq![13u8, 10u8]).take(k - 1));
                    lemma_find_crlf_short(h, k - 1);
                } else {
                    let tail = body.take(k - hdr);
                    assert(p.drop_first() =~= h + seq![13u8, 10u8] + tail);
                    lemma_find_crlf_after(h, tail);
                    let hh = p.drop_first().take(h.len() as int);
                    assert(hh =~= h);
                    assert(depth >= 1);
                    assert(p.skip(hdr) =~= tail);
                    assert(k - hdr < body.len());
                    assert forall|i: int| 0 <= i < elems.len() implies crate::frame::wf_frame(
                        #[trigger] elems[i],
                        (depth - 1) as nat,
                    ) by {}
                    lemma_decode_prefix_seq(elems, k - hdr, (depth - 1) as nat);
                }
            },
        }
    }
}

/// The run form of [`lemma_decode_prefix`]: a proper prefix of a run of
/// encodings leaves the element decoder waiting for more bytes.
pub proof fn lemma_decode_prefix_seq(elems: Seq<FrameView>, k: int, depth: nat)
    requires
        forall|i: int| 0 <= i < elems.len() ==> crate::frame::wf_frame(#[trigger] elems[i], depth),
        0 <= k < encode_seq(elems).len(),
    ensures
        spec_decode_elems(encode_seq(elems).take(k), elems.len(), depth)
            == SpecDecodedSeq::Incomplete,
    decreases elems,
{
    let body = encode_seq(elems);
    let p = body.take(k);
    assert(elems.len() >= 1);
    let e0 = elems.first();
    let tail = elems.drop_first();
    let n0 = spec_encode(e0).len() as int;
    assert(body =~= spec_encode(e0) + encode_seq(tail));
    if k < n0 {
        assert(p =~= spec_encode(e0).take(k));
        lemma_decode_prefix(e0, k, depth);
    } else {
        let ptail = encode_seq(tail).take(k - n0);
        assert(p =~= spec_encode(e0) + ptail);
        lemma_decode_encode(e0, ptail, depth);
        assert(spec_decode(p, depth) == SpecDecoded::Parsed(e0, n0));
        assert(p.skip(n0) =~= ptail);
        assert(k - n0 < encode_seq(tail).len());
        assert forall|i: int| 0 <= i < tail.len() implies crate::frame::wf_frame(
            #[trigger] tail[i],
            depth,
        ) by {
            assert(tail[i] == elems[i + 1]);
        }
        lemma_decode_prefix_seq(tail, k - n0, depth);
    }
}

/// Text with a CR or LF character encodes to bytes with a CR or LF byte.
proof fn lemma_dirty_text_encodes_dirty(t: Seq<char>)
    requires
        !crate::frame::text_clean(t),
    ensures
        !bytes_clean(encode_utf8(t)),
    decreases t.len(),
{
    let i = choose|i: int|
        0 <= i < t.len() && ((t[i] as u32) == 13 || (t[i] as u32) == 10);
    let head = vstd::utf8::encode_scalar(t[0] as u32);
    let tail = encode_utf8(t.drop_first());
    assert(encode_utf8(t) == head + tail);
    if i == 0 {
        let c = t[0] as u32;
        vstd::utf8::char_is_scalar(t[0]);
        assert(c == 13 || c == 10 ==> ((c & 0x7F) as u8) == c) by (bit_vector);
        assert(head[0] == c as u8);
        assert((head + tail)[0] == head[0]);
    } else {
        assert((t.drop_first()[i - 1] as u32) == (t[i] as u32));
        assert(!crate::frame::text_clean(t.drop_first()));
        lemma_dirty_text_encodes_dirty(t.drop_first());
        let j = choose|j: int| 0 <= j < tail.len() && (tail[j] == 13 || tail[j] == 10);
        assert((head + tail)[head.len() + j] == tail[j]);
    }
}

/// Whatever the decoder parses is itself well formed within the budget it
/// was parsed under: the decoder can never hand back a frame it would
/// refuse to recognize, nor one the encoder could not safely re-emit.
pub proof fn lemma_decode_wf(s: Seq<u8>, depth: nat)
    ensures
        spec_decode(s, depth) matches SpecDecoded::Parsed(f, _) ==> crate::frame::wf_frame(
            f,
            depth,
        ),
    decreases depth, 0nat, 0nat,
{
    if s.len() == 0 {
    } else if s[0] == 43 || s[0] == 45 {
        match find_crlf(s.drop_first()) {
            None => {},
            Some(j) => {
                let line = s.drop_first().take(j);
                if bytes_clean(line) && valid_utf8(line) {
                    let t = decode_utf8(line);
                    if !crate::frame::text_clean(t) {
                        lemma_dirty_text_encodes_dirty(t);
                        vstd::utf8::decode_utf8_encode_utf8(line);
                        assert(false);
                    }
                }
            },
        }
    } else if s[0] == 58 || s[0] == 36 {
        if s[0] == 36 {
            match find_crlf(s.drop_first()) {
                None => {},
                Some(j) => {
                    let h = s.drop_first().take(j);
                    if !(h.len() >= 1 && h[0] == 45) && h.len() >= 1 && all_digits(h) {
                        lemma_dec_val_nonneg(h);
                    }
                },
            }
        }
    } else if s[0] == 42 {
        match find_crlf(s.drop_first()) {
            None => {},
            Some(j) => {
                let h = s.drop_first().take(j);
                if h.len() >= 1 && all_digits(h) && dec_val(h) <= MAX_ARRAY_LEN && depth >= 1 {
                    lemma_dec_val_nonneg(h);
                    let count = dec_val(h) as nat;
                    let rest = s.skip(3 + j);
                    lemma_spec_decode_elems_bounds(rest, count, (depth - 1) as nat);
                    lemma_decode_elems_wf(rest, count, (depth - 1) as nat);
                }
            },
        }
    } else {
    }
}

/// The run form of [`lemma_decode_wf`].
proof fn lemma_decode_elems_wf(s: Seq<u8>, count: nat, depth: nat)
    ensures
        spec_decode_elems(s, count, depth) matches SpecDecodedSeq::Parsed(fs, _) ==> forall|i: int|
            0 <= i < fs.len() ==> crate::frame::wf_frame(#[trigger] fs[i], depth),
    decreases depth, count, 1nat,
{
    if count == 0 {
    } else {
        lemma_decode_wf(s, depth);
        match spec_decode(s, depth) {
            SpecDecoded::Parsed(f, n) => {
                lemma_decode_elems_wf(s.skip(n), (count - 1) as nat, depth);
                match spec_decode_elems(s.skip(n), (count - 1) as nat, depth) {
                    SpecDecodedSeq::Parsed(fs, _) => {
                        assert forall|i: int| 0 <= i < fs.len() + 1 implies crate::frame::wf_frame(
                            #[trigger] (seq![f] + fs)[i],
                            depth,
                        ) by {
                            if i > 0 {
                                assert((seq![f] + fs)[i] == fs[i - 1]);
                            }
                        }
                    },
                    _ => {},
                }
            },
            _ => {},
        }
    }
}

} // verus!
