//! The executable incremental decoder: the exact computational counterpart
//! of [`spec_decode`]. On `Incomplete` the caller's buffer is untouched and
//! simply needs more bytes; on `Parsed` the consumed byte count delimits the
//! frame so remaining bytes stay available for the next frame.
use vstd::prelude::*;

use crate::codec::all_digits;
use crate::codec::bytes_clean;
use crate::codec::dec_val;
use crate::codec::find_crlf;
use crate::codec::lemma_dec_val_nonneg;
use crate::codec::lemma_find_crlf_first;
use crate::codec::spec_decode;
use crate::codec::spec_decode_elems;
use crate::codec::DecodeError;
use crate::codec::SpecDecoded;
use crate::codec::SpecDecodedSeq;
use crate::frame::views_of;
use crate::frame::Frame;
use crate::frame::FrameView;
use crate::frame::MAX_ARRAY_LEN;
use crate::frame::MAX_BULK_LEN;
use crate::frame::MAX_DEPTH;

verus! {

/// Outcome of one decoding attempt on a byte buffer.
pub enum Decoded {
    /// A whole frame stood at the front; the `usize` is its encoded length,
    /// which the caller should now consume from the buffer.
    Parsed(Frame, usize),
    /// Not enough bytes yet; read more and retry on the grown buffer.
    Incomplete,
    /// The bytes cannot begin a frame; the connection is beyond recovery.
    Invalid(DecodeError),
}

/// Outcome of decoding a run of consecutive frames.
enum DecodedSeq {
    Parsed(Vec<Frame>, usize),
    Incomplete,
    Invalid(DecodeError),
}

/// Relies on std's `String::from_utf8`: it succeeds exactly on byte vectors
/// that are valid UTF-8, returning the string those bytes encode.
#[verifier::external_body]
pub(crate) fn string_from_utf8(v: Vec<u8>) -> (r: Option<String>)
    ensures
        r is Some <==> vstd::utf8::valid_utf8(v@),
        r matches Some(s) ==> vstd::utf8::encode_utf8(s@) == v@,
{
    match String::from_utf8(v) {
        Ok(s) => Some(s),
        Err(_) => None,
    }
}

/// Scan for the first CRLF pair at or after `start`.
fn find_crlf_from(buf: &[u8], start: usize) -> (r: Option<usize>)
    requires
        start <= buf@.len(),
    ensures
        match r {
            Some(j) => start <= j && j + 2 <= buf@.len() && find_crlf(buf@.skip(start as int))
                == Some(j - start as int),
            None => find_crlf(buf@.skip(start as int)) == Option::<int>::None,
        },
{
    let ghost s = buf@.skip(start as int);
    proof {
        lemma_find_crlf_first(s);
    }
    let mut i: usize = start;
    while buf.len() - i >= 2
        invariant
            start <= i <= buf@.len(),
            s == buf@.skip(start as int),
            forall|k: int|
                start <= k < i && k + 2 <= buf@.len() ==> !(#[trigger] buf@[k] == 13 && buf@[k + 1]
                    == 10),
        decreases buf@.len() - i,
    {
        if buf[i] == 13 && buf[i + 1] == 10 {
            proof {
                lemma_find_crlf_first(s);
                assert(s[i - start] == 13 && s[i - start + 1] == 10);
                match find_crlf(s) {
                    None => {
                        assert(false);
                    },
                    Some(j0) => {
                        if j0 < i - start {
                            assert(buf@[j0 + start] == s[j0]);
                            assert(false);
                        }
                        if j0 > i - start {
                            assert(!(s[i - start] == 13 && s[i - start + 1] == 10));
                            assert(false);
                        }
                    },
                }
            }
            return Some(i);
        }
        i = i + 1;
    }
    proof {
        lemma_find_crlf_first(s);
        match find_crlf(s) {
            Some(j0) => {
                assert(buf@[j0 + start] == s[j0]);
                assert(false);
            },
            None => {},
        }
    }
    None
}

/// A digit run's value only grows as more digits follow.
proof fn lemma_dec_val_mono(line: Seq<u8>, i: int)
    requires
        all_digits(line),
        0 <= i <= line.len(),
    ensures
        dec_val(line) >= dec_val(line.take(i)),
    decreases line.len(),
{
    if line.len() == i {
        assert(line.take(i) =~= line);
    } else {
        let dl = line.drop_last();
        assert(all_digits(dl)) by {
            assert(forall|k: int| 0 <= k < dl.len() ==> dl[k] == #[trigger] line[k]);
        }
        assert(dl.take(i) =~= line.take(i));
        lemma_dec_val_mono(dl, i);
        lemma_dec_val_nonneg(dl);
        assert(dec_val(line) == dec_val(dl) * 10 + (line.last() - 48));
    }
}

/// Parse the decimal digit run in `buf[start..end]`, rejecting empty runs,
/// non-digits, and values over `u64::MAX`.
fn parse_dec(buf: &[u8], start: usize, end: usize) -> (r: Result<u64, DecodeError>)
    requires
        start <= end <= buf@.len(),
    ensures
        ({
            let line = buf@.subrange(start as int, end as int);
            &&& !(line.len() >= 1 && all_digits(line)) ==> r == Err::<u64, DecodeError>(
                DecodeError::BadDigit,
            )
            &&& line.len() >= 1 && all_digits(line) && dec_val(line) <= u64::MAX ==> r == Ok::<
                u64,
                DecodeError,
            >(dec_val(line) as u64)
            &&& line.len() >= 1 && all_digits(line) && dec_val(line) > u64::MAX ==> r == Err::<
                u64,
                DecodeError,
            >(DecodeError::IntegerOverflow)
        }),
{
    let ghost line = buf@.subrange(start as int, end as int);
    if start == end {
        return Err(DecodeError::BadDigit);
    }
    let mut i: usize = start;
    while i < end
        invariant
            start <= i <= end <= buf@.len(),
            line == buf@.subrange(start as int, end as int),
            forall|k: int| 0 <= k < i - start ==> 48 <= #[trigger] line[k] <= 57,
        decreases end - i,
    {
        if buf[i] < 48 || buf[i] > 57 {
            proof {
                assert(line[i - start] == buf@[i as int]);
            }
            return Err(DecodeError::BadDigit);
        }
        i = i + 1;
    }
    assert(all_digits(line));
    let mut val: u64 = 0;
    i = start;
    while i < end
        invariant
            start <= i <= end <= buf@.len(),
            line == buf@.subrange(start as int, end as int),
            all_digits(line),
            val == dec_val(line.take(i - start)),
        decreases end - i,
    {
        proof {
            assert(line[i - start] == buf@[i as int]);
        }
        let d: u8 = buf[i] - 48;
        proof {
            let m = i - start;
            assert(line.take(m + 1).drop_last() =~= line.take(m));
            assert(line.take(m + 1).last() == line[m]);
            assert(line[m] == buf@[i as int]);
            assert(dec_val(line.take(m + 1)) == dec_val(line.take(m)) * 10 + (line[m] - 48));
        }
        if val > u64::MAX / 10 {
            proof {
                lemma_dec_val_mono(line, i - start + 1);
            }
            return Err(DecodeError::IntegerOverflow);
        }
        let val10: u64 = val * 10;
        if (d as u64) > u64::MAX - val10 {
            proof {
                lemma_dec_val_mono(line, i - start + 1);
            }
            return Err(DecodeError::IntegerOverflow);
        }
        val = val10 + d as u64;
        i = i + 1;
    }
    proof {
        assert(line.take(end - start) =~= line);
    }
    Ok(val)
}

/// Copy `buf[a..b]` into a fresh vector.
pub(crate) fn copy_range(buf: &[u8], a: usize, b: usize) -> (r: Vec<u8>)
    requires
        a <= b <= buf@.len(),
    ensures
        r@ == buf@.subrange(a as int, b as int),
{
    let mut out: Vec<u8> = Vec::new();
    let mut i: usize = a;
    while i < b
        invariant
            a <= i <= b <= buf@.len(),
            out@ == buf@.subrange(a as int, i as int),
        decreases b - i,
    {
        out.push(buf[i]);
        assert(buf@.subrange(a as int, i + 1) =~= buf@.subrange(a as int, i as int) + seq![
            buf@[i as int],
        ]);
        i = i + 1;
    }
    out
}

/// Decode one frame from `buf[pos..]` with the given nesting budget.
#[verifier::rlimit(100)]
#[verifier::loop_isolation(false)]
fn decode_at(buf: &[u8], pos: usize, depth: u64) -> (r: Decoded)
    requires
        pos <= buf@.len(),
    ensures
        ({
            let s = buf@.skip(pos as int);
            match r {
                Decoded::Parsed(f, n) => spec_decode(s, depth as nat) == SpecDecoded::Parsed(
                    f@,
                    n as int,
                ) && pos + n <= buf@.len() && n >= 1,
                Decoded::Incomplete => spec_decode(s, depth as nat) == SpecDecoded::Incomplete,
                Decoded::Invalid(e) => spec_decode(s, depth as nat) == SpecDecoded::Invalid(e),
            }
        }),
    decreases depth, 0nat, 0nat,
{
    let ghost s = buf@.skip(pos as int);
    if pos == buf.len() {
        return Decoded::Incomplete;
    }
    let tag = buf[pos];
    assert(s[0] == tag);
    assert(s.drop_first() =~= buf@.skip(pos + 1));
    if tag == 43 || tag == 45 {
        match find_crlf_from(buf, pos + 1) {
            None => Decoded::Incomplete,
            Some(j) => {
                let ghost line = s.drop_first().take(j - (pos + 1));
                proof {
                    assert(line =~= buf@.subrange(pos + 1, j as int));
                }
                let mut i: usize = pos + 1;
                while i < j
                    invariant
                        pos + 1 <= i <= j,
                        j <= buf@.len(),
                        line == buf@.subrange(pos + 1, j as int),
                        forall|k: int|
                            0 <= k < i - (pos + 1) ==> #[trigger] line[k] != 13 && line[k] != 10,
                    decreases j - i,
                {
                    if buf[i] == 13 || buf[i] == 10 {
                        proof {
                            assert(line[i - (pos + 1)] == buf@[i as int]);
                        }
                        return Decoded::Invalid(DecodeError::BadText);
                    }
                    i = i + 1;
                }
                assert(bytes_clean(line));
                let line_v = copy_range(buf, pos + 1, j);
                match string_from_utf8(line_v) {
                    None => Decoded::Invalid(DecodeError::BadText),
                    Some(st) => {
                        proof {
                            vstd::utf8::encode_utf8_decode_utf8(st@);
                        }
                        let n = j + 2 - pos;
                        if tag == 43 {
                            Decoded::Parsed(Frame::Simple(st), n)
                        } else {
                            Decoded::Parsed(Frame::Error(st), n)
                        }
                    },
                }
            },
        }
    } else if tag == 58 {
        match find_crlf_from(buf, pos + 1) {
            None => Decoded::Incomplete,
            Some(j) => {
                proof {
                    assert(s.drop_first().take(j - (pos + 1)) =~= buf@.subrange(pos + 1, j as int));
                }
                match parse_dec(buf, pos + 1, j) {
                    Err(e) => Decoded::Invalid(e),
                    Ok(v) => Decoded::Parsed(Frame::Integer(v), j + 2 - pos),
                }
            },
        }
    } else if tag == 36 {
        match find_crlf_from(buf, pos + 1) {
            None => Decoded::Incomplete,
            Some(j) => {
                let ghost h = s.drop_first().take(j - (pos + 1));
                proof {
                    assert(h =~= buf@.subrange(pos + 1, j as int));
                }
                if j > pos + 1 && buf[pos + 1] == 45 {
                    if j - (pos + 1) == 2 && buf[pos + 2] == 49 {
                        proof {
                            assert(h =~= seq![45u8, 49u8]);
                        }
                        Decoded::Parsed(Frame::Null, j + 2 - pos)
                    } else {
                        proof {
                            if h == seq![45u8, 49u8] {
                                assert(h.len() == 2 && h[1] == 49);
                                assert(buf@[pos + 2] == h[1]);
                                assert(false);
                            }
                        }
                        Decoded::Invalid(DecodeError::BadDigit)
                    }
                } else {
                    match parse_dec(buf, pos + 1, j) {
                        Err(DecodeError::BadDigit) => Decoded::Invalid(DecodeError::BadDigit),
                        Err(_) => {
                            proof {
                                lemma_dec_val_nonneg(h);
                            }
                            Decoded::Invalid(DecodeError::BulkTooLong)
                        },
                        Ok(v) => {
                            proof {
                                lemma_dec_val_nonneg(h);
                            }
                            if v > MAX_BULK_LEN {
                                Decoded::Invalid(DecodeError::BulkTooLong)
                            } else {
                                let n = v as usize;
                                let ghost rest = s.skip(3 + (j - (pos + 1)));
                                proof {
                                    assert(rest =~= buf@.skip(j + 2));
                                }
                                if buf.len() - (j + 2) < n + 2 {
                                    Decoded::Incomplete
                                } else {
                                    proof {
                                        assert(rest[v as int] == buf@[j + 2 + n]);
                                        assert(rest[v as int + 1] == buf@[j + 2 + n + 1]);
                                    }
                                    if buf[j + 2 + n] == 13 && buf[j + 2 + n + 1] == 10 {
                                        let payload = copy_range(buf, j + 2, j + 2 + n);
                                        proof {
                                            assert(payload@ =~= rest.take(v as int));
                                        }
                                        Decoded::Parsed(Frame::Bulk(payload), j + 2 + n + 2 - pos)
                                    } else {
                                        Decoded::Invalid(DecodeError::BadTerminator)
                                    }
                                }
                            }
                        },
                    }
                }
            },
        }
    } else if tag == 42 {
        match find_crlf_from(buf, pos + 1) {
            None => Decoded::Incomplete,
            Some(j) => {
                let ghost h = s.drop_first().take(j - (pos + 1));
                proof {
                    assert(h =~= buf@.subrange(pos + 1, j as int));
                }
                match parse_dec(buf, pos + 1, j) {
                    Err(DecodeError::BadDigit) => Decoded::Invalid(DecodeError::BadDigit),
                    Err(_) => {
                        proof {
                            lemma_dec_val_nonneg(h);
                        }
                        Decoded::Invalid(DecodeError::ArrayTooLong)
                    },
                    Ok(count) => {
                        proof {
                            lemma_dec_val_nonneg(h);
                        }
                        if count > MAX_ARRAY_LEN {
                            Decoded::Invalid(DecodeError::ArrayTooLong)
                        } else if depth == 0 {
                            Decoded::Invalid(DecodeError::TooDeep)
                        } else {
                            proof {
                                assert(s.skip(3 + (j - (pos + 1))) =~= buf@.skip(j + 2));
                            }
                            match decode_elems_at(buf, j + 2, count, depth - 1) {
                                DecodedSeq::Parsed(vs, m) => {
                                    proof {
                                        crate::frame::lemma_array_view(vs);
                                    }
                                    Decoded::Parsed(Frame::Array(vs), j + 2 + m - pos)
                                },
                                DecodedSeq::Incomplete => Decoded::Incomplete,
                                DecodedSeq::Invalid(e) => Decoded::Invalid(e),
                            }
                        }
                    },
                }
            },
        }
    } else {
        Decoded::Invalid(DecodeError::UnknownType)
    }
}

/// Decode `count` consecutive frames from `buf[pos..]`.
#[verifier::rlimit(100)]
fn decode_elems_at(buf: &[u8], pos: usize, count: u64, depth: u64) -> (r: DecodedSeq)
    requires
        pos <= buf@.len(),
    ensures
        ({
            let s = buf@.skip(pos as int);
            match r {
                DecodedSeq::Parsed(vs, m) => spec_decode_elems(s, count as nat, depth as nat)
                    == SpecDecodedSeq::Parsed(views_of(vs@), m as int) && pos + m <= buf@.len(),
                DecodedSeq::Incomplete => spec_decode_elems(s, count as nat, depth as nat)
                    == SpecDecodedSeq::Incomplete,
                DecodedSeq::Invalid(e) => spec_decode_elems(s, count as nat, depth as nat)
                    == SpecDecodedSeq::Invalid(e),
            }
        }),
    decreases depth, count, 1nat,
{
    let ghost s = buf@.skip(pos as int);
    let blen: usize = buf.len();
    proof {
        assert(buf@.len() == blen as int);
    }
    if count == 0 {
        let vs: Vec<Frame> = Vec::new();
        proof {
            assert(views_of(vs@) =~= Seq::<FrameView>::empty());
        }
        return DecodedSeq::Parsed(vs, 0);
    }
    match decode_at(buf, pos, depth) {
        Decoded::Parsed(f, n) => {
            proof {
                assert(s.skip(n as int) =~= buf@.skip(pos + n));
            }
            match decode_elems_at(buf, pos + n, count - 1, depth) {
                DecodedSeq::Parsed(vs, m) => {
                    let ghost before = vs@;
                    let mut vs = vs;
                    vs.insert(0, f);
                    proof {
                        assert(views_of(vs@) =~= seq![f@] + views_of(before));
                    }
                    DecodedSeq::Parsed(vs, n + m)
                },
                DecodedSeq::Incomplete => DecodedSeq::Incomplete,
                DecodedSeq::Invalid(e) => DecodedSeq::Invalid(e),
            }
        },
        Decoded::Incomplete => DecodedSeq::Incomplete,
        Decoded::Invalid(e) => DecodedSeq::Invalid(e),
    }
}

/// Decode one frame from the front of the buffer, with the full nesting
/// budget. The result matches [`spec_decode`] exactly: `Parsed` delimits the
/// frame's bytes, `Incomplete` asks the caller for more input, `Invalid`
/// condemns the stream.
pub fn decode(buf: &[u8]) -> (r: Decoded)
    ensures
        match r {
            Decoded::Parsed(f, n) => spec_decode(buf@, MAX_DEPTH as nat) == SpecDecoded::Parsed(
                f@,
                n as int,
            ) && n <= buf@.len() && n >= 1,
            Decoded::Incomplete => spec_decode(buf@, MAX_DEPTH as nat) == SpecDecoded::Incomplete,
            Decoded::Invalid(e) => spec_decode(buf@, MAX_DEPTH as nat) == SpecDecoded::Invalid(e),
        },
{
    proof {
        assert(buf@.skip(0) =~= buf@);
    }
    decode_at(buf, 0, MAX_DEPTH)
}

} // verus!
