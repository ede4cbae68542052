//! The frame codec: a verified encoder and decoder for the wire format.
//!
//! `parse_at` is the mathematical decoder: a total function from a byte
//! sequence and a position to the frame found there, `Incomplete` when more
//! bytes are needed, or `Bad` when the bytes can belong to no frame. The
//! executable `decode` returns exactly what `parse_at` says, and `encode`
//! appends exactly `encoding(fm(frame))`.

use vstd::prelude::*;
use crate::digits::canonical_digits;
use crate::digits::digits_val;
use crate::digits::push_digits;
use crate::digits::scan_uint;
use crate::frame::CR;
use crate::frame::LF;
use crate::frame::MAX_LEN;
use crate::frame::Frame;
use crate::frame::FrameModel;
use crate::frame::crlf;
use crate::frame::dec_digits;
use crate::frame::encoding;
use crate::frame::encoding_seq;
use crate::frame::fm;
use crate::frame::fm_seq;
use crate::frame::int_bytes;
use crate::frame::lemma_fm_seq_props;
use crate::frame::lemma_wf_seq_iff;
use crate::frame::text_bytes;
use crate::frame::wf;
use crate::frame::wf_seq;
use crate::frame::wf_text;

verus! {

broadcast use vstd::std_specs::vec::axiom_vec_index_decreases;

/// Bytes that may stand in a text line: valid UTF-8 with no
/// line-terminator byte.
pub open spec fn ok_text_bytes(p: Seq<u8>) -> bool {
    vstd::utf8::valid_utf8(p) && forall|i: int|
        0 <= i < p.len() ==> #[trigger] p[i] != CR && p[i] != LF
}

/// Remaining bytes of `b` from position `pos` on.
pub open spec fn rem(b: Seq<u8>, pos: int) -> int {
    if pos <= b.len() {
        b.len() - pos
    } else {
        0
    }
}

/// Index of the first carriage return at or after `i`, or `b.len()` when
/// there is none.
pub open spec fn find_cr(b: Seq<u8>, i: int) -> int
    decreases rem(b, i),
{
    if i < 0 || i >= b.len() {
        b.len() as int
    } else if b[i] == CR {
        i
    } else {
        find_cr(b, i + 1)
    }
}

/// What `find_cr` returns: the nearest carriage return, nothing before it.
pub proof fn lemma_find_cr_props(b: Seq<u8>, i: int)
    requires
        0 <= i <= b.len(),
    ensures
        i <= find_cr(b, i) <= b.len(),
        find_cr(b, i) < b.len() ==> b[find_cr(b, i)] == CR,
        forall|t: int| i <= t < find_cr(b, i) ==> b[t] != CR,
    decreases rem(b, i),
{
    if i < b.len() && b[i] != CR {
        lemma_find_cr_props(b, i + 1);
    }
}

/// A signed decimal integer field: an optional minus sign, then canonical
/// digits, within the range of a 64-bit signed integer.
pub open spec fn int_field_ok(p: Seq<u8>) -> bool {
    if p.len() > 0 && p[0] == 45 {
        canonical_digits(p.skip(1)) && 1 <= digits_val(p.skip(1)) <= 9223372036854775808
    } else {
        canonical_digits(p) && digits_val(p) <= 9223372036854775807
    }
}

/// The value of a signed decimal integer field.
pub open spec fn int_field_val(p: Seq<u8>) -> int {
    if p.len() > 0 && p[0] == 45 {
        -(digits_val(p.skip(1)) as int)
    } else {
        digits_val(p) as int
    }
}

/// Result of decoding at a position: one frame and the bytes it took, a
/// request for more bytes, or a malformed prefix.
pub enum Parse {
    Found(FrameModel, int),
    Incomplete,
    Bad,
}

/// Result of decoding a run of consecutive frames.
pub enum ParseElems {
    Found(Seq<FrameModel>, int),
    Incomplete,
    Bad,
}

/// The mathematical decoder: what stands at position `pos` of `b`.
pub open spec fn parse_at(b: Seq<u8>, pos: int) -> Parse
    decreases rem(b, pos), 0int, 0int,
{
    if pos < 0 || pos >= b.len() {
        Parse::Incomplete
    } else {
        let t = b[pos];
        let k = find_cr(b, pos + 1);
        if t == 95 {
            Parse::Found(FrameModel::Null, 1)
        } else if k < pos + 1 {
            // never taken: the first carriage return at or after `pos + 1`
            // cannot lie before it
            Parse::Bad
        } else if t == 43 || t == 45 {
            if k + 1 >= b.len() {
                Parse::Incomplete
            } else if b[k + 1] != LF {
                Parse::Bad
            } else if !ok_text_bytes(b.subrange(pos + 1, k)) {
                Parse::Bad
            } else {
                let s = vstd::utf8::decode_utf8(b.subrange(pos + 1, k));
                Parse::Found(
                    if t == 43 {
                        FrameModel::Simple(s)
                    } else {
                        FrameModel::Error(s)
                    },
                    k + 2 - pos,
                )
            }
        } else if t == 58 {
            if k + 1 >= b.len() {
                Parse::Incomplete
            } else if b[k + 1] != LF {
                Parse::Bad
            } else if !int_field_ok(b.subrange(pos + 1, k)) {
                Parse::Bad
            } else {
                Parse::Found(FrameModel::Integer(int_field_val(b.subrange(pos + 1, k))), k + 2 - pos)
            }
        } else if t == 36 {
            if k + 1 >= b.len() {
                Parse::Incomplete
            } else if b[k + 1] != LF {
                Parse::Bad
            } else if !(canonical_digits(b.subrange(pos + 1, k)) && digits_val(
                b.subrange(pos + 1, k),
            ) <= MAX_LEN) {
                Parse::Bad
            } else {
                let n = digits_val(b.subrange(pos + 1, k)) as int;
                if b.len() < k + 4 + n {
                    Parse::Incomplete
                } else if b[k + 2 + n] != CR || b[k + 3 + n] != LF {
                    Parse::Bad
                } else {
                    Parse::Found(FrameModel::Bulk(b.subrange(k + 2, k + 2 + n)), k + 4 + n - pos)
                }
            }
        } else if t == 42 {
            if k + 1 >= b.len() {
                Parse::Incomplete
            } else if b[k + 1] != LF {
                Parse::Bad
            } else if !(canonical_digits(b.subrange(pos + 1, k)) && digits_val(
                b.subrange(pos + 1, k),
            ) <= MAX_LEN) {
                Parse::Bad
            } else {
                match parse_elems(b, k + 2, digits_val(b.subrange(pos + 1, k)) as int) {
                    ParseElems::Found(s, c) => Parse::Found(FrameModel::Array(s), k + 2 + c - pos),
                    ParseElems::Incomplete => Parse::Incomplete,
                    ParseElems::Bad => Parse::Bad,
                }
            }
        } else {
            Parse::Bad
        }
    }
}

/// The mathematical decoder for `n` consecutive frames from `pos`.
pub open spec fn parse_elems(b: Seq<u8>, pos: int, n: int) -> ParseElems
    decreases rem(b, pos), 1int, if n >= 0 {
        n
    } else {
        0
    },
{
    if n <= 0 {
        ParseElems::Found(Seq::empty(), 0)
    } else {
        match parse_at(b, pos) {
            Parse::Found(m, c) => {
                if c <= 0 {
                    ParseElems::Bad
                } else {
                    match parse_elems(b, pos + c, n - 1) {
                        ParseElems::Found(s, c2) => ParseElems::Found(seq![m] + s, c + c2),
                        ParseElems::Incomplete => ParseElems::Incomplete,
                        ParseElems::Bad => ParseElems::Bad,
                    }
                }
            },
            Parse::Incomplete => ParseElems::Incomplete,
            Parse::Bad => ParseElems::Bad,
        }
    }
}

/// `find_cr` returns exactly the boundary of a region free of carriage
/// returns that ends at one (or at the end of the buffer).
proof fn lemma_find_cr_region(b: Seq<u8>, i: int, j: int)
    requires
        0 <= i <= j <= b.len(),
        forall|t: int| i <= t < j ==> b[t] != CR,
        j == b.len() || b[j] == CR,
    ensures
        find_cr(b, i) == j,
{
    lemma_find_cr_props(b, i);
    let k = find_cr(b, i);
    if k < j {
        assert(b[k] == CR);
    }
    if k > j {
        assert(j < b.len());
        assert(b[j] != CR);
    }
}

/// The bytes of well-formed text are a valid line: they spell the text
/// back and hold no byte that could end the line early.
proof fn lemma_text_bytes_ok(s: Seq<char>)
    requires
        wf_text(s),
    ensures
        ok_text_bytes(text_bytes(s)),
        vstd::utf8::decode_utf8(text_bytes(s)) == s,
{
    vstd::utf8::encode_utf8_valid_utf8(s);
    vstd::utf8::encode_utf8_decode_utf8(s);
}

/// A signed integer field is spelled back by its value.
proof fn lemma_int_field_inverse(p: Seq<u8>)
    requires
        int_field_ok(p),
    ensures
        int_bytes(int_field_val(p)) == p,
{
    if p.len() > 0 && p[0] == 45 {
        crate::digits::lemma_canonical_digits_inverse(p.skip(1));
        assert(int_bytes(int_field_val(p)) =~= seq![45u8] + p.skip(1));
        assert(seq![45u8] + p.skip(1) =~= p);
    } else {
        crate::digits::lemma_canonical_digits_inverse(p);
    }
}

/// The spelling of an in-range integer is a valid field with that value.
proof fn lemma_int_field_canon(i: int)
    requires
        -9223372036854775808 <= i <= 9223372036854775807,
    ensures
        int_field_ok(int_bytes(i)),
        int_field_val(int_bytes(i)) == i,
{
    if i < 0 {
        crate::digits::lemma_dec_digits_canonical((-i) as nat);
        let p = int_bytes(i);
        assert(p[0] == 45);
        assert(p.skip(1) =~= dec_digits((-i) as nat));
    } else {
        crate::digits::lemma_dec_digits_canonical(i as nat);
        let p = int_bytes(i);
        assert(48 <= p[0] <= 57);
    }
}

/// Encodings of the tail elements, seen from a shifted start.
proof fn lemma_encoding_seq_tail(c: Seq<FrameModel>, j: int)
    requires
        1 <= j <= c.len(),
    ensures
        encoding_seq(c, j) == encoding_seq(c.skip(1), j - 1),
    decreases c.len() - j,
{
    if j == c.len() {
    } else {
        lemma_encoding_seq_tail(c, j + 1);
        assert(c.skip(1)[j - 1] == c[j]);
    }
}

/// Result of attempting to decode one frame from the front of a buffer.
pub enum Decoded {
    /// One complete frame and the number of bytes it occupied.
    Frame { frame: Frame, used: usize },
    /// The buffer holds no complete frame yet; read more bytes and retry.
    Incomplete,
    /// The buffer cannot be extended into a valid frame.
    Malformed,
}

/// Result of decoding a run of consecutive frames.
enum DecodedElems {
    Frames(Vec<Frame>, usize),
    Incomplete,
    Malformed,
}

/// Relies on `String::from_utf8` (with `slice::to_vec` to hand it an owned
/// buffer): it returns the string decoded from the bytes exactly when they
/// are valid UTF-8, and refuses them otherwise.
#[verifier::external_body]
pub(crate) fn utf8_to_string(bytes: &[u8]) -> (r: Option<String>)
    ensures
        match r {
            Some(s) => vstd::utf8::valid_utf8(bytes@) && s@ == vstd::utf8::decode_utf8(bytes@),
            Option::None => !vstd::utf8::valid_utf8(bytes@),
        },
{
    match String::from_utf8(bytes.to_vec()) {
        Ok(s) => Some(s),
        Err(_) => Option::None,
    }
}

/// Index of the first carriage return at or after `start`, or the buffer
/// length when there is none.
fn find_cr_exec(buf: &[u8], start: usize) -> (k: usize)
    requires
        start <= buf@.len(),
    ensures
        k as int == find_cr(buf@, start as int),
        start <= k <= buf@.len(),
{
    proof {
        lemma_find_cr_props(buf@, start as int);
    }
    let mut j = start;
    while j < buf.len()
        invariant
            start <= j <= buf@.len(),
            find_cr(buf@, start as int) == find_cr(buf@, j as int),
        decreases buf@.len() - j,
    {
        if buf[j] == CR {
            return j;
        }
        j = j + 1;
    }
    j
}

/// How far a partial decode from `pos` with `left` frames still owed
/// determines the decode of the whole run from `pos0` with `n` frames.
spec fn elems_step_ok(
    b: Seq<u8>,
    pos0: int,
    n: int,
    done: Seq<FrameModel>,
    cur: int,
    left: int,
) -> bool {
    &&& (parse_elems(b, cur, left) matches ParseElems::Found(s, c) ==> parse_elems(b, pos0, n)
        == ParseElems::Found(done + s, cur - pos0 + c))
    &&& (parse_elems(b, cur, left) is Incomplete ==> parse_elems(b, pos0, n)
        == ParseElems::Incomplete)
    &&& (parse_elems(b, cur, left) is Bad ==> parse_elems(b, pos0, n) == ParseElems::Bad)
}

/// Decodes one frame at `pos`, returning exactly what `parse_at` says.
fn decode_at(buf: &[u8], pos: usize) -> (r: Decoded)
    requires
        pos <= buf@.len(),
    ensures
        match r {
            Decoded::Frame { frame, used } => parse_at(buf@, pos as int) == Parse::Found(
                fm(frame),
                used as int,
            ) && 1 <= used && pos + used <= buf@.len(),
            Decoded::Incomplete => parse_at(buf@, pos as int) == Parse::Incomplete,
            Decoded::Malformed => parse_at(buf@, pos as int) == Parse::Bad,
        },
    decreases rem(buf@, pos as int), 0int, 0int,
{
    let n = buf.len();
    if pos >= n {
        return Decoded::Incomplete;
    }
    let t = buf[pos];
    if t == 95 {
        return Decoded::Frame { frame: Frame::Null, used: 1 };
    }
    let k = find_cr_exec(buf, pos + 1);
    proof {
        lemma_find_cr_props(buf@, pos as int + 1);
    }
    if t == 43 || t == 45 {
        if n - k < 2 {
            return Decoded::Incomplete;
        }
        if buf[k + 1] != LF {
            return Decoded::Malformed;
        }
        let ghost p = buf@.subrange(pos as int + 1, k as int);
        let mut tb: Vec<u8> = Vec::new();
        let mut j = pos + 1;
        while j < k
            invariant
                pos + 1 <= j <= k,
                k + 2 <= buf@.len(),
                pos < buf@.len(),
                t == buf@[pos as int],
                t == 43 || t == 45,
                k as int == find_cr(buf@, pos as int + 1),
                buf@[k as int + 1] == LF,
                p == buf@.subrange(pos as int + 1, k as int),
                tb@ == buf@.subrange(pos as int + 1, j as int),
                forall|i: int| 0 <= i < tb@.len() ==> #[trigger] tb@[i] != LF,
            decreases k - j,
        {
            let c = buf[j];
            if c == LF {
                proof {
                    lemma_find_cr_props(buf@, pos as int + 1);
                    assert(p[j - (pos + 1)] == buf@[j as int]);
                    assert(!ok_text_bytes(p));
                }
                return Decoded::Malformed;
            }
            tb.push(c);
            j = j + 1;
            proof {
                assert(tb@ =~= buf@.subrange(pos as int + 1, j as int));
            }
        }
        proof {
            assert(tb@ == p);
            assert(forall|i: int| 0 <= i < p.len() ==> p[i] != CR) by {
                assert(forall|i: int|
                    pos + 1 <= i < k ==> buf@[i] != CR && p[i - (pos + 1)] == buf@[i]);
            }
        }
        match utf8_to_string(tb.as_slice()) {
            Some(s) => {
                proof {
                    assert(ok_text_bytes(p));
                }
                let used = k - pos + 2;
                let frame = if t == 43 {
                    Frame::Simple(s)
                } else {
                    Frame::Error(s)
                };
                proof {
                    assert(fm(frame) == if t == 43 {
                        FrameModel::Simple(vstd::utf8::decode_utf8(p))
                    } else {
                        FrameModel::Error(vstd::utf8::decode_utf8(p))
                    });
                }
                return Decoded::Frame { frame, used };
            },
            Option::None => {
                proof {
                    assert(!ok_text_bytes(p));
                }
                return Decoded::Malformed;
            },
        }
    }
    if t == 58 {
        if n - k < 2 {
            return Decoded::Incomplete;
        }
        if buf[k + 1] != LF {
            return Decoded::Malformed;
        }
        let ghost p = buf@.subrange(pos as int + 1, k as int);
        if k - (pos + 1) >= 1 && buf[pos + 1] == 45 {
            proof {
                assert(p[0] == buf@[pos as int + 1]);
                assert(p.skip(1) =~= buf@.subrange(pos as int + 2, k as int));
            }
            match scan_uint(buf, pos + 2, k, 9223372036854775808) {
                Some(v) => {
                    if v == 0 {
                        return Decoded::Malformed;
                    }
                    let iv: i64 = if v == 9223372036854775808 {
                        i64::MIN
                    } else {
                        -(v as i64)
                    };
                    return Decoded::Frame { frame: Frame::Integer(iv), used: k - pos + 2 };
                },
                None => {
                    return Decoded::Malformed;
                },
            }
        } else {
            proof {
                if p.len() > 0 && p[0] == 45 {
                    assert(p[0] == buf@[pos as int + 1]);
                }
            }
            match scan_uint(buf, pos + 1, k, 9223372036854775807) {
                Some(v) => {
                    return Decoded::Frame { frame: Frame::Integer(v as i64), used: k - pos + 2 };
                },
                None => {
                    return Decoded::Malformed;
                },
            }
        }
    }
    if t == 36 {
        if n - k < 2 {
            return Decoded::Incomplete;
        }
        if buf[k + 1] != LF {
            return Decoded::Malformed;
        }
        match scan_uint(buf, pos + 1, k, MAX_LEN as u64) {
            Some(v) => {
                let cnt = v as usize;
                if n - (k + 2) < cnt + 2 {
                    return Decoded::Incomplete;
                }
                if buf[k + 2 + cnt] != CR || buf[k + 3 + cnt] != LF {
                    return Decoded::Malformed;
                }
                let data = vstd::slice::slice_to_vec(
                    vstd::slice::slice_subrange(buf, k + 2, k + 2 + cnt),
                );
                return Decoded::Frame { frame: Frame::Bulk(data), used: k - pos + 4 + cnt };
            },
            None => {
                return Decoded::Malformed;
            },
        }
    }
    if t == 42 {
        if n - k < 2 {
            return Decoded::Incomplete;
        }
        if buf[k + 1] != LF {
            return Decoded::Malformed;
        }
        match scan_uint(buf, pos + 1, k, MAX_LEN as u64) {
            Some(v) => {
                let cnt = v as usize;
                match decode_elems(buf, k + 2, cnt) {
                    DecodedElems::Frames(items, c) => {
                        let frame = Frame::Array(items);
                        return Decoded::Frame { frame, used: k - pos + 2 + c };
                    },
                    DecodedElems::Incomplete => {
                        return Decoded::Incomplete;
                    },
                    DecodedElems::Malformed => {
                        return Decoded::Malformed;
                    },
                }
            },
            None => {
                return Decoded::Malformed;
            },
        }
    }
    Decoded::Malformed
}

/// Decodes `n` consecutive frames from `pos`, returning exactly what
/// `parse_elems` says.
fn decode_elems(buf: &[u8], pos: usize, n: usize) -> (r: DecodedElems)
    requires
        pos <= buf@.len(),
    ensures
        match r {
            DecodedElems::Frames(items, c) => parse_elems(buf@, pos as int, n as int)
                == ParseElems::Found(fm_seq(items@, 0), c as int) && items@.len() == n && pos + c
                <= buf@.len(),
            DecodedElems::Incomplete => parse_elems(buf@, pos as int, n as int)
                == ParseElems::Incomplete,
            DecodedElems::Malformed => parse_elems(buf@, pos as int, n as int) == ParseElems::Bad,
        },
    decreases rem(buf@, pos as int), 1int, n as int,
{
    let bl = buf.len();
    let mut items: Vec<Frame> = Vec::new();
    let mut cur = pos;
    let mut left = n;
    proof {
        lemma_fm_seq_props(items@, 0);
        assert(fm_seq(items@, 0) =~= Seq::<FrameModel>::empty());
    }
    while left > 0
        invariant
            bl == buf@.len(),
            pos <= cur <= buf@.len(),
            left <= n,
            items@.len() == n - left,
            elems_step_ok(buf@, pos as int, n as int, fm_seq(items@, 0), cur as int, left as int),
        decreases left,
    {
        let ghost done = fm_seq(items@, 0);
        proof {
            lemma_fm_seq_props(items@, 0);
        }
        match decode_at(buf, cur) {
            Decoded::Frame { frame, used } => {
                let ghost m = fm(frame);
                let ghost old_items = items@;
                items.push(frame);
                proof {
                    lemma_fm_seq_props(items@, 0);
                    lemma_fm_seq_props(old_items, 0);
                    assert(fm_seq(items@, 0) =~= done.push(m));
                    assert(parse_elems(buf@, cur as int, left as int) == (match parse_elems(
                        buf@,
                        cur as int + used,
                        left as int - 1,
                    ) {
                        ParseElems::Found(s2, c2) => ParseElems::Found(
                            seq![m] + s2,
                            used as int + c2,
                        ),
                        ParseElems::Incomplete => ParseElems::Incomplete,
                        ParseElems::Bad => ParseElems::Bad,
                    }));
                }
                let ghost prev_cur = cur as int;
                cur = cur + used;
                left = left - 1;
                proof {
                    match parse_elems(buf@, cur as int, left as int) {
                        ParseElems::Found(s2, c2) => {
                            assert(done + (seq![m] + s2) =~= done.push(m) + s2);
                        },
                        ParseElems::Incomplete => {},
                        ParseElems::Bad => {},
                    }
                }
            },
            Decoded::Incomplete => {
                return DecodedElems::Incomplete;
            },
            Decoded::Malformed => {
                return DecodedElems::Malformed;
            },
        }
    }
    proof {
        assert(parse_elems(buf@, cur as int, 0) == ParseElems::Found(Seq::<FrameModel>::empty(), 0));
        assert(fm_seq(items@, 0) + Seq::<FrameModel>::empty() =~= fm_seq(items@, 0));
    }
    DecodedElems::Frames(items, cur - pos)
}

/// Attempts to parse exactly one frame from the front of `buf`.
///
/// The result is exactly what the mathematical decoder `parse_at` says of
/// `buf`: a complete leading frame with the count of bytes it occupied, or
/// `Incomplete` (no byte consumed; the caller must read more and retry), or
/// `Malformed` (no extension of `buf` begins with a valid frame).
pub fn decode(buf: &[u8]) -> (r: Decoded)
    ensures
        match r {
            Decoded::Frame { frame, used } => parse_at(buf@, 0) == Parse::Found(
                fm(frame),
                used as int,
            ) && 1 <= used && used <= buf@.len() && wf(fm(frame)) && buf@.subrange(0, used as int)
                == encoding(fm(frame)),
            Decoded::Incomplete => parse_at(buf@, 0) == Parse::Incomplete,
            Decoded::Malformed => parse_at(buf@, 0) == Parse::Bad,
        },
{
    let r = decode_at(buf, 0);
    proof {
        lemma_parse_sound(buf@, 0);
    }
    r
}

/// Soundness of the decoder: a frame found at `pos` is well formed, and
/// the bytes it took are exactly its wire representation — the decoder
/// accepts nothing but canonical encodings.
pub proof fn lemma_parse_sound(b: Seq<u8>, pos: int)
    requires
        0 <= pos <= b.len(),
    ensures
        parse_at(b, pos) matches Parse::Found(m, c) ==> wf(m) && 1 <= c && pos + c <= b.len()
            && b.subrange(pos, pos + c) == encoding(m),
    decreases rem(b, pos), 0int, 0int,
{
    if pos >= b.len() {
        return ;
    }
    let t = b[pos];
    let k = find_cr(b, pos + 1);
    lemma_find_cr_props(b, pos + 1);
    if t == 95 {
        assert(b.subrange(pos, pos + 1) =~= seq![95u8]);
        assert(encoding(FrameModel::Null) =~= seq![95u8]);
        return ;
    }
    if k + 1 >= b.len() || b[k + 1] != LF {
        return ;
    }
    let p = b.subrange(pos + 1, k);
    assert(b[k] == CR);
    if t == 43 || t == 45 {
        if ok_text_bytes(p) {
            vstd::utf8::decode_utf8_encode_utf8(p);
            let s = vstd::utf8::decode_utf8(p);
            assert(text_bytes(s) == p);
            assert(wf_text(s));
            let m = if t == 43 {
                FrameModel::Simple(s)
            } else {
                FrameModel::Error(s)
            };
            assert(b.subrange(pos, k + 2) =~= seq![t] + p + crlf());
            assert(encoding(m) == seq![t] + text_bytes(s) + crlf());
        }
    } else if t == 58 {
        if int_field_ok(p) {
            lemma_int_field_inverse(p);
            let m = FrameModel::Integer(int_field_val(p));
            assert(wf(m));
            assert(b.subrange(pos, k + 2) =~= seq![58u8] + p + crlf());
            assert(encoding(m) == seq![58u8] + int_bytes(int_field_val(p)) + crlf());
        }
    } else if t == 36 {
        if canonical_digits(p) && digits_val(p) <= MAX_LEN {
            crate::digits::lemma_canonical_digits_inverse(p);
            let cnt = digits_val(p) as int;
            if b.len() >= k + 4 + cnt && b[k + 2 + cnt] == CR && b[k + 3 + cnt] == LF {
                let d = b.subrange(k + 2, k + 2 + cnt);
                let m = FrameModel::Bulk(d);
                assert(wf(m));
                assert(b.subrange(pos, k + 4 + cnt) =~= seq![36u8] + p + crlf() + d + crlf());
                assert(encoding(m) == seq![36u8] + dec_digits(d.len()) + crlf() + d + crlf());
            }
        }
    } else if t == 42 {
        if canonical_digits(p) && digits_val(p) <= MAX_LEN {
            crate::digits::lemma_canonical_digits_inverse(p);
            let cnt = digits_val(p) as int;
            lemma_parse_elems_sound(b, k + 2, cnt);
            match parse_elems(b, k + 2, cnt) {
                ParseElems::Found(s, c) => {
                    let m = FrameModel::Array(s);
                    assert(wf(m));
                    assert(b.subrange(k + 2, k + 2 + c) == encoding_seq(s, 0));
                    assert(b.subrange(pos, k + 2 + c) =~= seq![42u8] + p + crlf() + b.subrange(
                        k + 2,
                        k + 2 + c,
                    ));
                    assert(encoding(m) == seq![42u8] + dec_digits(s.len()) + crlf() + encoding_seq(
                        s,
                        0,
                    ));
                },
                ParseElems::Incomplete => {},
                ParseElems::Bad => {},
            }
        }
    }
}

/// Soundness for a run of frames: the bytes taken are the concatenated
/// representations of as many well-formed frames as were asked for.
pub proof fn lemma_parse_elems_sound(b: Seq<u8>, pos: int, n: int)
    requires
        0 <= pos <= b.len(),
    ensures
        parse_elems(b, pos, n) matches ParseElems::Found(s, c) ==> s.len() == (if n >= 0 {
            n
        } else {
            0
        }) && wf_seq(s, 0) && 0 <= c && pos + c <= b.len() && b.subrange(pos, pos + c)
            == encoding_seq(s, 0),
    decreases rem(b, pos), 1int, if n >= 0 {
        n
    } else {
        0
    },
{
    if n <= 0 {
        assert(b.subrange(pos, pos) =~= Seq::<u8>::empty());
        assert(encoding_seq(Seq::<FrameModel>::empty(), 0) == Seq::<u8>::empty());
        return ;
    }
    lemma_parse_sound(b, pos);
    match parse_at(b, pos) {
        Parse::Found(m, c0) => {
            lemma_parse_elems_sound(b, pos + c0, n - 1);
            match parse_elems(b, pos + c0, n - 1) {
                ParseElems::Found(s2, c2) => {
                    let s = seq![m] + s2;
                    assert(s.skip(1) =~= s2);
                    lemma_encoding_seq_tail(s, 1);
                    assert(encoding_seq(s, 0) == encoding(s[0]) + encoding_seq(s, 1));
                    crate::frame::lemma_wf_seq_iff(s, 0);
                    crate::frame::lemma_wf_seq_iff(s2, 0);
                    assert(forall|j: int| 0 <= j < s2.len() ==> s[j + 1] == s2[j]);
                    assert(b.subrange(pos, pos + c0 + c2) =~= b.subrange(pos, pos + c0)
                        + b.subrange(pos + c0, pos + c0 + c2));
                },
                ParseElems::Incomplete => {},
                ParseElems::Bad => {},
            }
        },
        Parse::Incomplete => {},
        Parse::Bad => {},
    }
}

/// Every wire representation is at least one byte long.
proof fn lemma_encoding_len(m: FrameModel)
    ensures
        encoding(m).len() >= 1,
{
    match m {
        FrameModel::Simple(s) => {},
        FrameModel::Error(s) => {},
        FrameModel::Integer(i) => {},
        FrameModel::Bulk(d) => {},
        FrameModel::Null => {},
        FrameModel::Array(a) => {},
    }
}

/// No byte of a signed integer field is a carriage return or line feed.
proof fn lemma_int_bytes_no_crlf(i: int)
    ensures
        forall|t: int|
            0 <= t < int_bytes(i).len() ==> #[trigger] int_bytes(i)[t] != CR && int_bytes(i)[t]
                != LF,
{
    if i < 0 {
        crate::digits::lemma_dec_digits_canonical((-i) as nat);
    } else {
        crate::digits::lemma_dec_digits_canonical(i as nat);
    }
}

/// A subrange equality, read pointwise.
proof fn lemma_subrange_agree(b: Seq<u8>, pos: int, e: Seq<u8>)
    requires
        0 <= pos,
        pos + e.len() <= b.len(),
        b.subrange(pos, pos + e.len()) == e,
    ensures
        forall|t: int| pos <= t < pos + e.len() ==> #[trigger] b[t] == e[t - pos],
{
    assert forall|t: int| pos <= t < pos + e.len() implies #[trigger] b[t] == e[t - pos] by {
        assert(b.subrange(pos, pos + e.len())[t - pos] == b[t]);
    }
}

/// Pointwise agreement, read as a subrange equality.
proof fn lemma_agree_subrange(b: Seq<u8>, pos: int, e: Seq<u8>)
    requires
        0 <= pos,
        pos + e.len() <= b.len(),
        forall|t: int| pos <= t < pos + e.len() ==> #[trigger] b[t] == e[t - pos],
    ensures
        b.subrange(pos, pos + e.len()) == e,
{
    assert(b.subrange(pos, pos + e.len()) =~= e);
}

/// Completeness of the decoder: wherever the bytes from `pos` begin with
/// the full wire representation of a well-formed frame, the decoder finds
/// exactly that frame and takes exactly its bytes.
#[verifier::rlimit(100)]
pub proof fn lemma_parse_complete(b: Seq<u8>, pos: int, m: FrameModel)
    requires
        wf(m),
        0 <= pos,
        pos + encoding(m).len() <= b.len(),
        b.subrange(pos, pos + encoding(m).len()) == encoding(m),
    ensures
        parse_at(b, pos) == Parse::Found(m, encoding(m).len() as int),
    decreases m, 0int,
{
    let e = encoding(m);
    lemma_subrange_agree(b, pos, e);
    lemma_encoding_len(m);
    lemma_find_cr_props(b, pos + 1);
    match m {
        FrameModel::Null => {
            assert(e[0] == 95);
            assert(b[pos] == e[pos - pos]);
        },
        FrameModel::Simple(s) => {
            lemma_simple_error_complete(b, pos, m);
        },
        FrameModel::Error(s) => {
            lemma_simple_error_complete(b, pos, m);
        },
        FrameModel::Integer(i) => {
            let f = int_bytes(i);
            lemma_int_field_canon(i);
            lemma_int_bytes_no_crlf(i);
            assert(e == seq![58u8] + f + crlf());
            assert(e[0] == 58);
            assert(b[pos] == e[pos - pos]);
            assert forall|t: int| pos + 1 <= t < pos + 1 + f.len() implies #[trigger] b[t]
                != CR by {
                assert(b[t] == e[t - pos]);
                assert(e[t - pos] == f[t - pos - 1]);
            }
            assert(e[1 + f.len() as int] == CR);
            assert(b[pos + 1 + f.len()] == e[1 + f.len() as int]);
            lemma_find_cr_region(b, pos + 1, pos + 1 + f.len() as int);
            let k = find_cr(b, pos + 1);
            assert(e[f.len() as int + 2] == LF);
            assert(b[k + 1] == e[f.len() as int + 2]);
            assert(b.subrange(pos + 1, k) =~= f) by {
                assert forall|j: int| 0 <= j < f.len() implies b.subrange(pos + 1, k)[j]
                    == f[j] by {
                    assert(b.subrange(pos + 1, k)[j] == b[pos + 1 + j]);
                    assert(b[pos + 1 + j] == e[1 + j]);
                    assert(e[1 + j] == f[j]);
                }
            }
        },
        FrameModel::Bulk(d) => {
            let dd = dec_digits(d.len());
            crate::digits::lemma_dec_digits_canonical(d.len());
            assert(e == seq![36u8] + dd + crlf() + d + crlf());
            assert(e[0] == 36);
            assert(b[pos] == e[pos - pos]);
            assert forall|t: int| pos + 1 <= t < pos + 1 + dd.len() implies #[trigger] b[t]
                != CR by {
                assert(b[t] == e[t - pos]);
                assert(e[t - pos] == dd[t - pos - 1]);
            }
            assert(e[1 + dd.len() as int] == CR);
            assert(b[pos + 1 + dd.len()] == e[1 + dd.len() as int]);
            lemma_find_cr_region(b, pos + 1, pos + 1 + dd.len() as int);
            let k = find_cr(b, pos + 1);
            assert(e[dd.len() as int + 2] == LF);
            assert(b[k + 1] == e[dd.len() as int + 2]);
            assert(b.subrange(pos + 1, k) =~= dd) by {
                assert forall|j: int| 0 <= j < dd.len() implies b.subrange(pos + 1, k)[j]
                    == dd[j] by {
                    assert(b.subrange(pos + 1, k)[j] == b[pos + 1 + j]);
                    assert(b[pos + 1 + j] == e[1 + j]);
                    assert(e[1 + j] == dd[j]);
                }
            }
            let cnt = d.len() as int;
            assert(e[3 + dd.len() + cnt] == CR);
            assert(b[k + 2 + cnt] == e[3 + dd.len() + cnt]);
            assert(e[4 + dd.len() + cnt] == LF);
            assert(b[k + 3 + cnt] == e[4 + dd.len() + cnt]);
            assert(b.subrange(k + 2, k + 2 + cnt) =~= d) by {
                assert forall|j: int| 0 <= j < cnt implies b.subrange(k + 2, k + 2 + cnt)[j]
                    == d[j] by {
                    assert(b.subrange(k + 2, k + 2 + cnt)[j] == b[k + 2 + j]);
                    assert(b[k + 2 + j] == e[3 + dd.len() + j]);
                    assert(e[1 + dd.len() + 2 + j] == d[j]);
                }
            }
            assert(k + 4 + cnt - pos == e.len());
        },
        FrameModel::Array(a) => {
            let dd = dec_digits(a.len());
            crate::digits::lemma_dec_digits_canonical(a.len());
            let tail = encoding_seq(a, 0);
            assert(e == seq![42u8] + dd + crlf() + tail);
            assert(e[0] == 42);
            assert(b[pos] == e[pos - pos]);
            assert forall|t: int| pos + 1 <= t < pos + 1 + dd.len() implies #[trigger] b[t]
                != CR by {
                assert(b[t] == e[t - pos]);
                assert(e[t - pos] == dd[t - pos - 1]);
            }
            assert(e[1 + dd.len() as int] == CR);
            assert(b[pos + 1 + dd.len()] == e[1 + dd.len() as int]);
            lemma_find_cr_region(b, pos + 1, pos + 1 + dd.len() as int);
            let k = find_cr(b, pos + 1);
            assert(e[dd.len() as int + 2] == LF);
            assert(b[k + 1] == e[dd.len() as int + 2]);
            assert(b.subrange(pos + 1, k) =~= dd) by {
                assert forall|j: int| 0 <= j < dd.len() implies b.subrange(pos + 1, k)[j]
                    == dd[j] by {
                    assert(b.subrange(pos + 1, k)[j] == b[pos + 1 + j]);
                    assert(b[pos + 1 + j] == e[1 + j]);
                    assert(e[1 + j] == dd[j]);
                }
            }
            crate::frame::lemma_wf_seq_iff(a, 0);
            assert(b.subrange(k + 2, k + 2 + tail.len()) =~= tail) by {
                assert forall|j: int| 0 <= j < tail.len() implies b.subrange(
                    k + 2,
                    k + 2 + tail.len(),
                )[j] == tail[j] by {
                    assert(b.subrange(k + 2, k + 2 + tail.len())[j] == b[k + 2 + j]);
                    assert(b[k + 2 + j] == e[3 + dd.len() + j]);
                    assert(e[1 + dd.len() + 2 + j] == tail[j]);
                }
            }
            lemma_parse_elems_complete(b, k + 2, a, 0);
            assert(a.skip(0) =~= a);
            assert(k + 2 + tail.len() - pos == e.len());
        },
    }
}

/// Completeness for the simple and error lines, which share their shape.
proof fn lemma_simple_error_complete(b: Seq<u8>, pos: int, m: FrameModel)
    requires
        wf(m),
        m is Simple || m is Error,
        0 <= pos,
        pos + encoding(m).len() <= b.len(),
        b.subrange(pos, pos + encoding(m).len()) == encoding(m),
    ensures
        parse_at(b, pos) == Parse::Found(m, encoding(m).len() as int),
{
    let e = encoding(m);
    lemma_subrange_agree(b, pos, e);
    let s = match m {
        FrameModel::Simple(s) => s,
        FrameModel::Error(s) => s,
        _ => arbitrary(),
    };
    let mark: u8 = if m is Simple {
        43
    } else {
        45
    };
    let tb = text_bytes(s);
    lemma_text_bytes_ok(s);
    lemma_find_cr_props(b, pos + 1);
    assert(e == seq![mark] + tb + crlf());
    assert(e[0] == mark);
    assert(b[pos] == e[pos - pos]);
    assert forall|t: int| pos + 1 <= t < pos + 1 + tb.len() implies #[trigger] b[t] != CR by {
        assert(b[t] == e[t - pos]);
        assert(e[t - pos] == tb[t - pos - 1]);
    }
    assert(e[1 + tb.len() as int] == CR);
    assert(b[pos + 1 + tb.len()] == e[1 + tb.len() as int]);
    lemma_find_cr_region(b, pos + 1, pos + 1 + tb.len() as int);
    let k = find_cr(b, pos + 1);
    assert(e[tb.len() as int + 2] == LF);
    assert(b[k + 1] == e[tb.len() as int + 2]);
    assert(b.subrange(pos + 1, k) =~= tb) by {
        assert forall|j: int| 0 <= j < tb.len() implies b.subrange(pos + 1, k)[j] == tb[j] by {
            assert(b.subrange(pos + 1, k)[j] == b[pos + 1 + j]);
            assert(b[pos + 1 + j] == e[1 + j]);
            assert(e[1 + j] == tb[j]);
        }
    }
    assert(vstd::utf8::decode_utf8(b.subrange(pos + 1, k)) == s);
}

/// Completeness for a run of frames from element `i` on.
proof fn lemma_parse_elems_complete(b: Seq<u8>, pos: int, a: Seq<FrameModel>, i: int)
    requires
        0 <= i <= a.len(),
        forall|j: int| i <= j < a.len() ==> wf(#[trigger] a[j]),
        0 <= pos,
        pos + encoding_seq(a, i).len() <= b.len(),
        b.subrange(pos, pos + encoding_seq(a, i).len()) == encoding_seq(a, i),
    ensures
        parse_elems(b, pos, a.len() - i) == ParseElems::Found(
            a.skip(i),
            encoding_seq(a, i).len() as int,
        ),
    decreases a, a.len() - i,
{
    broadcast use vstd::seq::axiom_seq_index_decreases;

    if i == a.len() {
        assert(a.skip(i) =~= Seq::<FrameModel>::empty());
    } else {
        let es = encoding_seq(a, i);
        let e0 = encoding(a[i]);
        let rest = encoding_seq(a, i + 1);
        assert(es == e0 + rest);
        lemma_subrange_agree(b, pos, es);
        assert(b.subrange(pos, pos + e0.len()) =~= e0) by {
            assert forall|j: int| 0 <= j < e0.len() implies b.subrange(pos, pos + e0.len())[j]
                == e0[j] by {
                assert(b.subrange(pos, pos + e0.len())[j] == b[pos + j]);
                assert(b[pos + j] == es[j]);
                assert(es[j] == e0[j]);
            }
        }
        lemma_parse_complete(b, pos, a[i]);
        lemma_encoding_len(a[i]);
        assert(b.subrange(pos + e0.len(), pos + e0.len() + rest.len()) =~= rest) by {
            assert forall|j: int| 0 <= j < rest.len() implies b.subrange(
                pos + e0.len(),
                pos + e0.len() + rest.len(),
            )[j] == rest[j] by {
                assert(b.subrange(pos + e0.len(), pos + e0.len() + rest.len())[j] == b[pos
                    + e0.len() + j]);
                assert(b[pos + e0.len() + j] == es[e0.len() + j]);
                assert(es[e0.len() + j] == rest[j]);
            }
        }
        lemma_parse_elems_complete(b, pos + e0.len() as int, a, i + 1);
        assert(seq![a[i]] + a.skip(i + 1) =~= a.skip(i));
    }
}

/// Pointwise agreement up to the end of the buffer, read as a take-prefix.
proof fn lemma_agree_take(b: Seq<u8>, pos: int, e: Seq<u8>)
    requires
        0 <= pos <= b.len(),
        b.len() - pos <= e.len(),
        forall|t: int| pos <= t < b.len() ==> #[trigger] b[t] == e[t - pos],
    ensures
        b.subrange(pos, b.len() as int) == e.take(b.len() - pos),
{
    assert(b.subrange(pos, b.len() as int) =~= e.take(b.len() - pos));
}

/// Incompleteness of the decoder on a cut-off frame: wherever the bytes
/// from `pos` to the end of the buffer form a proper prefix of the wire
/// representation of a well-formed frame, the decoder asks for more bytes
/// and consumes nothing.
#[verifier::rlimit(100)]
pub proof fn lemma_parse_prefix(b: Seq<u8>, pos: int, m: FrameModel)
    requires
        wf(m),
        0 <= pos <= b.len(),
        b.len() - pos < encoding(m).len(),
        b.subrange(pos, b.len() as int) == encoding(m).take(b.len() - pos),
    ensures
        parse_at(b, pos) == Parse::Incomplete,
    decreases m, 0int,
{
    let e = encoding(m);
    let avail = b.len() - pos;
    assert forall|t: int| pos <= t < b.len() implies #[trigger] b[t] == e[t - pos] by {
        assert(b.subrange(pos, b.len() as int)[t - pos] == b[t]);
        assert(e.take(avail)[t - pos] == e[t - pos]);
    }
    if avail == 0 {
        return ;
    }
    lemma_encoding_len(m);
    lemma_find_cr_props(b, pos + 1);
    match m {
        FrameModel::Null => {},
        FrameModel::Simple(s) => {
            lemma_text_bytes_ok(s);
            lemma_line_prefix_incomplete(b, pos, e, text_bytes(s));
        },
        FrameModel::Error(s) => {
            lemma_text_bytes_ok(s);
            lemma_line_prefix_incomplete(b, pos, e, text_bytes(s));
        },
        FrameModel::Integer(i) => {
            lemma_int_bytes_no_crlf(i);
            lemma_line_prefix_incomplete(b, pos, e, int_bytes(i));
        },
        FrameModel::Bulk(d) => {
            let dd = dec_digits(d.len());
            crate::digits::lemma_dec_digits_canonical(d.len());
            let field: Seq<u8> = dd;
            assert(forall|t: int|
                0 <= t < field.len() ==> #[trigger] field[t] != CR && field[t] != LF);
            assert(e == seq![36u8] + dd + crlf() + d + crlf());
            let el = field.len() as int;
            if avail <= 1 + el {
                assert forall|t: int| pos + 1 <= t < b.len() implies b[t] != CR by {
                    assert(b[t] == e[t - pos]);
                    assert(e[t - pos] == field[t - pos - 1]);
                }
                lemma_find_cr_region(b, pos + 1, b.len() as int);
            } else {
                assert forall|t: int| pos + 1 <= t < pos + 1 + el implies b[t] != CR by {
                    assert(b[t] == e[t - pos]);
                    assert(e[t - pos] == field[t - pos - 1]);
                }
                assert(e[1 + el] == CR);
                assert(b[pos + 1 + el] == e[1 + el]);
                lemma_find_cr_region(b, pos + 1, pos + 1 + el);
                let k = find_cr(b, pos + 1);
                if avail == 2 + el {
                    assert(k + 1 >= b.len());
                } else {
                    assert(e[el + 2] == LF);
                    assert(b[k + 1] == e[el + 2]);
                    assert(b.subrange(pos + 1, k) =~= dd) by {
                        assert forall|j: int| 0 <= j < el implies b.subrange(pos + 1, k)[j]
                            == dd[j] by {
                            assert(b.subrange(pos + 1, k)[j] == b[pos + 1 + j]);
                            assert(b[pos + 1 + j] == e[1 + j]);
                            assert(e[1 + j] == dd[j]);
                        }
                    }
                    let cnt = d.len() as int;
                    assert(avail < e.len());
                    assert(e.len() == 1 + el + 2 + cnt + 2);
                    assert(b.len() < k + 4 + cnt);
                }
            }
        },
        FrameModel::Array(a) => {
            let dd = dec_digits(a.len());
            crate::digits::lemma_dec_digits_canonical(a.len());
            let field: Seq<u8> = dd;
            assert(forall|t: int|
                0 <= t < field.len() ==> #[trigger] field[t] != CR && field[t] != LF);
            let tail = encoding_seq(a, 0);
            assert(e == seq![42u8] + dd + crlf() + tail);
            let el = field.len() as int;
            if avail <= 1 + el {
                assert forall|t: int| pos + 1 <= t < b.len() implies b[t] != CR by {
                    assert(b[t] == e[t - pos]);
                    assert(e[t - pos] == field[t - pos - 1]);
                }
                lemma_find_cr_region(b, pos + 1, b.len() as int);
            } else {
                assert forall|t: int| pos + 1 <= t < pos + 1 + el implies b[t] != CR by {
                    assert(b[t] == e[t - pos]);
                    assert(e[t - pos] == field[t - pos - 1]);
                }
                assert(e[1 + el] == CR);
                assert(b[pos + 1 + el] == e[1 + el]);
                lemma_find_cr_region(b, pos + 1, pos + 1 + el);
                let k = find_cr(b, pos + 1);
                if avail == 2 + el {
                    assert(k + 1 >= b.len());
                } else {
                    assert(e[el + 2] == LF);
                    assert(b[k + 1] == e[el + 2]);
                    assert(b.subrange(pos + 1, k) =~= dd) by {
                        assert forall|j: int| 0 <= j < el implies b.subrange(pos + 1, k)[j]
                            == dd[j] by {
                            assert(b.subrange(pos + 1, k)[j] == b[pos + 1 + j]);
                            assert(b[pos + 1 + j] == e[1 + j]);
                            assert(e[1 + j] == dd[j]);
                        }
                    }
                    crate::frame::lemma_wf_seq_iff(a, 0);
                    assert forall|t: int| k + 2 <= t < b.len() implies #[trigger] b[t] == tail[t
                        - (k + 2)] by {
                        assert(b[t] == e[t - pos]);
                        assert(e[t - pos] == tail[t - pos - 3 - el]);
                    }
                    lemma_agree_take(b, k + 2, tail);
                    lemma_parse_elems_prefix(b, k + 2, a, 0);
                }
            }
        },
    }
}

/// The shared shape of the cut-off simple, error and integer lines: the
/// line terminator never arrives whole, so the decoder keeps waiting.
proof fn lemma_line_prefix_incomplete(b: Seq<u8>, pos: int, e: Seq<u8>, field: Seq<u8>)
    requires
        0 <= pos < b.len(),
        b.len() - pos < e.len(),
        e.len() == field.len() + 3,
        forall|t: int| 0 <= t < field.len() ==> #[trigger] field[t] != CR && field[t] != LF,
        forall|j: int| 1 <= j < 1 + field.len() ==> #[trigger] e[j] == field[j - 1],
        e[1 + field.len() as int] == CR,
        forall|t: int| pos <= t < b.len() ==> #[trigger] b[t] == e[t - pos],
    ensures
        find_cr(b, pos + 1) + 1 >= b.len(),
{
    let avail = b.len() - pos;
    let el = field.len() as int;
    if avail <= 1 + el {
        assert forall|t: int| pos + 1 <= t < b.len() implies b[t] != CR by {
            assert(b[t] == e[t - pos]);
            assert(e[t - pos] == field[t - pos - 1]);
        }
        lemma_find_cr_region(b, pos + 1, b.len() as int);
    } else {
        assert(avail == 2 + el);
        assert forall|t: int| pos + 1 <= t < pos + 1 + el implies b[t] != CR by {
            assert(b[t] == e[t - pos]);
            assert(e[t - pos] == field[t - pos - 1]);
        }
        assert(b[pos + 1 + el] == e[1 + el]);
        lemma_find_cr_region(b, pos + 1, pos + 1 + el);
    }
}

/// Incompleteness for a cut-off run of frames.
proof fn lemma_parse_elems_prefix(b: Seq<u8>, pos: int, a: Seq<FrameModel>, i: int)
    requires
        0 <= i <= a.len(),
        forall|j: int| i <= j < a.len() ==> wf(#[trigger] a[j]),
        0 <= pos <= b.len(),
        b.len() - pos < encoding_seq(a, i).len(),
        b.subrange(pos, b.len() as int) == encoding_seq(a, i).take(b.len() - pos),
    ensures
        parse_elems(b, pos, a.len() - i) == ParseElems::Incomplete,
    decreases a, a.len() - i,
{
    broadcast use vstd::seq::axiom_seq_index_decreases;

    let es = encoding_seq(a, i);
    let avail = b.len() - pos;
    assert(i < a.len());
    assert forall|t: int| pos <= t < b.len() implies #[trigger] b[t] == es[t - pos] by {
        assert(b.subrange(pos, b.len() as int)[t - pos] == b[t]);
        assert(es.take(avail)[t - pos] == es[t - pos]);
    }
    let e0 = encoding(a[i]);
    let rest = encoding_seq(a, i + 1);
    assert(es == e0 + rest);
    lemma_encoding_len(a[i]);
    if avail < e0.len() {
        assert forall|t: int| pos <= t < b.len() implies #[trigger] b[t] == e0[t - pos] by {
            assert(b[t] == es[t - pos]);
            assert(es[t - pos] == e0[t - pos]);
        }
        lemma_agree_take(b, pos, e0);
        lemma_parse_prefix(b, pos, a[i]);
    } else {
        assert(b.subrange(pos, pos + e0.len()) =~= e0) by {
            assert forall|j: int| 0 <= j < e0.len() implies b.subrange(pos, pos + e0.len())[j]
                == e0[j] by {
                assert(b.subrange(pos, pos + e0.len())[j] == b[pos + j]);
                assert(b[pos + j] == es[j]);
                assert(es[j] == e0[j]);
            }
        }
        lemma_parse_complete(b, pos, a[i]);
        assert forall|t: int| pos + e0.len() <= t < b.len() implies #[trigger] b[t] == rest[t - (
        pos + e0.len())] by {
            assert(b[t] == es[t - pos]);
            assert(es[t - pos] == rest[t - pos - e0.len()]);
        }
        lemma_agree_take(b, pos + e0.len() as int, rest);
        lemma_parse_elems_prefix(b, pos + e0.len() as int, a, i + 1);
    }
}

/// One well-formed frame followed by anything decodes to exactly that
/// frame, taking exactly its wire representation: decoding is the left
/// inverse of encoding.
pub proof fn lemma_round_trip(m: FrameModel, b: Seq<u8>)
    requires
        wf(m),
        encoding(m).len() <= b.len(),
        b.subrange(0, encoding(m).len() as int) == encoding(m),
    ensures
        parse_at(b, 0) == Parse::Found(m, encoding(m).len() as int),
{
    lemma_parse_complete(b, 0, m);
}

/// Every proper prefix of a well-formed frame's wire representation
/// decodes to `Incomplete`: a cut-off frame is never misread and never
/// consumes bytes.
pub proof fn lemma_prefix_incomplete(m: FrameModel, n: int)
    requires
        wf(m),
        0 <= n < encoding(m).len(),
    ensures
        parse_at(encoding(m).take(n), 0) == Parse::Incomplete,
{
    let b = encoding(m).take(n);
    assert(b.subrange(0, n) =~= encoding(m).take(n));
    lemma_parse_prefix(b, 0, m);
}

/// Appends the UTF-8 bytes of a text line.
fn push_text(out: &mut Vec<u8>, s: &String)
    ensures
        final(out)@ == old(out)@ + text_bytes(s@),
{
    let ghost base = out@;
    let st = s.as_str();
    let bs = st.as_bytes();
    proof {
        assert(bs@ == text_bytes(s@));
    }
    let mut i: usize = 0;
    while i < bs.len()
        invariant
            i <= bs@.len(),
            out@ == base + bs@.take(i as int),
        decreases bs@.len() - i,
    {
        out.push(bs[i]);
        i = i + 1;
        proof {
            assert(out@ =~= base + bs@.take(i as int));
        }
    }
    proof {
        assert(bs@.take(bs@.len() as int) =~= bs@);
    }
}

/// Appends the signed decimal spelling of `i`.
fn push_int(out: &mut Vec<u8>, i: i64)
    ensures
        final(out)@ == old(out)@ + int_bytes(i as int),
{
    let ghost base = out@;
    if i < 0 {
        out.push(45);
        let mag: u64 = ((-(i + 1)) as u64) + 1;
        push_digits(out, mag);
        proof {
            assert(mag as nat == (-(i as int)) as nat);
            assert(out@ =~= base + int_bytes(i as int));
        }
    } else {
        push_digits(out, i as u64);
    }
}

/// Serializes `f`, appending its wire representation to `out`.
pub fn encode(f: &Frame, out: &mut Vec<u8>)
    requires
        crate::frame::encodable(fm(*f)),
    ensures
        final(out)@ == old(out)@ + encoding(fm(*f)),
    decreases *f,
{
    let ghost base = out@;
    match f {
        Frame::Simple(s) => {
            out.push(43);
            push_text(out, s);
            out.push(CR);
            out.push(LF);
            proof {
                assert(out@ =~= base + encoding(fm(*f)));
            }
        },
        Frame::Error(s) => {
            out.push(45);
            push_text(out, s);
            out.push(CR);
            out.push(LF);
            proof {
                assert(out@ =~= base + encoding(fm(*f)));
            }
        },
        Frame::Integer(i) => {
            out.push(58);
            push_int(out, *i);
            out.push(CR);
            out.push(LF);
            proof {
                assert(out@ =~= base + encoding(fm(*f)));
            }
        },
        Frame::Bulk(body) => {
            out.push(36);
            push_digits(out, body.len() as u64);
            out.push(CR);
            out.push(LF);
            let ghost mid = out@;
            let mut i: usize = 0;
            while i < body.len()
                invariant
                    i <= body@.len(),
                    out@ == mid + body@.take(i as int),
                decreases body@.len() - i,
            {
                out.push(body[i]);
                i = i + 1;
                proof {
                    assert(out@ =~= mid + body@.take(i as int));
                }
            }
            out.push(CR);
            out.push(LF);
            proof {
                assert(body@.take(body@.len() as int) =~= body@);
                assert(out@ =~= base + encoding(fm(*f)));
            }
        },
        Frame::Null => {
            out.push(95);
            proof {
                assert(out@ =~= base + encoding(fm(*f)));
            }
        },
        Frame::Array(v) => {
            let ghost ms = fm_seq(v@, 0);
            proof {
                lemma_fm_seq_props(v@, 0);
                crate::frame::lemma_encodable_seq_iff(ms, 0);
            }
            out.push(42);
            push_digits(out, v.len() as u64);
            out.push(CR);
            out.push(LF);
            let mut i: usize = 0;
            proof {
                assert(base + encoding(fm(*f)) =~= out@ + encoding_seq(ms, 0));
            }
            while i < v.len()
                invariant
                    *f == Frame::Array(*v),
                    i <= v@.len(),
                    ms == fm_seq(v@, 0),
                    ms.len() == v@.len(),
                    forall|j: int| 0 <= j < ms.len() ==> #[trigger] ms[j] == fm(v@[j]),
                    forall|j: int| 0 <= j < ms.len() ==> crate::frame::encodable(#[trigger] ms[j]),
                    base + encoding(fm(*f)) == out@ + encoding_seq(ms, i as int),
                decreases v@.len() - i,
            {
                proof {
                    assert(encoding_seq(ms, i as int) == encoding(ms[i as int]) + encoding_seq(
                        ms,
                        i as int + 1,
                    ));
                }
                let ghost pre = out@;
                proof {
                    vstd::std_specs::vec::axiom_vec_index_decreases::<Frame>(*v, i as int);
                    assert(decreases_to!(*f => *v));
                    assert(decreases_to!(*f => v@[i as int]));
                }
                encode(&v[i], out);
                i = i + 1;
                proof {
                    assert(base + encoding(fm(*f)) =~= out@ + encoding_seq(ms, i as int));
                }
            }
            proof {
                assert(encoding_seq(ms, v@.len() as int) =~= Seq::<u8>::empty());
                assert(out@ =~= out@ + encoding_seq(ms, v@.len() as int));
            }
        },
    }
}

} // verus!
