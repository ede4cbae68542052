//! The protocol message type and its mathematical model.
//!
//! A `Frame` is one complete message. On the wire every frame starts with a
//! one-byte type marker: `+` simple text, `-` error text, `:` signed decimal
//! integer, `$` length-prefixed binary payload, `*` length-prefixed array of
//! nested frames, `_` the null frame. Text lines and decimal fields end with
//! CR LF; the null frame is its marker alone.

use vstd::prelude::*;

verus! {

/// Largest payload length (bulk bytes) and element count (array) the codec
/// accepts; a declared length beyond it is rejected before any allocation.
pub const MAX_LEN: usize = 8 * 1024 * 1024;

pub const CR: u8 = 13;

pub const LF: u8 = 10;

/// One complete protocol message, the smallest unit exchanged over the wire.
#[derive(Debug, PartialEq, Eq)]
pub enum Frame {
    /// Short status or text reply, e.g. `OK`.
    Simple(String),
    /// Failure reply carrying a human-readable message.
    Error(String),
    /// Signed 64-bit integer reply.
    Integer(i64),
    /// Binary payload; used for stored values.
    Bulk(Vec<u8>),
    /// Absence of a value.
    Null,
    /// Ordered sequence of nested frames; used for client requests.
    Array(Vec<Frame>),
}

/// Ghost mirror of [`Frame`] over mathematical sequences; every contract in
/// the crate speaks of this model.
pub enum FrameModel {
    Simple(Seq<char>),
    Error(Seq<char>),
    Integer(int),
    Bulk(Seq<u8>),
    Null,
    Array(Seq<FrameModel>),
}

/// Model of a frame: the same shape with `String` and `Vec` replaced by
/// their views.
pub open spec fn fm(f: Frame) -> FrameModel
    decreases f, 0int,
{
    match f {
        Frame::Simple(s) => FrameModel::Simple(s@),
        Frame::Error(s) => FrameModel::Error(s@),
        Frame::Integer(i) => FrameModel::Integer(i as int),
        Frame::Bulk(b) => FrameModel::Bulk(b@),
        Frame::Null => FrameModel::Null,
        Frame::Array(v) => FrameModel::Array(fm_seq(v@, 0)),
    }
}

/// Models of the frames of `s` from index `i` on.
pub open spec fn fm_seq(s: Seq<Frame>, i: int) -> Seq<FrameModel>
    decreases s, s.len() - i,
{
    if i < 0 || i >= s.len() {
        Seq::empty()
    } else {
        seq![fm(s[i])] + fm_seq(s, i + 1)
    }
}

/// UTF-8 bytes of a text.
pub open spec fn text_bytes(s: Seq<char>) -> Seq<u8> {
    vstd::utf8::encode_utf8(s)
}

/// Text that may stand in a simple or error frame: its UTF-8 encoding
/// holds no line-terminator byte, so the line-based wire shape can carry
/// it verbatim. Every byte of a multi-byte encoding is at least 0x80, so
/// this says exactly that the text has no CR and no LF character.
pub open spec fn wf_text(s: Seq<char>) -> bool {
    forall|i: int|
        0 <= i < text_bytes(s).len() ==> #[trigger] text_bytes(s)[i] != CR && text_bytes(s)[i]
            != LF
}

/// Line-terminator-free ASCII text is well formed.
pub proof fn lemma_ascii_text_wf(s: Seq<char>)
    requires
        vstd::utf8::is_ascii_chars(s),
        forall|i: int| 0 <= i < s.len() ==> #[trigger] s[i] != '\r' && s[i] != '\n',
    ensures
        wf_text(s),
{
    vstd::utf8::is_ascii_chars_encode_utf8(s);
    assert forall|i: int| 0 <= i < text_bytes(s).len() implies #[trigger] text_bytes(s)[i] != CR
        && text_bytes(s)[i] != LF by {
        assert(text_bytes(s)[i] == s[i] as u8);
        assert(s[i] <= '\u{7f}');
    }
}

/// Well-formed frames: exactly those that encode to a wire representation
/// the decoder accepts back.
pub open spec fn wf(m: FrameModel) -> bool
    decreases m, 0int,
{
    match m {
        FrameModel::Simple(s) => wf_text(s),
        FrameModel::Error(s) => wf_text(s),
        FrameModel::Integer(i) => i64::MIN <= i <= i64::MAX,
        FrameModel::Bulk(b) => b.len() <= MAX_LEN,
        FrameModel::Null => true,
        FrameModel::Array(a) => a.len() <= MAX_LEN && wf_seq(a, 0),
    }
}

/// All elements of `a` from index `i` on are well formed.
pub open spec fn wf_seq(a: Seq<FrameModel>, i: int) -> bool
    decreases a, a.len() - i,
{
    if i < 0 || i >= a.len() {
        true
    } else {
        wf(a[i]) && wf_seq(a, i + 1)
    }
}

/// Frames the encoder can serialize: text lines must carry text the
/// line-based wire shape can hold. Unlike [`wf`] this puts no upper bound
/// on payload lengths: the decoder's resource bound does not keep the
/// server from serializing a long stored value.
pub open spec fn encodable(m: FrameModel) -> bool
    decreases m, 0int,
{
    match m {
        FrameModel::Simple(s) => wf_text(s),
        FrameModel::Error(s) => wf_text(s),
        FrameModel::Integer(i) => i64::MIN <= i <= i64::MAX,
        FrameModel::Bulk(b) => true,
        FrameModel::Null => true,
        FrameModel::Array(a) => encodable_seq(a, 0),
    }
}

/// All elements of `a` from index `i` on are encodable.
pub open spec fn encodable_seq(a: Seq<FrameModel>, i: int) -> bool
    decreases a, a.len() - i,
{
    if i < 0 || i >= a.len() {
        true
    } else {
        encodable(a[i]) && encodable_seq(a, i + 1)
    }
}

/// Element-wise reading of `encodable_seq`.
pub proof fn lemma_encodable_seq_iff(a: Seq<FrameModel>, i: int)
    requires
        0 <= i <= a.len(),
    ensures
        encodable_seq(a, i) <==> (forall|j: int| i <= j < a.len() ==> encodable(#[trigger] a[j])),
    decreases a.len() - i,
{
    if i < a.len() {
        lemma_encodable_seq_iff(a, i + 1);
    }
}

/// Decimal digits of `n`, most significant first, no leading zero.
pub open spec fn dec_digits(n: nat) -> Seq<u8>
    decreases n,
{
    if n < 10 {
        seq![(48 + n) as u8]
    } else {
        dec_digits(n / 10).push((48 + n % 10) as u8)
    }
}

/// Wire bytes of a signed decimal integer field.
pub open spec fn int_bytes(i: int) -> Seq<u8> {
    if i < 0 {
        seq![45u8] + dec_digits((-i) as nat)
    } else {
        dec_digits(i as nat)
    }
}

/// The two-byte line terminator.
pub open spec fn crlf() -> Seq<u8> {
    seq![CR, LF]
}

/// The wire representation of a frame.
pub open spec fn encoding(m: FrameModel) -> Seq<u8>
    decreases m, 0int,
{
    match m {
        FrameModel::Simple(s) => seq![43u8] + text_bytes(s) + crlf(),
        FrameModel::Error(s) => seq![45u8] + text_bytes(s) + crlf(),
        FrameModel::Integer(i) => seq![58u8] + int_bytes(i) + crlf(),
        FrameModel::Bulk(b) => seq![36u8] + dec_digits(b.len()) + crlf() + b + crlf(),
        FrameModel::Null => seq![95u8],
        FrameModel::Array(a) => seq![42u8] + dec_digits(a.len()) + crlf() + encoding_seq(a, 0),
    }
}

/// Length and elements of the model sequence of a frame sequence.
pub proof fn lemma_fm_seq_props(s: Seq<Frame>, i: int)
    requires
        0 <= i <= s.len(),
    ensures
        fm_seq(s, i).len() == s.len() - i,
        forall|j: int| 0 <= j < s.len() - i ==> #[trigger] fm_seq(s, i)[j] == fm(s[i + j]),
    decreases s.len() - i,
{
    if i < s.len() {
        lemma_fm_seq_props(s, i + 1);
    }
}

/// Element-wise reading of `wf_seq`.
pub proof fn lemma_wf_seq_iff(a: Seq<FrameModel>, i: int)
    requires
        0 <= i <= a.len(),
    ensures
        wf_seq(a, i) <==> (forall|j: int| i <= j < a.len() ==> wf(#[trigger] a[j])),
    decreases a.len() - i,
{
    if i < a.len() {
        lemma_wf_seq_iff(a, i + 1);
    }
}

/// Concatenated wire representations of the elements of `a` from `i` on.
pub open spec fn encoding_seq(a: Seq<FrameModel>, i: int) -> Seq<u8>
    decreases a, a.len() - i,
{
    if i < 0 || i >= a.len() {
        Seq::empty()
    } else {
        encoding(a[i]) + encoding_seq(a, i + 1)
    }
}

} // verus!
