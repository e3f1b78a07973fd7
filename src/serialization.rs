//! Frames of the wire protocol and their binary encoding.
//!
//! Layout, all integers little-endian: `sequence` (8 bytes), `timestamp`
//! (8 bytes), then the payload: a tag byte followed by
//! - `0` data: a 4-byte length and the bytes;
//! - `1` samples: a 4-byte count and 4 bytes per sample (its IEEE-754 bits);
//! - `2` control: a control message;
//! - `3` error: the 4-byte code, the message as length-prefixed UTF-8, and a
//!   byte `0` or `1` for `recoverable`.
//!
//! A control message is a tag byte followed by
//! - `0` credit: 4-byte amount; `1` ack: 8-byte sequence;
//! - `2` pause, `3` resume, `4` complete: nothing;
//! - `5` subscribe, `6` unsubscribe: the stream id as length-prefixed UTF-8.
use vstd::bytes::*;
use vstd::prelude::*;
use vstd::slice::*;
use vstd::string::*;
use vstd::utf8::*;

verus! {

broadcast use vstd::utf8::encode_utf8_decode_utf8, vstd::utf8::encode_utf8_valid_utf8, vstd::utf8::decode_utf8_encode_utf8;

#[derive(Clone, Debug, PartialEq, Eq)]
pub struct Frame {
    pub sequence: u64,
    pub timestamp: u64,
    pub payload: Payload,
}

#[derive(Clone, Debug, PartialEq, Eq)]
pub enum Payload {
    Data(Vec<u8>),
    /// Samples as the bit patterns of 32-bit floats.
    Float32Array(Vec<u32>),
    Control(ControlMessage),
    Error(ErrorInfo),
}

#[derive(Clone, Debug, PartialEq, Eq)]
pub enum ControlMessage {
    Credit(u32),
    Ack(u64),
    Pause,
    Resume,
    Complete,
    Subscribe { stream_id: String },
    Unsubscribe { stream_id: String },
}

#[derive(Clone, Debug, PartialEq, Eq)]
pub struct ErrorInfo {
    pub code: u32,
    pub message: String,
    pub recoverable: bool,
}

/// Why a frame could not be encoded or decoded.
#[derive(Clone, Copy, Debug, PartialEq, Eq, Structural)]
pub enum CodecError {
    /// A tag byte names no variant.
    UnknownDiscriminant,
    /// The input ends inside a field.
    TruncatedInput,
    /// A field's bytes do not form a value of its type (text that is not
    /// UTF-8, a flag byte other than `0` or `1`).
    TypeMismatch,
    /// Bytes remain after a complete frame.
    TrailingBytes,
    /// A byte string, text or sample list is too long for its 4-byte prefix.
    LengthOverflow,
}

pub enum ControlView {
    Credit(u32),
    Ack(u64),
    Pause,
    Resume,
    Complete,
    Subscribe(Seq<char>),
    Unsubscribe(Seq<char>),
}

pub enum PayloadView {
    Data(Seq<u8>),
    Float32Array(Seq<u32>),
    Control(ControlView),
    Error(u32, Seq<char>, bool),
}

pub struct FrameView {
    pub sequence: u64,
    pub timestamp: u64,
    pub payload: PayloadView,
}

impl View for ControlMessage {
    type V = ControlView;

    open spec fn view(&self) -> ControlView {
        match self {
            ControlMessage::Credit(a) => ControlView::Credit(*a),
            ControlMessage::Ack(s) => ControlView::Ack(*s),
            ControlMessage::Pause => ControlView::Pause,
            ControlMessage::Resume => ControlView::Resume,
            ControlMessage::Complete => ControlView::Complete,
            ControlMessage::Subscribe { stream_id } => ControlView::Subscribe(stream_id@),
            ControlMessage::Unsubscribe { stream_id } => ControlView::Unsubscribe(stream_id@),
        }
    }
}

impl View for Payload {
    type V = PayloadView;

    open spec fn view(&self) -> PayloadView {
        match self {
            Payload::Data(b) => PayloadView::Data(b@),
            Payload::Float32Array(s) => PayloadView::Float32Array(s@),
            Payload::Control(c) => PayloadView::Control(c@),
            Payload::Error(e) => PayloadView::Error(e.code, e.message@, e.recoverable),
        }
    }
}

impl View for Frame {
    type V = FrameView;

    open spec fn view(&self) -> FrameView {
        FrameView { sequence: self.sequence, timestamp: self.timestamp, payload: self.payload@ }
    }
}

// ---------------------------------------------------------------- encoding

/// `b` preceded by its length in 4 bytes.
pub open spec fn spec_prefixed(b: Seq<u8>) -> Seq<u8> {
    spec_u32_to_le_bytes(b.len() as u32) + b
}

/// The 4-byte encodings of `s`, one after the other.
pub open spec fn spec_sample_bytes(s: Seq<u32>) -> Seq<u8>
    decreases s.len(),
{
    if s.len() == 0 {
        Seq::empty()
    } else {
        spec_u32_to_le_bytes(s[0]) + spec_sample_bytes(s.drop_first())
    }
}

pub open spec fn spec_encode_control(c: ControlView) -> Seq<u8> {
    match c {
        ControlView::Credit(a) => seq![0u8] + spec_u32_to_le_bytes(a),
        ControlView::Ack(s) => seq![1u8] + spec_u64_to_le_bytes(s),
        ControlView::Pause => seq![2u8],
        ControlView::Resume => seq![3u8],
        ControlView::Complete => seq![4u8],
        ControlView::Subscribe(id) => seq![5u8] + spec_prefixed(encode_utf8(id)),
        ControlView::Unsubscribe(id) => seq![6u8] + spec_prefixed(encode_utf8(id)),
    }
}

pub open spec fn spec_encode_payload(p: PayloadView) -> Seq<u8> {
    match p {
        PayloadView::Data(b) => seq![0u8] + spec_prefixed(b),
        PayloadView::Float32Array(s) => seq![1u8] + spec_u32_to_le_bytes(s.len() as u32)
            + spec_sample_bytes(s),
        PayloadView::Control(c) => seq![2u8] + spec_encode_control(c),
        PayloadView::Error(code, message, recoverable) => seq![3u8] + spec_u32_to_le_bytes(code)
            + spec_prefixed(encode_utf8(message)) + seq![if recoverable { 1u8 } else { 0u8 }],
    }
}

/// The bytes of a frame.
pub open spec fn spec_encode(f: FrameView) -> Seq<u8> {
    spec_u64_to_le_bytes(f.sequence) + spec_u64_to_le_bytes(f.timestamp) + spec_encode_payload(
        f.payload,
    )
}

/// Every length that the encoding prefixes fits in 4 bytes.
pub open spec fn encodable(f: FrameView) -> bool {
    match f.payload {
        PayloadView::Data(b) => b.len() <= u32::MAX,
        PayloadView::Float32Array(s) => s.len() <= u32::MAX,
        PayloadView::Control(ControlView::Subscribe(id)) => encode_utf8(id).len() <= u32::MAX,
        PayloadView::Control(ControlView::Unsubscribe(id)) => encode_utf8(id).len() <= u32::MAX,
        PayloadView::Error(_, message, _) => encode_utf8(message).len() <= u32::MAX,
        _ => true,
    }
}

// ---------------------------------------------------------------- decoding

pub open spec fn take_u8(b: Seq<u8>) -> Result<(u8, Seq<u8>), CodecError> {
    if b.len() < 1 {
        Err(CodecError::TruncatedInput)
    } else {
        Ok((b[0], b.drop_first()))
    }
}

pub open spec fn take_u32(b: Seq<u8>) -> Result<(u32, Seq<u8>), CodecError> {
    if b.len() < 4 {
        Err(CodecError::TruncatedInput)
    } else {
        Ok((spec_u32_from_le_bytes(b.subrange(0, 4)), b.subrange(4, b.len() as int)))
    }
}

pub open spec fn take_u64(b: Seq<u8>) -> Result<(u64, Seq<u8>), CodecError> {
    if b.len() < 8 {
        Err(CodecError::TruncatedInput)
    } else {
        Ok((spec_u64_from_le_bytes(b.subrange(0, 8)), b.subrange(8, b.len() as int)))
    }
}

pub open spec fn take_bytes(b: Seq<u8>) -> Result<(Seq<u8>, Seq<u8>), CodecError> {
    match take_u32(b) {
        Err(e) => Err(e),
        Ok((n, rest)) => if rest.len() < n {
            Err(CodecError::TruncatedInput)
        } else {
            Ok((rest.subrange(0, n as int), rest.subrange(n as int, rest.len() as int)))
        },
    }
}

pub open spec fn take_text(b: Seq<u8>) -> Result<(Seq<char>, Seq<u8>), CodecError> {
    match take_bytes(b) {
        Err(e) => Err(e),
        Ok((t, rest)) => if valid_utf8(t) {
            Ok((decode_utf8(t), rest))
        } else {
            Err(CodecError::TypeMismatch)
        },
    }
}

/// The samples held by `b`, 4 bytes each.
pub open spec fn spec_samples_of(b: Seq<u8>) -> Seq<u32>
    decreases b.len(),
{
    if b.len() < 4 {
        Seq::empty()
    } else {
        seq![spec_u32_from_le_bytes(b.subrange(0, 4))] + spec_samples_of(b.subrange(4, b.len() as int))
    }
}

pub open spec fn take_samples(b: Seq<u8>) -> Result<(Seq<u32>, Seq<u8>), CodecError> {
    match take_u32(b) {
        Err(e) => Err(e),
        Ok((n, rest)) => if rest.len() < 4 * n {
            Err(CodecError::TruncatedInput)
        } else {
            Ok((spec_samples_of(rest.subrange(0, 4 * n)), rest.subrange(4 * n, rest.len() as int)))
        },
    }
}

pub open spec fn take_control(b: Seq<u8>) -> Result<(ControlView, Seq<u8>), CodecError> {
    match take_u8(b) {
        Err(e) => Err(e),
        Ok((tag, rest)) => if tag == 0 {
            match take_u32(rest) {
                Err(e) => Err(e),
                Ok((a, rest)) => Ok((ControlView::Credit(a), rest)),
            }
        } else if tag == 1 {
            match take_u64(rest) {
                Err(e) => Err(e),
                Ok((s, rest)) => Ok((ControlView::Ack(s), rest)),
            }
        } else if tag == 2 {
            Ok((ControlView::Pause, rest))
        } else if tag == 3 {
            Ok((ControlView::Resume, rest))
        } else if tag == 4 {
            Ok((ControlView::Complete, rest))
        } else if tag == 5 {
            match take_text(rest) {
                Err(e) => Err(e),
                Ok((id, rest)) => Ok((ControlView::Subscribe(id), rest)),
            }
        } else if tag == 6 {
            match take_text(rest) {
                Err(e) => Err(e),
                Ok((id, rest)) => Ok((ControlView::Unsubscribe(id), rest)),
            }
        } else {
            Err(CodecError::UnknownDiscriminant)
        },
    }
}

pub open spec fn take_flag(b: Seq<u8>) -> Result<(bool, Seq<u8>), CodecError> {
    match take_u8(b) {
        Err(e) => Err(e),
        Ok((v, rest)) => if v == 0 {
            Ok((false, rest))
        } else if v == 1 {
            Ok((true, rest))
        } else {
            Err(CodecError::TypeMismatch)
        },
    }
}

pub open spec fn take_payload(b: Seq<u8>) -> Result<(PayloadView, Seq<u8>), CodecError> {
    match take_u8(b) {
        Err(e) => Err(e),
        Ok((tag, rest)) => if tag == 0 {
            match take_bytes(rest) {
                Err(e) => Err(e),
                Ok((d, rest)) => Ok((PayloadView::Data(d), rest)),
            }
        } else if tag == 1 {
            match take_samples(rest) {
                Err(e) => Err(e),
                Ok((s, rest)) => Ok((PayloadView::Float32Array(s), rest)),
            }
        } else if tag == 2 {
            match take_control(rest) {
                Err(e) => Err(e),
                Ok((c, rest)) => Ok((PayloadView::Control(c), rest)),
            }
        } else if tag == 3 {
            match take_u32(rest) {
                Err(e) => Err(e),
                Ok((code, rest)) => match take_text(rest) {
                    Err(e) => Err(e),
                    Ok((m, rest)) => match take_flag(rest) {
                        Err(e) => Err(e),
                        Ok((r, rest)) => Ok((PayloadView::Error(code, m, r), rest)),
                    },
                },
            }
        } else {
            Err(CodecError::UnknownDiscriminant)
        },
    }
}

/// The frame that `b` holds, or the first fault met reading it front to back.
pub open spec fn spec_decode(b: Seq<u8>) -> Result<FrameView, CodecError> {
    match take_u64(b) {
        Err(e) => Err(e),
        Ok((sequence, rest)) => match take_u64(rest) {
            Err(e) => Err(e),
            Ok((timestamp, rest)) => match take_payload(rest) {
                Err(e) => Err(e),
                Ok((payload, rest)) => if rest.len() == 0 {
                    Ok(FrameView { sequence, timestamp, payload })
                } else {
                    Err(CodecError::TrailingBytes)
                },
            },
        },
    }
}

// ---------------------------------------------------------------- laws

proof fn lemma_take_u32(x: u32, rest: Seq<u8>)
    ensures
        take_u32(spec_u32_to_le_bytes(x) + rest) == Ok::<(u32, Seq<u8>), CodecError>((x, rest)),
{
    lemma_auto_spec_u32_to_from_le_bytes();
    let b = spec_u32_to_le_bytes(x) + rest;
    assert(b.subrange(0, 4) =~= spec_u32_to_le_bytes(x));
    assert(b.subrange(4, b.len() as int) =~= rest);
}

proof fn lemma_take_u64(x: u64, rest: Seq<u8>)
    ensures
        take_u64(spec_u64_to_le_bytes(x) + rest) == Ok::<(u64, Seq<u8>), CodecError>((x, rest)),
{
    lemma_auto_spec_u64_to_from_le_bytes();
    let b = spec_u64_to_le_bytes(x) + rest;
    assert(b.subrange(0, 8) =~= spec_u64_to_le_bytes(x));
    assert(b.subrange(8, b.len() as int) =~= rest);
}

proof fn lemma_take_u32_inv(b: Seq<u8>)
    ensures
        take_u32(b) matches Ok((x, rest)) ==> b == spec_u32_to_le_bytes(x) + rest,
{
    lemma_auto_spec_u32_to_from_le_bytes();
    if b.len() >= 4 {
        assert(b =~= b.subrange(0, 4) + b.subrange(4, b.len() as int));
    }
}

proof fn lemma_take_u64_inv(b: Seq<u8>)
    ensures
        take_u64(b) matches Ok((x, rest)) ==> b == spec_u64_to_le_bytes(x) + rest,
{
    lemma_auto_spec_u64_to_from_le_bytes();
    if b.len() >= 8 {
        assert(b =~= b.subrange(0, 8) + b.subrange(8, b.len() as int));
    }
}

proof fn lemma_take_bytes(d: Seq<u8>, rest: Seq<u8>)
    requires
        d.len() <= u32::MAX,
    ensures
        take_bytes(spec_prefixed(d) + rest) == Ok::<(Seq<u8>, Seq<u8>), CodecError>((d, rest)),
{
    lemma_auto_spec_u32_to_from_le_bytes();
    let tail = d + rest;
    assert(spec_prefixed(d) + rest =~= spec_u32_to_le_bytes(d.len() as u32) + tail);
    lemma_take_u32(d.len() as u32, tail);
    assert(tail.subrange(0, d.len() as int) =~= d);
    assert(tail.subrange(d.len() as int, tail.len() as int) =~= rest);
}

proof fn lemma_take_bytes_inv(b: Seq<u8>)
    ensures
        take_bytes(b) matches Ok((d, rest)) ==> d.len() <= u32::MAX && b == spec_prefixed(d) + rest,
{
    lemma_take_u32_inv(b);
    lemma_auto_spec_u32_to_from_le_bytes();
    if let Ok((n, tail)) = take_u32(b) {
        if tail.len() >= n {
            let d = tail.subrange(0, n as int);
            assert(tail =~= d + tail.subrange(n as int, tail.len() as int));
            assert(spec_prefixed(d) + tail.subrange(n as int, tail.len() as int)
                =~= spec_u32_to_le_bytes(n) + tail);
        }
    }
}

proof fn lemma_take_text(t: Seq<char>, rest: Seq<u8>)
    requires
        encode_utf8(t).len() <= u32::MAX,
    ensures
        take_text(spec_prefixed(encode_utf8(t)) + rest) == Ok::<(Seq<char>, Seq<u8>), CodecError>((t, rest)),
{
    lemma_take_bytes(encode_utf8(t), rest);
}

proof fn lemma_take_text_inv(b: Seq<u8>)
    ensures
        take_text(b) matches Ok((t, rest)) ==> encode_utf8(t).len() <= u32::MAX
            && b == spec_prefixed(encode_utf8(t)) + rest,
{
    lemma_take_bytes_inv(b);
}

proof fn lemma_sample_bytes_len(s: Seq<u32>)
    ensures
        spec_sample_bytes(s).len() == 4 * s.len(),
    decreases s.len(),
{
    lemma_auto_spec_u32_to_from_le_bytes();
    if s.len() > 0 {
        lemma_sample_bytes_len(s.drop_first());
    }
}

proof fn lemma_samples_round_trip(s: Seq<u32>)
    ensures
        spec_samples_of(spec_sample_bytes(s)) == s,
    decreases s.len(),
{
    lemma_auto_spec_u32_to_from_le_bytes();
    lemma_sample_bytes_len(s);
    if s.len() > 0 {
        lemma_samples_round_trip(s.drop_first());
        let b = spec_sample_bytes(s);
        assert(b.subrange(0, 4) =~= spec_u32_to_le_bytes(s[0]));
        assert(b.subrange(4, b.len() as int) =~= spec_sample_bytes(s.drop_first()));
        assert(s =~= seq![s[0]] + s.drop_first());
    } else {
        assert(s =~= Seq::<u32>::empty());
    }
}

proof fn lemma_samples_inv(b: Seq<u8>, n: nat)
    requires
        b.len() == 4 * n,
    ensures
        spec_samples_of(b).len() == n,
        spec_sample_bytes(spec_samples_of(b)) == b,
    decreases n,
{
    lemma_auto_spec_u32_to_from_le_bytes();
    if n > 0 {
        let tail = b.subrange(4, b.len() as int);
        lemma_samples_inv(tail, (n - 1) as nat);
        let s = spec_samples_of(b);
        assert(s.drop_first() =~= spec_samples_of(tail));
        assert(b =~= b.subrange(0, 4) + tail);
    } else {
        assert(b =~= Seq::<u8>::empty());
    }
}

proof fn lemma_take_samples(s: Seq<u32>, rest: Seq<u8>)
    requires
        s.len() <= u32::MAX,
    ensures
        take_samples(spec_u32_to_le_bytes(s.len() as u32) + spec_sample_bytes(s) + rest)
            == Ok::<(Seq<u32>, Seq<u8>), CodecError>((s, rest)),
{
    lemma_sample_bytes_len(s);
    lemma_samples_round_trip(s);
    let tail = spec_sample_bytes(s) + rest;
    assert(spec_u32_to_le_bytes(s.len() as u32) + spec_sample_bytes(s) + rest
        =~= spec_u32_to_le_bytes(s.len() as u32) + tail);
    lemma_take_u32(s.len() as u32, tail);
    assert(tail.subrange(0, 4 * s.len() as int) =~= spec_sample_bytes(s));
    assert(tail.subrange(4 * s.len() as int, tail.len() as int) =~= rest);
}

proof fn lemma_take_samples_inv(b: Seq<u8>)
    ensures
        take_samples(b) matches Ok((s, rest)) ==> s.len() <= u32::MAX
            && b == spec_u32_to_le_bytes(s.len() as u32) + spec_sample_bytes(s) + rest,
{
    lemma_take_u32_inv(b);
    if let Ok((n, tail)) = take_u32(b) {
        if tail.len() >= 4 * n {
            let body = tail.subrange(0, 4 * n);
            lemma_samples_inv(body, n as nat);
            assert(tail =~= body + tail.subrange(4 * n, tail.len() as int));
            assert(b =~= spec_u32_to_le_bytes(n) + body + tail.subrange(4 * n, tail.len() as int));
        }
    }
}

proof fn lemma_take_control(c: ControlView, rest: Seq<u8>)
    requires
        encodable(FrameView { sequence: 0, timestamp: 0, payload: PayloadView::Control(c) }),
    ensures
        take_control(spec_encode_control(c) + rest) == Ok::<(ControlView, Seq<u8>), CodecError>((c, rest)),
{
    let b = spec_encode_control(c) + rest;
    let tail = b.drop_first();
    match c {
        ControlView::Credit(a) => {
            assert(tail =~= spec_u32_to_le_bytes(a) + rest);
            lemma_take_u32(a, rest);
        },
        ControlView::Ack(q) => {
            assert(tail =~= spec_u64_to_le_bytes(q) + rest);
            lemma_take_u64(q, rest);
        },
        ControlView::Subscribe(id) => {
            assert(tail =~= spec_prefixed(encode_utf8(id)) + rest);
            lemma_take_text(id, rest);
        },
        ControlView::Unsubscribe(id) => {
            assert(tail =~= spec_prefixed(encode_utf8(id)) + rest);
            lemma_take_text(id, rest);
        },
        _ => {
            assert(tail =~= rest);
        },
    }
}

proof fn lemma_take_control_inv(b: Seq<u8>)
    ensures
        take_control(b) matches Ok((c, rest)) ==> encodable(
            FrameView { sequence: 0, timestamp: 0, payload: PayloadView::Control(c) },
        ) && b == spec_encode_control(c) + rest,
{
    if b.len() >= 1 {
        let tail = b.drop_first();
        assert(b =~= seq![b[0]] + tail);
        lemma_take_u32_inv(tail);
        lemma_take_u64_inv(tail);
        lemma_take_text_inv(tail);
        if let Ok((c, rest)) = take_control(b) {
            match c {
                ControlView::Credit(a) => {
                    assert(b =~= seq![0u8] + spec_u32_to_le_bytes(a) + rest);
                },
                ControlView::Ack(q) => {
                    assert(b =~= seq![1u8] + spec_u64_to_le_bytes(q) + rest);
                },
                ControlView::Subscribe(id) => {
                    assert(b =~= seq![5u8] + spec_prefixed(encode_utf8(id)) + rest);
                },
                ControlView::Unsubscribe(id) => {
                    assert(b =~= seq![6u8] + spec_prefixed(encode_utf8(id)) + rest);
                },
                _ => {},
            }
        }
    }
}

proof fn lemma_take_payload(p: PayloadView, rest: Seq<u8>)
    requires
        encodable(FrameView { sequence: 0, timestamp: 0, payload: p }),
    ensures
        take_payload(spec_encode_payload(p) + rest) == Ok::<(PayloadView, Seq<u8>), CodecError>((p, rest)),
{
    let b = spec_encode_payload(p) + rest;
    let tail = b.drop_first();
    match p {
        PayloadView::Data(d) => {
            assert(tail =~= spec_prefixed(d) + rest);
            lemma_take_bytes(d, rest);
        },
        PayloadView::Float32Array(s) => {
            assert(tail =~= spec_u32_to_le_bytes(s.len() as u32) + spec_sample_bytes(s) + rest);
            lemma_take_samples(s, rest);
        },
        PayloadView::Control(c) => {
            assert(tail =~= spec_encode_control(c) + rest);
            lemma_take_control(c, rest);
        },
        PayloadView::Error(code, m, r) => {
            let flag = seq![if r { 1u8 } else { 0u8 }];
            let after_code = spec_prefixed(encode_utf8(m)) + (flag + rest);
            assert(tail =~= spec_u32_to_le_bytes(code) + after_code);
            lemma_take_u32(code, after_code);
            lemma_take_text(m, flag + rest);
            assert((flag + rest).drop_first() =~= rest);
        },
    }
}

proof fn lemma_take_error_inv(tail: Seq<u8>)
    ensures
        take_u32(tail) matches Ok((code, after_code)) ==> (take_text(after_code) matches Ok((m, after_text))
            ==> (take_flag(after_text) matches Ok((r, rest)) ==> encode_utf8(m).len() <= u32::MAX
            && seq![3u8] + tail == seq![3u8] + spec_u32_to_le_bytes(code) + spec_prefixed(encode_utf8(m))
            + seq![if r { 1u8 } else { 0u8 }] + rest)),
{
    lemma_take_u32_inv(tail);
    if let Ok((code, after_code)) = take_u32(tail) {
        lemma_take_text_inv(after_code);
        if let Ok((m, after_text)) = take_text(after_code) {
            if let Ok((r, rest)) = take_flag(after_text) {
                assert(after_text =~= seq![if r { 1u8 } else { 0u8 }] + rest);
                assert(seq![3u8] + tail =~= seq![3u8] + spec_u32_to_le_bytes(code) + spec_prefixed(
                    encode_utf8(m),
                ) + seq![if r { 1u8 } else { 0u8 }] + rest);
            }
        }
    }
}

proof fn lemma_take_payload_inv(b: Seq<u8>)
    ensures
        take_payload(b) matches Ok((p, rest)) ==> encodable(
            FrameView { sequence: 0, timestamp: 0, payload: p },
        ) && b == spec_encode_payload(p) + rest,
{
    if b.len() >= 1 {
        let tail = b.drop_first();
        assert(b =~= seq![b[0]] + tail);
        if b[0] == 0 {
            lemma_take_bytes_inv(tail);
            if let Ok((d, rest)) = take_bytes(tail) {
                assert(b =~= seq![0u8] + spec_prefixed(d) + rest);
            }
        } else if b[0] == 1 {
            lemma_take_samples_inv(tail);
            if let Ok((s, rest)) = take_samples(tail) {
                assert(b =~= seq![1u8] + spec_u32_to_le_bytes(s.len() as u32) + spec_sample_bytes(s) + rest);
            }
        } else if b[0] == 2 {
            lemma_take_control_inv(tail);
            if let Ok((c, rest)) = take_control(tail) {
                assert(b =~= seq![2u8] + spec_encode_control(c) + rest);
            }
        } else if b[0] == 3 {
            lemma_take_error_inv(tail);
        }
    }
}

/// Decoding the encoding of a frame gives back that frame, for every frame
/// whose lengths fit their prefixes.
pub proof fn lemma_round_trip(f: FrameView)
    requires
        encodable(f),
    ensures
        spec_decode(spec_encode(f)) == Ok::<FrameView, CodecError>(f),
{
    let pay = spec_encode_payload(f.payload);
    let after_seq = spec_u64_to_le_bytes(f.timestamp) + pay;
    assert(spec_encode(f) =~= spec_u64_to_le_bytes(f.sequence) + after_seq);
    lemma_take_u64(f.sequence, after_seq);
    lemma_take_u64(f.timestamp, pay);
    assert(pay =~= pay + Seq::<u8>::empty());
    lemma_take_payload(f.payload, Seq::empty());
}

/// Decoding accepts exactly the encodings of frames: whatever it accepts is
/// the encoding of the frame it returns.
pub proof fn lemma_decode_exact(b: Seq<u8>)
    ensures
        spec_decode(b) matches Ok(f) ==> encodable(f) && spec_encode(f) == b,
{
    lemma_take_u64_inv(b);
    if let Ok((_, rest)) = take_u64(b) {
        lemma_take_u64_inv(rest);
        if let Ok((_, rest2)) = take_u64(rest) {
            lemma_take_payload_inv(rest2);
            if let Ok(f) = spec_decode(b) {
                let (_, rest3) = take_payload(rest2).unwrap();
                assert(rest3 =~= Seq::<u8>::empty());
                assert(b =~= spec_encode(f));
            }
        }
    }
}

proof fn lemma_sample_bytes_push(s: Seq<u32>, x: u32)
    ensures
        spec_sample_bytes(s.push(x)) == spec_sample_bytes(s) + spec_u32_to_le_bytes(x),
    decreases s.len(),
{
    if s.len() == 0 {
        let one = s.push(x);
        assert(one.drop_first() =~= Seq::<u32>::empty());
        assert(one[0] == x);
        assert(spec_sample_bytes(one.drop_first()) =~= Seq::<u8>::empty());
        assert(spec_sample_bytes(one) =~= spec_u32_to_le_bytes(x) + Seq::<u8>::empty());
        assert(spec_sample_bytes(s) =~= Seq::<u8>::empty());
    } else {
        lemma_sample_bytes_push(s.drop_first(), x);
        assert(s.push(x).drop_first() =~= s.drop_first().push(x));
        assert(spec_sample_bytes(s.push(x)) =~= spec_sample_bytes(s) + spec_u32_to_le_bytes(x));
    }
}

// ---------------------------------------------------------------- exec

/// Relies on `std::str::from_utf8`: it accepts exactly the byte strings that
/// are valid UTF-8, and the text is then the characters those bytes encode.
#[verifier::external_body]
fn text_from_utf8(b: &[u8]) -> (r: Option<String>)
    ensures
        r is Some == valid_utf8(b@),
        r matches Some(t) ==> t@ == decode_utf8(b@),
{
    match std::str::from_utf8(b) {
        Ok(t) => Some(t.to_owned()),
        Err(_) => None,
    }
}

fn put_u32(out: &mut Vec<u8>, x: u32)
    ensures
        final(out)@ == old(out)@ + spec_u32_to_le_bytes(x),
{
    let mut b = u32_to_le_bytes(x);
    out.append(&mut b);
}

fn put_u64(out: &mut Vec<u8>, x: u64)
    ensures
        final(out)@ == old(out)@ + spec_u64_to_le_bytes(x),
{
    let mut b = u64_to_le_bytes(x);
    out.append(&mut b);
}

fn put_prefixed(out: &mut Vec<u8>, d: &[u8])
    requires
        d@.len() <= u32::MAX,
    ensures
        final(out)@ == old(out)@ + spec_prefixed(d@),
{
    put_u32(out, d.len() as u32);
    let mut v = slice_to_vec(d);
    out.append(&mut v);
    assert(final(out)@ =~= old(out)@ + spec_prefixed(d@));
}

fn put_control(out: &mut Vec<u8>, c: &ControlMessage)
    requires
        encodable(FrameView { sequence: 0, timestamp: 0, payload: PayloadView::Control(c@) }),
    ensures
        final(out)@ == old(out)@ + spec_encode_control(c@),
{
    match c {
        ControlMessage::Credit(a) => {
            out.push(0u8);
            put_u32(out, *a);
        },
        ControlMessage::Ack(q) => {
            out.push(1u8);
            put_u64(out, *q);
        },
        ControlMessage::Pause => out.push(2u8),
        ControlMessage::Resume => out.push(3u8),
        ControlMessage::Complete => out.push(4u8),
        ControlMessage::Subscribe { stream_id } => {
            out.push(5u8);
            put_prefixed(out, stream_id.as_str().as_bytes());
        },
        ControlMessage::Unsubscribe { stream_id } => {
            out.push(6u8);
            put_prefixed(out, stream_id.as_str().as_bytes());
        },
    }
    assert(final(out)@ =~= old(out)@ + spec_encode_control(c@));
}

fn text_len_fits(t: &String) -> (r: bool)
    ensures
        r == (encode_utf8(t@).len() <= u32::MAX),
{
    t.as_str().as_bytes().len() <= 0xffff_ffffusize
}

/// Whether every length that the encoding of `f` prefixes fits in 4 bytes.
pub fn is_encodable(f: &Frame) -> (r: bool)
    ensures
        r == encodable(f@),
{
    match &f.payload {
        Payload::Data(b) => b.len() <= 0xffff_ffffusize,
        Payload::Float32Array(s) => s.len() <= 0xffff_ffffusize,
        Payload::Control(ControlMessage::Subscribe { stream_id }) => text_len_fits(stream_id),
        Payload::Control(ControlMessage::Unsubscribe { stream_id }) => text_len_fits(stream_id),
        Payload::Error(e) => text_len_fits(&e.message),
        _ => true,
    }
}

/// Encodes a frame; fails with `LengthOverflow`, and produces nothing, when
/// a length does not fit its 4-byte prefix.
pub fn encode(frame: &Frame) -> (r: Result<Vec<u8>, CodecError>)
    ensures
        match r {
            Ok(b) => encodable(frame@) && b@ == spec_encode(frame@),
            Err(e) => !encodable(frame@) && e == CodecError::LengthOverflow,
        },
{
    if !is_encodable(frame) {
        return Err(CodecError::LengthOverflow);
    }
    let mut out: Vec<u8> = Vec::new();
    put_u64(&mut out, frame.sequence);
    put_u64(&mut out, frame.timestamp);
    let ghost head = out@;
    match &frame.payload {
        Payload::Data(d) => {
            out.push(0u8);
            put_prefixed(&mut out, d.as_slice());
        },
        Payload::Float32Array(samples) => {
            out.push(1u8);
            put_u32(&mut out, samples.len() as u32);
            let ghost start = out@;
            let mut i: usize = 0;
            while i < samples.len()
                invariant
                    i <= samples.len(),
                    out@ == start + spec_sample_bytes(samples@.subrange(0, i as int)),
                decreases samples.len() - i,
            {
                proof {
                    lemma_sample_bytes_push(samples@.subrange(0, i as int), samples@[i as int]);
                    assert(samples@.subrange(0, i as int).push(samples@[i as int]) =~= samples@.subrange(0, i as int + 1));
                }
                put_u32(&mut out, samples[i]);
                i = i + 1;
            }
            assert(samples@.subrange(0, i as int) =~= samples@);
        },
        Payload::Control(c) => {
            out.push(2u8);
            put_control(&mut out, c);
        },
        Payload::Error(e) => {
            out.push(3u8);
            put_u32(&mut out, e.code);
            put_prefixed(&mut out, e.message.as_str().as_bytes());
            out.push(if e.recoverable { 1u8 } else { 0u8 });
        },
    }
    assert(out@ =~= spec_encode(frame@));
    Ok(out)
}

/// The bytes of `b` from `pos` on.
pub open spec fn from(b: Seq<u8>, pos: int) -> Seq<u8> {
    b.subrange(pos, b.len() as int)
}

fn get_u8(b: &[u8], pos: usize) -> (r: Result<(u8, usize), CodecError>)
    requires
        pos <= b@.len(),
    ensures
        match r {
            Ok((x, p)) => p <= b@.len() && take_u8(from(b@, pos as int)) == Ok::<(u8, Seq<u8>), CodecError>((x, from(b@, p as int))),
            Err(e) => take_u8(from(b@, pos as int)) == Err::<(u8, Seq<u8>), CodecError>(e),
        },
{
    if b.len() - pos < 1 {
        Err(CodecError::TruncatedInput)
    } else {
        assert(from(b@, pos as int).drop_first() =~= from(b@, pos + 1));
        Ok((b[pos], pos + 1))
    }
}

fn get_u32(b: &[u8], pos: usize) -> (r: Result<(u32, usize), CodecError>)
    requires
        pos <= b@.len(),
    ensures
        match r {
            Ok((x, p)) => p <= b@.len() && take_u32(from(b@, pos as int)) == Ok::<(u32, Seq<u8>), CodecError>((x, from(b@, p as int))),
            Err(e) => take_u32(from(b@, pos as int)) == Err::<(u32, Seq<u8>), CodecError>(e),
        },
{
    if b.len() - pos < 4 {
        Err(CodecError::TruncatedInput)
    } else {
        let x = u32_from_le_bytes(slice_subrange(b, pos, pos + 4));
        assert(from(b@, pos as int).subrange(0, 4) =~= b@.subrange(pos as int, pos + 4));
        assert(from(b@, pos as int).subrange(4, from(b@, pos as int).len() as int) =~= from(b@, pos + 4));
        Ok((x, pos + 4))
    }
}

fn get_u64(b: &[u8], pos: usize) -> (r: Result<(u64, usize), CodecError>)
    requires
        pos <= b@.len(),
    ensures
        match r {
            Ok((x, p)) => p <= b@.len() && take_u64(from(b@, pos as int)) == Ok::<(u64, Seq<u8>), CodecError>((x, from(b@, p as int))),
            Err(e) => take_u64(from(b@, pos as int)) == Err::<(u64, Seq<u8>), CodecError>(e),
        },
{
    if b.len() - pos < 8 {
        Err(CodecError::TruncatedInput)
    } else {
        let x = u64_from_le_bytes(slice_subrange(b, pos, pos + 8));
        assert(from(b@, pos as int).subrange(0, 8) =~= b@.subrange(pos as int, pos + 8));
        assert(from(b@, pos as int).subrange(8, from(b@, pos as int).len() as int) =~= from(b@, pos + 8));
        Ok((x, pos + 8))
    }
}

fn get_bytes(b: &[u8], pos: usize) -> (r: Result<(Vec<u8>, usize), CodecError>)
    requires
        pos <= b@.len(),
    ensures
        match r {
            Ok((d, p)) => p <= b@.len() && take_bytes(from(b@, pos as int)) == Ok::<(Seq<u8>, Seq<u8>), CodecError>((d@, from(b@, p as int))),
            Err(e) => take_bytes(from(b@, pos as int)) == Err::<(Seq<u8>, Seq<u8>), CodecError>(e),
        },
{
    let (n, p) = get_u32(b, pos)?;
    if ((b.len() - p) as u64) < n as u64 {
        return Err(CodecError::TruncatedInput);
    }
    let end = p + n as usize;
    let d = slice_to_vec(slice_subrange(b, p, end));
    assert(from(b@, p as int).subrange(0, n as int) =~= d@);
    assert(from(b@, p as int).subrange(n as int, from(b@, p as int).len() as int) =~= from(b@, end as int));
    Ok((d, end))
}

fn get_text(b: &[u8], pos: usize) -> (r: Result<(String, usize), CodecError>)
    requires
        pos <= b@.len(),
    ensures
        match r {
            Ok((t, p)) => p <= b@.len() && take_text(from(b@, pos as int)) == Ok::<(Seq<char>, Seq<u8>), CodecError>((t@, from(b@, p as int))),
            Err(e) => take_text(from(b@, pos as int)) == Err::<(Seq<char>, Seq<u8>), CodecError>(e),
        },
{
    let (d, p) = get_bytes(b, pos)?;
    match text_from_utf8(d.as_slice()) {
        Some(t) => Ok((t, p)),
        None => Err(CodecError::TypeMismatch),
    }
}

fn get_samples(b: &[u8], pos: usize) -> (r: Result<(Vec<u32>, usize), CodecError>)
    requires
        pos <= b@.len(),
    ensures
        match r {
            Ok((s, p)) => p <= b@.len() && take_samples(from(b@, pos as int)) == Ok::<(Seq<u32>, Seq<u8>), CodecError>((s@, from(b@, p as int))),
            Err(e) => take_samples(from(b@, pos as int)) == Err::<(Seq<u32>, Seq<u8>), CodecError>(e),
        },
{
    let (n, p) = get_u32(b, pos)?;
    if ((b.len() - p) as u64) < 4 * (n as u64) {
        return Err(CodecError::TruncatedInput);
    }
    let ghost body = from(b@, p as int).subrange(0, 4 * n as int);
    let mut out: Vec<u32> = Vec::new();
    let mut i: usize = 0;
    let mut q: usize = p;
    assert(body.subrange(0, body.len() as int) =~= body);
    assert(out@ + spec_samples_of(body) =~= spec_samples_of(body));
    let total = b.len();
    while i < n as usize
        invariant
            p <= b@.len(),
            total == b@.len(),
            q == p + 4 * i,
            i <= n,
            4 * (n as int) <= b@.len() - p,
            body == from(b@, p as int).subrange(0, 4 * n as int),
            spec_samples_of(body) == out@ + spec_samples_of(body.subrange(4 * i as int, body.len() as int)),
        decreases n - i,
    {
        assert(q + 4 <= b@.len()) by (nonlinear_arith)
            requires
                q == p + 4 * i,
                i < n,
                4 * (n as int) <= b@.len() - p,
        ;
        let x = u32_from_le_bytes(slice_subrange(b, q, q + 4));
        proof {
            let tail = body.subrange(4 * i as int, body.len() as int);
            assert(tail.subrange(0, 4) =~= b@.subrange(q as int, q + 4));
            assert(tail.subrange(4, tail.len() as int) =~= body.subrange(4 * (i + 1) as int, body.len() as int));
            assert(spec_samples_of(tail) =~= seq![x] + spec_samples_of(tail.subrange(4, tail.len() as int)));
        }
        let ghost before = out@;
        out.push(x);
        proof {
            assert(out@ =~= before + seq![x]);
            assert(spec_samples_of(body) =~= out@ + spec_samples_of(body.subrange(4 * (i + 1) as int, body.len() as int)));
        }
        i = i + 1;
        q = q + 4;
    }
    proof {
        let tail = body.subrange(4 * i as int, body.len() as int);
        assert(tail.len() == 0);
        assert(spec_samples_of(tail) =~= Seq::<u32>::empty());
        assert(out@ =~= spec_samples_of(body));
        assert(from(b@, p as int).subrange(4 * n as int, from(b@, p as int).len() as int) =~= from(b@, q as int));
    }
    Ok((out, q))
}

fn get_control(b: &[u8], pos: usize) -> (r: Result<(ControlMessage, usize), CodecError>)
    requires
        pos <= b@.len(),
    ensures
        match r {
            Ok((c, p)) => p <= b@.len() && take_control(from(b@, pos as int)) == Ok::<(ControlView, Seq<u8>), CodecError>((c@, from(b@, p as int))),
            Err(e) => take_control(from(b@, pos as int)) == Err::<(ControlView, Seq<u8>), CodecError>(e),
        },
{
    let (tag, p) = get_u8(b, pos)?;
    if tag == 0 {
        let (a, p) = get_u32(b, p)?;
        Ok((ControlMessage::Credit(a), p))
    } else if tag == 1 {
        let (q, p) = get_u64(b, p)?;
        Ok((ControlMessage::Ack(q), p))
    } else if tag == 2 {
        Ok((ControlMessage::Pause, p))
    } else if tag == 3 {
        Ok((ControlMessage::Resume, p))
    } else if tag == 4 {
        Ok((ControlMessage::Complete, p))
    } else if tag == 5 {
        let (stream_id, p) = get_text(b, p)?;
        Ok((ControlMessage::Subscribe { stream_id }, p))
    } else if tag == 6 {
        let (stream_id, p) = get_text(b, p)?;
        Ok((ControlMessage::Unsubscribe { stream_id }, p))
    } else {
        Err(CodecError::UnknownDiscriminant)
    }
}

fn get_flag(b: &[u8], pos: usize) -> (r: Result<(bool, usize), CodecError>)
    requires
        pos <= b@.len(),
    ensures
        match r {
            Ok((x, p)) => p <= b@.len() && take_flag(from(b@, pos as int)) == Ok::<(bool, Seq<u8>), CodecError>((x, from(b@, p as int))),
            Err(e) => take_flag(from(b@, pos as int)) == Err::<(bool, Seq<u8>), CodecError>(e),
        },
{
    let (v, p) = get_u8(b, pos)?;
    if v == 0 {
        Ok((false, p))
    } else if v == 1 {
        Ok((true, p))
    } else {
        Err(CodecError::TypeMismatch)
    }
}

fn get_payload(b: &[u8], pos: usize) -> (r: Result<(Payload, usize), CodecError>)
    requires
        pos <= b@.len(),
    ensures
        match r {
            Ok((x, p)) => p <= b@.len() && take_payload(from(b@, pos as int)) == Ok::<(PayloadView, Seq<u8>), CodecError>((x@, from(b@, p as int))),
            Err(e) => take_payload(from(b@, pos as int)) == Err::<(PayloadView, Seq<u8>), CodecError>(e),
        },
{
    let (tag, p) = get_u8(b, pos)?;
    if tag == 0 {
        let (d, p) = get_bytes(b, p)?;
        Ok((Payload::Data(d), p))
    } else if tag == 1 {
        let (s, p) = get_samples(b, p)?;
        Ok((Payload::Float32Array(s), p))
    } else if tag == 2 {
        let (c, p) = get_control(b, p)?;
        Ok((Payload::Control(c), p))
    } else if tag == 3 {
        let (code, p) = get_u32(b, p)?;
        let (message, p) = get_text(b, p)?;
        let (recoverable, p) = get_flag(b, p)?;
        Ok((Payload::Error(ErrorInfo { code, message, recoverable }), p))
    } else {
        Err(CodecError::UnknownDiscriminant)
    }
}

/// Decodes one frame that fills `bytes` exactly. On failure nothing is
/// returned but the first fault met reading front to back.
pub fn decode(bytes: &[u8]) -> (r: Result<Frame, CodecError>)
    ensures
        match r {
            Ok(f) => spec_decode(bytes@) == Ok::<FrameView, CodecError>(f@),
            Err(e) => spec_decode(bytes@) == Err::<FrameView, CodecError>(e),
        },
{
    assert(from(bytes@, 0) =~= bytes@);
    let (sequence, p) = get_u64(bytes, 0)?;
    let (timestamp, p) = get_u64(bytes, p)?;
    let (payload, p) = get_payload(bytes, p)?;
    if p == bytes.len() {
        Ok(Frame { sequence, timestamp, payload })
    } else {
        Err(CodecError::TrailingBytes)
    }
}

} // verus!
