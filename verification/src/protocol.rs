//! The versioned binary protocol between coordinator and workers.
//!
//! A frame is `MAGIC | VERSION | KIND | PAYLOAD LENGTH (u32, big endian) | PAYLOAD`.
//! Payloads are sequences of big-endian integers, one-byte flags and
//! length-prefixed UTF-8 text; decoding checks every field and that the
//! payload is consumed exactly.
use crate::wire::{
    be_u32, be_u64, get_u32, get_u64, lemma_i32_round_trip, lemma_u32_canonical, lemma_u32_round_trip,
    lemma_u64_canonical, lemma_u64_round_trip, lemma_i32_canonical, put_slice, put_u32, put_u64, u32_of_be, u64_of_be,
    utf8_string,
};
use crate::text::{ascii_chars, concat_text, decimal, decimal_text};
use vstd::prelude::*;
use vstd::utf8::*;

verus! {

broadcast use {vstd::utf8::encode_utf8_valid_utf8, vstd::utf8::encode_utf8_decode_utf8};

/// Frame magic bytes, `FRGE` in ASCII.
pub const MAGIC: [u8; 4] = [70, 82, 71, 69];

/// Protocol version carried by every frame.
pub const VERSION: u8 = 1;

/// Largest accepted payload, in bytes.
pub const MAX_FRAME_PAYLOAD: u32 = 16 * 1024 * 1024;

/// Length of the fixed frame header.
pub const FRAME_HEADER_LEN: usize = 10;

/// The magic bytes as a sequence.
pub open spec fn magic_bytes() -> Seq<u8> {
    seq![70u8, 82u8, 71u8, 69u8]
}

/// Kind of a frame.
#[derive(Debug, Clone, Copy, PartialEq, Eq, Structural)]
pub enum MessageKind {
    Submit,
    TaskRequest,
    TaskResult,
    Heartbeat,
}

/// Why bytes could not be encoded or decoded.
#[derive(Debug, Clone, PartialEq, Eq)]
pub enum ProtocolError {
    InvalidMagic,
    UnsupportedVersion(u8),
    UnknownMessage(u8),
    FrameTooLarge(u32),
    InvalidPayload(&'static str),
    InvalidUtf8,
}

/// Wire byte of a message kind.
pub open spec fn kind_byte(kind: MessageKind) -> u8 {
    match kind {
        MessageKind::Submit => 1,
        MessageKind::TaskRequest => 2,
        MessageKind::TaskResult => 3,
        MessageKind::Heartbeat => 4,
    }
}

/// Message kind of a wire byte.
pub open spec fn kind_of_byte(value: u8) -> Result<MessageKind, ProtocolError> {
    if value == 1 {
        Ok(MessageKind::Submit)
    } else if value == 2 {
        Ok(MessageKind::TaskRequest)
    } else if value == 3 {
        Ok(MessageKind::TaskResult)
    } else if value == 4 {
        Ok(MessageKind::Heartbeat)
    } else {
        Err(ProtocolError::UnknownMessage(value))
    }
}

impl MessageKind {
    /// Wire byte of this kind.
    pub fn to_byte(&self) -> (b: u8)
        ensures
            b == kind_byte(*self),
    {
        match self {
            MessageKind::Submit => 1,
            MessageKind::TaskRequest => 2,
            MessageKind::TaskResult => 3,
            MessageKind::Heartbeat => 4,
        }
    }

    /// Kind carried by a wire byte.
    pub fn from_byte(value: u8) -> (r: Result<MessageKind, ProtocolError>)
        ensures
            r == kind_of_byte(value),
    {
        match value {
            1 => Ok(MessageKind::Submit),
            2 => Ok(MessageKind::TaskRequest),
            3 => Ok(MessageKind::TaskResult),
            4 => Ok(MessageKind::Heartbeat),
            other => Err(ProtocolError::UnknownMessage(other)),
        }
    }
}

// ---------------------------------------------------------------------------
// Frames
// ---------------------------------------------------------------------------

/// A message kind with its payload.
#[derive(Debug, Clone, PartialEq, Eq)]
pub struct Frame {
    pub kind: MessageKind,
    pub payload: Vec<u8>,
}

pub struct FrameView {
    pub kind: MessageKind,
    pub payload: Seq<u8>,
}

impl View for Frame {
    type V = FrameView;

    open spec fn view(&self) -> FrameView {
        FrameView { kind: self.kind, payload: self.payload@ }
    }
}

/// Error of a frame or byte string that ends too early.
pub open spec fn truncated_frame() -> ProtocolError {
    ProtocolError::InvalidPayload("truncated frame")
}

/// Error of a payload above `MAX_FRAME_PAYLOAD`.
pub open spec fn frame_over_limit() -> ProtocolError {
    ProtocolError::InvalidPayload("frame payload exceeds protocol limit")
}

/// The bytes of a frame.
pub open spec fn frame_bytes(f: FrameView) -> Seq<u8> {
    magic_bytes() + seq![VERSION, kind_byte(f.kind)] + be_u32(f.payload.len() as u32) + f.payload
}

/// Encoding of a frame.
pub open spec fn encode_frame(f: FrameView) -> Result<Seq<u8>, ProtocolError> {
    if f.payload.len() > MAX_FRAME_PAYLOAD {
        Err(frame_over_limit())
    } else {
        Ok(frame_bytes(f))
    }
}

/// Decoding of the frame at the start of `b`; checks run in the order magic,
/// version, payload length, kind, payload presence.
pub open spec fn decode_frame(b: Seq<u8>) -> Result<FrameView, ProtocolError> {
    if b.len() < 4 {
        Err(truncated_frame())
    } else if b.take(4) != magic_bytes() {
        Err(ProtocolError::InvalidMagic)
    } else if b.len() < 10 {
        Err(truncated_frame())
    } else if b[4] != VERSION {
        Err(ProtocolError::UnsupportedVersion(b[4]))
    } else if u32_of_be(b.subrange(6, 10)) > MAX_FRAME_PAYLOAD {
        Err(ProtocolError::FrameTooLarge(u32_of_be(b.subrange(6, 10))))
    } else {
        match kind_of_byte(b[5]) {
            Err(e) => Err(e),
            Ok(kind) => {
                let length = u32_of_be(b.subrange(6, 10)) as int;
                if b.len() < 10 + length {
                    Err(truncated_frame())
                } else {
                    Ok(FrameView { kind, payload: b.subrange(10, 10 + length) })
                }
            },
        }
    }
}

pub open spec fn frame_result(r: Result<Frame, ProtocolError>) -> Result<FrameView, ProtocolError> {
    match r {
        Ok(f) => Ok(f@),
        Err(e) => Err(e),
    }
}

pub open spec fn bytes_result(r: Result<Vec<u8>, ProtocolError>) -> Result<Seq<u8>, ProtocolError> {
    match r {
        Ok(v) => Ok(v@),
        Err(e) => Err(e),
    }
}

/// Encoding a frame and decoding the bytes gives the frame back.
pub proof fn lemma_frame_round_trip(f: FrameView)
    requires
        f.payload.len() <= MAX_FRAME_PAYLOAD,
    ensures
        encode_frame(f) matches Ok(b) && decode_frame(b) == Ok::<FrameView, ProtocolError>(f) && b.len() == 10 + f.payload.len(),
{
    let b = frame_bytes(f);
    let n = f.payload.len() as u32;
    lemma_u32_round_trip(n);
    assert(b.take(4) =~= magic_bytes());
    assert(b.subrange(6, 10) =~= be_u32(n));
    assert(b.subrange(10, 10 + n) =~= f.payload);
}

/// A decoded frame is re-encoded to exactly the bytes it was read from.
pub proof fn lemma_frame_canonical(b: Seq<u8>)
    requires
        decode_frame(b) is Ok,
    ensures
        decode_frame(b) matches Ok(f) && encode_frame(f) == Ok::<Seq<u8>, ProtocolError>(b.take(10 + f.payload.len() as int)),
{
    let f = decode_frame(b)->Ok_0;
    let length = u32_of_be(b.subrange(6, 10));
    lemma_u32_canonical(b.subrange(6, 10));
    assert(kind_byte(f.kind) == b[5]);
    assert(frame_bytes(f) =~= b.take(10 + f.payload.len() as int));
}

impl Frame {
    /// The bytes of this frame.
    pub fn encode(&self) -> (r: Result<Vec<u8>, ProtocolError>)
        ensures
            bytes_result(r) == encode_frame(self@),
    {
        if self.payload.len() > MAX_FRAME_PAYLOAD as usize {
            return Err(ProtocolError::InvalidPayload("frame payload exceeds protocol limit"));
        }
        let mut out: Vec<u8> = Vec::new();
        out.push(MAGIC[0]);
        out.push(MAGIC[1]);
        out.push(MAGIC[2]);
        out.push(MAGIC[3]);
        out.push(VERSION);
        out.push(self.kind.to_byte());
        put_u32(&mut out, self.payload.len() as u32);
        put_slice(&mut out, self.payload.as_slice());
        assert(out@ =~= frame_bytes(self@));
        Ok(out)
    }

    /// The frame at the start of `bytes`.
    pub fn decode(bytes: &[u8]) -> (r: Result<Frame, ProtocolError>)
        ensures
            frame_result(r) == decode_frame(bytes@),
    {
        if bytes.len() < 4 {
            return Err(ProtocolError::InvalidPayload("truncated frame"));
        }
        if bytes[0] != MAGIC[0] || bytes[1] != MAGIC[1] || bytes[2] != MAGIC[2] || bytes[3] != MAGIC[3] {
            assert(bytes@.take(4) != magic_bytes()) by {
                if bytes@.take(4) == magic_bytes() {
                    assert(bytes@.take(4)[0] == bytes@[0]);
                    assert(bytes@.take(4)[1] == bytes@[1]);
                    assert(bytes@.take(4)[2] == bytes@[2]);
                    assert(bytes@.take(4)[3] == bytes@[3]);
                }
            }
            return Err(ProtocolError::InvalidMagic);
        }
        assert(bytes@.take(4) =~= magic_bytes());
        if bytes.len() < FRAME_HEADER_LEN {
            return Err(ProtocolError::InvalidPayload("truncated frame"));
        }
        if bytes[4] != VERSION {
            return Err(ProtocolError::UnsupportedVersion(bytes[4]));
        }
        let length = get_u32(bytes, 6);
        if length > MAX_FRAME_PAYLOAD {
            return Err(ProtocolError::FrameTooLarge(length));
        }
        let kind = match MessageKind::from_byte(bytes[5]) {
            Ok(kind) => kind,
            Err(e) => return Err(e),
        };
        let end = FRAME_HEADER_LEN + length as usize;
        if bytes.len() < end {
            return Err(ProtocolError::InvalidPayload("truncated frame"));
        }
        let mut payload: Vec<u8> = Vec::new();
        put_slice(&mut payload, &bytes[FRAME_HEADER_LEN..end]);
        Ok(Frame { kind, payload })
    }

    /// The payload length announced by the frame header at the start of
    /// `header`, after the checks that `decode` makes before reading the payload.
    pub fn header_length(header: &[u8]) -> (r: Result<u32, ProtocolError>)
        ensures
            r == announced_length(header@),
    {
        if header.len() < 4 {
            return Err(ProtocolError::InvalidPayload("truncated frame"));
        }
        if header[0] != MAGIC[0] || header[1] != MAGIC[1] || header[2] != MAGIC[2] || header[3] != MAGIC[3] {
            assert(header@.take(4) != magic_bytes()) by {
                if header@.take(4) == magic_bytes() {
                    assert(header@.take(4)[0] == header@[0]);
                    assert(header@.take(4)[1] == header@[1]);
                    assert(header@.take(4)[2] == header@[2]);
                    assert(header@.take(4)[3] == header@[3]);
                }
            }
            return Err(ProtocolError::InvalidMagic);
        }
        assert(header@.take(4) =~= magic_bytes());
        if header.len() < FRAME_HEADER_LEN {
            return Err(ProtocolError::InvalidPayload("truncated frame"));
        }
        if header[4] != VERSION {
            return Err(ProtocolError::UnsupportedVersion(header[4]));
        }
        let length = get_u32(header, 6);
        if length > MAX_FRAME_PAYLOAD {
            return Err(ProtocolError::FrameTooLarge(length));
        }
        match MessageKind::from_byte(header[5]) {
            Ok(_) => Ok(length),
            Err(e) => Err(e),
        }
    }
}

/// The payload length a frame header announces, or the error `decode_frame`
/// reports before it reaches the payload.
pub open spec fn announced_length(h: Seq<u8>) -> Result<u32, ProtocolError> {
    if h.len() < 4 {
        Err(truncated_frame())
    } else if h.take(4) != magic_bytes() {
        Err(ProtocolError::InvalidMagic)
    } else if h.len() < 10 {
        Err(truncated_frame())
    } else if h[4] != VERSION {
        Err(ProtocolError::UnsupportedVersion(h[4]))
    } else if u32_of_be(h.subrange(6, 10)) > MAX_FRAME_PAYLOAD {
        Err(ProtocolError::FrameTooLarge(u32_of_be(h.subrange(6, 10))))
    } else {
        match kind_of_byte(h[5]) {
            Err(e) => Err(e),
            Ok(_) => Ok(u32_of_be(h.subrange(6, 10))),
        }
    }
}

/// Reading a frame in two steps, its header and then as many payload bytes as
/// the header announces, decodes the same frame as reading it at once; a header
/// error is the error of the whole frame.
pub proof fn lemma_header_then_payload(h: Seq<u8>, p: Seq<u8>)
    requires
        h.len() == 10,
    ensures
        announced_length(h) matches Err(e) ==> decode_frame(h + p) == Err::<FrameView, ProtocolError>(e),
        announced_length(h) matches Ok(n) ==> (p.len() >= n <==> decode_frame(h + p) is Ok),
        announced_length(h) matches Ok(n) ==> (p.len() >= n ==> (decode_frame(h + p) matches Ok(f) && f.payload
            == p.take(n as int) && frame_bytes(f) == h + p.take(n as int))),
{
    let b = h + p;
    assert(b.take(4) =~= h.take(4));
    assert(b.subrange(6, 10) =~= h.subrange(6, 10));
    assert(b[4] == h[4] && b[5] == h[5]);
    if announced_length(h) is Ok {
        let n = announced_length(h)->Ok_0;
        if p.len() >= n {
            assert(b.subrange(10, 10 + n) =~= p.take(n as int));
            let f = decode_frame(b)->Ok_0;
            lemma_u32_canonical(h.subrange(6, 10));
            assert(kind_byte(f.kind) == h[5]);
            assert(frame_bytes(f) =~= h + p.take(n as int)) by {
                assert(h =~= magic_bytes() + seq![VERSION, kind_byte(f.kind)] + be_u32(f.payload.len() as u32)) by {
                    assert(h.take(4) =~= magic_bytes());
                    assert(be_u32(f.payload.len() as u32) =~= h.subrange(6, 10));
                }
            }
        }
    }
}

// ---------------------------------------------------------------------------
// Payload grammar
// ---------------------------------------------------------------------------

/// Error of a payload that ends too early.
pub open spec fn truncated_payload() -> ProtocolError {
    ProtocolError::InvalidPayload("truncated payload")
}

/// Error of a text field longer than a `u32` can count.
pub open spec fn field_too_large() -> ProtocolError {
    ProtocolError::InvalidPayload("field too large")
}

/// Reads `n` bytes at `off`.
pub open spec fn take_bytes(p: Seq<u8>, off: int, n: int) -> Result<(Seq<u8>, int), ProtocolError> {
    if off + n > usize::MAX {
        Err(ProtocolError::InvalidPayload("offset overflow"))
    } else if off + n > p.len() {
        Err(truncated_payload())
    } else {
        Ok((p.subrange(off, off + n), off + n))
    }
}

pub open spec fn take_u32(p: Seq<u8>, off: int) -> Result<(u32, int), ProtocolError> {
    match take_bytes(p, off, 4) {
        Ok((b, o)) => Ok((u32_of_be(b), o)),
        Err(e) => Err(e),
    }
}

pub open spec fn take_u64(p: Seq<u8>, off: int) -> Result<(u64, int), ProtocolError> {
    match take_bytes(p, off, 8) {
        Ok((b, o)) => Ok((u64_of_be(b), o)),
        Err(e) => Err(e),
    }
}

pub open spec fn take_i32(p: Seq<u8>, off: int) -> Result<(i32, int), ProtocolError> {
    match take_u32(p, off) {
        Ok((v, o)) => Ok((v as i32, o)),
        Err(e) => Err(e),
    }
}

/// Reads a length-prefixed UTF-8 text.
pub open spec fn take_text(p: Seq<u8>, off: int) -> Result<(Seq<char>, int), ProtocolError> {
    match take_u32(p, off) {
        Err(e) => Err(e),
        Ok((n, o)) => match take_bytes(p, o, n as int) {
            Err(e) => Err(e),
            Ok((b, o2)) => if valid_utf8(b) {
                Ok((decode_utf8(b), o2))
            } else {
                Err(ProtocolError::InvalidUtf8)
            },
        },
    }
}

/// Reads a one-byte flag that must be 0 or 1.
pub open spec fn take_flag(p: Seq<u8>, off: int, message: &'static str) -> Result<(bool, int), ProtocolError> {
    match take_bytes(p, off, 1) {
        Err(e) => Err(e),
        Ok((b, o)) => if b[0] == 0 {
            Ok((false, o))
        } else if b[0] == 1 {
            Ok((true, o))
        } else {
            Err(ProtocolError::InvalidPayload(message))
        },
    }
}

/// The value when the payload was consumed exactly.
pub open spec fn finish<T>(p: Seq<u8>, off: int, value: T) -> Result<T, ProtocolError> {
    if off == p.len() {
        Ok(value)
    } else {
        Err(ProtocolError::InvalidPayload("trailing bytes"))
    }
}

/// A text field: its UTF-8 length as `u32`, then its UTF-8 bytes.
pub open spec fn text_field(s: Seq<char>) -> Seq<u8> {
    be_u32(encode_utf8(s).len() as u32) + encode_utf8(s)
}

/// The text fits a text field.
pub open spec fn text_fits(s: Seq<char>) -> bool {
    encode_utf8(s).len() <= u32::MAX
}

pub open spec fn flag_byte(b: bool) -> u8 {
    if b {
        1
    } else {
        0
    }
}

proof fn lemma_take_at(p: Seq<u8>, pre: Seq<u8>, x: Seq<u8>, post: Seq<u8>)
    requires
        p == pre + x + post,
        p.len() <= usize::MAX,
    ensures
        take_bytes(p, pre.len() as int, x.len() as int) == Ok::<(Seq<u8>, int), ProtocolError>(
            (x, (pre.len() + x.len()) as int),
        ),
{
    assert(p.subrange(pre.len() as int, (pre.len() + x.len()) as int) =~= x);
}

proof fn lemma_take_text_at(p: Seq<u8>, pre: Seq<u8>, s: Seq<char>, post: Seq<u8>)
    requires
        p == pre + text_field(s) + post,
        p.len() <= usize::MAX,
        text_fits(s),
    ensures
        take_text(p, pre.len() as int) == Ok::<(Seq<char>, int), ProtocolError>(
            (s, (pre.len() + text_field(s).len()) as int),
        ),
{
    let e = encode_utf8(s);
    let n = e.len() as u32;
    lemma_u32_round_trip(n);
    assert(p =~= pre + be_u32(n) + (e + post));
    lemma_take_at(p, pre, be_u32(n), e + post);
    assert(p =~= (pre + be_u32(n)) + e + post);
    lemma_take_at(p, pre + be_u32(n), e, post);
}

proof fn lemma_take_u64_at(p: Seq<u8>, pre: Seq<u8>, v: u64, post: Seq<u8>)
    requires
        p == pre + be_u64(v) + post,
        p.len() <= usize::MAX,
    ensures
        take_u64(p, pre.len() as int) == Ok::<(u64, int), ProtocolError>((v, pre.len() + 8int)),
{
    lemma_u64_round_trip(v);
    lemma_take_at(p, pre, be_u64(v), post);
}

proof fn lemma_take_flag_at(p: Seq<u8>, pre: Seq<u8>, b: bool, post: Seq<u8>, m: &'static str)
    requires
        p == pre + seq![flag_byte(b)] + post,
        p.len() <= usize::MAX,
    ensures
        take_flag(p, pre.len() as int, m) == Ok::<(bool, int), ProtocolError>((b, pre.len() + 1int)),
{
    lemma_take_at(p, pre, seq![flag_byte(b)], post);
}

// ---------------------------------------------------------------------------
// Exec payload primitives
// ---------------------------------------------------------------------------

fn put_text(buffer: &mut Vec<u8>, value: &str) -> (r: Result<(), ProtocolError>)
    ensures
        r is Ok <==> text_fits(value@),
        r is Ok ==> final(buffer)@ == old(buffer)@ + text_field(value@),
        r matches Err(e) ==> e == field_too_large(),
{
    let bytes = value.as_bytes();
    if bytes.len() > u32::MAX as usize {
        return Err(ProtocolError::InvalidPayload("field too large"));
    }
    put_u32(buffer, bytes.len() as u32);
    put_slice(buffer, bytes);
    assert(buffer@ =~= old(buffer)@ + text_field(value@));
    Ok(())
}

fn read_exact<'a>(payload: &'a [u8], offset: &mut usize, length: usize) -> (r: Result<&'a [u8], ProtocolError>)
    requires
        *old(offset) <= payload@.len(),
    ensures
        match take_bytes(payload@, *old(offset) as int, length as int) {
            Ok((b, o)) => r matches Ok(s) && s@ == b && *final(offset) == o && o <= payload@.len(),
            Err(e) => r matches Err(e2) && e2 == e,
        },
{
    let end = match offset.checked_add(length) {
        Some(end) => end,
        None => return Err(ProtocolError::InvalidPayload("offset overflow")),
    };
    if end > payload.len() {
        return Err(ProtocolError::InvalidPayload("truncated payload"));
    }
    let bytes = &payload[*offset..end];
    *offset = end;
    Ok(bytes)
}

fn read_u32(payload: &[u8], offset: &mut usize) -> (r: Result<u32, ProtocolError>)
    requires
        *old(offset) <= payload@.len(),
    ensures
        match take_u32(payload@, *old(offset) as int) {
            Ok((v, o)) => r == Ok::<u32, ProtocolError>(v) && *final(offset) == o && o <= payload@.len(),
            Err(e) => r == Err::<u32, ProtocolError>(e),
        },
{
    let bytes = read_exact(payload, offset, 4)?;
    assert(bytes@.subrange(0, 4) =~= bytes@);
    Ok(get_u32(bytes, 0))
}

fn read_u64(payload: &[u8], offset: &mut usize) -> (r: Result<u64, ProtocolError>)
    requires
        *old(offset) <= payload@.len(),
    ensures
        match take_u64(payload@, *old(offset) as int) {
            Ok((v, o)) => r == Ok::<u64, ProtocolError>(v) && *final(offset) == o && o <= payload@.len(),
            Err(e) => r == Err::<u64, ProtocolError>(e),
        },
{
    let bytes = read_exact(payload, offset, 8)?;
    assert(bytes@.subrange(0, 8) =~= bytes@);
    Ok(get_u64(bytes, 0))
}

fn read_i32(payload: &[u8], offset: &mut usize) -> (r: Result<i32, ProtocolError>)
    requires
        *old(offset) <= payload@.len(),
    ensures
        match take_i32(payload@, *old(offset) as int) {
            Ok((v, o)) => r == Ok::<i32, ProtocolError>(v) && *final(offset) == o && o <= payload@.len(),
            Err(e) => r == Err::<i32, ProtocolError>(e),
        },
{
    let v = read_u32(payload, offset)?;
    Ok(v as i32)
}

fn read_text(payload: &[u8], offset: &mut usize) -> (r: Result<String, ProtocolError>)
    requires
        *old(offset) <= payload@.len(),
    ensures
        match take_text(payload@, *old(offset) as int) {
            Ok((s, o)) => r matches Ok(t) && t@ == s && *final(offset) == o && o <= payload@.len(),
            Err(e) => r matches Err(e2) && e2 == e,
        },
{
    let length = read_u32(payload, offset)?;
    let bytes = read_exact(payload, offset, length as usize)?;
    match utf8_string(bytes) {
        Some(s) => Ok(s),
        None => Err(ProtocolError::InvalidUtf8),
    }
}

fn read_flag(payload: &[u8], offset: &mut usize, message: &'static str) -> (r: Result<bool, ProtocolError>)
    requires
        *old(offset) <= payload@.len(),
    ensures
        match take_flag(payload@, *old(offset) as int, message) {
            Ok((v, o)) => r == Ok::<bool, ProtocolError>(v) && *final(offset) == o && o <= payload@.len(),
            Err(e) => r == Err::<bool, ProtocolError>(e),
        },
{
    let bytes = read_exact(payload, offset, 1)?;
    if bytes[0] == 0 {
        Ok(false)
    } else if bytes[0] == 1 {
        Ok(true)
    } else {
        Err(ProtocolError::InvalidPayload(message))
    }
}

fn ensure_consumed(payload: &[u8], offset: usize) -> (r: Result<(), ProtocolError>)
    ensures
        r == finish(payload@, offset as int, ()),
{
    if offset == payload.len() {
        Ok(())
    } else {
        Err(ProtocolError::InvalidPayload("trailing bytes"))
    }
}

// ---------------------------------------------------------------------------
// Task requests
// ---------------------------------------------------------------------------

/// A task sent to a worker.
#[derive(Debug, Clone, PartialEq, Eq)]
pub struct TaskRequest {
    pub task_id: u64,
    pub command: String,
    pub timeout_ms: Option<u64>,
}

pub struct TaskRequestView {
    pub task_id: u64,
    pub command: Seq<char>,
    pub timeout_ms: Option<u64>,
}

impl View for TaskRequest {
    type V = TaskRequestView;

    open spec fn view(&self) -> TaskRequestView {
        TaskRequestView { task_id: self.task_id, command: self.command@, timeout_ms: self.timeout_ms }
    }
}

pub open spec fn timeout_field(t: Option<u64>) -> Seq<u8> {
    match t {
        Some(v) => seq![1u8] + be_u64(v),
        None => seq![0u8],
    }
}

/// Payload of a task request.
pub open spec fn encode_task_request(r: TaskRequestView) -> Result<Seq<u8>, ProtocolError> {
    if !text_fits(r.command) {
        Err(field_too_large())
    } else {
        Ok(be_u64(r.task_id) + text_field(r.command) + timeout_field(r.timeout_ms))
    }
}

/// Decoding of a task request payload.
pub open spec fn decode_task_request(p: Seq<u8>) -> Result<TaskRequestView, ProtocolError> {
    match take_u64(p, 0) {
        Err(e) => Err(e),
        Ok((task_id, o1)) => match take_text(p, o1) {
            Err(e) => Err(e),
            Ok((command, o2)) => match take_flag(p, o2, "invalid timeout flag") {
                Err(e) => Err(e),
                Ok((has_timeout, o3)) => if has_timeout {
                    match take_u64(p, o3) {
                        Err(e) => Err(e),
                        Ok((t, o4)) => finish(p, o4, TaskRequestView { task_id, command, timeout_ms: Some(t) }),
                    }
                } else {
                    finish(p, o3, TaskRequestView { task_id, command, timeout_ms: None })
                },
            },
        },
    }
}

pub open spec fn request_result(r: Result<TaskRequest, ProtocolError>) -> Result<TaskRequestView, ProtocolError> {
    match r {
        Ok(v) => Ok(v@),
        Err(e) => Err(e),
    }
}

/// Decoding an encoded task request gives it back.
pub proof fn lemma_task_request_round_trip(r: TaskRequestView)
    requires
        text_fits(r.command),
        encode_task_request(r) matches Ok(b) && b.len() <= usize::MAX,
    ensures
        encode_task_request(r) matches Ok(b) && decode_task_request(b) == Ok::<TaskRequestView, ProtocolError>(r),
{
    let b = encode_task_request(r)->Ok_0;
    let a = be_u64(r.task_id);
    let t = text_field(r.command);
    let f = timeout_field(r.timeout_ms);
    lemma_take_u64_at(b, Seq::empty(), r.task_id, t + f);
    assert(b =~= Seq::<u8>::empty() + a + (t + f));
    lemma_take_text_at(b, a, r.command, f);
    match r.timeout_ms {
        Some(v) => {
            assert(b =~= (a + t) + seq![flag_byte(true)] + be_u64(v));
            lemma_take_flag_at(b, a + t, true, be_u64(v), "invalid timeout flag");
            assert(b =~= (a + t + seq![1u8]) + be_u64(v) + Seq::empty());
            lemma_take_u64_at(b, a + t + seq![1u8], v, Seq::empty());
        },
        None => {
            assert(b =~= (a + t) + seq![flag_byte(false)] + Seq::empty());
            lemma_take_flag_at(b, a + t, false, Seq::empty(), "invalid timeout flag");
        },
    }
}

/// A decoded task request is re-encoded to exactly the payload it was read from.
pub proof fn lemma_task_request_canonical(p: Seq<u8>)
    requires
        decode_task_request(p) is Ok,
    ensures
        decode_task_request(p) matches Ok(r) && encode_task_request(r) == Ok::<Seq<u8>, ProtocolError>(p),
{
    let r = decode_task_request(p)->Ok_0;
    lemma_u64_canonical(p.subrange(0, 8));
    let n = u32_of_be(p.subrange(8, 12));
    lemma_u32_canonical(p.subrange(8, 12));
    let e = p.subrange(12, 12 + n);
    vstd::utf8::decode_utf8_encode_utf8(e);
    let o2 = 12 + n;
    match r.timeout_ms {
        Some(v) => {
            lemma_u64_canonical(p.subrange(o2 + 1, o2 + 9));
            assert(p =~= be_u64(r.task_id) + text_field(r.command) + timeout_field(r.timeout_ms));
        },
        None => {
            assert(p =~= be_u64(r.task_id) + text_field(r.command) + timeout_field(r.timeout_ms));
        },
    }
}

impl TaskRequest {
    /// The payload of this request.
    pub fn encode(&self) -> (r: Result<Vec<u8>, ProtocolError>)
        ensures
            bytes_result(r) == encode_task_request(self@),
            r matches Ok(b) ==> decode_task_request(b@) == Ok::<TaskRequestView, ProtocolError>(self@),
    {
        let mut payload: Vec<u8> = Vec::new();
        put_u64(&mut payload, self.task_id);
        put_text(&mut payload, self.command.as_str())?;
        match self.timeout_ms {
            Some(timeout) => {
                payload.push(1);
                put_u64(&mut payload, timeout);
            },
            None => payload.push(0),
        }
        assert(payload@ =~= be_u64(self.task_id) + text_field(self.command@) + timeout_field(self.timeout_ms));
        assert(payload@.len() == payload.len());
        assert(encode_task_request(self@) == Ok::<Seq<u8>, ProtocolError>(payload@));
        proof {
            lemma_task_request_round_trip(self@);
        }
        Ok(payload)
    }

    /// The request carried by `payload`.
    pub fn decode(payload: &[u8]) -> (r: Result<TaskRequest, ProtocolError>)
        ensures
            request_result(r) == decode_task_request(payload@),
    {
        let mut offset: usize = 0;
        let task_id = read_u64(payload, &mut offset)?;
        let command = read_text(payload, &mut offset)?;
        let has_timeout = read_flag(payload, &mut offset, "invalid timeout flag")?;
        let timeout_ms = if has_timeout {
            Some(read_u64(payload, &mut offset)?)
        } else {
            None
        };
        ensure_consumed(payload, offset)?;
        Ok(TaskRequest { task_id, command, timeout_ms })
    }
}

// ---------------------------------------------------------------------------
// Task results
// ---------------------------------------------------------------------------

/// The outcome of a task, as reported by a worker.
#[derive(Debug, Clone, PartialEq, Eq)]
pub struct TaskResult {
    pub task_id: u64,
    pub success: bool,
    pub timed_out: bool,
    pub exit_code: Option<i32>,
    pub stdout: String,
    pub stderr: String,
}

pub struct TaskResultView {
    pub task_id: u64,
    pub success: bool,
    pub timed_out: bool,
    pub exit_code: Option<i32>,
    pub stdout: Seq<char>,
    pub stderr: Seq<char>,
}

impl View for TaskResult {
    type V = TaskResultView;

    open spec fn view(&self) -> TaskResultView {
        TaskResultView {
            task_id: self.task_id,
            success: self.success,
            timed_out: self.timed_out,
            exit_code: self.exit_code,
            stdout: self.stdout@,
            stderr: self.stderr@,
        }
    }
}

pub open spec fn exit_code_field(c: Option<i32>) -> Seq<u8> {
    match c {
        Some(v) => seq![1u8] + be_u32(v as u32),
        None => seq![0u8],
    }
}

/// Payload of a task result.
pub open spec fn encode_task_result(r: TaskResultView) -> Result<Seq<u8>, ProtocolError> {
    if !text_fits(r.stdout) || !text_fits(r.stderr) {
        Err(field_too_large())
    } else {
        Ok(be_u64(r.task_id) + seq![flag_byte(r.success)] + seq![flag_byte(r.timed_out)] + exit_code_field(
            r.exit_code,
        ) + text_field(r.stdout) + text_field(r.stderr))
    }
}

/// The rest of a task result payload, from its exit-code flag on.
pub open spec fn decode_task_result_tail(
    p: Seq<u8>,
    task_id: u64,
    success: bool,
    timed_out: bool,
    o3: int,
) -> Result<TaskResultView, ProtocolError> {
    match take_flag(p, o3, "invalid exit-code flag") {
        Err(e) => Err(e),
        Ok((has_code, o4)) => {
            let code: Result<(Option<i32>, int), ProtocolError> = if has_code {
                match take_i32(p, o4) {
                    Err(e) => Err(e),
                    Ok((c, o5)) => Ok((Some(c), o5)),
                }
            } else {
                Ok((None, o4))
            };
            match code {
                Err(e) => Err(e),
                Ok((exit_code, o5)) => match take_text(p, o5) {
                    Err(e) => Err(e),
                    Ok((stdout, o6)) => match take_text(p, o6) {
                        Err(e) => Err(e),
                        Ok((stderr, o7)) => finish(
                            p,
                            o7,
                            TaskResultView { task_id, success, timed_out, exit_code, stdout, stderr },
                        ),
                    },
                },
            }
        },
    }
}

/// Decoding of a task result payload.
pub open spec fn decode_task_result(p: Seq<u8>) -> Result<TaskResultView, ProtocolError> {
    match take_u64(p, 0) {
        Err(e) => Err(e),
        Ok((task_id, o1)) => match take_flag(p, o1, "invalid success flag") {
            Err(e) => Err(e),
            Ok((success, o2)) => match take_flag(p, o2, "invalid timeout flag") {
                Err(e) => Err(e),
                Ok((timed_out, o3)) => decode_task_result_tail(p, task_id, success, timed_out, o3),
            },
        },
    }
}

pub open spec fn result_result(r: Result<TaskResult, ProtocolError>) -> Result<TaskResultView, ProtocolError> {
    match r {
        Ok(v) => Ok(v@),
        Err(e) => Err(e),
    }
}

proof fn lemma_exit_code_at(p: Seq<u8>, pre: Seq<u8>, c: Option<i32>, post: Seq<u8>)
    requires
        p == pre + exit_code_field(c) + post,
        p.len() <= usize::MAX,
    ensures
        match take_flag(p, pre.len() as int, "invalid exit-code flag") {
            Ok((has_code, o4)) => {
                &&& o4 == pre.len() + 1
                &&& has_code == c is Some
                &&& has_code ==> take_i32(p, o4) == Ok::<(i32, int), ProtocolError>((c->Some_0, pre.len() + 5int))
            },
            Err(_) => false,
        },
{
    match c {
        Some(v) => {
            assert(p =~= pre + seq![flag_byte(true)] + (be_u32(v as u32) + post));
            lemma_take_flag_at(p, pre, true, be_u32(v as u32) + post, "invalid exit-code flag");
            assert(p =~= (pre + seq![1u8]) + be_u32(v as u32) + post);
            lemma_u32_round_trip(v as u32);
            lemma_i32_round_trip(v);
            lemma_take_at(p, pre + seq![1u8], be_u32(v as u32), post);
        },
        None => {
            assert(p =~= pre + seq![flag_byte(false)] + post);
            lemma_take_flag_at(p, pre, false, post, "invalid exit-code flag");
        },
    }
}

proof fn lemma_task_result_tail_round_trip(p: Seq<u8>, pre: Seq<u8>, r: TaskResultView)
    requires
        p == pre + exit_code_field(r.exit_code) + text_field(r.stdout) + text_field(r.stderr),
        p.len() <= usize::MAX,
        text_fits(r.stdout),
        text_fits(r.stderr),
    ensures
        decode_task_result_tail(p, r.task_id, r.success, r.timed_out, pre.len() as int) == Ok::<
            TaskResultView,
            ProtocolError,
        >(r),
{
    assert(p =~= pre + exit_code_field(r.exit_code) + text_field(r.stdout) + text_field(r.stderr) + Seq::empty());
    lemma_task_result_tail_with(p, pre, r, Seq::empty());
}

/// Reading the fields of a task result from `pre.len()` on, with `post` after them.
#[verifier::rlimit(40)]
#[verifier::spinoff_prover]
proof fn lemma_task_result_tail_with(p: Seq<u8>, pre: Seq<u8>, r: TaskResultView, post: Seq<u8>)
    requires
        p == pre + exit_code_field(r.exit_code) + text_field(r.stdout) + text_field(r.stderr) + post,
        p.len() <= usize::MAX,
        text_fits(r.stdout),
        text_fits(r.stderr),
    ensures
        decode_task_result_tail(p, r.task_id, r.success, r.timed_out, pre.len() as int) == finish(
            p,
            p.len() - post.len(),
            r,
        ),
{
    let c = exit_code_field(r.exit_code);
    let t1 = text_field(r.stdout);
    let t2 = text_field(r.stderr);
    assert(p =~= pre + c + (t1 + t2 + post));
    lemma_exit_code_at(p, pre, r.exit_code, t1 + t2 + post);
    assert(p =~= (pre + c) + t1 + (t2 + post));
    lemma_take_text_at(p, pre + c, r.stdout, t2 + post);
    assert(p =~= (pre + c + t1) + t2 + post);
    lemma_take_text_at(p, pre + c + t1, r.stderr, post);
}

proof fn lemma_task_result_head(b: Seq<u8>, r: TaskResultView, rest: Seq<u8>)
    requires
        b == be_u64(r.task_id) + seq![flag_byte(r.success)] + seq![flag_byte(r.timed_out)] + rest,
        b.len() <= usize::MAX,
    ensures
        take_u64(b, 0) == Ok::<(u64, int), ProtocolError>((r.task_id, 8)),
        take_flag(b, 8, "invalid success flag") == Ok::<(bool, int), ProtocolError>((r.success, 9)),
        take_flag(b, 9, "invalid timeout flag") == Ok::<(bool, int), ProtocolError>((r.timed_out, 10)),
{
    let a = be_u64(r.task_id);
    let s1 = seq![flag_byte(r.success)];
    let s2 = seq![flag_byte(r.timed_out)];
    assert(b =~= Seq::<u8>::empty() + a + (s1 + s2 + rest));
    lemma_take_u64_at(b, Seq::empty(), r.task_id, s1 + s2 + rest);
    assert(b =~= a + seq![flag_byte(r.success)] + (s2 + rest));
    lemma_take_flag_at(b, a, r.success, s2 + rest, "invalid success flag");
    assert(b =~= (a + s1) + seq![flag_byte(r.timed_out)] + rest);
    lemma_take_flag_at(b, a + s1, r.timed_out, rest, "invalid timeout flag");
}

/// Decoding an encoded task result gives it back.
pub proof fn lemma_task_result_round_trip(r: TaskResultView)
    requires
        encode_task_result(r) matches Ok(b) && b.len() <= usize::MAX,
    ensures
        encode_task_result(r) matches Ok(b) && decode_task_result(b) == Ok::<TaskResultView, ProtocolError>(r),
{
    let b = encode_task_result(r)->Ok_0;
    let head = be_u64(r.task_id) + seq![flag_byte(r.success)] + seq![flag_byte(r.timed_out)];
    let rest = exit_code_field(r.exit_code) + text_field(r.stdout) + text_field(r.stderr);
    assert(b =~= head + rest);
    lemma_task_result_head(b, r, rest);
    assert(b =~= head + exit_code_field(r.exit_code) + text_field(r.stdout) + text_field(r.stderr));
    lemma_task_result_tail_round_trip(b, head, r);
}

/// A decoded task result payload is re-encoded to exactly the bytes it was read from.
pub proof fn lemma_task_result_canonical(p: Seq<u8>)
    requires
        decode_task_result(p) is Ok,
    ensures
        decode_task_result(p) matches Ok(r) && encode_task_result(r) == Ok::<Seq<u8>, ProtocolError>(p),
{
    let r = decode_task_result(p)->Ok_0;
    lemma_u64_canonical(p.subrange(0, 8));
    let o5: int = if p[10] == 1 {
        let u = u32_of_be(p.subrange(11, 15));
        lemma_u32_canonical(p.subrange(11, 15));
        lemma_i32_canonical(u);
        assert(exit_code_field(r.exit_code) =~= p.subrange(10, 15));
        15
    } else {
        assert(exit_code_field(r.exit_code) =~= p.subrange(10, 11));
        11
    };
    let n1 = u32_of_be(p.subrange(o5, o5 + 4));
    lemma_u32_canonical(p.subrange(o5, o5 + 4));
    let e1 = p.subrange(o5 + 4, o5 + 4 + n1);
    vstd::utf8::decode_utf8_encode_utf8(e1);
    let o6 = o5 + 4 + n1;
    let n2 = u32_of_be(p.subrange(o6, o6 + 4));
    lemma_u32_canonical(p.subrange(o6, o6 + 4));
    let e2 = p.subrange(o6 + 4, o6 + 4 + n2);
    vstd::utf8::decode_utf8_encode_utf8(e2);
    assert(text_field(r.stdout) =~= p.subrange(o5, o6));
    assert(text_field(r.stderr) =~= p.subrange(o6, p.len() as int));
    assert(p =~= be_u64(r.task_id) + seq![flag_byte(r.success)] + seq![flag_byte(r.timed_out)] + exit_code_field(
        r.exit_code,
    ) + text_field(r.stdout) + text_field(r.stderr));
}

/// A task result payload is refused when its success or timeout flag is
/// changed to a value other than 0 and 1, naming that flag, and when a byte is
/// appended to it, as having trailing bytes.
pub proof fn lemma_task_result_rejects(r: TaskResultView, v: u8)
    requires
        encode_task_result(r) matches Ok(p) && p.len() < usize::MAX,
        v > 1,
    ensures
        encode_task_result(r) matches Ok(p) && decode_task_result(p.update(8, v)) == Err::<TaskResultView, ProtocolError>(
            ProtocolError::InvalidPayload("invalid success flag"),
        ) && decode_task_result(p.update(9, v)) == Err::<TaskResultView, ProtocolError>(
            ProtocolError::InvalidPayload("invalid timeout flag"),
        ) && decode_task_result(p.push(0)) == Err::<TaskResultView, ProtocolError>(
            ProtocolError::InvalidPayload("trailing bytes"),
        ),
{
    let p = encode_task_result(r)->Ok_0;
    let rest = exit_code_field(r.exit_code) + text_field(r.stdout) + text_field(r.stderr);
    assert(p =~= be_u64(r.task_id) + seq![flag_byte(r.success)] + seq![flag_byte(r.timed_out)] + rest);
    lemma_bad_success_flag(r, rest, p, v);
    lemma_bad_timeout_flag(r, rest, p, v);
    lemma_trailing_byte(r, rest, p);
}

proof fn lemma_bad_success_flag(r: TaskResultView, rest: Seq<u8>, p: Seq<u8>, v: u8)
    requires
        p == be_u64(r.task_id) + seq![flag_byte(r.success)] + seq![flag_byte(r.timed_out)] + rest,
        p.len() < usize::MAX,
        v > 1,
    ensures
        decode_task_result(p.update(8, v)) == Err::<TaskResultView, ProtocolError>(
            ProtocolError::InvalidPayload("invalid success flag"),
        ),
{
    let p8 = p.update(8, v);
    assert(p8 =~= Seq::<u8>::empty() + be_u64(r.task_id) + (seq![v] + seq![flag_byte(r.timed_out)] + rest));
    lemma_take_u64_at(p8, Seq::empty(), r.task_id, seq![v] + seq![flag_byte(r.timed_out)] + rest);
    assert(p8.subrange(8, 9) =~= seq![v]);
}

proof fn lemma_bad_timeout_flag(r: TaskResultView, rest: Seq<u8>, p: Seq<u8>, v: u8)
    requires
        p == be_u64(r.task_id) + seq![flag_byte(r.success)] + seq![flag_byte(r.timed_out)] + rest,
        p.len() < usize::MAX,
        v > 1,
    ensures
        decode_task_result(p.update(9, v)) == Err::<TaskResultView, ProtocolError>(
            ProtocolError::InvalidPayload("invalid timeout flag"),
        ),
{
    let a = be_u64(r.task_id);
    let p9 = p.update(9, v);
    assert(p9 =~= Seq::<u8>::empty() + a + (seq![flag_byte(r.success)] + seq![v] + rest));
    lemma_take_u64_at(p9, Seq::empty(), r.task_id, seq![flag_byte(r.success)] + seq![v] + rest);
    assert(p9 =~= a + seq![flag_byte(r.success)] + (seq![v] + rest));
    lemma_take_flag_at(p9, a, r.success, seq![v] + rest, "invalid success flag");
    assert(p9.subrange(9, 10) =~= seq![v]);
}

#[verifier::rlimit(40)]
#[verifier::spinoff_prover]
proof fn lemma_trailing_byte(r: TaskResultView, rest: Seq<u8>, p: Seq<u8>)
    requires
        p == be_u64(r.task_id) + seq![flag_byte(r.success)] + seq![flag_byte(r.timed_out)] + rest,
        rest == exit_code_field(r.exit_code) + text_field(r.stdout) + text_field(r.stderr),
        text_fits(r.stdout),
        text_fits(r.stderr),
        p.len() < usize::MAX,
    ensures
        decode_task_result(p.push(0)) == Err::<TaskResultView, ProtocolError>(
            ProtocolError::InvalidPayload("trailing bytes"),
        ),
{
    let head = be_u64(r.task_id) + seq![flag_byte(r.success)] + seq![flag_byte(r.timed_out)];
    let q = p.push(0);
    assert(q =~= head + (rest + seq![0u8]));
    lemma_task_result_head(q, r, rest + seq![0u8]);
    assert(q =~= head + exit_code_field(r.exit_code) + text_field(r.stdout) + text_field(r.stderr) + seq![0u8]);
    lemma_task_result_tail_with(q, head, r, seq![0u8]);
    assert(head.len() == 10);
    assert(decode_task_result_tail(q, r.task_id, r.success, r.timed_out, 10) == finish(q, q.len() - 1, r));
}

impl TaskResult {
    /// The payload of this result.
    pub fn encode(&self) -> (r: Result<Vec<u8>, ProtocolError>)
        ensures
            bytes_result(r) == encode_task_result(self@),
            r matches Ok(b) ==> decode_task_result(b@) == Ok::<TaskResultView, ProtocolError>(self@),
    {
        let mut payload: Vec<u8> = Vec::new();
        put_u64(&mut payload, self.task_id);
        payload.push(if self.success { 1 } else { 0 });
        payload.push(if self.timed_out { 1 } else { 0 });
        match self.exit_code {
            Some(code) => {
                payload.push(1);
                put_u32(&mut payload, #[verifier::truncate] (code as u32));
            },
            None => payload.push(0),
        }
        let ghost head = payload@;
        put_text(&mut payload, self.stdout.as_str())?;
        put_text(&mut payload, self.stderr.as_str())?;
        assert(head =~= be_u64(self.task_id) + seq![flag_byte(self.success)] + seq![flag_byte(self.timed_out)]
            + exit_code_field(self.exit_code));
        assert(payload@ =~= head + text_field(self.stdout@) + text_field(self.stderr@));
        assert(payload@.len() == payload.len());
        assert(encode_task_result(self@) == Ok::<Seq<u8>, ProtocolError>(payload@));
        proof {
            lemma_task_result_round_trip(self@);
        }
        Ok(payload)
    }

    /// The result carried by `payload`.
    pub fn decode(payload: &[u8]) -> (r: Result<TaskResult, ProtocolError>)
        ensures
            result_result(r) == decode_task_result(payload@),
    {
        let mut offset: usize = 0;
        let task_id = read_u64(payload, &mut offset)?;
        let success = read_flag(payload, &mut offset, "invalid success flag")?;
        let timed_out = read_flag(payload, &mut offset, "invalid timeout flag")?;
        let has_code = read_flag(payload, &mut offset, "invalid exit-code flag")?;
        let exit_code = if has_code {
            Some(read_i32(payload, &mut offset)?)
        } else {
            None
        };
        let stdout = read_text(payload, &mut offset)?;
        let stderr = read_text(payload, &mut offset)?;
        ensure_consumed(payload, offset)?;
        Ok(TaskResult { task_id, success, timed_out, exit_code, stdout, stderr })
    }
}

// ---------------------------------------------------------------------------
// Heartbeats
// ---------------------------------------------------------------------------

/// A liveness message from a worker.
#[derive(Debug, Clone, PartialEq, Eq)]
pub struct Heartbeat {
    pub worker_id: String,
    pub unix_seconds: u64,
}

pub struct HeartbeatView {
    pub worker_id: Seq<char>,
    pub unix_seconds: u64,
}

impl View for Heartbeat {
    type V = HeartbeatView;

    open spec fn view(&self) -> HeartbeatView {
        HeartbeatView { worker_id: self.worker_id@, unix_seconds: self.unix_seconds }
    }
}

/// Payload of a heartbeat.
pub open spec fn encode_heartbeat(h: HeartbeatView) -> Result<Seq<u8>, ProtocolError> {
    if !text_fits(h.worker_id) {
        Err(field_too_large())
    } else {
        Ok(text_field(h.worker_id) + be_u64(h.unix_seconds))
    }
}

/// Decoding of a heartbeat payload.
pub open spec fn decode_heartbeat(p: Seq<u8>) -> Result<HeartbeatView, ProtocolError> {
    match take_text(p, 0) {
        Err(e) => Err(e),
        Ok((worker_id, o1)) => match take_u64(p, o1) {
            Err(e) => Err(e),
            Ok((unix_seconds, o2)) => finish(p, o2, HeartbeatView { worker_id, unix_seconds }),
        },
    }
}

pub open spec fn heartbeat_result(r: Result<Heartbeat, ProtocolError>) -> Result<HeartbeatView, ProtocolError> {
    match r {
        Ok(v) => Ok(v@),
        Err(e) => Err(e),
    }
}

/// Decoding an encoded heartbeat gives it back.
pub proof fn lemma_heartbeat_round_trip(h: HeartbeatView)
    requires
        encode_heartbeat(h) matches Ok(b) && b.len() <= usize::MAX,
    ensures
        encode_heartbeat(h) matches Ok(b) && decode_heartbeat(b) == Ok::<HeartbeatView, ProtocolError>(h),
{
    let b = encode_heartbeat(h)->Ok_0;
    let t = text_field(h.worker_id);
    assert(b =~= Seq::<u8>::empty() + t + be_u64(h.unix_seconds));
    lemma_take_text_at(b, Seq::empty(), h.worker_id, be_u64(h.unix_seconds));
    assert(b =~= t + be_u64(h.unix_seconds) + Seq::empty());
    lemma_take_u64_at(b, t, h.unix_seconds, Seq::empty());
}

/// A decoded heartbeat payload is re-encoded to exactly the bytes it was read from.
pub proof fn lemma_heartbeat_canonical(p: Seq<u8>)
    requires
        decode_heartbeat(p) is Ok,
    ensures
        decode_heartbeat(p) matches Ok(h) && encode_heartbeat(h) == Ok::<Seq<u8>, ProtocolError>(p),
{
    let h = decode_heartbeat(p)->Ok_0;
    let n = u32_of_be(p.subrange(0, 4));
    lemma_u32_canonical(p.subrange(0, 4));
    let e = p.subrange(4, 4 + n);
    vstd::utf8::decode_utf8_encode_utf8(e);
    lemma_u64_canonical(p.subrange(4 + n, 12 + n));
    assert(p =~= text_field(h.worker_id) + be_u64(h.unix_seconds));
}

impl Heartbeat {
    /// The payload of this heartbeat.
    pub fn encode(&self) -> (r: Result<Vec<u8>, ProtocolError>)
        ensures
            bytes_result(r) == encode_heartbeat(self@),
            r matches Ok(b) ==> decode_heartbeat(b@) == Ok::<HeartbeatView, ProtocolError>(self@),
    {
        let mut payload: Vec<u8> = Vec::new();
        put_text(&mut payload, self.worker_id.as_str())?;
        put_u64(&mut payload, self.unix_seconds);
        assert(payload@ =~= text_field(self.worker_id@) + be_u64(self.unix_seconds));
        assert(payload@.len() == payload.len());
        assert(encode_heartbeat(self@) == Ok::<Seq<u8>, ProtocolError>(payload@));
        proof {
            lemma_heartbeat_round_trip(self@);
        }
        Ok(payload)
    }

    /// The heartbeat carried by `payload`.
    pub fn decode(payload: &[u8]) -> (r: Result<Heartbeat, ProtocolError>)
        ensures
            heartbeat_result(r) == decode_heartbeat(payload@),
    {
        let mut offset: usize = 0;
        let worker_id = read_text(payload, &mut offset)?;
        let unix_seconds = read_u64(payload, &mut offset)?;
        ensure_consumed(payload, offset)?;
        Ok(Heartbeat { worker_id, unix_seconds })
    }
}

// ---------------------------------------------------------------------------
// Messages
// ---------------------------------------------------------------------------

/// The message of a protocol error, as its `Display` writes it.
pub open spec fn protocol_message(e: ProtocolError) -> Seq<char> {
    match e {
        ProtocolError::InvalidMagic => "invalid frame magic"@,
        ProtocolError::UnsupportedVersion(v) => "unsupported protocol version "@ + ascii_chars(decimal(v as nat)),
        ProtocolError::UnknownMessage(k) => "unknown message kind "@ + ascii_chars(decimal(k as nat)),
        ProtocolError::FrameTooLarge(n) => "frame payload too large: "@ + ascii_chars(decimal(n as nat)) + " bytes"@,
        ProtocolError::InvalidPayload(m) => "invalid payload: "@ + m@,
        ProtocolError::InvalidUtf8 => "payload contains invalid UTF-8"@,
    }
}

impl ProtocolError {
    /// The message of this error.
    pub fn describe(&self) -> (s: String)
        ensures
            s@ == protocol_message(*self),
    {
        match self {
            ProtocolError::InvalidMagic => "invalid frame magic".to_owned(),
            ProtocolError::UnsupportedVersion(v) => {
                let digits = decimal_text(*v as u64);
                concat_text("unsupported protocol version ", digits.as_str())
            },
            ProtocolError::UnknownMessage(k) => {
                let digits = decimal_text(*k as u64);
                concat_text("unknown message kind ", digits.as_str())
            },
            ProtocolError::FrameTooLarge(n) => {
                let digits = decimal_text(*n as u64);
                let head = concat_text("frame payload too large: ", digits.as_str());
                let s = concat_text(head.as_str(), " bytes");
                assert(s@ =~= protocol_message(*self));
                s
            },
            ProtocolError::InvalidPayload(m) => concat_text("invalid payload: ", m),
            ProtocolError::InvalidUtf8 => "payload contains invalid UTF-8".to_owned(),
        }
    }
}

} // verus!
