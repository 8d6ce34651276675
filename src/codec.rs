//! Wire codec. A frame is a four-byte big-endian payload length followed by
//! the payload. A payload is a little-endian `u32` variant tag (0 `Message`,
//! 1 `ClientJoined`, 2 `ClientDisconnected`) followed by the variant's string
//! fields, each a little-endian `u64` byte count and that many UTF-8 bytes.
use crate::protocol::{ChatProtocol, MessageModel};
use vstd::bytes::*;
use vstd::prelude::*;
use vstd::slice::*;
use vstd::string::*;
use vstd::utf8::*;

verus! {

broadcast use group_utf8_lib;

/// Why a byte sequence is not a message.
#[derive(Clone, Copy, Debug, PartialEq, Eq, Structural)]
pub enum DecodeError {
    /// Fewer bytes are available than the length field declares.
    TruncatedFrame,
    /// The variant tag names no known message.
    UnknownVariant,
    /// The bytes after the tag are not the variant's fields.
    MalformedPayload,
}

/// Width in bytes of a frame's length field.
pub const LENGTH_FIELD_LEN: usize = 4;

pub open spec fn tag_of(m: MessageModel) -> u32 {
    match m {
        MessageModel::Message(_, _) => 0,
        MessageModel::ClientJoined(_) => 1,
        MessageModel::ClientDisconnected(_) => 2,
    }
}

/// A string field: its UTF-8 byte count, then its UTF-8 bytes.
pub open spec fn string_field(s: Seq<char>) -> Seq<u8> {
    spec_u64_to_le_bytes(encode_utf8(s).len() as u64) + encode_utf8(s)
}

/// The payload that carries `m`.
pub open spec fn payload_of(m: MessageModel) -> Seq<u8> {
    spec_u32_to_le_bytes(tag_of(m)) + match m {
        MessageModel::Message(s, t) => string_field(s) + string_field(t),
        MessageModel::ClientJoined(n) => string_field(n),
        MessageModel::ClientDisconnected(n) => string_field(n),
    }
}

/// `x` as four big-endian bytes.
pub open spec fn be_bytes(x: u32) -> Seq<u8> {
    let le = spec_u32_to_le_bytes(x);
    seq![le[3], le[2], le[1], le[0]]
}

/// The number held by four big-endian bytes.
pub open spec fn from_be_bytes(b: Seq<u8>) -> u32 {
    spec_u32_from_le_bytes(seq![b[3], b[2], b[1], b[0]])
}

/// The frame that carries `m`.
pub open spec fn frame_of(m: MessageModel) -> Seq<u8> {
    be_bytes(payload_of(m).len() as u32) + payload_of(m)
}

/// A message fits in a frame when its payload length fits the length field.
pub open spec fn fits_frame(m: MessageModel) -> bool {
    payload_of(m).len() <= u32::MAX
}

/// Reads one string field from the front of `b`; gives the string and what follows it.
pub open spec fn parse_string_field(b: Seq<u8>) -> Option<(Seq<char>, Seq<u8>)> {
    if b.len() < 8 {
        None
    } else {
        let n = spec_u64_from_le_bytes(b.subrange(0, 8)) as int;
        let rest = b.subrange(8, b.len() as int);
        if n > rest.len() || !valid_utf8(rest.subrange(0, n)) {
            None
        } else {
            Some((decode_utf8(rest.subrange(0, n)), rest.subrange(n, rest.len() as int)))
        }
    }
}

/// Exactly one string field.
pub open spec fn parse_one(b: Seq<u8>) -> Option<Seq<char>> {
    match parse_string_field(b) {
        Some((s, rest)) => if rest.len() == 0 {
            Some(s)
        } else {
            None
        },
        None => None,
    }
}

/// Exactly two string fields.
pub open spec fn parse_two(b: Seq<u8>) -> Option<(Seq<char>, Seq<char>)> {
    match parse_string_field(b) {
        Some((s, rest)) => match parse_one(rest) {
            Some(t) => Some((s, t)),
            None => None,
        },
        None => None,
    }
}

/// What a payload decodes to.
pub open spec fn parse_payload(b: Seq<u8>) -> Result<MessageModel, DecodeError> {
    if b.len() < 4 {
        Err(DecodeError::MalformedPayload)
    } else {
        let tag = spec_u32_from_le_bytes(b.subrange(0, 4));
        let body = b.subrange(4, b.len() as int);
        if tag == 0 {
            match parse_two(body) {
                Some((s, t)) => Ok(MessageModel::Message(s, t)),
                None => Err(DecodeError::MalformedPayload),
            }
        } else if tag == 1 {
            match parse_one(body) {
                Some(n) => Ok(MessageModel::ClientJoined(n)),
                None => Err(DecodeError::MalformedPayload),
            }
        } else if tag == 2 {
            match parse_one(body) {
                Some(n) => Ok(MessageModel::ClientDisconnected(n)),
                None => Err(DecodeError::MalformedPayload),
            }
        } else {
            Err(DecodeError::UnknownVariant)
        }
    }
}

/// What the frame at the front of `b` decodes to, with the frame's length in bytes.
pub open spec fn parse_frame(b: Seq<u8>) -> Result<(MessageModel, int), DecodeError> {
    if b.len() < 4 {
        Err(DecodeError::TruncatedFrame)
    } else {
        let n = from_be_bytes(b.subrange(0, 4)) as int;
        if b.len() < 4 + n {
            Err(DecodeError::TruncatedFrame)
        } else {
            match parse_payload(b.subrange(4, 4 + n)) {
                Ok(m) => Ok((m, 4 + n)),
                Err(e) => Err(e),
            }
        }
    }
}

/// Relies on `String::from_utf8`: it succeeds exactly on valid UTF-8, and the
/// string it returns is the one those bytes encode.
#[verifier::external_body]
fn string_from_utf8(bytes: Vec<u8>) -> (r: Option<String>)
    ensures
        r is Some <==> valid_utf8(bytes@),
        r matches Some(s) ==> encode_utf8(s@) == bytes@,
{
    String::from_utf8(bytes).ok()
}

fn push_all(out: &mut Vec<u8>, src: &[u8])
    ensures
        final(out)@ == old(out)@ + src@,
{
    let mut i: usize = 0;
    while i < src.len()
        invariant
            i <= src@.len(),
            out@ == old(out)@ + src@.subrange(0, i as int),
        decreases src@.len() - i,
    {
        out.push(src[i]);
        i = i + 1;
        assert(out@ =~= old(out)@ + src@.subrange(0, i as int));
    }
    assert(src@.subrange(0, i as int) =~= src@);
}

fn write_string_field(out: &mut Vec<u8>, s: &String)
    ensures
        final(out)@ == old(out)@ + string_field(s@),
{
    let bytes = s.as_str().as_bytes();
    let count = u64_to_le_bytes(bytes.len() as u64);
    push_all(out, count.as_slice());
    push_all(out, bytes);
    assert(out@ =~= old(out)@ + string_field(s@));
}

/// The payload that carries `m`.
pub fn encode_message(m: &ChatProtocol) -> (r: Vec<u8>)
    ensures
        r@ == payload_of(m@),
{
    let mut out: Vec<u8> = Vec::new();
    match m {
        ChatProtocol::Message(s, t) => {
            let tag = u32_to_le_bytes(0);
            push_all(&mut out, tag.as_slice());
            write_string_field(&mut out, s);
            write_string_field(&mut out, t);
        },
        ChatProtocol::ClientJoined(n) => {
            let tag = u32_to_le_bytes(1);
            push_all(&mut out, tag.as_slice());
            write_string_field(&mut out, n);
        },
        ChatProtocol::ClientDisconnected(n) => {
            let tag = u32_to_le_bytes(2);
            push_all(&mut out, tag.as_slice());
            write_string_field(&mut out, n);
        },
    }
    assert(out@ =~= payload_of(m@));
    out
}

/// The frame that carries `m`: length field, then payload.
pub fn encode_frame(m: &ChatProtocol) -> (r: Vec<u8>)
    requires
        fits_frame(m@),
    ensures
        r@ == frame_of(m@),
{
    let payload = encode_message(m);
    let le = u32_to_le_bytes(payload.len() as u32);
    let mut out: Vec<u8> = Vec::new();
    out.push(le[3]);
    out.push(le[2]);
    out.push(le[1]);
    out.push(le[0]);
    push_all(&mut out, payload.as_slice());
    assert(out@ =~= frame_of(m@));
    out
}

/// Reads one string field from `b` at `pos`; gives the string and the
/// position after it.
fn read_string_field(b: &[u8], pos: usize) -> (r: Option<(String, usize)>)
    requires
        pos <= b@.len(),
    ensures
        match r {
            Some((s, end)) => pos <= end <= b@.len() && parse_string_field(
                b@.subrange(pos as int, b@.len() as int),
            ) == Some((s@, b@.subrange(end as int, b@.len() as int))),
            None => parse_string_field(b@.subrange(pos as int, b@.len() as int)) is None,
        },
{
    let ghost tail = b@.subrange(pos as int, b@.len() as int);
    if b.len() - pos < 8 {
        return None;
    }
    let count: u64 = u64_from_le_bytes(slice_subrange(b, pos, pos + 8));
    assert(tail.subrange(0, 8) =~= b@.subrange(pos as int, pos + 8));
    let avail: usize = b.len() - pos - 8;
    if count > avail as u64 {
        return None;
    }
    let end: usize = pos + 8 + count as usize;
    let raw = slice_to_vec(slice_subrange(b, pos + 8, end));
    let ghost rest = tail.subrange(8, tail.len() as int);
    assert(rest.subrange(0, count as int) =~= raw@);
    assert(rest.subrange(count as int, rest.len() as int) =~= b@.subrange(
        end as int,
        b@.len() as int,
    ));
    match string_from_utf8(raw) {
        Some(s) => {
            proof {
                encode_utf8_decode_utf8(s@);
            }
            Some((s, end))
        },
        None => None,
    }
}

/// Reads the rest of `b` from `pos` as exactly one string field.
fn read_last_field(b: &[u8], pos: usize) -> (r: Option<String>)
    requires
        pos <= b@.len(),
    ensures
        match r {
            Some(s) => parse_one(b@.subrange(pos as int, b@.len() as int)) == Some(s@),
            None => parse_one(b@.subrange(pos as int, b@.len() as int)) is None,
        },
{
    match read_string_field(b, pos) {
        Some((s, end)) => {
            if end == b.len() {
                Some(s)
            } else {
                None
            }
        },
        None => None,
    }
}

/// Decodes a payload.
pub fn decode_message(b: &[u8]) -> (r: Result<ChatProtocol, DecodeError>)
    ensures
        match r {
            Ok(m) => parse_payload(b@) == Ok::<MessageModel, DecodeError>(m@),
            Err(e) => parse_payload(b@) == Err::<MessageModel, DecodeError>(e),
        },
{
    if b.len() < 4 {
        return Err(DecodeError::MalformedPayload);
    }
    let tag: u32 = u32_from_le_bytes(slice_subrange(b, 0, 4));
    if tag == 0 {
        match read_string_field(b, 4) {
            Some((s, end)) => {
                match read_last_field(b, end) {
                    Some(t) => Ok(ChatProtocol::Message(s, t)),
                    None => Err(DecodeError::MalformedPayload),
                }
            },
            None => Err(DecodeError::MalformedPayload),
        }
    } else if tag == 1 {
        match read_last_field(b, 4) {
            Some(n) => Ok(ChatProtocol::ClientJoined(n)),
            None => Err(DecodeError::MalformedPayload),
        }
    } else if tag == 2 {
        match read_last_field(b, 4) {
            Some(n) => Ok(ChatProtocol::ClientDisconnected(n)),
            None => Err(DecodeError::MalformedPayload),
        }
    } else {
        Err(DecodeError::UnknownVariant)
    }
}

/// Decodes the frame at the front of `b`; gives the message and the frame's
/// length in bytes.
pub fn decode_frame(b: &[u8]) -> (r: Result<(ChatProtocol, usize), DecodeError>)
    ensures
        match r {
            Ok((m, used)) => parse_frame(b@) == Ok::<(MessageModel, int), DecodeError>(
                (m@, used as int),
            ),
            Err(e) => parse_frame(b@) == Err::<(MessageModel, int), DecodeError>(e),
        },
{
    if b.len() < LENGTH_FIELD_LEN {
        return Err(DecodeError::TruncatedFrame);
    }
    let be: Vec<u8> = vec![b[3], b[2], b[1], b[0]];
    let n: u32 = u32_from_le_bytes(be.as_slice());
    proof {
        let h = b@.subrange(0, 4);
        assert(be@ =~= seq![h[3], h[2], h[1], h[0]]);
    }
    if b.len() - LENGTH_FIELD_LEN < n as usize {
        return Err(DecodeError::TruncatedFrame);
    }
    let end: usize = LENGTH_FIELD_LEN + n as usize;
    match decode_message(slice_subrange(b, LENGTH_FIELD_LEN, end)) {
        Ok(m) => Ok((m, end)),
        Err(e) => Err(e),
    }
}

proof fn lemma_string_field_round_trip(s: Seq<char>, rest: Seq<u8>)
    requires
        encode_utf8(s).len() <= u64::MAX,
    ensures
        parse_string_field(string_field(s) + rest) == Some((s, rest)),
{
    lemma_auto_spec_u64_to_from_le_bytes();
    encode_utf8_valid_utf8(s);
    encode_utf8_decode_utf8(s);
    let e = encode_utf8(s);
    let b = string_field(s) + rest;
    assert(b.subrange(0, 8) =~= spec_u64_to_le_bytes(e.len() as u64));
    let body = b.subrange(8, b.len() as int);
    assert(body =~= e + rest);
    assert(body.subrange(0, e.len() as int) =~= e);
    assert(body.subrange(e.len() as int, body.len() as int) =~= rest);
}

/// Decoding the payload of a message gives that message back.
pub proof fn lemma_payload_round_trip(m: MessageModel)
    requires
        fits_frame(m),
    ensures
        parse_payload(payload_of(m)) == Ok::<MessageModel, DecodeError>(m),
{
    lemma_auto_spec_u32_to_from_le_bytes();
    lemma_auto_spec_u64_to_from_le_bytes();
    let b = payload_of(m);
    let tag = spec_u32_to_le_bytes(tag_of(m));
    assert(b.subrange(0, 4) =~= tag);
    let body = b.subrange(4, b.len() as int);
    let empty = Seq::<u8>::empty();
    match m {
        MessageModel::Message(s, t) => {
            assert(body =~= string_field(s) + (string_field(t) + empty));
            lemma_string_field_round_trip(s, string_field(t) + empty);
            lemma_string_field_round_trip(t, empty);
        },
        MessageModel::ClientJoined(n) => {
            assert(body =~= string_field(n) + empty);
            lemma_string_field_round_trip(n, empty);
        },
        MessageModel::ClientDisconnected(n) => {
            assert(body =~= string_field(n) + empty);
            lemma_string_field_round_trip(n, empty);
        },
    }
}

/// Decoding the frame of a message gives that message back, and the frame is
/// read whole; bytes that follow it are left for the next frame.
pub proof fn lemma_frame_round_trip(m: MessageModel, next: Seq<u8>)
    requires
        fits_frame(m),
    ensures
        parse_frame(frame_of(m) + next) == Ok::<(MessageModel, int), DecodeError>(
            (m, frame_of(m).len() as int),
        ),
{
    lemma_payload_round_trip(m);
    let p = payload_of(m);
    let x = p.len() as u32;
    let le = spec_u32_to_le_bytes(x);
    lemma_auto_spec_u32_to_from_le_bytes();
    assert(le.len() == 4 && spec_u32_from_le_bytes(le) == x);
    let b = frame_of(m) + next;
    assert(frame_of(m) == be_bytes(x) + p);
    let h = b.subrange(0, 4);
    assert(seq![h[3], h[2], h[1], h[0]] =~= le);
    assert(from_be_bytes(h) == x);
    assert(x as int == p.len());
    assert(b.subrange(4, 4 + p.len() as int) =~= p);
}

proof fn lemma_string_field_canonical(b: Seq<u8>)
    requires
        parse_string_field(b) is Some,
    ensures
        ({
            let (s, rest) = parse_string_field(b).unwrap();
            b == string_field(s) + rest
        }),
{
    lemma_auto_spec_u64_to_from_le_bytes();
    let head = b.subrange(0, 8);
    let n = spec_u64_from_le_bytes(head);
    let rest = b.subrange(8, b.len() as int);
    let raw = rest.subrange(0, n as int);
    decode_utf8_encode_utf8(raw);
    let s = decode_utf8(raw);
    assert(encode_utf8(s) == raw);
    assert(encode_utf8(s).len() as u64 == n);
    assert(spec_u64_to_le_bytes(n) == head);
    assert(b =~= string_field(s) + rest.subrange(n as int, rest.len() as int));
}

/// A payload decodes to a message only when it is exactly that message's
/// payload: decoding and encoding are inverse to each other.
pub proof fn lemma_payload_canonical(b: Seq<u8>)
    requires
        parse_payload(b) is Ok,
    ensures
        b == payload_of(parse_payload(b)->Ok_0),
{
    lemma_auto_spec_u32_to_from_le_bytes();
    let head = b.subrange(0, 4);
    let body = b.subrange(4, b.len() as int);
    let m = parse_payload(b)->Ok_0;
    assert(spec_u32_to_le_bytes(spec_u32_from_le_bytes(head)) == head);
    lemma_string_field_canonical(body);
    let (s, rest) = parse_string_field(body).unwrap();
    match m {
        MessageModel::Message(_, _) => {
            lemma_string_field_canonical(rest);
            let (t, tail) = parse_string_field(rest).unwrap();
            assert(tail =~= Seq::<u8>::empty());
            assert(b =~= spec_u32_to_le_bytes(0) + (string_field(s) + string_field(t)));
        },
        MessageModel::ClientJoined(_) => {
            assert(rest =~= Seq::<u8>::empty());
            assert(b =~= spec_u32_to_le_bytes(1) + string_field(s));
        },
        MessageModel::ClientDisconnected(_) => {
            assert(rest =~= Seq::<u8>::empty());
            assert(b =~= spec_u32_to_le_bytes(2) + string_field(s));
        },
    }
}

} // verus!
