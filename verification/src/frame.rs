//! Length-prefixed messages: four little-endian length bytes, then the payload.

use vstd::prelude::*;
use vstd::string::*;

use crate::text::{decimal, decimal_digits};

verus! {

/// Bytes in front of every payload.
pub const MSG_HEADER_SIZE: usize = 4;

/// The little-endian bytes of a payload length.
pub open spec fn prefix_bytes(len: u32) -> Seq<u8> {
    seq![
        (len % 256) as u8,
        (len / 256 % 256) as u8,
        (len / 65536 % 256) as u8,
        (len / 16777216) as u8,
    ]
}

/// The payload length that four little-endian bytes spell.
pub open spec fn prefix_value(bytes: Seq<u8>) -> nat {
    (bytes[0] + 256 * bytes[1] + 65536 * bytes[2] + 16777216 * bytes[3]) as nat
}

/// A message on the wire. Only a payload whose length fits the prefix has a frame.
pub open spec fn frame(payload: Seq<u8>) -> Seq<u8>
    recommends
        payload.len() <= u32::MAX,
{
    prefix_bytes(payload.len() as u32) + payload
}

/// Messages on the wire, one after the other.
pub open spec fn frames(messages: Seq<Seq<u8>>) -> Seq<u8>
    decreases messages.len(),
{
    if messages.len() == 0 {
        Seq::empty()
    } else {
        frame(messages[0]) + frames(messages.drop_first())
    }
}

/// The smaller of a message's length and the room there is for it.
pub open spec fn delivered_len(len: nat, room: nat) -> nat {
    if len <= room {
        len
    } else {
        room
    }
}

/// A buffer after `n` bytes of `data` were put at its front.
pub open spec fn filled(buf: Seq<u8>, data: Seq<u8>, n: nat) -> Seq<u8> {
    data.take(n as int) + buf.skip(n as int)
}

/// A message that is too long to be sent.
#[derive(Debug, Clone, Copy, PartialEq, Eq, Structural)]
pub struct TooLarge {
    /// Bytes of the payload.
    pub len: usize,
    /// The longest payload that can be sent.
    pub max: usize,
}

impl TooLarge {
    /// The error in words.
    pub fn message(&self) -> (text: String)
        ensures
            text@ == "Message too large: "@ + decimal_digits(self.len as nat) + " bytes (max "@
                + decimal_digits(self.max as nat) + ")"@,
    {
        let mut text: String = "Message too large: ".to_owned();
        text.append(decimal(self.len as u64).as_str());
        text.append(" bytes (max ");
        text.append(decimal(self.max as u64).as_str());
        text.append(")");
        text
    }
}

/// The prefix for a payload of `len` bytes.
pub fn length_prefix(len: u32) -> (prefix: [u8; 4])
    ensures
        prefix@ == prefix_bytes(len),
{
    let prefix: [u8; 4] = [
        (len % 256) as u8,
        (len / 256 % 256) as u8,
        (len / 65536 % 256) as u8,
        (len / 16777216) as u8,
    ];
    assert(prefix@ =~= prefix_bytes(len));
    prefix
}

/// The frame of `buf`, as one piece of bytes. A payload whose length does not fit the prefix is
/// refused.
pub fn frame_message(buf: &[u8]) -> (framed: Result<Vec<u8>, TooLarge>)
    ensures
        framed is Ok <==> buf@.len() <= u32::MAX,
        framed matches Ok(bytes) ==> bytes@ == frame(buf@),
        framed matches Err(error) ==> error == (TooLarge {
            len: buf.len(),
            max: u32::MAX as usize,
        }),
{
    if buf.len() > u32::MAX as usize {
        return Err(TooLarge { len: buf.len(), max: u32::MAX as usize });
    }
    let mut bytes: Vec<u8> = Vec::new();
    bytes.extend_from_slice(&length_prefix(buf.len() as u32));
    bytes.extend_from_slice(buf);
    assert(bytes@ =~= frame(buf@));
    Ok(bytes)
}

/// The payload length that a prefix announces.
pub fn payload_length(prefix: &[u8; 4]) -> (len: usize)
    ensures
        len == prefix_value(prefix@),
        len <= u32::MAX,
{
    let low: u32 = prefix[0] as u32 + 256 * prefix[1] as u32 + 65536 * prefix[2] as u32;
    let len: u32 = low + 16777216 * prefix[3] as u32;
    len as usize
}

/// A prefix spells the length that it was made from.
pub proof fn law_prefix_round_trip(len: u32)
    ensures
        prefix_bytes(len).len() == MSG_HEADER_SIZE,
        prefix_value(prefix_bytes(len)) == len,
{
    assert(len / 16777216 < 256) by (bit_vector);
    assert(len == len % 256 + 256 * (len / 256 % 256) + 65536 * (len / 65536 % 256) + 16777216 * (
    len / 16777216)) by (bit_vector);
}

/// Every four bytes are the prefix of the length that they spell.
pub proof fn law_prefix_is_canonical(bytes: Seq<u8>)
    requires
        bytes.len() == MSG_HEADER_SIZE,
    ensures
        prefix_value(bytes) <= u32::MAX,
        prefix_bytes(prefix_value(bytes) as u32) == bytes,
{
    let (b0, b1, b2, b3) = (bytes[0], bytes[1], bytes[2], bytes[3]);
    let len = prefix_value(bytes) as u32;
    assert(len % 256 == b0 && len / 256 % 256 == b1 && len / 65536 % 256 == b2 && len / 16777216
        == b3) by (bit_vector)
        requires
            len == b0 + 256 * b1 + 65536 * b2 + 16777216 * b3,
    ;
    assert(prefix_bytes(len) =~= bytes);
}

/// A frame starts with the prefix of its payload's length and ends with the payload.
pub proof fn lemma_frame_parts(payload: Seq<u8>)
    requires
        payload.len() <= u32::MAX,
    ensures
        frame(payload).len() == MSG_HEADER_SIZE + payload.len(),
        frame(payload).take(MSG_HEADER_SIZE as int) == prefix_bytes(payload.len() as u32),
        frame(payload).skip(MSG_HEADER_SIZE as int) == payload,
        prefix_value(frame(payload).take(MSG_HEADER_SIZE as int)) == payload.len(),
{
    law_prefix_round_trip(payload.len() as u32);
    assert(frame(payload).take(MSG_HEADER_SIZE as int) =~= prefix_bytes(payload.len() as u32));
    assert(frame(payload).skip(MSG_HEADER_SIZE as int) =~= payload);
}

/// Writing one more message appends its frame.
pub proof fn lemma_frames_push(messages: Seq<Seq<u8>>, message: Seq<u8>)
    ensures
        frames(messages.push(message)) == frames(messages) + frame(message),
    decreases messages.len(),
{
    let more = messages.push(message);
    if messages.len() == 0 {
        assert(more.drop_first() =~= messages);
        assert(frames(more) =~= frames(messages) + frame(message));
    } else {
        assert(more.drop_first() =~= messages.drop_first().push(message));
        lemma_frames_push(messages.drop_first(), message);
        assert(frames(more) =~= frames(messages) + frame(message));
    }
}

/// Four bytes spell a length, the lowest byte first.
pub proof fn law_prefix_is_little_endian(len: u32, prefix: [u8; 4])
    requires
        call_ensures(length_prefix, (len,), prefix),
    ensures
        prefix@[0] + 256 * prefix@[1] + 65536 * prefix@[2] + 16777216 * prefix@[3] == len,
{
    law_prefix_round_trip(len);
    assert(prefix@ == prefix_bytes(len));
}

/// The length that a prefix announces is the number that its bytes spell, the lowest first.
pub proof fn law_payload_length(prefix: &[u8; 4], len: usize)
    requires
        call_ensures(payload_length, (prefix,), len),
    ensures
        len == prefix@[0] + 256 * prefix@[1] + 65536 * prefix@[2] + 16777216 * prefix@[3],
{
}

/// A payload of up to 4294967295 bytes is framed and a longer one is refused. A frame is four
/// bytes that spell the payload's length, the lowest first, and then the payload itself.
pub proof fn law_frame_message(buf: &[u8], framed: Result<Vec<u8>, TooLarge>)
    requires
        call_ensures(frame_message, (buf,), framed),
    ensures
        framed is Ok <==> buf@.len() <= 4294967295,
        framed matches Ok(bytes) ==> {
            &&& bytes@.len() == 4 + buf@.len()
            &&& bytes@[0] + 256 * bytes@[1] + 65536 * bytes@[2] + 16777216 * bytes@[3]
                == buf@.len()
            &&& forall|i: int| 0 <= i < buf@.len() ==> bytes@[4 + i] == #[trigger] buf@[i]
        },
        framed matches Err(error) ==> error.len == buf@.len() && error.max == 4294967295,
{
    if let Ok(bytes) = framed {
        lemma_frame_is(buf@);
    }
}

/// A frame, byte by byte.
pub proof fn lemma_frame_is(payload: Seq<u8>)
    requires
        payload.len() <= 4294967295,
    ensures
        frame(payload).len() == 4 + payload.len(),
        frame(payload)[0] + 256 * frame(payload)[1] + 65536 * frame(payload)[2] + 16777216 * frame(
            payload,
        )[3] == payload.len(),
        forall|i: int| 0 <= i < payload.len() ==> frame(payload)[4 + i] == #[trigger] payload[i],
{
    let len = payload.len() as u32;
    law_prefix_round_trip(len);
    assert(frame(payload)[0] == prefix_bytes(len)[0]);
    assert(frame(payload)[1] == prefix_bytes(len)[1]);
    assert(frame(payload)[2] == prefix_bytes(len)[2]);
    assert(frame(payload)[3] == prefix_bytes(len)[3]);
}

/// The words for a message that is too large hold its length and the longest length, in this
/// order, both in decimal notation.
pub proof fn law_too_large_message(
    error: &TooLarge,
    text: String,
    len: String,
    max: String,
)
    requires
        call_ensures(TooLarge::message, (error,), text),
        call_ensures(decimal, (error.len as u64,), len),
        call_ensures(decimal, (error.max as u64,), max),
    ensures
        text@ == "Message too large: "@ + len@ + " bytes (max "@ + max@ + ")"@,
{
}

} // verus!
