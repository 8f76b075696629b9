//! Messages over a stream of bytes: sockets and pipes.

use vstd::prelude::*;

use crate::frame::{
    delivered_len, frame, frame_message, frames, lemma_frame_is, lemma_frame_parts,
    payload_length, prefix_value, TooLarge, MSG_HEADER_SIZE,
};

verus! {

/// How the payload of a message is taken from a stream.
#[derive(Debug, Clone, Copy, PartialEq, Eq, Structural)]
pub struct RecvPlan {
    /// Bytes to read into the front of the caller's buffer.
    pub read_len: usize,
    /// Bytes to read after that and to throw away.
    pub discard: usize,
}

/// What a receiver takes from a stream that starts with a message, if it has room for `room`
/// bytes: the bytes that it hands out, and the stream behind the message. `None` while the
/// stream does not hold the message as a whole.
pub open spec fn stream_recv(stream: Seq<u8>, room: nat) -> Option<(Seq<u8>, Seq<u8>)> {
    let len = prefix_value(stream.take(MSG_HEADER_SIZE as int));
    if stream.len() < MSG_HEADER_SIZE || stream.len() < MSG_HEADER_SIZE + len {
        None
    } else {
        let payload = stream.skip(MSG_HEADER_SIZE as int);
        Some(
            (
                payload.take(delivered_len(len, room) as int),
                stream.skip(MSG_HEADER_SIZE + len as int),
            ),
        )
    }
}

/// The messages that `count` receives in a row take from a stream, and the rest of the stream.
pub open spec fn stream_recv_all(stream: Seq<u8>, room: nat, count: nat) -> Option<
    (Seq<Seq<u8>>, Seq<u8>),
>
    decreases count,
{
    if count == 0 {
        Some((Seq::empty(), stream))
    } else {
        match stream_recv(stream, room) {
            None => None,
            Some((first, rest)) => match stream_recv_all(rest, room, (count - 1) as nat) {
                None => None,
                Some((others, end)) => Some((seq![first] + others, end)),
            },
        }
    }
}

/// What to read after the prefix of a message, with room for `room` bytes.
pub fn plan_recv(prefix: &[u8; 4], room: usize) -> (plan: RecvPlan)
    ensures
        plan.read_len == delivered_len(prefix_value(prefix@), room as nat),
        plan.read_len + plan.discard == prefix_value(prefix@),
{
    let len: usize = payload_length(prefix);
    if len <= room {
        RecvPlan { read_len: len, discard: 0 }
    } else {
        RecvPlan { read_len: room, discard: len - room }
    }
}

/// A plan covers the message: what it reads is what the receiver hands out, and what it reads
/// and throws away together is the payload, so the stream goes on with the next message.
pub proof fn law_plan_takes_one_message(stream: Seq<u8>, room: nat, plan: RecvPlan)
    requires
        stream.len() >= MSG_HEADER_SIZE,
        plan.read_len == delivered_len(
            prefix_value(stream.take(MSG_HEADER_SIZE as int)),
            room,
        ),
        plan.read_len + plan.discard == prefix_value(stream.take(MSG_HEADER_SIZE as int)),
    ensures
        stream_recv(stream, room) is Some <==> stream.len() >= MSG_HEADER_SIZE + plan.read_len
            + plan.discard,
        stream_recv(stream, room) matches Some((data, rest)) ==> {
            &&& data == stream.subrange(
                MSG_HEADER_SIZE as int,
                MSG_HEADER_SIZE + plan.read_len,
            )
            &&& rest == stream.skip(MSG_HEADER_SIZE + plan.read_len + plan.discard)
        },
{
    if stream_recv(stream, room) is Some {
        assert(stream.skip(MSG_HEADER_SIZE as int).take(plan.read_len as int) =~= stream.subrange(
            MSG_HEADER_SIZE as int,
            MSG_HEADER_SIZE + plan.read_len,
        ));
    }
}

/// A receiver takes exactly one message from the stream. It hands out as much of it as it has
/// room for, and the next receive starts with the next message.
pub proof fn law_stream_round_trip(message: Seq<u8>, rest: Seq<u8>, room: nat)
    requires
        message.len() <= u32::MAX,
    ensures
        stream_recv(frame(message) + rest, room) == Some(
            (message.take(delivered_len(message.len(), room) as int), rest),
        ),
{
    let stream = frame(message) + rest;
    lemma_frame_parts(message);
    assert(stream.take(MSG_HEADER_SIZE as int) =~= frame(message).take(MSG_HEADER_SIZE as int));
    let n = delivered_len(message.len(), room) as int;
    assert(stream.skip(MSG_HEADER_SIZE as int).take(n) =~= frame(message).skip(
        MSG_HEADER_SIZE as int,
    ).take(n));
    assert(stream.skip(MSG_HEADER_SIZE + message.len()) =~= rest);
}

/// A receiver with room for every message gets all messages of a stream, in order and whole.
pub proof fn law_stream_keeps_order(messages: Seq<Seq<u8>>, rest: Seq<u8>, room: nat)
    requires
        forall|i: int|
            0 <= i < messages.len() ==> (#[trigger] messages[i]).len() <= u32::MAX
                && messages[i].len() <= room,
    ensures
        stream_recv_all(frames(messages) + rest, room, messages.len()) == Some((messages, rest)),
    decreases messages.len(),
{
    if messages.len() == 0 {
        assert(frames(messages) + rest =~= rest);
        assert(messages =~= Seq::empty());
    } else {
        let first = messages[0];
        let others = messages.drop_first();
        let behind = frames(others) + rest;
        assert(frames(messages) + rest =~= frame(first) + behind);
        law_stream_round_trip(first, behind, room);
        assert(first.take(first.len() as int) =~= first);
        assert forall|i: int| 0 <= i < others.len() implies (#[trigger] others[i]).len()
            <= u32::MAX && others[i].len() <= room by {
            assert(others[i] == messages[i + 1]);
        }
        law_stream_keeps_order(others, rest, room);
        assert(seq![first] + others =~= messages);
    }
}

/// A plan covers the message that a prefix announces, the lowest byte of its length first. It
/// reads all of it, or as much as there is room for, and throws the rest away.
pub proof fn law_plan_covers_the_message(prefix: &[u8; 4], room: usize, plan: RecvPlan)
    requires
        call_ensures(plan_recv, (prefix, room), plan),
    ensures
        plan.read_len + plan.discard == prefix@[0] + 256 * prefix@[1] + 65536 * prefix@[2]
            + 16777216 * prefix@[3],
        plan.read_len <= room,
        plan.discard > 0 ==> plan.read_len == room,
{
}

/// What a receiver gets of a message that another end framed: given the frame's first four
/// bytes, it reads the rest of the frame, of which it keeps the payload's front. With room for
/// all of it, it keeps the payload.
pub proof fn law_frames_are_received(
    buf: &[u8],
    framed: Result<Vec<u8>, TooLarge>,
    prefix: &[u8; 4],
    room: usize,
    plan: RecvPlan,
)
    requires
        call_ensures(frame_message, (buf,), framed),
        framed matches Ok(bytes) && bytes@.take(4) == prefix@,
        call_ensures(plan_recv, (prefix, room), plan),
    ensures
        framed matches Ok(bytes) && {
            &&& 4 + plan.read_len + plan.discard == bytes@.len()
            &&& bytes@.subrange(4, 4 + plan.read_len) == buf@.take(plan.read_len as int)
            &&& buf@.len() <= room ==> plan.read_len == buf@.len()
        },
{
    lemma_frame_is(buf@);
    if let Ok(bytes) = framed {
        assert(prefix@[0] == bytes@.take(4)[0]);
        assert(prefix@[1] == bytes@.take(4)[1]);
        assert(prefix@[2] == bytes@.take(4)[2]);
        assert(prefix@[3] == bytes@.take(4)[3]);
        assert(bytes@.subrange(4, 4 + plan.read_len) =~= buf@.take(plan.read_len as int));
    }
}

} // verus!
