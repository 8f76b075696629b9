//! Unix domain sockets. A message is a frame on the stream, handed over in one piece.

use vstd::prelude::*;

use crate::frame::{
    delivered_len, frame, frame_message, lemma_frame_is, prefix_value, TooLarge,
};
use crate::text::surround;
use crate::transport::channel::lemma_surrounded_names_differ;
use crate::transport::stream::{plan_recv, RecvPlan};

verus! {

/// The socket's file.
pub open spec fn socket_file(name: Seq<char>) -> Seq<char> {
    "/tmp/ipc_bench_"@ + name + ".sock"@
}

/// A channel over a Unix domain socket.
pub struct UnixSocketTransport;

impl UnixSocketTransport {
    /// The socket's file for the channel called `name`.
    pub fn socket_path(name: &str) -> (path: String)
        ensures
            path@ == socket_file(name@),
    {
        surround("/tmp/ipc_bench_", name, ".sock")
    }

    /// A message as it goes out on the stream, in one piece. One whose length does not fit the
    /// prefix is refused.
    pub fn send(buf: &[u8]) -> (framed: Result<Vec<u8>, TooLarge>)
        ensures
            framed is Ok <==> buf@.len() <= u32::MAX,
            framed matches Ok(bytes) ==> bytes@ == frame(buf@),
            framed matches Err(error) ==> error == (TooLarge {
                len: buf.len(),
                max: u32::MAX as usize,
            }),
    {
        frame_message(buf)
    }

    /// How to take a message whose prefix has come from the stream, into a buffer of `room` bytes.
    pub fn recv(prefix: &[u8; 4], room: usize) -> (plan: RecvPlan)
        ensures
            plan.read_len == delivered_len(prefix_value(prefix@), room as nat),
            plan.read_len + plan.discard == prefix_value(prefix@),
    {
        plan_recv(prefix, room)
    }

    /// The name to print in reports.
    pub fn transport_name() -> (name: &'static str)
        ensures
            name@ == "UnixSocket"@,
    {
        "UnixSocket"
    }
}

/// Channels with different names have different files.
pub proof fn law_socket_files_differ(left: Seq<char>, right: Seq<char>)
    ensures
        socket_file(left) == socket_file(right) <==> left == right,
{
    if socket_file(left) == socket_file(right) {
        lemma_surrounded_names_differ("/tmp/ipc_bench_"@, left, right, ".sock"@);
    }
}

/// Where the socket's file lies.
pub proof fn law_socket_path(name: &str, path: String)
    requires
        call_ensures(UnixSocketTransport::socket_path, (name,), path),
    ensures
        path@ == "/tmp/ipc_bench_"@ + name@ + ".sock"@,
{
}

/// A payload of up to 4294967295 bytes goes out as four bytes that spell its length, the lowest
/// first, and then the payload; a longer one is refused. What the first four bytes of a frame
/// announce is taken as a whole: as much of it as there is room for, and the rest thrown away.
pub proof fn law_messages_are_frames(
    buf: &[u8],
    framed: Result<Vec<u8>, TooLarge>,
    prefix: &[u8; 4],
    room: usize,
    plan: RecvPlan,
)
    requires
        call_ensures(UnixSocketTransport::send, (buf,), framed),
        call_ensures(UnixSocketTransport::recv, (prefix, room), plan),
    ensures
        framed is Ok <==> buf@.len() <= 4294967295,
        framed matches Ok(bytes) ==> {
            &&& bytes@.len() == 4 + buf@.len()
            &&& bytes@[0] + 256 * bytes@[1] + 65536 * bytes@[2] + 16777216 * bytes@[3]
                == buf@.len()
            &&& forall|i: int| 0 <= i < buf@.len() ==> bytes@[4 + i] == #[trigger] buf@[i]
        },
        framed matches Err(error) ==> error.len == buf@.len() && error.max == 4294967295,
        plan.read_len + plan.discard == prefix@[0] + 256 * prefix@[1] + 65536 * prefix@[2]
            + 16777216 * prefix@[3],
        plan.read_len <= room,
        plan.discard > 0 ==> plan.read_len == room,
{
    if framed is Ok {
        lemma_frame_is(buf@);
    }
}

/// The name to print in reports.
pub proof fn law_report_name(name: &'static str)
    requires
        call_ensures(UnixSocketTransport::transport_name, (), name),
    ensures
        name@ == "UnixSocket"@,
{
}

} // verus!
