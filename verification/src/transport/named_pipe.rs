//! Named pipes (FIFOs). A FIFO goes one way only, so a channel has two. A message is a frame on
//! the stream, handed over in one piece.

use vstd::prelude::*;

use crate::frame::{
    delivered_len, frame, frame_message, lemma_frame_is, prefix_value, TooLarge,
};
use crate::text::surround;
use crate::transport::channel::lemma_surrounded_names_differ;
use crate::transport::stream::{plan_recv, RecvPlan};
use crate::transport::Role;

verus! {

/// The FIFO from server to client.
pub open spec fn s2c_file(name: Seq<char>) -> Seq<char> {
    "/tmp/ipc_bench_"@ + name + "_s2c"@
}

/// The FIFO from client to server.
pub open spec fn c2s_file(name: Seq<char>) -> Seq<char> {
    "/tmp/ipc_bench_"@ + name + "_c2s"@
}

/// A channel over two FIFOs.
pub struct NamedPipeTransport;

impl NamedPipeTransport {
    /// The FIFO from server to client for the channel called `name`.
    pub fn s2c_path(name: &str) -> (path: String)
        ensures
            path@ == s2c_file(name@),
    {
        surround("/tmp/ipc_bench_", name, "_s2c")
    }

    /// The FIFO from client to server for the channel called `name`.
    pub fn c2s_path(name: &str) -> (path: String)
        ensures
            path@ == c2s_file(name@),
    {
        surround("/tmp/ipc_bench_", name, "_c2s")
    }

    /// The FIFOs that `role` opens for the channel called `name`, first and second. The server
    /// opens the end that it writes first, the client the end that it reads first.
    pub fn open(name: &str, role: Role) -> (plan: (FifoOpen, FifoOpen))
        ensures
            seq![(plan.0.path@, plan.0.end), (plan.1.path@, plan.1.end)] == opens(name@, role),
    {
        let (first, second): (FifoEnd, FifoEnd) = match role {
            Role::Server => (FifoEnd::Write, FifoEnd::Read),
            Role::Client => (FifoEnd::Read, FifoEnd::Write),
        };
        (
            FifoOpen { path: Self::s2c_path(name), end: first },
            FifoOpen { path: Self::c2s_path(name), end: second },
        )
    }

    /// A message as it goes out on the stream, in one piece. One whose length does not fit the
    /// prefix is refused.
    pub fn send(buf: &[u8]) -> (framed: Result<Vec<u8>, TooLarge>)
        ensures
            framed is Ok <==> buf@.len() <= u32::MAX,
            framed matches Ok(bytes) ==> bytes@ == frame(buf@),
            framed matches Err(error) ==> error == (TooLarge {
                len: buf.len(),
                max: u32::MAX as usize,
            }),
    {
        frame_message(buf)
    }

    /// How to take a message whose prefix has come from the stream, into a buffer of `room` bytes.
    pub fn recv(prefix: &[u8; 4], room: usize) -> (plan: RecvPlan)
        ensures
            plan.read_len == delivered_len(prefix_value(prefix@), room as nat),
            plan.read_len + plan.discard == prefix_value(prefix@),
    {
        plan_recv(prefix, room)
    }

    /// The name to print in reports.
    pub fn transport_name() -> (name: &'static str)
        ensures
            name@ == "NamedPipe"@,
    {
        "NamedPipe"
    }
}

/// Which end of a FIFO to open.
#[derive(Debug, Clone, Copy, PartialEq, Eq, Structural)]
pub enum FifoEnd {
    Write,
    Read,
}

/// A FIFO to open. That blocks until another process opens the other end.
pub struct FifoOpen {
    pub path: String,
    pub end: FifoEnd,
}

/// The FIFO files that `role` opens, in order, and which end of each.
pub open spec fn opens(name: Seq<char>, role: Role) -> Seq<(Seq<char>, FifoEnd)> {
    match role {
        Role::Server => seq![(s2c_file(name), FifoEnd::Write), (c2s_file(name), FifoEnd::Read)],
        Role::Client => seq![(s2c_file(name), FifoEnd::Read), (c2s_file(name), FifoEnd::Write)],
    }
}

/// Server and client open the same FIFO at every step, one to write and one to read. So neither
/// waits for an open that the other has put off.
pub proof fn law_opening_does_not_deadlock(name: Seq<char>, step: int)
    requires
        0 <= step < opens(name, Role::Server).len(),
    ensures
        opens(name, Role::Client).len() == opens(name, Role::Server).len(),
        opens(name, Role::Client)[step].0 == opens(name, Role::Server)[step].0,
        opens(name, Role::Client)[step].1 != opens(name, Role::Server)[step].1,
{
}

/// Channels with different names have different FIFOs, and no FIFO of one direction is one of
/// the other direction.
pub proof fn law_fifos_differ(left: Seq<char>, right: Seq<char>)
    ensures
        s2c_file(left) == s2c_file(right) <==> left == right,
        c2s_file(left) == c2s_file(right) <==> left == right,
        s2c_file(left) != c2s_file(right),
{
    if s2c_file(left) == s2c_file(right) {
        lemma_surrounded_names_differ("/tmp/ipc_bench_"@, left, right, "_s2c"@);
    }
    if c2s_file(left) == c2s_file(right) {
        lemma_surrounded_names_differ("/tmp/ipc_bench_"@, left, right, "_c2s"@);
    }
    reveal_strlit("_s2c");
    reveal_strlit("_c2s");
    assert(s2c_file(left).last() == 'c');
    assert(c2s_file(right).last() == 's');
}

/// Where the two FIFOs lie.
pub proof fn law_fifo_paths(name: &str, s2c: String, c2s: String)
    requires
        call_ensures(NamedPipeTransport::s2c_path, (name,), s2c),
        call_ensures(NamedPipeTransport::c2s_path, (name,), c2s),
    ensures
        s2c@ == "/tmp/ipc_bench_"@ + name@ + "_s2c"@,
        c2s@ == "/tmp/ipc_bench_"@ + name@ + "_c2s"@,
{
}

/// Server and client open the FIFO from server to client first and the other one second. The
/// server writes the first and reads the second; the client reads the first and writes the
/// second. So at each step one of them opens the writing end and the other the reading end of
/// the same FIFO, and what one writes the other reads.
pub proof fn law_open_order(
    name: &str,
    server: (FifoOpen, FifoOpen),
    client: (FifoOpen, FifoOpen),
)
    requires
        call_ensures(NamedPipeTransport::open, (name, Role::Server), server),
        call_ensures(NamedPipeTransport::open, (name, Role::Client), client),
    ensures
        server.0.path@ == "/tmp/ipc_bench_"@ + name@ + "_s2c"@,
        server.1.path@ == "/tmp/ipc_bench_"@ + name@ + "_c2s"@,
        client.0.path@ == server.0.path@,
        client.1.path@ == server.1.path@,
        server.0.end is Write && server.1.end is Read,
        client.0.end is Read && client.1.end is Write,
{
    let s = seq![(server.0.path@, server.0.end), (server.1.path@, server.1.end)];
    let c = seq![(client.0.path@, client.0.end), (client.1.path@, client.1.end)];
    assert(s[0] == opens(name@, Role::Server)[0] && s[1] == opens(name@, Role::Server)[1]);
    assert(c[0] == opens(name@, Role::Client)[0] && c[1] == opens(name@, Role::Client)[1]);
}

/// A payload of up to 4294967295 bytes goes out as four bytes that spell its length, the lowest
/// first, and then the payload; a longer one is refused. What the first four bytes of a frame
/// announce is taken as a whole: as much of it as there is room for, and the rest thrown away.
pub proof fn law_messages_are_frames(
    buf: &[u8],
    framed: Result<Vec<u8>, TooLarge>,
    prefix: &[u8; 4],
    room: usize,
    plan: RecvPlan,
)
    requires
        call_ensures(NamedPipeTransport::send, (buf,), framed),
        call_ensures(NamedPipeTransport::recv, (prefix, room), plan),
    ensures
        framed is Ok <==> buf@.len() <= 4294967295,
        framed matches Ok(bytes) ==> {
            &&& bytes@.len() == 4 + buf@.len()
            &&& bytes@[0] + 256 * bytes@[1] + 65536 * bytes@[2] + 16777216 * bytes@[3]
                == buf@.len()
            &&& forall|i: int| 0 <= i < buf@.len() ==> bytes@[4 + i] == #[trigger] buf@[i]
        },
        framed matches Err(error) ==> error.len == buf@.len() && error.max == 4294967295,
        plan.read_len + plan.discard == prefix@[0] + 256 * prefix@[1] + 65536 * prefix@[2]
            + 16777216 * prefix@[3],
        plan.read_len <= room,
        plan.discard > 0 ==> plan.read_len == room,
{
    if framed is Ok {
        lemma_frame_is(buf@);
    }
}

/// The name to print in reports.
pub proof fn law_report_name(name: &'static str)
    requires
        call_ensures(NamedPipeTransport::transport_name, (), name),
    ensures
        name@ == "NamedPipe"@,
{
}

} // verus!
