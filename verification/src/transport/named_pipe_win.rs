//! Named pipes of Windows, which go both ways. A message is a frame on the stream, handed over
//! in one piece.

use vstd::prelude::*;

use crate::frame::{
    delivered_len, frame, frame_message, lemma_frame_is, prefix_value, TooLarge,
};
use crate::text::surround;
use crate::transport::stream::{plan_recv, RecvPlan};

verus! {

/// What Windows reports when the client was there before the server waited for it.
pub const ERROR_PIPE_CONNECTED: i32 = 535;

/// A channel over a named pipe of Windows.
pub struct WinNamedPipeTransport;

impl WinNamedPipeTransport {
    /// The name of the pipe for the channel called `name`.
    pub fn pipe_name(name: &str) -> (pipe: String)
        ensures
            pipe@ == "\\\\.\\pipe\\ipc_bench_"@ + name@,
    {
        let pipe: String = surround("\\\\.\\pipe\\ipc_bench_", name, "");
        proof {
            reveal_strlit("");
            assert(pipe@ =~= "\\\\.\\pipe\\ipc_bench_"@ + name@);
        }
        pipe
    }

    /// Whether a client is connected once the server has waited for one. `waited` is what
    /// `ConnectNamedPipe` returned and `os_error` the error that it left.
    pub fn is_connected(waited: i32, os_error: Option<i32>) -> (connected: bool)
        ensures
            connected == (waited != 0 || os_error == Some(ERROR_PIPE_CONNECTED)),
    {
        if waited != 0 {
            true
        } else {
            match os_error {
                Some(code) => code == ERROR_PIPE_CONNECTED,
                None => false,
            }
        }
    }

    /// A message as it goes out on the stream, in one piece. One whose length does not fit the
    /// prefix is refused.
    pub fn send(buf: &[u8]) -> (framed: Result<Vec<u8>, TooLarge>)
        ensures
            framed is Ok <==> buf@.len() <= u32::MAX,
            framed matches Ok(bytes) ==> bytes@ == frame(buf@),
            framed matches Err(error) ==> error == (TooLarge {
                len: buf.len(),
                max: u32::MAX as usize,
            }),
    {
        frame_message(buf)
    }

    /// How to take a message whose prefix has come from the stream, into a buffer of `room` bytes.
    pub fn recv(prefix: &[u8; 4], room: usize) -> (plan: RecvPlan)
        ensures
            plan.read_len == delivered_len(prefix_value(prefix@), room as nat),
            plan.read_len + plan.discard == prefix_value(prefix@),
    {
        plan_recv(prefix, room)
    }

    /// The name to print in reports.
    pub fn transport_name() -> (name: &'static str)
        ensures
            name@ == "NamedPipe(Win)"@,
    {
        "NamedPipe(Win)"
    }
}

/// What the pipe is called.
pub proof fn law_pipe_name(name: &str, pipe: String)
    requires
        call_ensures(WinNamedPipeTransport::pipe_name, (name,), pipe),
    ensures
        pipe@ == "\\\\.\\pipe\\ipc_bench_"@ + name@,
{
}

/// A server has its client when waiting for it succeeds, or fails because the client was there
/// before, which Windows reports as the error 535. Any other failure is one.
pub proof fn law_is_connected(waited: i32, os_error: Option<i32>, connected: bool)
    requires
        call_ensures(WinNamedPipeTransport::is_connected, (waited, os_error), connected),
    ensures
        waited != 0 ==> connected,
        waited == 0 ==> (connected <==> os_error == Some(535i32)),
{
}

/// A payload of up to 4294967295 bytes goes out as four bytes that spell its length, the lowest
/// first, and then the payload; a longer one is refused. What the first four bytes of a frame
/// announce is taken as a whole: as much of it as there is room for, and the rest thrown away.
pub proof fn law_messages_are_frames(
    buf: &[u8],
    framed: Result<Vec<u8>, TooLarge>,
    prefix: &[u8; 4],
    room: usize,
    plan: RecvPlan,
)
    requires
        call_ensures(WinNamedPipeTransport::send, (buf,), framed),
        call_ensures(WinNamedPipeTransport::recv, (prefix, room), plan),
    ensures
        framed is Ok <==> buf@.len() <= 4294967295,
        framed matches Ok(bytes) ==> {
            &&& bytes@.len() == 4 + buf@.len()
            &&& bytes@[0] + 256 * bytes@[1] + 65536 * bytes@[2] + 16777216 * bytes@[3]
                == buf@.len()
            &&& forall|i: int| 0 <= i < buf@.len() ==> bytes@[4 + i] == #[trigger] buf@[i]
        },
        framed matches Err(error) ==> error.len == buf@.len() && error.max == 4294967295,
        plan.read_len + plan.discard == prefix@[0] + 256 * prefix@[1] + 65536 * prefix@[2]
            + 16777216 * prefix@[3],
        plan.read_len <= room,
        plan.discard > 0 ==> plan.read_len == room,
{
    if framed is Ok {
        lemma_frame_is(buf@);
    }
}

/// The name to print in reports.
pub proof fn law_report_name(name: &'static str)
    requires
        call_ensures(WinNamedPipeTransport::transport_name, (), name),
    ensures
        name@ == "NamedPipe(Win)"@,
{
}

} // verus!
