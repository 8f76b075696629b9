//! TCP on the local host. A message is a frame on the stream, handed over in one piece.

use vstd::prelude::*;

use crate::frame::{
    delivered_len, frame, frame_message, lemma_frame_is, prefix_value, TooLarge,
};
use crate::text::{decimal, decimal_digits, surround};
use crate::transport::channel::{hash_name, name_hash};
use crate::transport::stream::{plan_recv, RecvPlan};

verus! {

/// The port of a channel.
pub open spec fn tcp_port(name: Seq<char>) -> nat {
    10000 + name_hash(name, 31) % 50000
}

/// A channel over TCP.
pub struct TcpSocketTransport;

impl TcpSocketTransport {
    /// The port of the channel called `name`.
    pub fn port(name: &str) -> (port: u16)
        ensures
            port == tcp_port(name@),
    {
        let hash: u32 = hash_name(name, 31);
        10000 + (hash % 50000) as u16
    }

    /// The address of the channel called `name`.
    pub fn address(name: &str) -> (address: String)
        ensures
            address@ == "127.0.0.1:"@ + decimal_digits(tcp_port(name@)),
    {
        let digits: String = decimal(Self::port(name) as u64);
        let address: String = surround("127.0.0.1:", digits.as_str(), "");
        proof {
            reveal_strlit("");
            assert(address@ =~= "127.0.0.1:"@ + digits@);
        }
        address
    }

    /// A message as it goes out on the stream, in one piece. One whose length does not fit the
    /// prefix is refused.
    pub fn send(buf: &[u8]) -> (framed: Result<Vec<u8>, TooLarge>)
        ensures
            framed is Ok <==> buf@.len() <= u32::MAX,
            framed matches Ok(bytes) ==> bytes@ == frame(buf@),
            framed matches Err(error) ==> error == (TooLarge {
                len: buf.len(),
                max: u32::MAX as usize,
            }),
    {
        frame_message(buf)
    }

    /// How to take a message whose prefix has come from the stream, into a buffer of `room` bytes.
    pub fn recv(prefix: &[u8; 4], room: usize) -> (plan: RecvPlan)
        ensures
            plan.read_len == delivered_len(prefix_value(prefix@), room as nat),
            plan.read_len + plan.discard == prefix_value(prefix@),
    {
        plan_recv(prefix, room)
    }

    /// The name to print in reports.
    pub fn transport_name() -> (name: &'static str)
        ensures
            name@ == "TcpSocket"@,
    {
        "TcpSocket"
    }
}

/// Every channel has a port from 10000 up to, but not including, 60000.
pub proof fn law_port_range(name: Seq<char>)
    ensures
        10000 <= tcp_port(name) < 60000,
{
}

/// A channel's port comes from the hash of its name with the factor 31, and its address is that
/// port on the local host.
pub proof fn law_port_of_name(
    name: &str,
    hash: u32,
    port: u16,
    digits: String,
    address: String,
)
    requires
        call_ensures(hash_name, (name, 31), hash),
        call_ensures(TcpSocketTransport::port, (name,), port),
        call_ensures(decimal, (port as u64,), digits),
        call_ensures(TcpSocketTransport::address, (name,), address),
    ensures
        port == 10000 + hash % 50000,
        address@ == "127.0.0.1:"@ + digits@,
{
}

/// A payload of up to 4294967295 bytes goes out as four bytes that spell its length, the lowest
/// first, and then the payload; a longer one is refused. What the first four bytes of a frame
/// announce is taken as a whole: as much of it as there is room for, and the rest thrown away.
pub proof fn law_messages_are_frames(
    buf: &[u8],
    framed: Result<Vec<u8>, TooLarge>,
    prefix: &[u8; 4],
    room: usize,
    plan: RecvPlan,
)
    requires
        call_ensures(TcpSocketTransport::send, (buf,), framed),
        call_ensures(TcpSocketTransport::recv, (prefix, room), plan),
    ensures
        framed is Ok <==> buf@.len() <= 4294967295,
        framed matches Ok(bytes) ==> {
            &&& bytes@.len() == 4 + buf@.len()
            &&& bytes@[0] + 256 * bytes@[1] + 65536 * bytes@[2] + 16777216 * bytes@[3]
                == buf@.len()
            &&& forall|i: int| 0 <= i < buf@.len() ==> bytes@[4 + i] == #[trigger] buf@[i]
        },
        framed matches Err(error) ==> error.len == buf@.len() && error.max == 4294967295,
        plan.read_len + plan.discard == prefix@[0] + 256 * prefix@[1] + 65536 * prefix@[2]
            + 16777216 * prefix@[3],
        plan.read_len <= room,
        plan.discard > 0 ==> plan.read_len == room,
{
    if framed is Ok {
        lemma_frame_is(buf@);
    }
}

/// The name to print in reports.
pub proof fn law_report_name(name: &'static str)
    requires
        call_ensures(TcpSocketTransport::transport_name, (), name),
    ensures
        name@ == "TcpSocket"@,
{
}

} // verus!
