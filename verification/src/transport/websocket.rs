//! WebSocket on the local host. A message is a binary WebSocket message.

use vstd::prelude::*;

use crate::bytes::deliver;
use crate::frame::{delivered_len, filled};
use crate::text::{decimal, decimal_digits, surround};
use crate::transport::channel::{hash_name, name_hash};

verus! {

/// The port of a channel.
pub open spec fn ws_port(name: Seq<char>) -> nat {
    11000 + name_hash(name, 37) % 50000
}

/// A channel over a WebSocket.
pub struct WebSocketTransport;

impl WebSocketTransport {
    /// The port of the channel called `name`.
    pub fn port(name: &str) -> (port: u16)
        ensures
            port == ws_port(name@),
    {
        let hash: u32 = hash_name(name, 37);
        11000 + (hash % 50000) as u16
    }

    /// The address of the channel called `name`.
    pub fn address(name: &str) -> (address: String)
        ensures
            address@ == "127.0.0.1:"@ + decimal_digits(ws_port(name@)),
    {
        let digits: String = decimal(Self::port(name) as u64);
        let address: String = surround("127.0.0.1:", digits.as_str(), "");
        proof {
            reveal_strlit("");
            assert(address@ =~= "127.0.0.1:"@ + digits@);
        }
        address
    }

    /// The URL of the channel called `name`.
    pub fn url(name: &str) -> (url: String)
        ensures
            url@ == "ws://"@ + ("127.0.0.1:"@ + decimal_digits(ws_port(name@))),
    {
        let url: String = surround("ws://", Self::address(name).as_str(), "");
        proof {
            reveal_strlit("");
            assert(url@ =~= "ws://"@ + ("127.0.0.1:"@ + decimal_digits(ws_port(name@))));
        }
        url
    }

    /// Takes the next WebSocket message. As much of a binary one as fits goes to the front of
    /// `buf`, and its length there is returned. Any other is passed over: the transport has to wait
    /// for the next.
    pub fn recv(message: &WsMessage, buf: &mut [u8]) -> (received: Option<usize>)
        ensures
            match *message {
                WsMessage::Binary(data) => {
                    &&& received == Some(delivered_len(data@.len(), old(buf)@.len()) as usize)
                    &&& final(buf)@ == filled(
                        old(buf)@,
                        data@,
                        delivered_len(data@.len(), old(buf)@.len()),
                    )
                },
                WsMessage::Other => received is None && final(buf)@ == old(buf)@,
            },
    {
        match message {
            WsMessage::Binary(data) => Some(deliver(data.as_slice(), buf)),
            WsMessage::Other => None,
        }
    }

    /// The name to print in reports.
    pub fn transport_name() -> (name: &'static str)
        ensures
            name@ == "WebSocket"@,
    {
        "WebSocket"
    }
}

/// A WebSocket message, as far as a transport cares.
pub enum WsMessage {
    /// A binary message: the transport's own.
    Binary(Vec<u8>),
    /// A ping, a pong, a text and the like.
    Other,
}

/// Every channel has a port from 11000 up to, but not including, 61000.
pub proof fn law_port_range(name: Seq<char>)
    ensures
        11000 <= ws_port(name) < 61000,
{
}

/// A channel's port comes from the hash of its name with the factor 37. Its address is that port
/// on the local host, and its URL names the address.
pub proof fn law_port_of_name(
    name: &str,
    hash: u32,
    port: u16,
    digits: String,
    address: String,
    url: String,
)
    requires
        call_ensures(hash_name, (name, 37), hash),
        call_ensures(WebSocketTransport::port, (name,), port),
        call_ensures(decimal, (port as u64,), digits),
        call_ensures(WebSocketTransport::address, (name,), address),
        call_ensures(WebSocketTransport::url, (name,), url),
    ensures
        port == 11000 + hash % 50000,
        address@ == "127.0.0.1:"@ + digits@,
        url@ == "ws://"@ + address@,
{
}

/// A binary message is received: as much of it as there is room for stands at the front of the
/// buffer, and the bytes behind it stay. Any other message changes nothing.
pub proof fn law_recv(message: &WsMessage, buf: &mut [u8], received: Option<usize>)
    requires
        call_ensures(WebSocketTransport::recv, (message, buf), received),
    ensures
        received is Some <==> *message is Binary,
        final(buf)@.len() == old(buf)@.len(),
        *message matches WsMessage::Binary(data) ==> (received matches Some(n) && {
            &&& n <= data@.len()
            &&& n <= old(buf)@.len()
            &&& n == data@.len() || n == old(buf)@.len()
            &&& forall|i: int| 0 <= i < n ==> #[trigger] final(buf)@[i] == data@[i]
            &&& forall|i: int| n <= i < old(buf)@.len() ==> #[trigger] final(buf)@[i]
                == old(buf)@[i]
        }),
        *message is Other ==> final(buf)@ == old(buf)@,
{
    if let WsMessage::Binary(data) = *message {
        assert(data.len() == data@.len());
    }
}

/// The name to print in reports.
pub proof fn law_report_name(name: &'static str)
    requires
        call_ensures(WebSocketTransport::transport_name, (), name),
    ensures
        name@ == "WebSocket"@,
{
}

} // verus!
