//! Message transports between two processes.

use vstd::prelude::*;

pub mod channel;
pub mod kind;
pub mod named_pipe;
pub mod named_pipe_win;
pub mod ring_layout;
pub mod session;
pub mod shared_channel;
pub mod shared_mem;
pub mod shared_mem_laws;
pub mod stream;
pub mod tcp_socket;
pub mod unix_socket;
pub mod websocket;

verus! {

/// Which end of a channel a process holds.
#[derive(Debug, Clone, Copy, PartialEq, Eq, Structural)]
pub enum Role {
    Server,
    Client,
}

/// `std::io::Error`, carried through unread.
#[verifier::external_type_specification]
#[verifier::external_body]
pub struct ExIoError(std::io::Error);

/// The common interface of all transports.
pub trait Transport: Send + Sized {
    /// Opens the channel called `name`. The name goes into socket paths and the like.
    fn open(name: &str, role: Role) -> std::io::Result<Self>;

    /// Sends all the bytes of `buf` as one message.
    fn send(&mut self, buf: &[u8]) -> std::io::Result<()>;

    /// Receives one message into the front of `buf` and returns the number of bytes read. The
    /// bytes behind them stay as they are.
    fn recv(&mut self, buf: &mut [u8]) -> (received: std::io::Result<usize>)
        ensures
            final(buf)@.len() == old(buf)@.len(),
            received matches Ok(n) ==> {
                &&& n <= old(buf)@.len()
                &&& final(buf)@.skip(n as int) == old(buf)@.skip(n as int)
            },
    ;

    /// Releases what the channel called `name` holds in the operating system, such as a socket
    /// file.
    fn cleanup(name: &str) -> std::io::Result<()>;

    /// The name to print in reports.
    fn transport_name() -> &'static str;
}

} // verus!
