//! Message transports between two processes on one machine, and a benchmark for them.
//!
//! The library holds what can be decided and computed on plain values: framing, rings in shared
//! memory, names of channels, the exchanges of the benchmark and its statistics. Sockets, files,
//! mapped memory and atomic cursors belong to the program around it.

pub mod bytes;
pub mod echo;
pub mod fifo;
pub mod frame;
pub mod ping_pong;
pub mod ping_pong_laws;
pub mod playground;
pub mod retry;
pub mod ring;
pub mod run_laws;
pub mod stats;
pub mod stats_laws;
pub mod text;
pub mod transport;
