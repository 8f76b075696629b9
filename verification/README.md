# ipc_bench

Message transports between two processes on one machine (TCP, WebSocket, Unix
sockets, named pipes, shared memory), and a ping-pong benchmark for them. The
library under `src/` is written in Verus and verified; the program under `app/`
connects it to the operating system.

## The library

| Module | What it holds |
|---|---|
| `frame` | messages with a four-byte length in front |
| `bytes` | bulk copies |
| `ring` | a ring of bytes inside a larger memory, read and written around its end |
| `fifo` | the ring as a queue: messages come out as they went in |
| `transport` | roles, the `Transport` trait |
| `transport::session` | an open transport and a clock, with a record for proofs: every call, its answer, and what it made of the transport |
| `transport::ring_layout` | where the cursors of a ring lie, and the layouts to choose from |
| `transport::shared_mem` | two rings in one shared memory; sending and receiving step by step |
| `transport::shared_channel` | both ends together: order of delivery, cursors, and how little the layout matters |
| `transport::stream` | taking messages from a stream of bytes |
| `transport::tcp_socket`, `websocket`, `unix_socket`, `named_pipe`, `named_pipe_win` | the other transports: names, ports, frames and decisions |
| `transport::kind` | transports by the names that users give them |
| `transport::channel` | hashes of channel names, removal of files |
| `retry` | how long a client waits for its server |
| `ping_pong` | the client's side of the benchmark |
| `ping_pong_laws` | what a run asks of its transport, and what it measures |
| `echo` | the server's side, up to the cleanup of its channel |
| `stats` | percentiles, the median round, and the report on it |
| `playground` | one small ring, byte by byte, and messages that go around its end |
| `text` | strings from pieces |

A process that sends or receives through shared memory looks at the two cursors
of a ring, takes a step on the memory, and then moves its own cursor to where the
step says. The library decides and copies; the program loads and stores the
cursors, spins while it has to wait, and maps the memory.

Public proof functions whose names start with `law_` state what holds of several
functions together.

## What is trusted

- `copy_from_slice` and `sort` of the standard library do what they document.
- `Instant::now` and `Instant::elapsed` return some time. What they return is recorded
  where it is asked for, and every reported time is such a reading.
- A `Transport` never claims to have received more bytes than its buffer holds, and
  leaves the bytes behind a message as they are.
