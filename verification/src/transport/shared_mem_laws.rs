//! What the two ends of a channel through shared memory do, in terms of the bytes of the memory.
//!
//! The server writes the ring at the beginning of the memory and reads the one behind it; the
//! client does the reverse. Each ring is a header and then 16777216 bytes of data.

use vstd::prelude::*;

use crate::fifo::RingOp;
use crate::ring::{
    lemma_announced_is, lemma_receives_is, lemma_sends_is, lemma_written_is, Received,
};
use crate::transport::ring_layout::{
    law_layout_labels, CompactLayout, PaddedLayout, RingHeader, RingLayout,
};
use crate::transport::shared_channel::{
    law_channel_delivers_in_order, ChannelOp, SharedState,
};
use crate::transport::shared_mem::{SharedMemTransport, TooLarge};
use crate::transport::Role;

verus! {

/// An end keeps the role that it was opened with.
pub proof fn law_open<L: RingLayout>(role: Role, end: SharedMemTransport<L>)
    requires
        call_ensures(SharedMemTransport::<L>::open, (role,), end),
    ensures
        end.role() == role,
{
}

/// Where the file behind the shared memory lies.
pub proof fn law_paths<L: RingLayout>(name: &str, dir: &str, path: String, path_in: String)
    requires
        call_ensures(SharedMemTransport::<L>::shm_path, (name,), path),
        call_ensures(SharedMemTransport::<L>::shm_path_in, (dir, name), path_in),
    ensures
        path@ == "/dev/shm/ipc_bench_"@ + name@,
        path_in@ == dir@ + "ipc_bench_"@ + name@,
{
}

/// A ring takes up its header and 16777216 bytes, and the shared memory two rings. It is made
/// once its file is as long as that.
pub proof fn law_sizes<L: RingLayout>(
    ring: usize,
    memory: usize,
    file_len: Option<u64>,
    created: bool,
)
    requires
        call_ensures(SharedMemTransport::<L>::ring_total_size, (), ring),
        call_ensures(SharedMemTransport::<L>::shm_size, (), memory),
        call_ensures(SharedMemTransport::<L>::is_created, (file_len,), created),
    ensures
        ring == L::HEADER_SIZE + 16777216,
        memory == ring + ring,
        created <==> (file_len matches Some(len) && len >= memory),
{
}

/// Which cursors an end uses: it moves the write cursor of the ring that it writes and the read
/// cursor of the ring that it reads, and looks at the other two. What one end writes the other
/// reads.
pub proof fn law_cursor_places<L: RingLayout>(
    end: &SharedMemTransport<L>,
    write: usize,
    write_read: usize,
    read_write: usize,
    read: usize,
)
    requires
        call_ensures(SharedMemTransport::<L>::write_cursor, (end,), write),
        call_ensures(SharedMemTransport::<L>::write_read_cursor, (end,), write_read),
        call_ensures(SharedMemTransport::<L>::read_write_cursor, (end,), read_write),
        call_ensures(SharedMemTransport::<L>::read_cursor, (end,), read),
    ensures
        end.role() is Server ==> {
            &&& write == L::WRITE_CURSOR_OFFSET
            &&& write_read == L::READ_CURSOR_OFFSET
            &&& read_write == L::HEADER_SIZE + 16777216 + L::WRITE_CURSOR_OFFSET
            &&& read == L::HEADER_SIZE + 16777216 + L::READ_CURSOR_OFFSET
        },
        end.role() is Client ==> {
            &&& read_write == L::WRITE_CURSOR_OFFSET
            &&& read == L::READ_CURSOR_OFFSET
            &&& write == L::HEADER_SIZE + 16777216 + L::WRITE_CURSOR_OFFSET
            &&& write_read == L::HEADER_SIZE + 16777216 + L::READ_CURSOR_OFFSET
        },
{
}

/// Writing into the ring at an offset puts each byte behind its header, from the cursor on and
/// around the ring's end, and leaves every other byte alone.
pub proof fn law_ring_write_bytes<L: RingLayout>(
    mem: &mut [u8],
    ring_offset: usize,
    cursor: u64,
    data: &[u8],
)
    requires
        ring_offset + L::HEADER_SIZE + 16777216 <= mem@.len(),
        data@.len() <= 16777216,
        call_ensures(
            SharedMemTransport::<L>::ring_write_bytes,
            (mem, ring_offset, cursor, data),
            (),
        ),
    ensures
        ({
            let start = ring_offset + L::HEADER_SIZE;
            &&& final(mem)@.len() == old(mem)@.len()
            &&& forall|i: int|
                0 <= i < data@.len() ==> final(mem)@[start + (cursor + i) % 16777216]
                    == #[trigger] data@[i]
            &&& forall|p: int|
                0 <= p < old(mem)@.len() && !(start <= p < start + 16777216 && (p - start - cursor)
                    % 16777216 < data@.len()) ==> #[trigger] final(mem)@[p] == old(mem)@[p]
        }),
{
    lemma_written_is(
        old(mem)@,
        ring_offset + L::HEADER_SIZE,
        16777216,
        cursor as int,
        data@,
    );
}

/// Reading from the ring at an offset fills a buffer with the bytes behind its header, from the
/// cursor on and around the ring's end.
pub proof fn law_ring_read_bytes<L: RingLayout>(
    mem: &[u8],
    ring_offset: usize,
    cursor: u64,
    buf: &mut [u8],
)
    requires
        call_ensures(
            SharedMemTransport::<L>::ring_read_bytes,
            (mem, ring_offset, cursor, buf),
            (),
        ),
    ensures
        final(buf)@.len() == old(buf)@.len(),
        forall|i: int|
            0 <= i < old(buf)@.len() ==> #[trigger] final(buf)@[i] == mem@[ring_offset
                + L::HEADER_SIZE + (cursor + i) % 16777216],
{
}

/// A message may be as long as the ring less its four length bytes.
pub proof fn law_check_size<L: RingLayout>(len: usize, checked: Result<(), TooLarge>)
    requires
        call_ensures(SharedMemTransport::<L>::check_size, (len,), checked),
    ensures
        checked is Ok <==> len <= 16777212,
        checked matches Err(error) ==> error.len == len && error.max == 16777212,
{
}

/// A message is sent just when its four length bytes and its payload fit into the ring's
/// 16777216 bytes less the unread ones, however many these are. Then they stand in the ring that
/// the end writes, from the write cursor on, and every other byte of the memory stays.
pub proof fn law_send_step<L: RingLayout>(
    end: &SharedMemTransport<L>,
    mem: &mut [u8],
    header: &L::Header,
    buf: &[u8],
    sent: Option<u64>,
)
    requires
        mem@.len() >= 2 * (L::HEADER_SIZE + 16777216),
        header.consumed() <= header.written(),
        call_ensures(SharedMemTransport::<L>::send_step, (end, mem, header, buf), sent),
    ensures
        ({
            let start = L::HEADER_SIZE + if end.role() is Server {
                0int
            } else {
                L::HEADER_SIZE + 16777216
            };
            let (w, c) = (header.written() as int, header.consumed() as int);
            &&& sent is Some <==> 4 + buf@.len() <= 16777216 - (w - c)
            &&& sent matches Some(cursor) ==> {
                &&& cursor == w + 4 + buf@.len()
                &&& final(mem)@[start + w % 16777216] + 256 * final(mem)@[start + (w + 1)
                    % 16777216] + 65536 * final(mem)@[start + (w + 2) % 16777216] + 16777216
                    * final(mem)@[start + (w + 3) % 16777216] == buf@.len()
                &&& forall|i: int|
                    0 <= i < buf@.len() ==> final(mem)@[start + (w + 4 + i) % 16777216]
                        == #[trigger] buf@[i]
            }
            &&& final(mem)@.len() == old(mem)@.len()
            &&& forall|p: int|
                0 <= p < old(mem)@.len() && !(sent is Some && start <= p < start + 16777216 && (p
                    - start - w) % 16777216 < 4 + buf@.len()) ==> #[trigger] final(mem)@[p]
                    == old(mem)@[p]
        }),
{
    let start = L::HEADER_SIZE + if end.role() is Server {
        0int
    } else {
        L::HEADER_SIZE + 16777216
    };
    lemma_sends_is(
        old(mem)@,
        start,
        16777216,
        header.written() as int,
        header.consumed() as int,
        buf@,
        sent,
        final(mem)@,
    );
}

/// `send` refuses a message of more than 16777212 bytes and changes nothing then. Any other is
/// sent just when its four length bytes and its payload fit into the ring's 16777216 bytes less
/// the unread ones, however many these are.
pub proof fn law_send<L: RingLayout>(
    end: &SharedMemTransport<L>,
    mem: &mut [u8],
    header: &L::Header,
    buf: &[u8],
    result: Result<Option<u64>, TooLarge>,
)
    requires
        mem@.len() >= 2 * (L::HEADER_SIZE + 16777216),
        header.consumed() <= header.written(),
        call_ensures(SharedMemTransport::<L>::send, (end, mem, header, buf), result),
    ensures
        result is Err <==> buf@.len() > 16777212,
        result matches Err(error) ==> {
            &&& error.len == buf@.len()
            &&& error.max == 16777212
            &&& final(mem)@ == old(mem)@
        },
        result matches Ok(sent) ==> {
            let start = L::HEADER_SIZE + if end.role() is Server {
                0int
            } else {
                L::HEADER_SIZE + 16777216
            };
            let (w, c) = (header.written() as int, header.consumed() as int);
            &&& sent is Some <==> 4 + buf@.len() <= 16777216 - (w - c)
            &&& sent matches Some(cursor) ==> {
                &&& cursor == w + 4 + buf@.len()
                &&& final(mem)@[start + w % 16777216] + 256 * final(mem)@[start + (w + 1)
                    % 16777216] + 65536 * final(mem)@[start + (w + 2) % 16777216] + 16777216
                    * final(mem)@[start + (w + 3) % 16777216] == buf@.len()
                &&& forall|i: int|
                    0 <= i < buf@.len() ==> final(mem)@[start + (w + 4 + i) % 16777216]
                        == #[trigger] buf@[i]
            }
            &&& final(mem)@.len() == old(mem)@.len()
            &&& forall|p: int|
                0 <= p < old(mem)@.len() && !(sent is Some && start <= p < start + 16777216 && (p
                    - start - w) % 16777216 < 4 + buf@.len()) ==> #[trigger] final(mem)@[p]
                    == old(mem)@[p]
        },
{
    if let Ok(sent) = result {
        let start = L::HEADER_SIZE + if end.role() is Server {
            0int
        } else {
            L::HEADER_SIZE + 16777216
        };
        lemma_sends_is(
            old(mem)@,
            start,
            16777216,
            header.written() as int,
            header.consumed() as int,
            buf@,
            sent,
            final(mem)@,
        );
    }
}

/// A length is found just when its four bytes are there, in the ring that the end reads, and is
/// what they spell, the lowest first.
pub proof fn law_recv_length<L: RingLayout>(
    end: &SharedMemTransport<L>,
    mem: &[u8],
    header: &L::Header,
    len: Option<usize>,
)
    requires
        call_ensures(SharedMemTransport::<L>::recv_length, (end, mem, header), len),
    ensures
        ({
            let start = L::HEADER_SIZE + if end.role() is Server {
                L::HEADER_SIZE + 16777216
            } else {
                0int
            };
            let (w, c) = (header.written() as int, header.consumed() as int);
            &&& len is Some <==> w - c >= 4
            &&& len matches Some(n) ==> n == mem@[start + c % 16777216] + 256 * mem@[start + (c + 1)
                % 16777216] + 65536 * mem@[start + (c + 2) % 16777216] + 16777216 * mem@[start + (c
                + 3) % 16777216]
        }),
{
    let start = L::HEADER_SIZE + if end.role() is Server {
        L::HEADER_SIZE + 16777216
    } else {
        0int
    };
    lemma_announced_is(mem@, start, 16777216, header.consumed() as int);
}

/// A message of a known length is received just when it is there as a whole, in the ring that
/// the end reads. As much of it as there is room for goes to the front of the buffer, and the
/// read cursor has to go behind all of it.
pub proof fn law_recv_step<L: RingLayout>(
    end: &SharedMemTransport<L>,
    mem: &[u8],
    header: &L::Header,
    data_len: usize,
    buf: &mut [u8],
    received: Option<Received>,
)
    requires
        call_ensures(
            SharedMemTransport::<L>::recv_step,
            (end, mem, header, data_len, buf),
            received,
        ),
    ensures
        ({
            let start = L::HEADER_SIZE + if end.role() is Server {
                L::HEADER_SIZE + 16777216
            } else {
                0int
            };
            let (w, c) = (header.written() as int, header.consumed() as int);
            &&& received is Some <==> w - c >= 4 + data_len
            &&& received matches Some(message) ==> {
                &&& message.cursor == c + 4 + data_len
                &&& message.len <= data_len && message.len <= old(buf)@.len()
                &&& message.len == data_len || message.len == old(buf)@.len()
                &&& forall|i: int|
                    0 <= i < message.len ==> #[trigger] final(buf)@[i] == mem@[start + (c + 4
                            + i) % 16777216]
                &&& forall|i: int|
                    message.len <= i < old(buf)@.len() ==> #[trigger] final(buf)@[i]
                        == old(buf)@[i]
            }
            &&& final(buf)@.len() == old(buf)@.len()
            &&& received is None ==> final(buf)@ == old(buf)@
        }),
{
    let start = L::HEADER_SIZE + if end.role() is Server {
        L::HEADER_SIZE + 16777216
    } else {
        0int
    };
    lemma_receives_is(
        mem@,
        start,
        16777216,
        header.written() as int,
        header.consumed() as int,
        data_len as nat,
        old(buf)@,
        received,
        final(buf)@,
    );
}

/// `recv` receives the next message just when it is there as a whole, in the ring that the end
/// reads, with the length that its first four bytes spell. As much of it as there is room for
/// goes to the front of the buffer, and the read cursor has to go behind all of it. With no
/// whole message there it changes nothing. It refuses only what would take more than a ring.
pub proof fn law_recv<L: RingLayout>(
    end: &SharedMemTransport<L>,
    mem: &[u8],
    header: &L::Header,
    buf: &mut [u8],
    result: Result<Option<Received>, TooLarge>,
)
    requires
        header.consumed() <= header.written(),
        call_ensures(SharedMemTransport::<L>::recv, (end, mem, header, buf), result),
    ensures
        ({
            let start = L::HEADER_SIZE + if end.role() is Server {
                L::HEADER_SIZE + 16777216
            } else {
                0int
            };
            let (w, c) = (header.written() as int, header.consumed() as int);
            let n = mem@[start + c % 16777216] + 256 * mem@[start + (c + 1) % 16777216]
                + 65536 * mem@[start + (c + 2) % 16777216] + 16777216 * mem@[start + (c + 3)
                % 16777216];
            &&& result is Err <==> w - c >= 4 + n && n > 16777216 && old(buf)@.len() > 16777216
            &&& result is Err ==> final(buf)@ == old(buf)@
            &&& w - c < 4 ==> result == Ok::<Option<Received>, TooLarge>(None)
            &&& result matches Ok(received) ==> {
                &&& received is Some <==> w - c >= 4 + n
                &&& received matches Some(message) ==> {
                    &&& message.cursor == c + 4 + n
                    &&& message.len <= n && message.len <= old(buf)@.len()
                    &&& message.len == n || message.len == old(buf)@.len()
                    &&& forall|i: int|
                        0 <= i < message.len ==> #[trigger] final(buf)@[i] == mem@[start + (c + 4
                            + i) % 16777216]
                    &&& forall|i: int|
                    message.len <= i < old(buf)@.len() ==> #[trigger] final(buf)@[i]
                        == old(buf)@[i]
                }
                &&& final(buf)@.len() == old(buf)@.len()
                &&& received is None ==> final(buf)@ == old(buf)@
            }
        }),
{
    let start = L::HEADER_SIZE + if end.role() is Server {
        L::HEADER_SIZE + 16777216
    } else {
        0int
    };
    let (w, c) = (header.written() as int, header.consumed() as int);
    lemma_announced_is(mem@, start, 16777216, c);
    if let Ok(received) = result {
        if w - c >= 4 {
            lemma_receives_is(
                mem@,
                start,
                16777216,
                w,
                c,
                crate::ring::announced(mem@, start, 16777216, c),
                old(buf)@,
                received,
                final(buf)@,
            );
        }
    }
}

/// What one end sends into an empty ring the other end receives: all of it if there is room,
/// and otherwise its front. The read cursor then meets the write cursor.
pub proof fn law_send_then_recv<L: RingLayout>(
    from: &SharedMemTransport<L>,
    to: &SharedMemTransport<L>,
    mem: &mut [u8],
    before: &L::Header,
    message: &[u8],
    cursor: u64,
    seen: &[u8],
    after: &L::Header,
    buf: &mut [u8],
    result: Result<Option<Received>, TooLarge>,
)
    requires
        from.role() != to.role(),
        mem@.len() >= 2 * (L::HEADER_SIZE + 16777216),
        before.written() == before.consumed(),
        call_ensures(
            SharedMemTransport::<L>::send,
            (from, mem, before, message),
            Ok::<Option<u64>, TooLarge>(Some(cursor)),
        ),
        seen@ == final(mem)@,
        after.written() == cursor,
        after.consumed() == before.consumed(),
        call_ensures(SharedMemTransport::<L>::recv, (to, seen, after, buf), result),
    ensures
        result matches Ok(Some(received)) && {
            &&& received.cursor == cursor
            &&& message@.len() <= old(buf)@.len() ==> received.len == message@.len()
            &&& message@.len() > old(buf)@.len() ==> received.len == old(buf)@.len()
            &&& final(buf)@.take(received.len as int) == message@.take(received.len as int)
        },
{
    law_send(from, mem, before, message, Ok(Some(cursor)));
    law_recv(to, seen, after, buf, result);
    let start = L::HEADER_SIZE + if from.role() is Server {
        0int
    } else {
        L::HEADER_SIZE + 16777216
    };
    let c = before.consumed() as int;
    if let Ok(Some(received)) = result {
        assert forall|i: int| 0 <= i < received.len implies #[trigger] final(buf)@[i]
            == message@[i] by {
            assert(final(mem)@[start + (c + 4 + i) % 16777216] == message@[i]);
        }
        assert(final(buf)@.take(received.len as int) =~= message@.take(received.len as int));
    }
}

/// An end is called in reports what its layout is called.
pub proof fn law_report_names(padded: &'static str, compact: &'static str)
    requires
        call_ensures(SharedMemTransport::<PaddedLayout>::transport_name, (), padded),
        call_ensures(SharedMemTransport::<CompactLayout>::transport_name, (), compact),
    ensures
        padded@ == "SharedMem"@,
        compact@ == "SharedMem(compact)"@,
{
    law_layout_labels();
}

/// The bytes of the frames of some messages: four for each length, and the payloads.
pub open spec fn frame_bytes(messages: Seq<Seq<u8>>) -> int
    decreases messages.len(),
{
    if messages.len() == 0 {
        0
    } else {
        frame_bytes(messages.drop_last()) + 4 + messages.last().len()
    }
}

/// In any run on a fresh channel, an end that sees its peer's cursor as it is has to wait with a
/// message only when the frames of the messages that still wait, together with the new one, take
/// up more than the 16777216 bytes of the ring.
pub proof fn law_send_waits_only_for_room<L: RingLayout>(
    fresh: SharedState,
    role: Role,
    steps: Seq<ChannelOp>,
    message: Seq<u8>,
) -> (waiting: Seq<Seq<u8>>)
    requires
        fresh.mem.len() >= 2 * (L::HEADER_SIZE + 16777216),
        fresh.is_fresh(),
        fresh.is_run::<L>(steps),
    ensures
        fresh.sent::<L>(role, steps) == fresh.delivered::<L>(role, steps) + waiting,
        ({
            let now = fresh.after::<L>(steps);
            let seen_consumed = now.ring(role).consumed;
            let op = ChannelOp { role, op: RingOp::Send { message, seen_consumed } };
            &&& now.puts::<L>(role, op) == if frame_bytes(waiting) + 4 + message.len() <= 16777216 {
                seq![message]
            } else {
                Seq::empty()
            }
            &&& now.step::<L>(op).ring(role).written == now.ring(role).written + frame_bytes(
                now.puts::<L>(role, op),
            )
        }),
{
    let waiting = law_channel_delivers_in_order::<L>(fresh, role, steps);
    let sent = fresh.sent::<L>(role, steps);
    let delivered = fresh.delivered::<L>(role, steps);
    lemma_frame_bytes(sent);
    lemma_frame_bytes(delivered);
    lemma_frame_bytes(waiting);
    crate::fifo::lemma_bytes_join(delivered, waiting);
    reveal_with_fuel(frame_bytes, 2);
    assert(seq![message].drop_last() =~= Seq::empty());
    waiting
}

/// The two ways to count the bytes of frames agree.
proof fn lemma_frame_bytes(messages: Seq<Seq<u8>>)
    ensures
        frame_bytes(messages) == crate::fifo::bytes_of(messages),
    decreases messages.len(),
{
    if messages.len() > 0 {
        lemma_frame_bytes(messages.drop_last());
    }
}

} // verus!
