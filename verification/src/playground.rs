//! A single small ring, written and read byte by byte.
//!
//! ```text
//! offset 0:  write cursor
//! offset 8:  read cursor
//! offset 16: data
//! ```

use vstd::arithmetic::div_mod::{
    lemma_add_mod_noop, lemma_add_mod_noop_right, lemma_mod_bound, lemma_small_mod,
};
use vstd::prelude::*;
use vstd::string::*;

use crate::fifo::bytes_of;
use crate::frame::{
    filled, frame, lemma_frame_parts, length_prefix, payload_length, MSG_HEADER_SIZE,
};
use crate::ring::{
    law_writes_join, lemma_announced_is, lemma_distance, lemma_receives_is, lemma_sends_is,
    ring_announces, ring_distance, ring_receives, ring_sends,
    ring_slice, ring_written, Received,
};
use crate::transport::ring_layout::{ordered, used, CompactHeader, RingHeader};

verus! {

/// Bytes of the two cursors.
pub const HEADER_SIZE: usize = 16;

/// Where the write cursor lies.
pub const WRITE_CURSOR_OFFSET: usize = 0;

/// Where the read cursor lies.
pub const READ_CURSOR_OFFSET: usize = 8;

/// Bytes of data. Small, so that messages soon wrap around.
pub const RING_SIZE: usize = 1024;

/// Bytes of the shared memory.
pub const SHM_SIZE: usize = 1040;

/// Bytes of the longest message that the writer sends.
pub const LONG_MESSAGE_SIZE: usize = 960;

/// The byte that it is made of, an `x`.
pub const LONG_MESSAGE_BYTE: u8 = 120;

/// Characters of a message that are printed.
pub const PREVIEW_SIZE: usize = 30;

/// Writing one more byte behind what was written extends it.
proof fn lemma_one_more_byte(
    mem: Seq<u8>,
    start: int,
    capacity: int,
    cursor: int,
    data: Seq<u8>,
    i: int,
)
    requires
        0 <= start,
        start + capacity <= mem.len(),
        0 <= i < data.len() <= capacity,
    ensures
        ring_written(mem, start, capacity, cursor, data.take(i)).update(
            start + (cursor + i) % capacity,
            data[i],
        ) == ring_written(mem, start, capacity, cursor, data.take(i + 1)),
{
    let place = start + (cursor + i) % capacity;
    let so_far = ring_written(mem, start, capacity, cursor, data.take(i)).update(place, data[i]);
    let next = ring_written(mem, start, capacity, cursor, data.take(i + 1));
    lemma_distance(start, capacity, cursor, cursor, i);
    lemma_small_mod(i as nat, capacity as nat);
    assert forall|p: int| 0 <= p < mem.len() implies so_far[p] == next[p] by {
        if start <= p < start + capacity {
            let k = ring_distance(start, capacity, cursor, p);
            lemma_add_mod_noop_right(cursor, p - start - cursor, capacity);
            lemma_small_mod((p - start) as nat, capacity as nat);
            assert(k == i ==> p == place);
            assert(0 <= k) by {
                lemma_mod_bound(p - start - cursor, capacity);
            }
        }
    }
    assert(so_far =~= next);
}

/// Writes `data` into the ring from `cursor` on, one byte at a time.
fn write_each(mem: &mut [u8], cursor: u64, data: &[u8])
    requires
        SHM_SIZE <= old(mem)@.len(),
        data@.len() <= RING_SIZE,
    ensures
        final(mem)@ == ring_written(
            old(mem)@,
            HEADER_SIZE as int,
            RING_SIZE as int,
            cursor as int,
            data@,
        ),
{
    let at: usize = (cursor % RING_SIZE as u64) as usize;
    let mut i: usize = 0;
    proof {
        assert(mem@ =~= ring_written(
            mem@,
            HEADER_SIZE as int,
            RING_SIZE as int,
            cursor as int,
            data@.take(0),
        ));
    }
    while i < data.len()
        invariant
            at == cursor as int % RING_SIZE as int,
            i <= data@.len() <= RING_SIZE,
            SHM_SIZE <= old(mem)@.len(),
            mem@ == ring_written(
                old(mem)@,
                HEADER_SIZE as int,
                RING_SIZE as int,
                cursor as int,
                data@.take(i as int),
            ),
        decreases data@.len() - i,
    {
        let pos: usize = HEADER_SIZE + (at + i) % RING_SIZE;
        proof {
            lemma_add_mod_noop_right(i as int, cursor as int, RING_SIZE as int);
            lemma_one_more_byte(
                old(mem)@,
                HEADER_SIZE as int,
                RING_SIZE as int,
                cursor as int,
                data@,
                i as int,
            );
        }
        mem[pos] = data[i];
        i = i + 1;
    }
    assert(data@.take(data@.len() as int) =~= data@);
}

/// Copies `n` bytes of the ring from `cursor` on to the front of `buf`, one byte at a time.
fn read_each(mem: &[u8], cursor: u64, buf: &mut [u8], n: usize)
    requires
        SHM_SIZE <= mem@.len(),
        n <= old(buf)@.len(),
    ensures
        final(buf)@ == filled(
            old(buf)@,
            ring_slice(
                mem@,
                HEADER_SIZE as int,
                RING_SIZE as int,
                cursor as int,
                n as int,
            ),
            n as nat,
        ),
{
    let mut i: usize = 0;
    while i < n
        invariant
            i <= n <= old(buf)@.len(),
            buf@.len() == old(buf)@.len(),
            SHM_SIZE <= mem@.len(),
            forall|j: int|
                0 <= j < i ==> #[trigger] buf@[j] == mem@[HEADER_SIZE + (cursor + j) % (
                RING_SIZE as int)],
            forall|j: int| i <= j < buf@.len() ==> #[trigger] buf@[j] == old(buf)@[j],
        decreases n - i,
    {
        let at: usize = (cursor % RING_SIZE as u64) as usize;
        let pos: usize = HEADER_SIZE + (at + i % RING_SIZE) % RING_SIZE;
        proof {
            lemma_add_mod_noop(
                cursor as int,
                i as int,
                RING_SIZE as int,
            );
        }
        buf[i] = mem[pos];
        i = i + 1;
    }
    proof {
        assert(buf@ =~= filled(
            old(buf)@,
            ring_slice(mem@, HEADER_SIZE as int, RING_SIZE as int, cursor as int, n as int),
            n as nat,
        ));
    }
}

/// Writes a message into the ring if there is room, given the ring's cursors. Returns where
/// the write cursor has to go, or `None` if the reader has to go on first. A message longer
/// than the ring never finds room.
pub fn ring_write(mem: &mut [u8], header: &CompactHeader, data: &[u8]) -> (written: Option<u64>)
    requires
        SHM_SIZE <= old(mem)@.len(),
        ordered(header),
        used(header) <= RING_SIZE,
        RING_SIZE - used(header) >= MSG_HEADER_SIZE + data@.len() ==> header.written()
            + MSG_HEADER_SIZE + data@.len() <= u64::MAX,
    ensures
        ring_sends(
            old(mem)@,
            HEADER_SIZE as int,
            RING_SIZE as int,
            header.written() as int,
            header.consumed() as int,
            data@,
            written,
            final(mem)@,
        ),
{
    let cursor: u64 = header.write_cursor();
    let free: u64 = RING_SIZE as u64 - (cursor - header.read_cursor());
    if free >= MSG_HEADER_SIZE as u64 && free - MSG_HEADER_SIZE as u64 >= data.len() as u64 {
        let prefix: [u8; 4] = length_prefix(data.len() as u32);
        write_each(mem, cursor, &prefix);
        write_each(mem, cursor + MSG_HEADER_SIZE as u64, data);
        proof {
            lemma_frame_parts(data@);
            law_writes_join(
                old(mem)@,
                HEADER_SIZE as int,
                RING_SIZE as int,
                cursor as int,
                prefix@,
                data@,
            );
            assert(prefix@ + data@ =~= frame(data@));
        }
        Some(cursor + MSG_HEADER_SIZE as u64 + data.len() as u64)
    } else {
        None
    }
}

/// The length of the next message, given the ring's cursors, or `None` if there is none yet.
pub fn ring_read_length(mem: &[u8], header: &CompactHeader) -> (len: Option<usize>)
    requires
        SHM_SIZE <= mem@.len(),
        ordered(header),
    ensures
        ring_announces(
            mem@,
            HEADER_SIZE as int,
            RING_SIZE as int,
            header.written() as int,
            header.consumed() as int,
            len,
        ),
{
    let cursor: u64 = header.read_cursor();
    if header.write_cursor() - cursor >= MSG_HEADER_SIZE as u64 {
        let mut prefix: [u8; 4] = [0u8; 4];
        let ghost before = prefix@;
        read_each(mem, cursor, &mut prefix, MSG_HEADER_SIZE);
        proof {
            let slice = ring_slice(
                mem@,
                HEADER_SIZE as int,
                RING_SIZE as int,
                cursor as int,
                MSG_HEADER_SIZE as int,
            );
            assert(filled(before, slice, 4) =~= slice);
        }
        Some(payload_length(&prefix))
    } else {
        None
    }
}

/// Reads the next message, whose length is known, given the ring's cursors. As much of it as
/// fits goes to the front of `buf`; the rest is skipped. Returns `None` if the message has not
/// come as a whole.
pub fn ring_read(
    mem: &[u8],
    header: &CompactHeader,
    data_len: usize,
    buf: &mut [u8],
) -> (received: Option<Received>)
    requires
        SHM_SIZE <= mem@.len(),
        ordered(header),
    ensures
        ring_receives(
            mem@,
            HEADER_SIZE as int,
            RING_SIZE as int,
            header.written() as int,
            header.consumed() as int,
            data_len as nat,
            old(buf)@,
            received,
            final(buf)@,
        ),
{
    let cursor: u64 = header.read_cursor();
    let available: u64 = header.write_cursor() - cursor;
    if available >= MSG_HEADER_SIZE as u64 && available - MSG_HEADER_SIZE as u64
        >= data_len as u64 {
        let len: usize = if data_len <= buf.len() {
            data_len
        } else {
            buf.len()
        };
        let payload: u64 = cursor + MSG_HEADER_SIZE as u64;
        read_each(mem, payload, buf, len);
        Some(Received { len, cursor: payload + data_len as u64 })
    } else {
        None
    }
}

/// Whether the reader has caught up with the writer.
pub fn is_drained(header: &CompactHeader) -> (drained: bool)
    ensures
        drained == (header.consumed() >= header.written()),
{
    header.read_cursor() >= header.write_cursor()
}

/// How many bytes of a text of `len` bytes are printed, and whether an ellipsis follows.
pub fn preview(len: usize) -> (cut: (usize, bool))
    ensures
        cut == (if len > PREVIEW_SIZE {
            (PREVIEW_SIZE, true)
        } else {
            (len, false)
        }),
{
    if len > PREVIEW_SIZE {
        (PREVIEW_SIZE, true)
    } else {
        (len, false)
    }
}

/// The bytes of a text of plain characters.
pub open spec fn plain_bytes(text: Seq<char>) -> Seq<u8> {
    Seq::new(text.len(), |i: int| text[i] as u8)
}

/// The messages that the writer sends, as bytes.
pub open spec fn demo_messages() -> Seq<Seq<u8>> {
    seq![
        plain_bytes("Hello"@),
        plain_bytes("World"@),
        plain_bytes("This is a longer message to test wrapping"@),
        Seq::new(LONG_MESSAGE_SIZE as nat, |i: int| LONG_MESSAGE_BYTE),
        plain_bytes("Short"@),
        plain_bytes("Done!"@),
    ]
}

/// The bytes of `text`.
fn plain_text(text: &str) -> (bytes: Vec<u8>)
    requires
        text.is_ascii(),
    ensures
        bytes@ == plain_bytes(text@),
{
    proof {
        is_ascii_spec_bytes(text);
    }
    let bytes: Vec<u8> = vstd::slice::slice_to_vec(text.as_bytes());
    assert(bytes@ =~= plain_bytes(text@));
    bytes
}

/// The messages that the writer sends. Each fits into the ring, and together they go around its
/// end.
pub fn messages() -> (messages: Vec<Vec<u8>>)
    ensures
        messages@.map_values(|message: Vec<u8>| message@) == demo_messages(),
        forall|i: int|
            0 <= i < messages@.len() ==> MSG_HEADER_SIZE + (#[trigger] messages@[i])@.len()
                <= RING_SIZE,
        bytes_of(messages@.map_values(|message: Vec<u8>| message@)) > RING_SIZE,
{
    proof {
        lemma_demo_texts();
        law_messages_wrap();
    }
    let mut messages: Vec<Vec<u8>> = Vec::new();
    messages.push(plain_text("Hello"));
    messages.push(plain_text("World"));
    messages.push(plain_text("This is a longer message to test wrapping"));
    messages.push(vec![LONG_MESSAGE_BYTE; LONG_MESSAGE_SIZE]);
    messages.push(plain_text("Short"));
    messages.push(plain_text("Done!"));
    proof {
        let bytes = messages@.map_values(|message: Vec<u8>| message@);
        assert(messages@[3]@ =~= demo_messages()[3]);
        assert(bytes =~= demo_messages());
        assert forall|i: int| 0 <= i < messages@.len() implies MSG_HEADER_SIZE + (
        #[trigger] messages@[i])@.len() <= RING_SIZE by {
            assert(bytes[i] == demo_messages()[i]);
        }
    }
    messages
}

/// The texts among the messages are made of plain characters, and how long they are.
proof fn lemma_demo_texts()
    ensures
        "Hello".is_ascii() && "Hello"@.len() == 5,
        "World".is_ascii() && "World"@.len() == 5,
        "This is a longer message to test wrapping".is_ascii(),
        "This is a longer message to test wrapping"@.len() == 41,
        "Short".is_ascii() && "Short"@.len() == 5,
        "Done!".is_ascii() && "Done!"@.len() == 5,
{
    reveal_strlit("Hello");
    reveal_strlit("World");
    reveal_strlit("This is a longer message to test wrapping");
    reveal_strlit("Short");
    reveal_strlit("Done!");
}

/// Each of the messages fits into the ring. Their frames together take up more than the ring,
/// and the fourth of them goes around its end.
pub proof fn law_messages_wrap()
    ensures
        forall|i: int|
            0 <= i < demo_messages().len() ==> MSG_HEADER_SIZE + (
            #[trigger] demo_messages()[i]).len() <= RING_SIZE,
        bytes_of(demo_messages()) > RING_SIZE,
        bytes_of(demo_messages().take(3)) < RING_SIZE < bytes_of(demo_messages().take(4)),
{
    lemma_demo_texts();
    reveal_with_fuel(bytes_of, 8);
    let all = demo_messages();
    assert(all.drop_last() =~= all.take(5));
    assert(all.take(5).drop_last() =~= all.take(4));
    assert(all.take(4).drop_last() =~= all.take(3));
    assert(all.take(3).drop_last() =~= all.take(2));
    assert(all.take(2).drop_last() =~= all.take(1));
    assert(all.take(1).drop_last() =~= Seq::empty());
}

/// A message is written just when its four length bytes and its payload fit into the 1024 bytes
/// of the ring less the unread ones. Then they stand in the ring from the write cursor on, and
/// every other byte stays.
pub proof fn law_ring_write(
    mem: &mut [u8],
    header: &CompactHeader,
    data: &[u8],
    written: Option<u64>,
)
    requires
        1040 <= mem@.len(),
        header.consumed() <= header.written(),
        call_ensures(ring_write, (mem, header, data), written),
    ensures
        ({
            let (w, c) = (header.written() as int, header.consumed() as int);
            &&& written is Some <==> 4 + data@.len() <= 1024 - (w - c)
            &&& written matches Some(cursor) ==> {
                &&& cursor == w + 4 + data@.len()
                &&& final(mem)@[16 + w % 1024] + 256 * final(mem)@[16 + (w + 1) % 1024] + 65536
                    * final(mem)@[16 + (w + 2) % 1024] + 16777216 * final(mem)@[16 + (w + 3) % 1024]
                    == data@.len()
                &&& forall|i: int|
                    0 <= i < data@.len() ==> final(mem)@[16 + (w + 4 + i) % 1024]
                        == #[trigger] data@[i]
            }
            &&& final(mem)@.len() == old(mem)@.len()
            &&& forall|p: int|
                0 <= p < old(mem)@.len() && !(written is Some && 16 <= p < 16 + 1024 && (p - 16 - w)
                    % 1024 < 4 + data@.len()) ==> #[trigger] final(mem)@[p] == old(mem)@[p]
        }),
{
    lemma_sends_is(
        old(mem)@,
        16,
        1024,
        header.written() as int,
        header.consumed() as int,
        data@,
        written,
        final(mem)@,
    );
}

/// A length is found just when its four bytes are there, and is what they spell, the lowest
/// first.
pub proof fn law_ring_read_length(mem: &[u8], header: &CompactHeader, len: Option<usize>)
    requires
        call_ensures(ring_read_length, (mem, header), len),
    ensures
        len is Some <==> header.written() - header.consumed() >= 4,
        len matches Some(n) ==> {
            let c = header.consumed() as int;
            n == mem@[16 + c % 1024] + 256 * mem@[16 + (c + 1) % 1024] + 65536 * mem@[16 + (c + 2)
                % 1024] + 16777216 * mem@[16 + (c + 3) % 1024]
        },
{
    lemma_announced_is(mem@, 16, 1024, header.consumed() as int);
}

/// A message of a known length is read just when it is there as a whole. As much of it as there
/// is room for goes to the front of the buffer, and the read cursor has to go behind all of it.
pub proof fn law_ring_read(
    mem: &[u8],
    header: &CompactHeader,
    data_len: usize,
    buf: &mut [u8],
    received: Option<Received>,
)
    requires
        call_ensures(ring_read, (mem, header, data_len, buf), received),
    ensures
        ({
            let (w, c) = (header.written() as int, header.consumed() as int);
            &&& received is Some <==> w - c >= 4 + data_len
            &&& received matches Some(message) ==> {
                &&& message.cursor == c + 4 + data_len
                &&& message.len <= data_len && message.len <= old(buf)@.len()
                &&& message.len == data_len || message.len == old(buf)@.len()
                &&& forall|i: int|
                    0 <= i < message.len ==> #[trigger] final(buf)@[i] == mem@[16 + (c + 4 + i)
                        % 1024]
                &&& forall|i: int|
                    message.len <= i < old(buf)@.len() ==> #[trigger] final(buf)@[i]
                        == old(buf)@[i]
            }
            &&& final(buf)@.len() == old(buf)@.len()
            &&& received is None ==> final(buf)@ == old(buf)@
        }),
{
    lemma_receives_is(
        mem@,
        16,
        1024,
        header.written() as int,
        header.consumed() as int,
        data_len as nat,
        old(buf)@,
        received,
        final(buf)@,
    );
}

/// What was written into an empty ring is read back: the same length, and the same bytes as far
/// as there is room.
pub proof fn law_write_then_read_back(
    mem: &mut [u8],
    before: &CompactHeader,
    data: &[u8],
    written: u64,
    after: &CompactHeader,
    seen: &[u8],
    len: Option<usize>,
    buf: &mut [u8],
    received: Option<Received>,
)
    requires
        1040 <= mem@.len(),
        before.written() == before.consumed(),
        call_ensures(ring_write, (mem, before, data), Some(written)),
        seen@ == final(mem)@,
        after.written() == written,
        after.consumed() == before.consumed(),
        call_ensures(ring_read_length, (seen, after), len),
        len is Some,
        call_ensures(ring_read, (seen, after, len->0, buf), received),
    ensures
        len == Some(data@.len() as usize),
        received matches Some(message) && {
            &&& message.cursor == written
            &&& data@.len() <= old(buf)@.len() ==> final(buf)@.take(data@.len() as int) == data@
        },
{
    law_ring_write(mem, before, data, Some(written));
    law_ring_read_length(seen, after, len);
    law_ring_read(seen, after, len->0, buf, received);
    let c = before.consumed() as int;
    if let Some(message) = received {
        assert forall|i: int| 0 <= i < message.len implies #[trigger] final(buf)@[i]
            == data@[i] by {
            assert(final(mem)@[16 + (c + 4 + i) % 1024] == data@[i]);
        }
        if data@.len() <= old(buf)@.len() {
            assert(final(buf)@.take(data@.len() as int) =~= data@);
        }
    }
}

/// A ring is drained when nothing is left to read.
pub proof fn law_is_drained(header: &CompactHeader, drained: bool)
    requires
        header.consumed() <= header.written(),
        call_ensures(is_drained, (header,), drained),
    ensures
        drained <==> header.written() - header.consumed() == 0,
{
}

/// No more than thirty bytes of a text are printed, and an ellipsis stands for what is cut.
pub proof fn law_preview(len: usize, cut: (usize, bool))
    requires
        call_ensures(preview, (len,), cut),
    ensures
        cut.0 <= len && cut.0 <= 30,
        cut.0 == len || cut.0 == 30,
        cut.1 <==> cut.0 < len,
{
}

/// The messages, in their order: five texts, and before the last two of them a long run of `x`.
/// Each fits into the ring of 1024 bytes with its four length bytes, and that run goes around the
/// ring's end.
pub proof fn law_messages(messages: Vec<Vec<u8>>)
    requires
        call_ensures(self::messages, (), messages),
    ensures
        messages@.len() == 6,
        forall|i: int|
            0 <= i < "Hello"@.len() ==> messages@[0]@[i] as int == #[trigger] "Hello"@[i] as int,
        forall|i: int|
            0 <= i < "World"@.len() ==> messages@[1]@[i] as int == #[trigger] "World"@[i] as int,
        forall|i: int|
            0 <= i < "This is a longer message to test wrapping"@.len() ==> messages@[2]@[i] as int
                == #[trigger] "This is a longer message to test wrapping"@[i] as int,
        forall|i: int| 0 <= i < messages@[3]@.len() ==> #[trigger] messages@[3]@[i] == 120,
        forall|i: int|
            0 <= i < "Short"@.len() ==> messages@[4]@[i] as int == #[trigger] "Short"@[i] as int,
        forall|i: int|
            0 <= i < "Done!"@.len() ==> messages@[5]@[i] as int == #[trigger] "Done!"@[i] as int,
        messages@[0]@.len() == 5,
        messages@[1]@.len() == 5,
        messages@[2]@.len() == 41,
        messages@[4]@.len() == 5,
        messages@[5]@.len() == 5,
        forall|i: int| 0 <= i < 6 ==> 4 + (#[trigger] messages@[i])@.len() <= 1024,
        3 * 4 + 5 + 5 + 41 < 1024 < 4 * 4 + 5 + 5 + 41 + messages@[3]@.len(),
{
    lemma_demo_texts();
    let bytes = messages@.map_values(|message: Vec<u8>| message@);
    let all = demo_messages();
    assert(bytes.len() == all.len());
    assert(bytes[0] == all[0] && bytes[1] == all[1] && bytes[2] == all[2] && bytes[3] == all[3]
        && bytes[4] == all[4] && bytes[5] == all[5]);
    lemma_demo_ascii();
}

/// The texts among the messages are made of characters that fit a byte.
proof fn lemma_demo_ascii()
    ensures
        forall|i: int| 0 <= i < "Hello"@.len() ==> (#[trigger] "Hello"@[i] as int) < 128,
        forall|i: int| 0 <= i < "World"@.len() ==> (#[trigger] "World"@[i] as int) < 128,
        forall|i: int|
            0 <= i < "This is a longer message to test wrapping"@.len() ==> (
            #[trigger] "This is a longer message to test wrapping"@[i] as int) < 128,
        forall|i: int| 0 <= i < "Short"@.len() ==> (#[trigger] "Short"@[i] as int) < 128,
        forall|i: int| 0 <= i < "Done!"@.len() ==> (#[trigger] "Done!"@[i] as int) < 128,
{
    lemma_demo_texts();
}

} // verus!
