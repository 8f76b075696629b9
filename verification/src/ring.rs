//! A ring of bytes inside a larger memory.
//!
//! A ring occupies `capacity` bytes from `start` on. Cursors count all the bytes that ever went
//! through the ring; the byte at cursor `c` lives at `start + c % capacity`. The writer's cursor
//! is never more than `capacity` ahead of the reader's, so the bytes between the two cursors
//! each have a place of their own.

use vstd::prelude::*;
use vstd::arithmetic::div_mod::{
    lemma_add_mod_noop_right, lemma_mod_bound, lemma_mod_multiples_vanish, lemma_small_mod,
    lemma_sub_mod_noop, lemma_sub_mod_noop_right,
};

use crate::bytes::overwrite;
use crate::frame::{
    delivered_len, filled, frame, frames, lemma_frame_is, lemma_frame_parts, lemma_frames_push,
    payload_length, prefix_value, MSG_HEADER_SIZE,
};

verus! {

/// The `len` bytes of the ring from `cursor` on.
pub open spec fn ring_slice(
    mem: Seq<u8>,
    start: int,
    capacity: int,
    cursor: int,
    len: int,
) -> Seq<u8> {
    Seq::new(len as nat, |i: int| mem[start + (cursor + i) % capacity])
}

/// How far the place `at` of a memory lies behind `cursor` in the ring.
pub open spec fn ring_distance(start: int, capacity: int, cursor: int, at: int) -> int {
    (at - start - cursor) % capacity
}

/// A memory after `data` was written into the ring from `cursor` on. Nothing outside the ring
/// and nothing in the ring beyond the data changes.
pub open spec fn ring_written(
    mem: Seq<u8>,
    start: int,
    capacity: int,
    cursor: int,
    data: Seq<u8>,
) -> Seq<u8> {
    Seq::new(
        mem.len(),
        |at: int|
            {
                let k = ring_distance(start, capacity, cursor, at);
                if start <= at < start + capacity && k < data.len() {
                    data[k]
                } else {
                    mem[at]
                }
            },
    )
}

/// The remainder of a number that is at most one multiple away from its range.
pub proof fn lemma_mod_near(x: int, d: int)
    requires
        d > 0,
        -d <= x < 2 * d,
    ensures
        x % d == if x < 0 {
            x + d
        } else if x < d {
            x
        } else {
            x - d
        },
{
    if x < 0 {
        lemma_mod_multiples_vanish(1, x, d);
        lemma_small_mod((x + d) as nat, d as nat);
    } else if x < d {
        lemma_small_mod(x as nat, d as nat);
    } else {
        lemma_mod_multiples_vanish(-1, x, d);
        lemma_small_mod((x - d) as nat, d as nat);
    }
}

/// The place of the byte at `cursor + i` lies `cursor + i - from` behind `from`.
pub proof fn lemma_distance(start: int, capacity: int, from: int, cursor: int, i: int)
    requires
        capacity > 0,
    ensures
        start <= start + (cursor + i) % capacity < start + capacity,
        ring_distance(start, capacity, from, start + (cursor + i) % capacity) == (cursor + i - from)
            % capacity,
{
    let x = cursor + i;
    lemma_mod_bound(x, capacity);
    lemma_sub_mod_noop(x, from, capacity);
    lemma_sub_mod_noop_right(x % capacity, from, capacity);
}

/// Copies `data` into the ring from `cursor` on, in one piece or, around the ring's end, in two.
pub fn ring_write_bytes(mem: &mut [u8], start: usize, capacity: usize, cursor: u64, data: &[u8])
    requires
        0 < capacity,
        start + capacity <= old(mem)@.len(),
        data@.len() <= capacity,
    ensures
        final(mem)@ == ring_written(
            old(mem)@,
            start as int,
            capacity as int,
            cursor as int,
            data@,
        ),
{
    let at: usize = (cursor % capacity as u64) as usize;
    let first_len: usize = if data.len() <= capacity - at {
        data.len()
    } else {
        capacity - at
    };
    assert(start + capacity <= mem.len());
    overwrite(mem, start + at, &data[0..first_len]);
    if first_len < data.len() {
        overwrite(mem, start, &data[first_len..data.len()]);
    }
    proof {
        let before = old(mem)@;
        let expected = ring_written(before, start as int, capacity as int, cursor as int, data@);
        assert forall|p: int| 0 <= p < before.len() implies mem@[p] == expected[p] by {
            if start <= p < start + capacity {
                lemma_sub_mod_noop_right(p - start, cursor as int, capacity as int);
                lemma_mod_near(p - start - at, capacity as int);
            }
        }
        assert(mem@ =~= expected);
    }
}

/// Copies the bytes of the ring from `cursor` on into `buf`, which they fill.
pub fn ring_read_bytes(mem: &[u8], start: usize, capacity: usize, cursor: u64, buf: &mut [u8])
    requires
        0 < capacity,
        start + capacity <= mem@.len(),
        old(buf)@.len() <= capacity,
    ensures
        final(buf)@ == ring_slice(
            mem@,
            start as int,
            capacity as int,
            cursor as int,
            old(buf)@.len() as int,
        ),
{
    let at: usize = (cursor % capacity as u64) as usize;
    let len: usize = buf.len();
    let first_len: usize = if len <= capacity - at {
        len
    } else {
        capacity - at
    };
    assert(start + capacity <= mem.len());
    overwrite(buf, 0, &mem[start + at..start + at + first_len]);
    if first_len < len {
        let rest: usize = len - first_len;
        overwrite(buf, first_len, &mem[start..start + rest]);
    }
    proof {
        let expected = ring_slice(mem@, start as int, capacity as int, cursor as int, len as int);
        assert forall|i: int| 0 <= i < len implies buf@[i] == expected[i] by {
            lemma_add_mod_noop_right(i, cursor as int, capacity as int);
            lemma_mod_near(at + i, capacity as int);
        }
        assert(buf@ =~= expected);
    }
}

/// The payload length in the prefix at `cursor`.
pub fn ring_read_length(mem: &[u8], start: usize, capacity: usize, cursor: u64) -> (len: usize)
    requires
        MSG_HEADER_SIZE <= capacity,
        start + capacity <= mem@.len(),
    ensures
        len == prefix_value(
            ring_slice(
                mem@,
                start as int,
                capacity as int,
                cursor as int,
                MSG_HEADER_SIZE as int,
            ),
        ),
        len <= u32::MAX,
{
    let mut prefix: [u8; 4] = [0u8; 4];
    ring_read_bytes(mem, start, capacity, cursor, &mut prefix);
    payload_length(&prefix)
}

/// Whether a ring whose cursors stand at `written` and `consumed` has room for `need` bytes.
pub fn has_room(capacity: usize, written: u64, consumed: u64, need: u64) -> (room: bool)
    requires
        consumed <= written <= consumed + capacity,
    ensures
        room == (capacity - (written - consumed) >= need),
{
    let used: u64 = written - consumed;
    capacity as u64 - used >= need
}

/// The messages in a ring: between the two cursors lie their frames, oldest first, and nothing
/// else.
pub open spec fn ring_holds(
    mem: Seq<u8>,
    start: int,
    capacity: int,
    written: int,
    consumed: int,
    messages: Seq<Seq<u8>>,
) -> bool {
    &&& 0 < capacity
    &&& consumed <= written <= consumed + capacity
    &&& forall|i: int| 0 <= i < messages.len() ==> (#[trigger] messages[i]).len() <= u32::MAX
    &&& ring_slice(mem, start, capacity, consumed, written - consumed) == frames(messages)
}

/// A message that was read from a ring.
#[derive(Debug, Clone, Copy, PartialEq, Eq, Structural)]
pub struct Received {
    /// Bytes put into the buffer.
    pub len: usize,
    /// Where the read cursor has to go.
    pub cursor: u64,
}

/// What comes of an attempt to send `message` through a ring whose cursors were seen at
/// `written` and `consumed`. If there is room, its frame is written at the write cursor, and
/// `sent` says where that cursor has to go. Otherwise nothing changes.
pub open spec fn ring_sends(
    mem: Seq<u8>,
    start: int,
    capacity: int,
    written: int,
    consumed: int,
    message: Seq<u8>,
    sent: Option<u64>,
    after: Seq<u8>,
) -> bool {
    &&& sent is Some <==> MSG_HEADER_SIZE + message.len() <= capacity - (written - consumed)
    &&& sent matches Some(cursor) ==> cursor == written + MSG_HEADER_SIZE + message.len()
    &&& after == match sent {
        Some(_) => ring_written(mem, start, capacity, written, frame(message)),
        None => mem,
    }
}

/// What comes of a look for the next message in a ring whose cursors were seen at `written` and
/// `consumed`: the length in the prefix at the read cursor, if the prefix is there.
pub open spec fn ring_announces(
    mem: Seq<u8>,
    start: int,
    capacity: int,
    written: int,
    consumed: int,
    len: Option<usize>,
) -> bool {
    &&& len is Some <==> written - consumed >= MSG_HEADER_SIZE
    &&& len matches Some(n) ==> n <= u32::MAX && n == announced(mem, start, capacity, consumed)
}

/// What comes of an attempt to receive the next message, of `len` bytes, from a ring whose
/// cursors were seen at `written` and `consumed`. If the message is there as a whole, as much of
/// it as fits goes to the front of the buffer, which was `held` and becomes `left`, and the read
/// cursor has to go behind all of it. Otherwise nothing changes.
pub open spec fn ring_receives(
    mem: Seq<u8>,
    start: int,
    capacity: int,
    written: int,
    consumed: int,
    len: nat,
    held: Seq<u8>,
    received: Option<Received>,
    left: Seq<u8>,
) -> bool {
    &&& received is Some <==> written - consumed >= MSG_HEADER_SIZE + len
    &&& received matches Some(message) ==> {
        &&& message.len == delivered_len(len, held.len())
        &&& message.cursor == consumed + MSG_HEADER_SIZE + len
    }
    &&& left == match received {
        Some(message) => filled(
            held,
            ring_slice(
                mem,
                start,
                capacity,
                consumed + MSG_HEADER_SIZE,
                message.len as int,
            ),
            message.len as nat,
        ),
        None => held,
    }
}

/// The length in the prefix at `consumed`.
pub open spec fn announced(mem: Seq<u8>, start: int, capacity: int, consumed: int) -> nat {
    prefix_value(ring_slice(mem, start, capacity, consumed, MSG_HEADER_SIZE as int))
}

/// What comes of an attempt to receive the next message, whatever its length, from a ring whose
/// cursors were seen at `written` and `consumed`. Without a prefix there is none.
pub open spec fn ring_takes(
    mem: Seq<u8>,
    start: int,
    capacity: int,
    written: int,
    consumed: int,
    held: Seq<u8>,
    received: Option<Received>,
    left: Seq<u8>,
) -> bool {
    if written - consumed < MSG_HEADER_SIZE {
        received is None && left == held
    } else {
        ring_receives(
            mem,
            start,
            capacity,
            written,
            consumed,
            announced(mem, start, capacity, consumed),
            held,
            received,
            left,
        )
    }
}

/// The first bytes of a slice are a shorter slice.
pub proof fn lemma_slice_take(
    mem: Seq<u8>,
    start: int,
    capacity: int,
    cursor: int,
    len: int,
    n: int,
)
    requires
        0 <= n <= len,
    ensures
        ring_slice(mem, start, capacity, cursor, len).take(n) == ring_slice(
            mem,
            start,
            capacity,
            cursor,
            n,
        ),
{
    assert(ring_slice(mem, start, capacity, cursor, len).take(n) =~= ring_slice(
        mem,
        start,
        capacity,
        cursor,
        n,
    ));
}

/// Two rings of the same size, wherever they lie, hold the same bytes.
pub open spec fn same_ring(
    left: Seq<u8>,
    left_start: int,
    right: Seq<u8>,
    right_start: int,
    capacity: int,
) -> bool {
    &&& 0 < capacity
    &&& 0 <= left_start <= left.len() - capacity
    &&& 0 <= right_start <= right.len() - capacity
    &&& left.subrange(left_start, left_start + capacity) == right.subrange(
        right_start,
        right_start + capacity,
    )
}

/// Rings that hold the same bytes read the same.
pub proof fn law_same_rings_read_alike(
    left: Seq<u8>,
    left_start: int,
    right: Seq<u8>,
    right_start: int,
    capacity: int,
    cursor: int,
    len: int,
)
    requires
        same_ring(left, left_start, right, right_start, capacity),
    ensures
        ring_slice(left, left_start, capacity, cursor, len) == ring_slice(
            right,
            right_start,
            capacity,
            cursor,
            len,
        ),
{
    let one = left.subrange(left_start, left_start + capacity);
    let two = right.subrange(right_start, right_start + capacity);
    let left_slice = ring_slice(left, left_start, capacity, cursor, len);
    let right_slice = ring_slice(right, right_start, capacity, cursor, len);
    assert forall|i: int| 0 <= i < left_slice.len() implies left_slice[i]
        == #[trigger] right_slice[i] by {
        let k = (cursor + i) % capacity;
        lemma_mod_bound(cursor + i, capacity);
        assert(one[k] == two[k]);
    }
    assert(left_slice =~= right_slice);
}

/// Rings that hold the same bytes still do when the same was written into both.
pub proof fn law_same_rings_write_alike(
    left: Seq<u8>,
    left_start: int,
    right: Seq<u8>,
    right_start: int,
    capacity: int,
    cursor: int,
    data: Seq<u8>,
)
    requires
        same_ring(left, left_start, right, right_start, capacity),
    ensures
        same_ring(
            ring_written(left, left_start, capacity, cursor, data),
            left_start,
            ring_written(right, right_start, capacity, cursor, data),
            right_start,
            capacity,
        ),
{
    let one = left.subrange(left_start, left_start + capacity);
    let two = right.subrange(right_start, right_start + capacity);
    let left_after = ring_written(left, left_start, capacity, cursor, data);
    let right_after = ring_written(right, right_start, capacity, cursor, data);
    let one_after = left_after.subrange(left_start, left_start + capacity);
    let two_after = right_after.subrange(right_start, right_start + capacity);
    assert forall|k: int| 0 <= k < capacity implies one_after[k] == #[trigger] two_after[k] by {
        assert(one[k] == two[k]);
        assert(left_start + k - left_start - cursor == right_start + k - right_start - cursor);
    }
    assert(one_after =~= two_after);
}

/// What was written at a cursor is read there.
pub proof fn law_write_then_read(
    mem: Seq<u8>,
    start: int,
    capacity: int,
    cursor: int,
    data: Seq<u8>,
)
    requires
        0 <= start,
        0 < capacity,
        start + capacity <= mem.len(),
        data.len() <= capacity,
    ensures
        ring_slice(
            ring_written(mem, start, capacity, cursor, data),
            start,
            capacity,
            cursor,
            data.len() as int,
        ) == data,
{
    let after = ring_written(mem, start, capacity, cursor, data);
    assert forall|i: int| 0 <= i < data.len() implies #[trigger] after[start + (cursor + i)
        % capacity] == data[i] by {
        lemma_distance(start, capacity, cursor, cursor, i);
        lemma_small_mod(i as nat, capacity as nat);
    }
    assert(ring_slice(after, start, capacity, cursor, data.len() as int) =~= data);
}

/// A write changes nothing between the cursors while the ring has room for it.
pub proof fn law_write_keeps_unread(
    mem: Seq<u8>,
    start: int,
    capacity: int,
    written: int,
    consumed: int,
    data: Seq<u8>,
)
    requires
        0 <= start,
        0 < capacity,
        start + capacity <= mem.len(),
        consumed <= written,
        written - consumed + data.len() <= capacity,
    ensures
        ring_slice(
            ring_written(mem, start, capacity, written, data),
            start,
            capacity,
            consumed,
            written - consumed,
        ) == ring_slice(mem, start, capacity, consumed, written - consumed),
{
    let after = ring_written(mem, start, capacity, written, data);
    assert forall|i: int| 0 <= i < written - consumed implies #[trigger] after[start + (consumed
        + i) % capacity] == mem[start + (consumed + i) % capacity] by {
        lemma_distance(start, capacity, written, consumed, i);
        lemma_mod_near(consumed + i - written, capacity);
    }
    assert(ring_slice(after, start, capacity, consumed, written - consumed) =~= ring_slice(
        mem,
        start,
        capacity,
        consumed,
        written - consumed,
    ));
}

/// A write changes nothing outside its ring.
pub proof fn law_write_stays_in_ring(
    mem: Seq<u8>,
    start: int,
    capacity: int,
    cursor: int,
    data: Seq<u8>,
)
    ensures
        ring_written(mem, start, capacity, cursor, data).len() == mem.len(),
        forall|p: int|
            0 <= p < mem.len() && !(start <= p < start + capacity) ==> #[trigger] ring_written(
                mem,
                start,
                capacity,
                cursor,
                data,
            )[p] == mem[p],
{
}

/// Two writes, one behind the other, are one write of both pieces.
pub proof fn law_writes_join(
    mem: Seq<u8>,
    start: int,
    capacity: int,
    cursor: int,
    first: Seq<u8>,
    second: Seq<u8>,
)
    requires
        0 < capacity,
        first.len() + second.len() <= capacity,
    ensures
        ring_written(
            ring_written(mem, start, capacity, cursor, first),
            start,
            capacity,
            cursor + first.len(),
            second,
        ) == ring_written(mem, start, capacity, cursor, first + second),
{
    let one = ring_written(mem, start, capacity, cursor, first);
    let two = ring_written(one, start, capacity, cursor + first.len(), second);
    let joined = ring_written(mem, start, capacity, cursor, first + second);
    assert forall|p: int| 0 <= p < mem.len() implies two[p] == joined[p] by {
        let k = ring_distance(start, capacity, cursor, p);
        lemma_mod_bound(p - start - cursor, capacity);
        lemma_sub_mod_noop(p - start - cursor, first.len() as int, capacity);
        lemma_sub_mod_noop_right(k, first.len() as int, capacity);
        assert(ring_distance(start, capacity, cursor + first.len(), p) == (k - first.len())
            % capacity) by {
            assert(p - start - (cursor + first.len()) == p - start - cursor - first.len());
        }
        lemma_mod_near(k - first.len(), capacity);
    }
    assert(two =~= joined);
}

/// A ring splits where a read stops.
pub proof fn lemma_slice_splits(
    mem: Seq<u8>,
    start: int,
    capacity: int,
    cursor: int,
    first: int,
    second: int,
)
    requires
        0 <= first,
        0 <= second,
    ensures
        ring_slice(mem, start, capacity, cursor, first + second) == ring_slice(
            mem,
            start,
            capacity,
            cursor,
            first,
        ) + ring_slice(mem, start, capacity, cursor + first, second),
{
    let whole = ring_slice(mem, start, capacity, cursor, first + second);
    let parts = ring_slice(mem, start, capacity, cursor, first) + ring_slice(
        mem,
        start,
        capacity,
        cursor + first,
        second,
    );
    assert forall|i: int| 0 <= i < first + second implies whole[i] == parts[i] by {
        if i >= first {
            assert(cursor + i == cursor + first + (i - first));
        }
    }
    assert(whole =~= parts);
}

/// A message that is written where the writer's cursor stands joins the ring's messages as the
/// last one.
pub proof fn law_send_appends(
    mem: Seq<u8>,
    start: int,
    capacity: int,
    written: int,
    consumed: int,
    messages: Seq<Seq<u8>>,
    message: Seq<u8>,
)
    requires
        0 <= start,
        start + capacity <= mem.len(),
        ring_holds(mem, start, capacity, written, consumed, messages),
        message.len() <= u32::MAX,
        MSG_HEADER_SIZE + message.len() <= capacity - (written - consumed),
    ensures
        ring_holds(
            ring_written(mem, start, capacity, written, frame(message)),
            start,
            capacity,
            written + MSG_HEADER_SIZE + message.len(),
            consumed,
            messages.push(message),
        ),
{
    let data = frame(message);
    let after = ring_written(mem, start, capacity, written, data);
    lemma_frame_parts(message);
    law_write_then_read(mem, start, capacity, written, data);
    law_write_keeps_unread(mem, start, capacity, written, consumed, data);
    lemma_slice_splits(
        after,
        start,
        capacity,
        consumed,
        written - consumed,
        data.len() as int,
    );
    lemma_frames_push(messages, message);
}

/// The reader finds the oldest message where its cursor stands: first its length, then its
/// payload, both complete. Behind it lie the other messages.
pub proof fn law_receive_takes_first(
    mem: Seq<u8>,
    start: int,
    capacity: int,
    written: int,
    consumed: int,
    messages: Seq<Seq<u8>>,
)
    requires
        ring_holds(mem, start, capacity, written, consumed, messages),
        messages.len() > 0,
    ensures
        prefix_value(ring_slice(mem, start, capacity, consumed, MSG_HEADER_SIZE as int))
            == messages[0].len(),
        MSG_HEADER_SIZE + messages[0].len() <= written - consumed,
        ring_slice(
            mem,
            start,
            capacity,
            consumed + MSG_HEADER_SIZE,
            messages[0].len() as int,
        ) == messages[0],
        ring_holds(
            mem,
            start,
            capacity,
            written,
            consumed + MSG_HEADER_SIZE + messages[0].len(),
            messages.drop_first(),
        ),
{
    let message = messages[0];
    let rest = messages.drop_first();
    let len = message.len() as int;
    let unread = ring_slice(mem, start, capacity, consumed, written - consumed);
    lemma_frame_parts(message);
    assert(unread == frame(message) + frames(rest));
    let behind = written - consumed - MSG_HEADER_SIZE - len;
    lemma_slice_splits(mem, start, capacity, consumed, MSG_HEADER_SIZE + len, behind);
    lemma_slice_splits(mem, start, capacity, consumed, MSG_HEADER_SIZE as int, len);
    let head = ring_slice(mem, start, capacity, consumed, MSG_HEADER_SIZE + len);
    let tail = ring_slice(mem, start, capacity, consumed + MSG_HEADER_SIZE + len, behind);
    assert(head =~= unread.take(MSG_HEADER_SIZE + len));
    assert(tail =~= unread.skip(MSG_HEADER_SIZE + len));
    assert(head =~= frame(message));
    assert(tail =~= frames(rest));
    assert(ring_slice(mem, start, capacity, consumed, MSG_HEADER_SIZE as int) =~= head.take(
        MSG_HEADER_SIZE as int,
    ));
    assert(ring_slice(mem, start, capacity, consumed + MSG_HEADER_SIZE, len) =~= head.skip(
        MSG_HEADER_SIZE as int,
    ));
    assert forall|i: int| 0 <= i < rest.len() implies (#[trigger] rest[i]).len() <= u32::MAX by {
        assert(rest[i] == messages[i + 1]);
    }
}

/// The cursors meet when no message is left, and otherwise at least a length prefix lies
/// between them.
pub proof fn law_empty_means_cursors_meet(
    mem: Seq<u8>,
    start: int,
    capacity: int,
    written: int,
    consumed: int,
    messages: Seq<Seq<u8>>,
)
    requires
        ring_holds(mem, start, capacity, written, consumed, messages),
    ensures
        messages.len() == 0 <==> written == consumed,
        messages.len() > 0 <==> written - consumed >= MSG_HEADER_SIZE,
{
    if messages.len() > 0 {
        lemma_frame_parts(messages[0]);
    }
    assert(ring_slice(mem, start, capacity, consumed, written - consumed).len() == written
        - consumed);
}

/// What a write makes of a memory, byte by byte: the data stands in the ring from the cursor
/// on, and every other byte stays.
pub proof fn lemma_written_is(
    mem: Seq<u8>,
    start: int,
    capacity: int,
    cursor: int,
    data: Seq<u8>,
)
    requires
        0 <= start,
        0 < capacity,
        start + capacity <= mem.len(),
        data.len() <= capacity,
    ensures
        ring_written(mem, start, capacity, cursor, data).len() == mem.len(),
        forall|i: int|
            0 <= i < data.len() ==> ring_written(mem, start, capacity, cursor, data)[start + (cursor
                + i) % capacity] == #[trigger] data[i],
        forall|p: int|
            0 <= p < mem.len() && !(start <= p < start + capacity && (p - start - cursor) % capacity
                < data.len()) ==> #[trigger] ring_written(mem, start, capacity, cursor, data)[p]
                == mem[p],
{
    let after = ring_written(mem, start, capacity, cursor, data);
    assert forall|i: int| 0 <= i < data.len() implies after[start + (cursor + i) % capacity]
        == #[trigger] data[i] by {
        lemma_distance(start, capacity, cursor, cursor, i);
        lemma_small_mod(i as nat, capacity as nat);
    }
}

/// Writing puts each byte of the data into the ring, from the cursor on and around its end, and
/// leaves every other byte alone.
pub proof fn law_ring_write_bytes(
    mem: &mut [u8],
    start: usize,
    capacity: usize,
    cursor: u64,
    data: &[u8],
)
    requires
        0 < capacity,
        start + capacity <= mem@.len(),
        data@.len() <= capacity,
        call_ensures(ring_write_bytes, (mem, start, capacity, cursor, data), ()),
    ensures
        final(mem)@.len() == old(mem)@.len(),
        forall|i: int|
            0 <= i < data@.len() ==> final(mem)@[start + (cursor + i) % (capacity as int)]
                == #[trigger] data@[i],
        forall|p: int|
            0 <= p < old(mem)@.len() && !(start <= p < start + capacity && (p - start - cursor) % (
            capacity as int) < data@.len()) ==> #[trigger] final(mem)@[p] == old(mem)@[p],
{
    lemma_written_is(old(mem)@, start as int, capacity as int, cursor as int, data@);
}

/// Reading fills a buffer with the bytes of the ring, from the cursor on and around its end.
pub proof fn law_ring_read_bytes(
    mem: &[u8],
    start: usize,
    capacity: usize,
    cursor: u64,
    buf: &mut [u8],
)
    requires
        call_ensures(ring_read_bytes, (mem, start, capacity, cursor, buf), ()),
    ensures
        final(buf)@.len() == old(buf)@.len(),
        forall|i: int|
            0 <= i < old(buf)@.len() ==> #[trigger] final(buf)@[i] == mem@[start + (cursor + i) % (
            capacity as int)],
{
}

/// The length in a ring is what the four bytes at the cursor spell, the lowest first.
pub proof fn law_ring_read_length(
    mem: &[u8],
    start: usize,
    capacity: usize,
    cursor: u64,
    len: usize,
)
    requires
        call_ensures(ring_read_length, (mem, start, capacity, cursor), len),
    ensures
        ({
            let size = capacity as int;
            len == mem@[start + cursor as int % size] + 256 * mem@[start + (cursor + 1) % size]
                + 65536 * mem@[start + (cursor + 2) % size] + 16777216 * mem@[start + (cursor + 3)
                % size]
        }),
{
    assert(cursor + 0 == cursor as int);
}

/// A ring has room for what is not more than its capacity less the unread bytes.
pub proof fn law_has_room(capacity: usize, written: u64, consumed: u64, need: u64, room: bool)
    requires
        call_ensures(has_room, (capacity, written, consumed, need), room),
    ensures
        room <==> (written - consumed) + need <= capacity,
{
}

/// What an attempt to send comes to, byte by byte: it succeeds just when the prefix and the
/// payload fit into the capacity less the unread bytes, however many these are. Then the ring
/// holds the length and the payload from the write cursor on, and every other byte stays.
pub proof fn lemma_sends_is(
    mem: Seq<u8>,
    start: int,
    capacity: int,
    written: int,
    consumed: int,
    message: Seq<u8>,
    sent: Option<u64>,
    after: Seq<u8>,
)
    requires
        0 <= start,
        0 < capacity <= 4294967295,
        start + capacity <= mem.len(),
        0 <= consumed <= written,
        ring_sends(mem, start, capacity, written, consumed, message, sent, after),
    ensures
        ({
            &&& sent is Some <==> 4 + message.len() <= capacity - (written - consumed)
            &&& sent matches Some(cursor) ==> {
                &&& cursor == written + 4 + message.len()
                &&& after[start + written % capacity] + 256 * after[start + (written + 1)
                    % capacity] + 65536 * after[start + (written + 2) % capacity] + 16777216
                    * after[start + (written + 3) % capacity] == message.len()
                &&& forall|i: int|
                    0 <= i < message.len() ==> after[start + (written + 4 + i) % capacity]
                        == #[trigger] message[i]
            }
            &&& after.len() == mem.len()
            &&& forall|p: int|
                0 <= p < mem.len() && !(sent is Some && start <= p < start + capacity && (p - start
                    - written) % capacity < 4 + message.len()) ==> #[trigger] after[p] == mem[p]
        }),
{
    if sent is Some {
        lemma_frame_is(message);
        let data = frame(message);
        lemma_written_is(mem, start, capacity, written, data);
        assert(after[start + (written + 0) % capacity] == data[0]);
        assert(after[start + (written + 1) % capacity] == data[1]);
        assert(after[start + (written + 2) % capacity] == data[2]);
        assert(after[start + (written + 3) % capacity] == data[3]);
        assert forall|i: int| 0 <= i < message.len() implies after[start + (written + 4 + i)
            % capacity] == #[trigger] message[i] by {
            assert(after[start + (written + (4 + i)) % capacity] == data[4 + i]);
            assert(written + (4 + i) == written + 4 + i);
        }
    }
}

/// What an attempt to receive a message of `len` bytes comes to, byte by byte.
pub proof fn lemma_receives_is(
    mem: Seq<u8>,
    start: int,
    capacity: int,
    written: int,
    consumed: int,
    len: nat,
    held: Seq<u8>,
    received: Option<Received>,
    left: Seq<u8>,
)
    requires
        ring_receives(mem, start, capacity, written, consumed, len, held, received, left),
    ensures
        ({
            &&& received is Some <==> written - consumed >= 4 + len
            &&& received matches Some(message) ==> {
                &&& message.cursor == consumed + 4 + len
                &&& message.len <= len && message.len <= held.len()
                &&& message.len == len || message.len == held.len()
                &&& forall|i: int|
                    0 <= i < message.len ==> #[trigger] left[i] == mem[start + (consumed + 4 + i)
                        % capacity]
                &&& forall|i: int| message.len <= i < held.len() ==> #[trigger] left[i] == held[i]
            }
            &&& left.len() == held.len()
            &&& received is None ==> left == held
        }),
{
    if let Some(message) = received {
        let n = message.len as int;
        let data = ring_slice(mem, start, capacity, consumed + MSG_HEADER_SIZE, n);
        assert forall|i: int| 0 <= i < n implies #[trigger] left[i] == mem[start + (consumed + 4
            + i)
            % capacity] by {
            assert(left[i] == data[i]);
        }
    }
}

/// What is announced, byte by byte.
pub proof fn lemma_announced_is(mem: Seq<u8>, start: int, capacity: int, consumed: int)
    ensures
        announced(mem, start, capacity, consumed) == mem[start + consumed % capacity]
            + 256 * mem[start + (consumed + 1) % capacity]
            + 65536 * mem[start + (consumed + 2) % capacity]
            + 16777216 * mem[start + (consumed + 3) % capacity],
{
    assert(consumed + 0 == consumed);
}

} // verus!
