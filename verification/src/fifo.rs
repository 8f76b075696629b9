//! A ring as a queue: whatever writer and reader do, and in whatever order, messages come out
//! as they went in.

use vstd::prelude::*;

use crate::frame::{
    delivered_len, filled, frame, frames, lemma_frame_parts, MSG_HEADER_SIZE,
};
use crate::ring::{
    announced, law_empty_means_cursors_meet, law_receive_takes_first, law_send_appends,
    law_write_keeps_unread, lemma_slice_take, ring_announces, ring_holds, ring_receives,
    ring_sends, ring_slice, ring_written, Received,
};

verus! {

/// A memory with a ring in it, and the ring's cursors.
#[verifier::ext_equal]
pub struct RingState {
    pub mem: Seq<u8>,
    pub written: int,
    pub consumed: int,
}

/// What a process tries on a ring. Writer and reader run side by side, so what one of them has
/// seen of the other's cursor may be out of date.
pub enum RingOp {
    /// To send a message, unless there is no room as far as the writer has seen the reader go.
    Send { message: Seq<u8>, seen_consumed: int },
    /// To receive a message, unless none is there as far as the reader has seen the writer go.
    Receive { seen_written: int },
}

impl RingState {
    /// What the operation has seen of the other's cursor was so, now or earlier.
    pub open spec fn has_seen(self, op: RingOp) -> bool {
        match op {
            RingOp::Send { message, seen_consumed } => seen_consumed <= self.consumed,
            RingOp::Receive { seen_written } => seen_written <= self.written,
        }
    }

    /// There is room for the frame of `message` if the reader stands at `consumed`.
    pub open spec fn can_send(self, capacity: int, message: Seq<u8>, consumed: int) -> bool {
        MSG_HEADER_SIZE + message.len() <= capacity - (self.written - consumed)
    }

    /// The length in the prefix where the reader stands.
    pub open spec fn next_len(self, start: int, capacity: int) -> nat {
        announced(self.mem, start, capacity, self.consumed)
    }

    /// The next message is there as a whole if the writer stands at `written`.
    pub open spec fn can_receive(self, start: int, capacity: int, written: int) -> bool {
        &&& written - self.consumed >= MSG_HEADER_SIZE
        &&& written - self.consumed >= MSG_HEADER_SIZE + self.next_len(start, capacity)
    }

    /// The payload behind the prefix where the reader stands.
    pub open spec fn next_message(self, start: int, capacity: int) -> Seq<u8> {
        ring_slice(
            self.mem,
            start,
            capacity,
            self.consumed + MSG_HEADER_SIZE,
            self.next_len(start, capacity) as int,
        )
    }

    /// The state after an operation; one that has to wait changes nothing.
    pub open spec fn step(self, start: int, capacity: int, op: RingOp) -> RingState {
        match op {
            RingOp::Send { message, seen_consumed } => if self.can_send(
                capacity,
                message,
                seen_consumed,
            ) {
                RingState {
                    mem: ring_written(self.mem, start, capacity, self.written, frame(message)),
                    written: self.written + MSG_HEADER_SIZE + message.len(),
                    consumed: self.consumed,
                }
            } else {
                self
            },
            RingOp::Receive { seen_written } => if self.can_receive(start, capacity, seen_written) {
                RingState {
                    mem: self.mem,
                    written: self.written,
                    consumed: self.consumed + MSG_HEADER_SIZE + self.next_len(start, capacity),
                }
            } else {
                self
            },
        }
    }

    /// Every operation of a run goes by cursors that it has seen.
    pub open spec fn is_run(self, start: int, capacity: int, ops: Seq<RingOp>) -> bool
        decreases ops.len(),
    {
        ops.len() > 0 ==> {
            &&& self.is_run(start, capacity, ops.drop_last())
            &&& self.after(start, capacity, ops.drop_last()).has_seen(ops.last())
        }
    }

    /// The state after a run of operations.
    pub open spec fn after(self, start: int, capacity: int, ops: Seq<RingOp>) -> RingState
        decreases ops.len(),
    {
        if ops.len() == 0 {
            self
        } else {
            self.after(start, capacity, ops.drop_last()).step(start, capacity, ops.last())
        }
    }

    /// The message that an operation puts into the ring, if it does not have to wait.
    pub open spec fn puts(self, start: int, capacity: int, op: RingOp) -> Seq<Seq<u8>> {
        match op {
            RingOp::Send { message, seen_consumed } if self.can_send(
                capacity,
                message,
                seen_consumed,
            ) => seq![message],
            _ => Seq::empty(),
        }
    }

    /// The message that an operation takes out of the ring, if it does not have to wait.
    pub open spec fn takes(self, start: int, capacity: int, op: RingOp) -> Seq<Seq<u8>> {
        match op {
            RingOp::Receive { seen_written } if self.can_receive(
                start,
                capacity,
                seen_written,
            ) => seq![self.next_message(start, capacity)],
            _ => Seq::empty(),
        }
    }

    /// The messages that a run of operations put into the ring.
    pub open spec fn sent(self, start: int, capacity: int, ops: Seq<RingOp>) -> Seq<Seq<u8>>
        decreases ops.len(),
    {
        if ops.len() == 0 {
            Seq::empty()
        } else {
            self.sent(start, capacity, ops.drop_last()) + self.after(
                start,
                capacity,
                ops.drop_last(),
            ).puts(start, capacity, ops.last())
        }
    }

    /// The messages that a run of operations took out of the ring.
    pub open spec fn received(self, start: int, capacity: int, ops: Seq<RingOp>) -> Seq<Seq<u8>>
        decreases ops.len(),
    {
        if ops.len() == 0 {
            Seq::empty()
        } else {
            self.received(start, capacity, ops.drop_last()) + self.after(
                start,
                capacity,
                ops.drop_last(),
            ).takes(start, capacity, ops.last())
        }
    }
}

/// The bytes that messages take up in a ring, each with its prefix.
pub open spec fn bytes_of(messages: Seq<Seq<u8>>) -> int
    decreases messages.len(),
{
    if messages.len() == 0 {
        0
    } else {
        bytes_of(messages.drop_last()) + MSG_HEADER_SIZE + messages.last().len()
    }
}

/// Messages in two lists take up the bytes of both.
pub proof fn lemma_bytes_join(first: Seq<Seq<u8>>, second: Seq<Seq<u8>>)
    ensures
        bytes_of(first + second) == bytes_of(first) + bytes_of(second),
    decreases second.len(),
{
    if second.len() == 0 {
        assert(first + second =~= first);
    } else {
        assert((first + second).drop_last() =~= first + second.drop_last());
        lemma_bytes_join(first, second.drop_last());
    }
}

/// The message that goes with an operation has a length that fits a prefix.
pub open spec fn op_is_sound(op: RingOp) -> bool {
    op matches RingOp::Send { message, .. } ==> message.len() <= u32::MAX
}

/// One operation on a ring: what it puts in joins the waiting messages as the last, what it
/// takes out was the first of them, and the cursors move by the bytes of these messages.
pub proof fn law_step(
    state: RingState,
    start: int,
    capacity: int,
    op: RingOp,
    waiting: Seq<Seq<u8>>,
) -> (left: Seq<Seq<u8>>)
    requires
        0 <= start,
        start + capacity <= state.mem.len(),
        ring_holds(state.mem, start, capacity, state.written, state.consumed, waiting),
        state.has_seen(op),
        op_is_sound(op),
    ensures
        ({
            let after = state.step(start, capacity, op);
            &&& waiting + state.puts(start, capacity, op) == state.takes(start, capacity, op) + left
            &&& ring_holds(after.mem, start, capacity, after.written, after.consumed, left)
            &&& after.mem.len() == state.mem.len()
            &&& after.written == state.written + bytes_of(state.puts(start, capacity, op))
            &&& after.consumed == state.consumed + bytes_of(state.takes(start, capacity, op))
        }),
{
    reveal_with_fuel(bytes_of, 2);
    let (mem, written, consumed) = (state.mem, state.written, state.consumed);
    match op {
        RingOp::Send { message, seen_consumed } => {
            if state.can_send(capacity, message, seen_consumed) {
                law_send_appends(mem, start, capacity, written, consumed, waiting, message);
                assert(seq![message].drop_last() =~= Seq::empty());
                let left = waiting.push(message);
                assert(waiting + seq![message] =~= Seq::<Seq<u8>>::empty() + left);
                left
            } else {
                assert(waiting + Seq::empty() =~= Seq::<Seq<u8>>::empty() + waiting);
                waiting
            }
        },
        RingOp::Receive { seen_written } => {
            if state.can_receive(start, capacity, seen_written) {
                law_empty_means_cursors_meet(mem, start, capacity, written, consumed, waiting);
                law_receive_takes_first(mem, start, capacity, written, consumed, waiting);
                let message = state.next_message(start, capacity);
                assert(seq![message].drop_last() =~= Seq::empty());
                let left = waiting.drop_first();
                assert(waiting + Seq::empty() =~= seq![message] + left);
                left
            } else {
                assert(waiting + Seq::empty() =~= Seq::<Seq<u8>>::empty() + waiting);
                waiting
            }
        },
    }
}

/// Every run of sends and receives on a ring that starts empty takes messages out in the order
/// in which they went in, each of them once, whole and unchanged, and what was sent and not yet
/// received waits in the ring. The cursors count the bytes of all the messages sent and
/// received, prefixes included. A reader that sees the writer's cursor as it is has to wait only
/// when nothing waits there.
pub proof fn law_fifo(
    fresh: RingState,
    start: int,
    capacity: int,
    ops: Seq<RingOp>,
) -> (waiting: Seq<Seq<u8>>)
    requires
        0 <= start,
        0 < capacity,
        start + capacity <= fresh.mem.len(),
        fresh.written == fresh.consumed,
        fresh.is_run(start, capacity, ops),
        forall|i: int| 0 <= i < ops.len() ==> op_is_sound(#[trigger] ops[i]),
    ensures
        fresh.sent(start, capacity, ops) == fresh.received(start, capacity, ops) + waiting,
        forall|i: int|
            0 <= i < fresh.received(start, capacity, ops).len() ==> #[trigger] fresh.received(
                start,
                capacity,
                ops,
            )[i] == fresh.sent(start, capacity, ops)[i],
        ring_holds(
            fresh.after(start, capacity, ops).mem,
            start,
            capacity,
            fresh.after(start, capacity, ops).written,
            fresh.after(start, capacity, ops).consumed,
            waiting,
        ),
        fresh.after(start, capacity, ops).written == fresh.written + bytes_of(
            fresh.sent(start, capacity, ops),
        ),
        fresh.after(start, capacity, ops).consumed == fresh.consumed + bytes_of(
            fresh.received(start, capacity, ops),
        ),
        fresh.after(start, capacity, ops).can_receive(
            start,
            capacity,
            fresh.after(start, capacity, ops).written,
        ) <==> waiting.len() > 0,
        fresh.after(start, capacity, ops).mem.len() == fresh.mem.len(),
    decreases ops.len(),
{
    let end = fresh.after(start, capacity, ops);
    let sent = fresh.sent(start, capacity, ops);
    let received = fresh.received(start, capacity, ops);
    let waiting = if ops.len() == 0 {
        law_fresh_ring_is_empty(fresh.mem, start, capacity, fresh.consumed);
        Seq::empty()
    } else {
        let earlier = ops.drop_last();
        let op = ops.last();
        let before = fresh.after(start, capacity, earlier);
        assert forall|i: int| 0 <= i < earlier.len() implies op_is_sound(#[trigger] earlier[i]) by {
            assert(earlier[i] == ops[i]);
        }
        assert(op_is_sound(ops[ops.len() - 1]));
        let held = law_fifo(fresh, start, capacity, earlier);
        let left = law_step(before, start, capacity, op, held);
        let (puts, takes) = (
            before.puts(start, capacity, op),
            before.takes(start, capacity, op),
        );
        lemma_bytes_join(fresh.sent(start, capacity, earlier), puts);
        lemma_bytes_join(fresh.received(start, capacity, earlier), takes);
        assert(sent =~= fresh.received(start, capacity, earlier) + (held + puts));
        assert(sent =~= received + left);
        left
    };
    law_empty_means_cursors_meet(end.mem, start, capacity, end.written, end.consumed, waiting);
    if waiting.len() > 0 {
        law_receive_takes_first(end.mem, start, capacity, end.written, end.consumed, waiting);
    }
    waiting
}

/// No operation moves a cursor back.
pub proof fn law_cursors_never_go_back(
    fresh: RingState,
    start: int,
    capacity: int,
    ops: Seq<RingOp>,
    more: Seq<RingOp>,
)
    ensures
        fresh.after(start, capacity, ops).written <= fresh.after(
            start,
            capacity,
            ops + more,
        ).written,
        fresh.after(start, capacity, ops).consumed <= fresh.after(
            start,
            capacity,
            ops + more,
        ).consumed,
    decreases more.len(),
{
    if more.len() == 0 {
        assert(ops + more =~= ops);
    } else {
        assert((ops + more).drop_last() =~= ops + more.drop_last());
        law_cursors_never_go_back(fresh, start, capacity, ops, more.drop_last());
    }
}

/// An attempt to send is a step of the ring: what it makes of the memory, and where it wants the
/// write cursor, is the next state.
pub proof fn law_send_is_a_step(
    state: RingState,
    start: int,
    capacity: int,
    seen_consumed: int,
    message: Seq<u8>,
    sent: Option<u64>,
    after: Seq<u8>,
)
    requires
        ring_sends(
            state.mem,
            start,
            capacity,
            state.written,
            seen_consumed,
            message,
            sent,
            after,
        ),
    ensures
        state.step(start, capacity, RingOp::Send { message, seen_consumed }) == (RingState {
            mem: after,
            written: match sent {
                Some(cursor) => cursor as int,
                None => state.written,
            },
            consumed: state.consumed,
        }),
        state.puts(start, capacity, RingOp::Send { message, seen_consumed }) == match sent {
            Some(_) => seq![message],
            None => Seq::empty(),
        },
{
}

/// The length that a reader finds is that of the next message. A reader that finds none has to
/// wait.
pub proof fn law_announced_length_is_next(
    state: RingState,
    start: int,
    capacity: int,
    seen_written: int,
    len: Option<usize>,
)
    requires
        ring_announces(state.mem, start, capacity, seen_written, state.consumed, len),
    ensures
        len matches Some(n) ==> n == state.next_len(start, capacity),
        len is None ==> state.step(start, capacity, RingOp::Receive { seen_written }) == state,
{
}

/// An attempt to receive a message of the length that was found is a step of the ring: where it
/// wants the read cursor is the next state, and the buffer gets the message that the step takes
/// out, all of it if there is room.
pub proof fn law_receive_is_a_step(
    state: RingState,
    start: int,
    capacity: int,
    seen_written: int,
    held: Seq<u8>,
    received: Option<Received>,
    left: Seq<u8>,
)
    requires
        ring_receives(
            state.mem,
            start,
            capacity,
            seen_written,
            state.consumed,
            state.next_len(start, capacity),
            held,
            received,
            left,
        ),
    ensures
        state.step(start, capacity, RingOp::Receive { seen_written }) == (RingState {
            mem: state.mem,
            written: state.written,
            consumed: match received {
                Some(message) => message.cursor as int,
                None => state.consumed,
            },
        }),
        match received {
            Some(message) => {
                let taken = state.next_message(start, capacity);
                &&& state.takes(start, capacity, RingOp::Receive { seen_written }) == seq![taken]
                &&& message.len == delivered_len(taken.len(), held.len())
                &&& left == filled(held, taken, message.len as nat)
                &&& taken.len() <= held.len() ==> message.len == taken.len() && left.take(
                    message.len as int,
                ) == taken
            },
            None => {
                &&& state.takes(start, capacity, RingOp::Receive { seen_written }) == Seq::<
                    Seq<u8>,
                >::empty()
                &&& left == held
            },
        },
{
    if let Some(message) = received {
        let taken = state.next_message(start, capacity);
        let n = message.len as int;
        lemma_slice_take(
            state.mem,
            start,
            capacity,
            state.consumed + MSG_HEADER_SIZE,
            taken.len() as int,
            n,
        );
        assert(taken.take(n).take(n) =~= taken.take(n));
        if taken.len() <= held.len() {
            assert(left.take(n) =~= taken);
        }
    }
}

/// A length that a reader has found stays true until the reader takes the message: whatever the
/// writer sends meanwhile.
pub proof fn law_announced_length_stays(
    state: RingState,
    start: int,
    capacity: int,
    seen_written: int,
    ops: Seq<RingOp>,
)
    requires
        0 <= start,
        0 < capacity,
        start + capacity <= state.mem.len(),
        state.consumed <= seen_written <= state.written <= state.consumed + capacity,
        seen_written - state.consumed >= MSG_HEADER_SIZE,
        state.is_run(start, capacity, ops),
        forall|i: int| 0 <= i < ops.len() ==> #[trigger] ops[i] is Send && op_is_sound(ops[i]),
    ensures
        ({
            let after = state.after(start, capacity, ops);
            &&& after.consumed == state.consumed
            &&& state.written <= after.written <= state.consumed + capacity
            &&& after.mem.len() == state.mem.len()
            &&& after.next_len(start, capacity) == state.next_len(start, capacity)
        }),
    decreases ops.len(),
{
    if ops.len() > 0 {
        let earlier = ops.drop_last();
        assert forall|i: int| 0 <= i < earlier.len() implies #[trigger] earlier[i] is Send
            && op_is_sound(earlier[i]) by {
            assert(earlier[i] == ops[i]);
        }
        law_announced_length_stays(state, start, capacity, seen_written, earlier);
        let before = state.after(start, capacity, earlier);
        assert(ops[ops.len() - 1] is Send);
        if let RingOp::Send { message, seen_consumed } = ops.last() {
            if before.can_send(capacity, message, seen_consumed) {
                let after = before.step(start, capacity, ops.last());
                let (written, consumed) = (before.written, before.consumed);
                lemma_frame_parts(message);
                law_write_keeps_unread(
                    before.mem,
                    start,
                    capacity,
                    written,
                    consumed,
                    frame(message),
                );
                let len = written - consumed;
                let n = MSG_HEADER_SIZE as int;
                lemma_slice_take(before.mem, start, capacity, consumed, len, n);
                lemma_slice_take(after.mem, start, capacity, consumed, len, n);
            }
        }
    }
}

/// A ring whose cursors meet, such as one whose cursors were just set to 0, holds no message,
/// whatever its memory holds.
pub proof fn law_fresh_ring_is_empty(mem: Seq<u8>, start: int, capacity: int, cursor: int)
    requires
        0 < capacity,
    ensures
        ring_holds(mem, start, capacity, cursor, cursor, Seq::empty()),
{
    assert(ring_slice(mem, start, capacity, cursor, 0) =~= frames(Seq::empty()));
}

/// An empty ring takes every message that is not longer than the ring, prefix included. So a
/// writer that waits for room gets it once the reader has caught up.
pub proof fn law_empty_ring_takes_any_fitting(state: RingState, capacity: int, message: Seq<u8>)
    requires
        state.written == state.consumed,
    ensures
        state.can_send(capacity, message, state.consumed) <==> MSG_HEADER_SIZE + message.len()
            <= capacity,
{
}

/// How far the writer has seen the reader go in a run, and the reader the writer: what the last
/// send and the last receive saw, or where the ring started.
pub open spec fn last_seen(origin: int, ops: Seq<RingOp>) -> (int, int)
    decreases ops.len(),
{
    if ops.len() == 0 {
        (origin, origin)
    } else {
        let (consumed, written) = last_seen(origin, ops.drop_last());
        match ops.last() {
            RingOp::Send { message, seen_consumed } => (seen_consumed, written),
            RingOp::Receive { seen_written } => (consumed, seen_written),
        }
    }
}

/// Neither process ever sees a cursor go back.
pub open spec fn sees_no_cursor_go_back(origin: int, ops: Seq<RingOp>) -> bool
    decreases ops.len(),
{
    ops.len() > 0 ==> {
        let (consumed, written) = last_seen(origin, ops.drop_last());
        &&& sees_no_cursor_go_back(origin, ops.drop_last())
        &&& match ops.last() {
            RingOp::Send { message, seen_consumed } => consumed <= seen_consumed,
            RingOp::Receive { seen_written } => written <= seen_written,
        }
    }
}

/// As long as neither process sees a cursor go back, the writer never sees more than a ring
/// full of unread bytes, and neither process sees the reader ahead of the writer. So the cursors
/// that they go by are always such that they may take a step.
pub proof fn law_views_stay_consistent(
    fresh: RingState,
    start: int,
    capacity: int,
    ops: Seq<RingOp>,
)
    requires
        0 <= capacity,
        fresh.written == fresh.consumed,
        fresh.is_run(start, capacity, ops),
        sees_no_cursor_go_back(fresh.consumed, ops),
    ensures
        ({
            let end = fresh.after(start, capacity, ops);
            let (consumed, written) = last_seen(fresh.consumed, ops);
            &&& consumed <= end.consumed <= written <= end.written
            &&& end.written - consumed <= capacity
        }),
    decreases ops.len(),
{
    if ops.len() > 0 {
        law_views_stay_consistent(fresh, start, capacity, ops.drop_last());
    }
}

} // verus!
