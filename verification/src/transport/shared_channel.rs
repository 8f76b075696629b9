//! Both ends of a channel through shared memory, over any run of sends and receives.

use vstd::arithmetic::div_mod::lemma_mod_bound;
use vstd::prelude::*;

use crate::fifo::{
    bytes_of, last_seen, law_announced_length_is_next, law_announced_length_stays,
    law_fresh_ring_is_empty, law_receive_is_a_step, law_send_is_a_step, law_step, lemma_bytes_join,
    op_is_sound, sees_no_cursor_go_back, RingOp, RingState,
};
use crate::frame::{delivered_len, filled, frame, MSG_HEADER_SIZE};
use crate::ring::{
    announced, law_empty_means_cursors_meet, law_receive_takes_first, law_same_rings_read_alike,
    law_same_rings_write_alike, ring_announces, ring_holds, ring_receives, ring_sends, ring_slice,
    ring_takes, ring_written, same_ring, Received,
};
use crate::transport::ring_layout::{used, RingHeader, RingLayout, RING_DATA_SIZE};
use crate::transport::shared_mem::{data_start, peer, read_ring, shm_total, write_ring};
use crate::transport::Role;

verus! {

/// How far the two ends have come with one ring.
pub struct Cursors {
    pub written: int,
    pub consumed: int,
}

/// A shared memory and the cursors of its two rings, each named after the end that writes it.
#[verifier::ext_equal]
pub struct SharedState {
    pub mem: Seq<u8>,
    pub server: Cursors,
    pub client: Cursors,
}

/// What one end of the channel tries.
pub struct ChannelOp {
    pub role: Role,
    pub op: RingOp,
}

/// The end that writes the ring on which an operation works.
pub open spec fn writer(step: ChannelOp) -> Role {
    match step.op {
        RingOp::Send { .. } => step.role,
        RingOp::Receive { .. } => peer(step.role),
    }
}

/// Where the data of the ring lies that `role` writes.
pub open spec fn ring_start<L: RingLayout>(role: Role) -> int {
    data_start::<L>(write_ring::<L>(role))
}

impl SharedState {
    /// The ring that `role` writes.
    pub open spec fn ring(self, role: Role) -> RingState {
        let cursors = match role {
            Role::Server => self.server,
            Role::Client => self.client,
        };
        RingState { mem: self.mem, written: cursors.written, consumed: cursors.consumed }
    }

    /// The state with another ring in place of the one that `role` writes.
    pub open spec fn with_ring(self, role: Role, ring: RingState) -> SharedState {
        let cursors = Cursors { written: ring.written, consumed: ring.consumed };
        match role {
            Role::Server => SharedState { mem: ring.mem, server: cursors, client: self.client },
            Role::Client => SharedState { mem: ring.mem, server: self.server, client: cursors },
        }
    }

    /// No message is under way.
    pub open spec fn is_fresh(self) -> bool {
        self.server.written == self.server.consumed && self.client.written == self.client.consumed
    }

    /// The state after one operation; one that has to wait changes nothing.
    pub open spec fn step<L: RingLayout>(self, step: ChannelOp) -> SharedState {
        let role = writer(step);
        self.with_ring(
            role,
            self.ring(role).step(ring_start::<L>(role), RING_DATA_SIZE as int, step.op),
        )
    }

    /// The state after a run of operations.
    pub open spec fn after<L: RingLayout>(self, steps: Seq<ChannelOp>) -> SharedState
        decreases steps.len(),
    {
        if steps.len() == 0 {
            self
        } else {
            self.after::<L>(steps.drop_last()).step::<L>(steps.last())
        }
    }

    /// Every operation of a run goes by cursors that it has seen.
    pub open spec fn is_run<L: RingLayout>(self, steps: Seq<ChannelOp>) -> bool
        decreases steps.len(),
    {
        steps.len() > 0 ==> {
            let step = steps.last();
            &&& self.is_run::<L>(steps.drop_last())
            &&& self.after::<L>(steps.drop_last()).ring(writer(step)).has_seen(step.op)
            &&& op_is_sound(step.op)
        }
    }

    /// The message that an operation puts into the ring that `role` writes.
    pub open spec fn puts<L: RingLayout>(self, role: Role, step: ChannelOp) -> Seq<Seq<u8>> {
        if writer(step) == role {
            self.ring(role).puts(ring_start::<L>(role), RING_DATA_SIZE as int, step.op)
        } else {
            Seq::empty()
        }
    }

    /// The message that an operation takes out of the ring that `role` writes.
    pub open spec fn takes<L: RingLayout>(self, role: Role, step: ChannelOp) -> Seq<Seq<u8>> {
        if writer(step) == role {
            self.ring(role).takes(ring_start::<L>(role), RING_DATA_SIZE as int, step.op)
        } else {
            Seq::empty()
        }
    }

    /// The messages that `role` sent in a run.
    pub open spec fn sent<L: RingLayout>(
        self,
        role: Role,
        steps: Seq<ChannelOp>,
    ) -> Seq<Seq<u8>>
        decreases steps.len(),
    {
        if steps.len() == 0 {
            Seq::empty()
        } else {
            self.sent::<L>(role, steps.drop_last()) + self.after::<L>(steps.drop_last()).puts::<L>(
                role,
                steps.last(),
            )
        }
    }

    /// The messages of `role` that its peer received in a run.
    pub open spec fn delivered<L: RingLayout>(
        self,
        role: Role,
        steps: Seq<ChannelOp>,
    ) -> Seq<Seq<u8>>
        decreases steps.len(),
    {
        if steps.len() == 0 {
            Seq::empty()
        } else {
            self.delivered::<L>(role, steps.drop_last()) + self.after::<L>(
                steps.drop_last(),
            ).takes::<L>(role, steps.last())
        }
    }
}

/// `waiting` are the messages of `role` that wait in its ring.
pub open spec fn waits<L: RingLayout>(
    state: SharedState,
    role: Role,
    waiting: Seq<Seq<u8>>,
) -> bool {
    ring_holds(
        state.mem,
        ring_start::<L>(role),
        RING_DATA_SIZE as int,
        state.ring(role).written,
        state.ring(role).consumed,
        waiting,
    )
}

/// An operation on one ring leaves the other as it is.
proof fn lemma_rings_are_apart<L: RingLayout>(
    state: SharedState,
    step: ChannelOp,
    other: Role,
    waiting: Seq<Seq<u8>>,
)
    requires
        shm_total::<L>() <= state.mem.len(),
        other != writer(step),
        waits::<L>(state, other, waiting),
    ensures
        waits::<L>(state.step::<L>(step), other, waiting),
        state.step::<L>(step).ring(other).written == state.ring(other).written,
        state.step::<L>(step).ring(other).consumed == state.ring(other).consumed,
{
    let after = state.step::<L>(step);
    let start = ring_start::<L>(other);
    let size = RING_DATA_SIZE as int;
    let (w, c) = (state.ring(other).written, state.ring(other).consumed);
    assert forall|i: int| 0 <= i < w - c implies #[trigger] after.mem[start + (c + i) % size]
        == state.mem[start + (c + i) % size] by {
        lemma_mod_bound(c + i, size);
    }
    assert(ring_slice(after.mem, start, size, c, w - c) =~= ring_slice(
        state.mem,
        start,
        size,
        c,
        w - c,
    ));
}

/// One operation, seen from the ring that `role` writes, whichever ring it works on. `busy` are
/// the messages that wait in the ring on which it works.
proof fn lemma_channel_step<L: RingLayout>(
    state: SharedState,
    step: ChannelOp,
    role: Role,
    waiting: Seq<Seq<u8>>,
    busy: Seq<Seq<u8>>,
) -> (left: Seq<Seq<u8>>)
    requires
        shm_total::<L>() <= state.mem.len(),
        waits::<L>(state, role, waiting),
        waits::<L>(state, writer(step), busy),
        state.ring(writer(step)).has_seen(step.op),
        op_is_sound(step.op),
    ensures
        waiting + state.puts::<L>(role, step) == state.takes::<L>(role, step) + left,
        waits::<L>(state.step::<L>(step), role, left),
        state.step::<L>(step).mem.len() == state.mem.len(),
        state.step::<L>(step).ring(role).written == state.ring(role).written + bytes_of(
            state.puts::<L>(role, step),
        ),
        state.step::<L>(step).ring(role).consumed == state.ring(role).consumed + bytes_of(
            state.takes::<L>(role, step),
        ),
{
    let size = RING_DATA_SIZE as int;
    let from = writer(step);
    if from == role {
        law_step(state.ring(role), ring_start::<L>(role), size, step.op, waiting)
    } else {
        let _ = law_step(state.ring(from), ring_start::<L>(from), size, step.op, busy);
        lemma_rings_are_apart::<L>(state, step, role, waiting);
        assert(waiting + Seq::empty() =~= Seq::<Seq<u8>>::empty() + waiting);
        waiting
    }
}

/// What goes in joins what waits, and what comes out leaves it.
proof fn lemma_queue_step(
    sent: Seq<Seq<u8>>,
    delivered: Seq<Seq<u8>>,
    waiting: Seq<Seq<u8>>,
    puts: Seq<Seq<u8>>,
    takes: Seq<Seq<u8>>,
    left: Seq<Seq<u8>>,
)
    requires
        sent == delivered + waiting,
        waiting + puts == takes + left,
    ensures
        sent + puts == delivered + takes + left,
        bytes_of(sent + puts) == bytes_of(sent) + bytes_of(puts),
        bytes_of(delivered + takes) == bytes_of(delivered) + bytes_of(takes),
{
    lemma_bytes_join(sent, puts);
    lemma_bytes_join(delivered, takes);
    assert(sent + puts =~= delivered + (waiting + puts));
    assert(sent + puts =~= delivered + takes + left);
}

/// The queue that a run leaves in the ring that `role` writes.
proof fn lemma_channel_run<L: RingLayout>(
    fresh: SharedState,
    role: Role,
    steps: Seq<ChannelOp>,
) -> (waiting: Seq<Seq<u8>>)
    requires
        shm_total::<L>() <= fresh.mem.len(),
        fresh.is_fresh(),
        fresh.is_run::<L>(steps),
    ensures
        fresh.sent::<L>(role, steps) == fresh.delivered::<L>(role, steps) + waiting,
        waits::<L>(fresh.after::<L>(steps), role, waiting),
        fresh.after::<L>(steps).ring(role).written == fresh.ring(role).written + bytes_of(
            fresh.sent::<L>(role, steps),
        ),
        fresh.after::<L>(steps).ring(role).consumed == fresh.ring(role).consumed + bytes_of(
            fresh.delivered::<L>(role, steps),
        ),
        fresh.after::<L>(steps).mem.len() == fresh.mem.len(),
    decreases steps.len(),
{
    if steps.len() == 0 {
        law_fresh_ring_is_empty(
            fresh.mem,
            ring_start::<L>(role),
            RING_DATA_SIZE as int,
            fresh.ring(role).consumed,
        );
        Seq::empty()
    } else {
        let earlier = steps.drop_last();
        let step = steps.last();
        let before = fresh.after::<L>(earlier);
        let waiting = lemma_channel_run::<L>(fresh, role, earlier);
        let busy = lemma_channel_run::<L>(fresh, writer(step), earlier);
        let left = lemma_channel_step::<L>(before, step, role, waiting, busy);
        lemma_queue_step(
            fresh.sent::<L>(role, earlier),
            fresh.delivered::<L>(role, earlier),
            waiting,
            before.puts::<L>(role, step),
            before.takes::<L>(role, step),
            left,
        );
        left
    }
}

/// Every run of sends and receives of the two ends of a fresh channel, in whatever order they
/// come, delivers the messages of either end in the order in which they were sent: the i-th that
/// was received is the i-th that was sent, whole and unchanged. What was sent and not yet
/// received waits in the ring. At all times the cursors of both rings have moved by the bytes of
/// all the messages sent and received, prefixes included, and never lie more than a ring apart.
/// An end that sees its peer's cursor as it is has to wait only when no message is there.
pub proof fn law_channel_delivers_in_order<L: RingLayout>(
    fresh: SharedState,
    role: Role,
    steps: Seq<ChannelOp>,
) -> (waiting: Seq<Seq<u8>>)
    requires
        shm_total::<L>() <= fresh.mem.len(),
        fresh.is_fresh(),
        fresh.is_run::<L>(steps),
    ensures
        fresh.sent::<L>(role, steps) == fresh.delivered::<L>(role, steps) + waiting,
        forall|i: int|
            0 <= i < fresh.delivered::<L>(role, steps).len() ==> #[trigger] fresh.delivered::<L>(
                role,
                steps,
            )[i] == fresh.sent::<L>(role, steps)[i],
        waits::<L>(fresh.after::<L>(steps), role, waiting),
        ({
            let ring = fresh.after::<L>(steps).ring(role);
            let origin = fresh.ring(role);
            &&& ring.consumed <= ring.written <= ring.consumed + RING_DATA_SIZE
            &&& ring.written == origin.written + bytes_of(fresh.sent::<L>(role, steps))
            &&& ring.consumed == origin.consumed + bytes_of(fresh.delivered::<L>(role, steps))
            &&& ring.can_receive(ring_start::<L>(role), RING_DATA_SIZE as int, ring.written)
                <==> waiting.len() > 0
        }),
        fresh.after::<L>(steps).mem.len() == fresh.mem.len(),
{
    let waiting = lemma_channel_run::<L>(fresh, role, steps);
    let ring = fresh.after::<L>(steps).ring(role);
    lemma_waiting_can_be_received(ring, ring_start::<L>(role), waiting);
    waiting
}

/// Whoever sees a ring as it is can receive from it just when messages wait in it.
proof fn lemma_waiting_can_be_received(ring: RingState, start: int, waiting: Seq<Seq<u8>>)
    requires
        ring_holds(
            ring.mem,
            start,
            RING_DATA_SIZE as int,
            ring.written,
            ring.consumed,
            waiting,
        ),
    ensures
        ring.can_receive(start, RING_DATA_SIZE as int, ring.written) <==> waiting.len() > 0,
{
    let size = RING_DATA_SIZE as int;
    law_empty_means_cursors_meet(ring.mem, start, size, ring.written, ring.consumed, waiting);
    if waiting.len() > 0 {
        law_receive_takes_first(ring.mem, start, size, ring.written, ring.consumed, waiting);
    }
}

/// No operation of either end moves a cursor back.
pub proof fn law_channel_cursors_never_go_back<L: RingLayout>(
    fresh: SharedState,
    role: Role,
    steps: Seq<ChannelOp>,
    more: Seq<ChannelOp>,
)
    ensures
        fresh.after::<L>(steps).ring(role).written <= fresh.after::<L>(steps + more).ring(
            role,
        ).written,
        fresh.after::<L>(steps).ring(role).consumed <= fresh.after::<L>(steps + more).ring(
            role,
        ).consumed,
    decreases more.len(),
{
    if more.len() == 0 {
        assert(steps + more =~= steps);
    } else {
        assert((steps + more).drop_last() =~= steps + more.drop_last());
        law_channel_cursors_never_go_back::<L>(fresh, role, steps, more.drop_last());
    }
}

/// The operations of a run on the ring that `role` writes.
pub open spec fn ops_on(role: Role, steps: Seq<ChannelOp>) -> Seq<RingOp>
    decreases steps.len(),
{
    if steps.len() == 0 {
        Seq::empty()
    } else {
        let earlier = ops_on(role, steps.drop_last());
        if writer(steps.last()) == role {
            earlier.push(steps.last().op)
        } else {
            earlier
        }
    }
}

/// As long as neither end sees a cursor go back, the writer of a ring never sees more than a
/// ring full of unread bytes, and neither end sees the reader ahead of the writer. So the
/// cursors that they go by are always such that they may take a step.
pub proof fn law_channel_views_stay_consistent<L: RingLayout>(
    fresh: SharedState,
    role: Role,
    steps: Seq<ChannelOp>,
)
    requires
        fresh.is_fresh(),
        fresh.is_run::<L>(steps),
        sees_no_cursor_go_back(fresh.ring(role).consumed, ops_on(role, steps)),
    ensures
        ({
            let end = fresh.after::<L>(steps).ring(role);
            let (consumed, written) = last_seen(fresh.ring(role).consumed, ops_on(role, steps));
            &&& consumed <= end.consumed <= written <= end.written
            &&& end.written - consumed <= RING_DATA_SIZE
        }),
    decreases steps.len(),
{
    if steps.len() > 0 {
        let earlier = steps.drop_last();
        let ops = ops_on(role, earlier);
        if writer(steps.last()) == role {
            assert(ops.push(steps.last().op).drop_last() =~= ops);
        }
        law_channel_views_stay_consistent::<L>(fresh, role, earlier);
    }
}

/// `send_step` of either end, and `send` where it does not refuse the message, is a step of the
/// channel: with the cursors that it was given, what it makes of the memory, and where it wants
/// the write cursor, is the next state.
pub proof fn law_send_step_is_a_channel_step<L: RingLayout>(
    state: SharedState,
    role: Role,
    header: L::Header,
    buf: Seq<u8>,
    sent: Option<u64>,
    after: Seq<u8>,
)
    requires
        header.written() == state.ring(role).written,
        ring_sends(
            state.mem,
            data_start::<L>(write_ring::<L>(role)),
            RING_DATA_SIZE as int,
            header.written() as int,
            header.consumed() as int,
            buf,
            sent,
            after,
        ),
    ensures
        ({
            let step = ChannelOp {
                role,
                op: RingOp::Send { message: buf, seen_consumed: header.consumed() as int },
            };
            let next = RingState {
                mem: after,
                written: match sent {
                    Some(cursor) => cursor as int,
                    None => state.ring(role).written,
                },
                consumed: state.ring(role).consumed,
            };
            &&& state.step::<L>(step) == state.with_ring(role, next)
            &&& state.puts::<L>(role, step) == match sent {
                Some(_) => seq![buf],
                None => Seq::empty(),
            }
        }),
{
    law_send_is_a_step(
        state.ring(role),
        ring_start::<L>(role),
        RING_DATA_SIZE as int,
        header.consumed() as int,
        buf,
        sent,
        after,
    );
}

/// `recv_length` of either end finds the length of the next message, with the cursors that it
/// was given; where it finds none, the end has to wait.
pub proof fn law_recv_length_finds_the_next<L: RingLayout>(
    state: SharedState,
    role: Role,
    header: L::Header,
    len: Option<usize>,
)
    requires
        header.consumed() == state.ring(peer(role)).consumed,
        ring_announces(
            state.mem,
            data_start::<L>(read_ring::<L>(role)),
            RING_DATA_SIZE as int,
            header.written() as int,
            header.consumed() as int,
            len,
        ),
    ensures
        len matches Some(n) ==> n == state.ring(peer(role)).next_len(
            ring_start::<L>(peer(role)),
            RING_DATA_SIZE as int,
        ),
        len is None ==> state.step::<L>(
            ChannelOp { role, op: RingOp::Receive { seen_written: header.written() as int } },
        ) == state,
{
    law_announced_length_is_next(
        state.ring(peer(role)),
        ring_start::<L>(peer(role)),
        RING_DATA_SIZE as int,
        header.written() as int,
        len,
    );
}

/// `recv_step` of either end is a step of the channel: with the cursors that it was given and
/// the length that was found, where it wants the read cursor is the next state, and the buffer
/// gets the message that the step takes out, all of it if there is room.
pub proof fn law_recv_step_is_a_channel_step<L: RingLayout>(
    state: SharedState,
    role: Role,
    header: L::Header,
    data_len: nat,
    held: Seq<u8>,
    received: Option<Received>,
    left: Seq<u8>,
)
    requires
        header.consumed() == state.ring(peer(role)).consumed,
        data_len == state.ring(peer(role)).next_len(
            ring_start::<L>(peer(role)),
            RING_DATA_SIZE as int,
        ),
        ring_receives(
            state.mem,
            data_start::<L>(read_ring::<L>(role)),
            RING_DATA_SIZE as int,
            header.written() as int,
            header.consumed() as int,
            data_len,
            held,
            received,
            left,
        ),
    ensures
        ({
            let step = ChannelOp {
                role,
                op: RingOp::Receive { seen_written: header.written() as int },
            };
            let next = RingState {
                mem: state.mem,
                written: state.ring(peer(role)).written,
                consumed: match received {
                    Some(message) => message.cursor as int,
                    None => state.ring(peer(role)).consumed,
                },
            };
            let takes = state.takes::<L>(peer(role), step);
            &&& state.step::<L>(step) == state.with_ring(peer(role), next)
            &&& match received {
                Some(message) => {
                    &&& takes.len() == 1
                    &&& message.len == delivered_len(takes[0].len(), held.len())
                    &&& left == filled(held, takes[0], message.len as nat)
                    &&& takes[0].len() <= held.len() ==> message.len == takes[0].len()
                        && left.take(message.len as int) == takes[0]
                },
                None => takes.len() == 0 && left == held,
            }
        }),
{
    law_receive_is_a_step(
        state.ring(peer(role)),
        ring_start::<L>(peer(role)),
        RING_DATA_SIZE as int,
        header.written() as int,
        held,
        received,
        left,
    );
}

/// `recv` of either end is a step of the channel: with the cursors that it was given, where it
/// wants the read cursor is the next state, and the buffer gets the message that the step takes
/// out, all of it if there is room.
pub proof fn law_recv_is_a_channel_step<L: RingLayout>(
    state: SharedState,
    role: Role,
    header: L::Header,
    held: Seq<u8>,
    received: Option<Received>,
    left: Seq<u8>,
)
    requires
        header.consumed() == state.ring(peer(role)).consumed,
        ring_takes(
            state.mem,
            data_start::<L>(read_ring::<L>(role)),
            RING_DATA_SIZE as int,
            header.written() as int,
            header.consumed() as int,
            held,
            received,
            left,
        ),
    ensures
        ({
            let step = ChannelOp {
                role,
                op: RingOp::Receive { seen_written: header.written() as int },
            };
            let next = RingState {
                mem: state.mem,
                written: state.ring(peer(role)).written,
                consumed: match received {
                    Some(message) => message.cursor as int,
                    None => state.ring(peer(role)).consumed,
                },
            };
            let takes = state.takes::<L>(peer(role), step);
            &&& state.step::<L>(step) == state.with_ring(peer(role), next)
            &&& match received {
                Some(message) => {
                    &&& takes.len() == 1
                    &&& message.len == delivered_len(takes[0].len(), held.len())
                    &&& left == filled(held, takes[0], message.len as nat)
                    &&& takes[0].len() <= held.len() ==> message.len == takes[0].len()
                        && left.take(message.len as int) == takes[0]
                },
                None => takes.len() == 0 && left == held,
            }
        }),
{
    let ring = state.ring(peer(role));
    let start = ring_start::<L>(peer(role));
    let size = RING_DATA_SIZE as int;
    if header.written() - header.consumed() >= MSG_HEADER_SIZE {
        law_recv_step_is_a_channel_step::<L>(
            state,
            role,
            header,
            ring.next_len(start, size),
            held,
            received,
            left,
        );
    }
}

/// Cursors that are no more than a ring apart never make `recv` refuse a message.
pub proof fn law_recv_refuses_nothing_that_was_sent<L: RingLayout>(
    header: L::Header,
    len: nat,
    room: nat,
)
    requires
        used(&header) <= RING_DATA_SIZE,
        used(&header) >= MSG_HEADER_SIZE + len,
    ensures
        delivered_len(len, room) <= RING_DATA_SIZE,
{
}

/// A length that an end has found stays true until that end receives, whatever either end does
/// meanwhile. So the length may be read once and used later, with newer cursors.
pub proof fn law_found_length_stays<L: RingLayout>(
    state: SharedState,
    role: Role,
    seen_written: int,
    steps: Seq<ChannelOp>,
)
    requires
        shm_total::<L>() <= state.mem.len(),
        state.ring(peer(role)).consumed <= seen_written <= state.ring(peer(role)).written,
        state.ring(peer(role)).written <= state.ring(peer(role)).consumed + RING_DATA_SIZE,
        seen_written - state.ring(peer(role)).consumed >= MSG_HEADER_SIZE,
        state.is_run::<L>(steps),
        forall|i: int|
            0 <= i < steps.len() ==> !((#[trigger] steps[i]).role == role
                && steps[i].op is Receive),
    ensures
        ({
            let before = state.ring(peer(role));
            let after = state.after::<L>(steps).ring(peer(role));
            let start = ring_start::<L>(peer(role));
            &&& after.consumed == before.consumed
            &&& before.written <= after.written <= before.consumed + RING_DATA_SIZE
            &&& after.mem.len() == before.mem.len()
            &&& after.next_len(start, RING_DATA_SIZE as int) == before.next_len(
                start,
                RING_DATA_SIZE as int,
            )
        }),
    decreases steps.len(),
{
    let size = RING_DATA_SIZE as int;
    let from = peer(role);
    let start = ring_start::<L>(from);
    if steps.len() > 0 {
        let earlier = steps.drop_last();
        let step = steps.last();
        assert forall|i: int| 0 <= i < earlier.len() implies !((#[trigger] earlier[i]).role == role
            && earlier[i].op is Receive) by {
            assert(earlier[i] == steps[i]);
        }
        law_found_length_stays::<L>(state, role, seen_written, earlier);
        let before = state.after::<L>(earlier);
        let after = before.step::<L>(step);
        assert(steps[steps.len() - 1] == step);
        if writer(step) == from {
            let ops = seq![step.op];
            let ring = before.ring(from);
            reveal_with_fuel(RingState::after, 2);
            reveal_with_fuel(RingState::is_run, 2);
            assert(ops.drop_last() =~= Seq::empty());
            law_announced_length_stays(ring, start, size, seen_written, ops);
        } else {
            let c = before.ring(from).consumed;
            let n = MSG_HEADER_SIZE as int;
            assert forall|i: int| 0 <= i < n implies #[trigger] after.mem[start + (c + i) % size]
                == before.mem[start + (c + i) % size] by {
                lemma_mod_bound(c + i, size);
            }
            assert(ring_slice(after.mem, start, size, c, n) =~= ring_slice(
                before.mem,
                start,
                size,
                c,
                n,
            ));
        }
    }
}

/// Two channels, each with its own layout, hold the same bytes in their rings and have the same
/// cursors.
pub open spec fn alike<L1: RingLayout, L2: RingLayout>(
    left: SharedState,
    right: SharedState,
) -> bool {
    &&& left.server == right.server
    &&& left.client == right.client
    &&& shm_total::<L1>() <= left.mem.len()
    &&& shm_total::<L2>() <= right.mem.len()
    &&& forall|role: Role| #[trigger] rings_alike::<L1, L2>(left, right, role)
}

/// The rings that `role` writes in two channels hold the same bytes.
pub open spec fn rings_alike<L1: RingLayout, L2: RingLayout>(
    left: SharedState,
    right: SharedState,
    role: Role,
) -> bool {
    same_ring(
        left.mem,
        ring_start::<L1>(role),
        right.mem,
        ring_start::<L2>(role),
        RING_DATA_SIZE as int,
    )
}

/// Writing one ring of two channels alike keeps both pairs of rings alike.
proof fn lemma_writes_keep_alike<L1: RingLayout, L2: RingLayout>(
    left: SharedState,
    right: SharedState,
    role: Role,
    cursor: int,
    data: Seq<u8>,
    other: Role,
)
    requires
        alike::<L1, L2>(left, right),
    ensures
        same_ring(
            ring_written(
                left.mem,
                ring_start::<L1>(role),
                RING_DATA_SIZE as int,
                cursor,
                data,
            ),
            ring_start::<L1>(other),
            ring_written(
                right.mem,
                ring_start::<L2>(role),
                RING_DATA_SIZE as int,
                cursor,
                data,
            ),
            ring_start::<L2>(other),
            RING_DATA_SIZE as int,
        ),
{
    let size = RING_DATA_SIZE as int;
    let (l, r) = (ring_start::<L1>(role), ring_start::<L2>(role));
    assert(rings_alike::<L1, L2>(left, right, role));
    assert(rings_alike::<L1, L2>(left, right, other));
    if role == other {
        law_same_rings_write_alike(left.mem, l, right.mem, r, size, cursor, data);
    } else {
        let (lo, ro) = (ring_start::<L1>(other), ring_start::<L2>(other));
        let left_after = ring_written(left.mem, l, size, cursor, data);
        let right_after = ring_written(right.mem, r, size, cursor, data);
        assert(left_after.subrange(lo, lo + size) =~= left.mem.subrange(lo, lo + size));
        assert(right_after.subrange(ro, ro + size) =~= right.mem.subrange(ro, ro + size));
    }
}

/// A layout decides where the rings lie and how messages are copied into them, and nothing
/// else. An operation on two channels that are alike puts in and takes out the same, and the
/// channels are alike afterwards.
pub proof fn law_layouts_step_alike<L1: RingLayout, L2: RingLayout>(
    left: SharedState,
    right: SharedState,
    step: ChannelOp,
)
    requires
        alike::<L1, L2>(left, right),
    ensures
        alike::<L1, L2>(left.step::<L1>(step), right.step::<L2>(step)),
        forall|role: Role| #[trigger]
            left.puts::<L1>(role, step) == right.puts::<L2>(role, step),
        forall|role: Role| #[trigger]
            left.takes::<L1>(role, step) == right.takes::<L2>(role, step),
{
    let size = RING_DATA_SIZE as int;
    let busy = writer(step);
    let (l, r) = (left.ring(busy), right.ring(busy));
    let (ls, rs) = (ring_start::<L1>(busy), ring_start::<L2>(busy));
    assert(rings_alike::<L1, L2>(left, right, busy));
    let after_left = left.step::<L1>(step);
    let after_right = right.step::<L2>(step);
    match step.op {
        RingOp::Send { message, seen_consumed } => {
            assert forall|role: Role| #[trigger]
                rings_alike::<L1, L2>(after_left, after_right, role) by {
                assert(rings_alike::<L1, L2>(left, right, role));
                lemma_writes_keep_alike::<L1, L2>(
                    left,
                    right,
                    busy,
                    l.written,
                    frame(message),
                    role,
                );
            }
        },
        RingOp::Receive { seen_written } => {
            let header = MSG_HEADER_SIZE as int;
            law_same_rings_read_alike(left.mem, ls, right.mem, rs, size, l.consumed, header);
            law_same_rings_read_alike(
                left.mem,
                ls,
                right.mem,
                rs,
                size,
                l.consumed + header,
                l.next_len(ls, size) as int,
            );
            assert forall|role: Role| #[trigger]
                rings_alike::<L1, L2>(after_left, after_right, role) by {
                assert(rings_alike::<L1, L2>(left, right, role));
            }
        },
    }
}

/// The same run of operations on two channels that are alike, such as two fresh ones with
/// cleared memories, sends and delivers the same in both and leaves them alike, whatever their
/// layouts.
pub proof fn law_layouts_run_alike<L1: RingLayout, L2: RingLayout>(
    left: SharedState,
    right: SharedState,
    role: Role,
    steps: Seq<ChannelOp>,
)
    requires
        alike::<L1, L2>(left, right),
    ensures
        alike::<L1, L2>(left.after::<L1>(steps), right.after::<L2>(steps)),
        left.is_run::<L1>(steps) == right.is_run::<L2>(steps),
        left.sent::<L1>(role, steps) == right.sent::<L2>(role, steps),
        left.delivered::<L1>(role, steps) == right.delivered::<L2>(role, steps),
    decreases steps.len(),
{
    if steps.len() > 0 {
        let earlier = steps.drop_last();
        law_layouts_run_alike::<L1, L2>(left, right, role, earlier);
        let (l, r) = (left.after::<L1>(earlier), right.after::<L2>(earlier));
        law_layouts_step_alike::<L1, L2>(l, r, steps.last());
        assert(l.puts::<L1>(role, steps.last()) == r.puts::<L2>(role, steps.last()));
        assert(l.takes::<L1>(role, steps.last()) == r.takes::<L2>(role, steps.last()));
    }
}

/// Cleared memories hold the same bytes in their rings, whatever the layouts.
pub proof fn law_cleared_channels_are_alike<L1: RingLayout, L2: RingLayout>(
    left: SharedState,
    right: SharedState,
)
    requires
        left.server == right.server,
        left.client == right.client,
        shm_total::<L1>() <= left.mem.len(),
        shm_total::<L2>() <= right.mem.len(),
        forall|i: int| 0 <= i < left.mem.len() ==> #[trigger] left.mem[i] == 0,
        forall|i: int| 0 <= i < right.mem.len() ==> #[trigger] right.mem[i] == 0,
    ensures
        alike::<L1, L2>(left, right),
{
    let size = RING_DATA_SIZE as int;
    assert forall|role: Role| #[trigger] rings_alike::<L1, L2>(left, right, role) by {
        let (l, r) = (ring_start::<L1>(role), ring_start::<L2>(role));
        assert(left.mem.subrange(l, l + size) =~= right.mem.subrange(r, r + size));
    }
}

/// `send` and `send_step` give the same with any two layouts: over rings that are alike, with
/// the same cursors, the same message finds room in both or in neither, and the write cursors
/// have to go to the same place.
pub proof fn law_layouts_send_alike<L1: RingLayout, L2: RingLayout>(
    left: SharedState,
    right: SharedState,
    role: Role,
    left_header: L1::Header,
    right_header: L2::Header,
    buf: Seq<u8>,
    left_sent: Option<u64>,
    right_sent: Option<u64>,
    left_after: Seq<u8>,
    right_after: Seq<u8>,
)
    requires
        alike::<L1, L2>(left, right),
        left_header.written() == right_header.written(),
        left_header.consumed() == right_header.consumed(),
        ring_sends(
            left.mem,
            data_start::<L1>(write_ring::<L1>(role)),
            RING_DATA_SIZE as int,
            left_header.written() as int,
            left_header.consumed() as int,
            buf,
            left_sent,
            left_after,
        ),
        ring_sends(
            right.mem,
            data_start::<L2>(write_ring::<L2>(role)),
            RING_DATA_SIZE as int,
            right_header.written() as int,
            right_header.consumed() as int,
            buf,
            right_sent,
            right_after,
        ),
    ensures
        left_sent == right_sent,
        forall|other: Role|
            same_ring(
                left_after,
                #[trigger] ring_start::<L1>(other),
                right_after,
                #[trigger] ring_start::<L2>(other),
                RING_DATA_SIZE as int,
            ),
{
    assert forall|other: Role|
        same_ring(
            left_after,
            #[trigger] ring_start::<L1>(other),
            right_after,
            #[trigger] ring_start::<L2>(other),
            RING_DATA_SIZE as int,
        ) by {
        assert(rings_alike::<L1, L2>(left, right, other));
        lemma_writes_keep_alike::<L1, L2>(
            left,
            right,
            role,
            left_header.written() as int,
            frame(buf),
            other,
        );
    }
}

/// `recv_length` and `recv_step` give the same with any two layouts: over rings that are alike,
/// with the same cursors, they find the same length, receive the same bytes into the same
/// buffer, and want the read cursors in the same place.
pub proof fn law_layouts_receive_alike<L1: RingLayout, L2: RingLayout>(
    left: SharedState,
    right: SharedState,
    role: Role,
    left_header: L1::Header,
    right_header: L2::Header,
    left_len: Option<usize>,
    right_len: Option<usize>,
    data_len: nat,
    held: Seq<u8>,
    left_received: Option<Received>,
    right_received: Option<Received>,
    left_buf: Seq<u8>,
    right_buf: Seq<u8>,
)
    requires
        alike::<L1, L2>(left, right),
        left_header.written() == right_header.written(),
        left_header.consumed() == right_header.consumed(),
        ring_announces(
            left.mem,
            data_start::<L1>(read_ring::<L1>(role)),
            RING_DATA_SIZE as int,
            left_header.written() as int,
            left_header.consumed() as int,
            left_len,
        ),
        ring_announces(
            right.mem,
            data_start::<L2>(read_ring::<L2>(role)),
            RING_DATA_SIZE as int,
            right_header.written() as int,
            right_header.consumed() as int,
            right_len,
        ),
        ring_receives(
            left.mem,
            data_start::<L1>(read_ring::<L1>(role)),
            RING_DATA_SIZE as int,
            left_header.written() as int,
            left_header.consumed() as int,
            data_len,
            held,
            left_received,
            left_buf,
        ),
        ring_receives(
            right.mem,
            data_start::<L2>(read_ring::<L2>(role)),
            RING_DATA_SIZE as int,
            right_header.written() as int,
            right_header.consumed() as int,
            data_len,
            held,
            right_received,
            right_buf,
        ),
    ensures
        left_len == right_len,
        left_received == right_received,
        left_buf == right_buf,
{
    let size = RING_DATA_SIZE as int;
    let from = peer(role);
    let (ls, rs) = (ring_start::<L1>(from), ring_start::<L2>(from));
    let consumed = left_header.consumed() as int;
    let header = MSG_HEADER_SIZE as int;
    assert(rings_alike::<L1, L2>(left, right, from));
    law_same_rings_read_alike(left.mem, ls, right.mem, rs, size, consumed, header);
    law_same_rings_read_alike(
        left.mem,
        ls,
        right.mem,
        rs,
        size,
        consumed + header,
        delivered_len(data_len, held.len()) as int,
    );
}

/// `recv` gives the same with any two layouts: over rings that are alike, with the same cursors,
/// it finds the same length, receives the same bytes into the same buffer, and wants the read
/// cursors in the same place.
pub proof fn law_layouts_recv_alike<L1: RingLayout, L2: RingLayout>(
    left: SharedState,
    right: SharedState,
    role: Role,
    left_header: L1::Header,
    right_header: L2::Header,
    held: Seq<u8>,
    left_received: Option<Received>,
    right_received: Option<Received>,
    left_buf: Seq<u8>,
    right_buf: Seq<u8>,
)
    requires
        alike::<L1, L2>(left, right),
        left_header.written() == right_header.written(),
        left_header.consumed() == right_header.consumed(),
        ring_takes(
            left.mem,
            data_start::<L1>(read_ring::<L1>(role)),
            RING_DATA_SIZE as int,
            left_header.written() as int,
            left_header.consumed() as int,
            held,
            left_received,
            left_buf,
        ),
        ring_takes(
            right.mem,
            data_start::<L2>(read_ring::<L2>(role)),
            RING_DATA_SIZE as int,
            right_header.written() as int,
            right_header.consumed() as int,
            held,
            right_received,
            right_buf,
        ),
    ensures
        announced(
            left.mem,
            data_start::<L1>(read_ring::<L1>(role)),
            RING_DATA_SIZE as int,
            left_header.consumed() as int,
        ) == announced(
            right.mem,
            data_start::<L2>(read_ring::<L2>(role)),
            RING_DATA_SIZE as int,
            right_header.consumed() as int,
        ),
        left_received == right_received,
        left_buf == right_buf,
{
    let size = RING_DATA_SIZE as int;
    let from = peer(role);
    let (ls, rs) = (ring_start::<L1>(from), ring_start::<L2>(from));
    let consumed = left_header.consumed() as int;
    let header = MSG_HEADER_SIZE as int;
    assert(rings_alike::<L1, L2>(left, right, from));
    law_same_rings_read_alike(left.mem, ls, right.mem, rs, size, consumed, header);
    law_same_rings_read_alike(
        left.mem,
        ls,
        right.mem,
        rs,
        size,
        consumed + header,
        delivered_len(announced(left.mem, ls, size, consumed), held.len()) as int,
    );
}

} // verus!
