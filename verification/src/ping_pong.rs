//! The client's side of a benchmark: send a message, wait for its echo, and take the time.

use std::time::{Duration, Instant};
use vstd::prelude::*;

use crate::frame::filled;
use crate::ping_pong_laws::law_last_reply_stays;
use crate::transport::session::{
    goes_on, is_clock, lemma_goes_on_joins, lemma_goes_on_keeps, lemma_goes_on_push, recv_event,
    send_event, Event, Session,
};
use crate::transport::Transport;

verus! {

/// The byte that benchmark messages are made of.
pub const FILL_BYTE: u8 = 0xAB;

/// What one round measured.
pub struct RoundResult {
    /// The round-trip time of every message, in the order of the messages.
    pub latencies: Vec<Duration>,
    /// The time for the whole round.
    pub total_elapsed: Duration,
}

/// Why a round broke off.
pub enum PingError {
    /// A message could not be sent.
    Send(std::io::Error),
    /// An echo could not be received.
    Recv(std::io::Error),
    /// An echo was not as long as the message.
    SizeMismatch { got: usize, expected: usize },
}

/// A message and its echo, as the transport saw them.
pub open spec fn exchange(sent: Seq<u8>, room: nat, reply: Seq<u8>) -> Seq<Event> {
    seq![Event::Sent(sent), Event::Received { room, data: reply }]
}

/// The same message sent again and again, each time with its echo.
pub open spec fn exchanges(sent: Seq<u8>, room: nat, replies: Seq<Seq<u8>>) -> Seq<Event>
    decreases replies.len(),
{
    if replies.len() == 0 {
        Seq::empty()
    } else {
        exchanges(sent, room, replies.drop_last()) + exchange(sent, room, replies.last())
    }
}

/// A buffer after replies were received into its front, one after the other.
pub open spec fn left_by(buffer: Seq<u8>, replies: Seq<Seq<u8>>) -> Seq<u8>
    decreases replies.len(),
{
    if replies.len() == 0 {
        buffer
    } else {
        filled(left_by(buffer, replies.drop_last()), replies.last(), replies.last().len())
    }
}

/// Replies that are all `len` bytes long.
pub open spec fn all_sized(replies: Seq<Seq<u8>>, len: nat) -> bool {
    forall|i: int| 0 <= i < replies.len() ==> (#[trigger] replies[i]).len() == len
}

/// Replies that a buffer of `room` bytes can hold.
pub open spec fn all_fit(replies: Seq<Seq<u8>>, room: nat) -> bool {
    forall|i: int| 0 <= i < replies.len() ==> (#[trigger] replies[i]).len() <= room
}

/// The exchange that broke off with `error`, as the transport saw it: the receive buffer was
/// `held` before it and is `left` after it.
pub open spec fn broke_off(
    error: PingError,
    sent: Seq<u8>,
    held: Seq<u8>,
    left: Seq<u8>,
    last: Seq<Event>,
) -> bool {
    match error {
        PingError::Send(error) => {
            &&& left == held
            &&& last == seq![Event::SendFailed { message: sent, error }]
        },
        PingError::Recv(error) => {
            &&& left.len() == held.len()
            &&& last == seq![Event::Sent(sent), Event::RecvFailed { left, error }]
        },
        PingError::SizeMismatch { .. } => false,
    }
}

/// What came of `warmup` exchanges: between the two traces lie just the exchanges, up to the
/// first that broke off, and the receive buffer went from `held` to `left`.
pub open spec fn warm_up_outcome(
    before: Seq<Event>,
    after: Seq<Event>,
    sent: Seq<u8>,
    held: Seq<u8>,
    left: Seq<u8>,
    warmup: nat,
    outcome: Result<(), PingError>,
) -> bool {
    match outcome {
        Ok(_) => exists|replies: Seq<Seq<u8>>|
            {
                &&& replies.len() == warmup
                &&& all_fit(replies, held.len())
                &&& after == before + #[trigger] exchanges(sent, held.len(), replies)
                &&& left == left_by(held, replies)
            },
        Err(error) => exists|replies: Seq<Seq<u8>>, last: Seq<Event>|
            {
                &&& replies.len() < warmup
                &&& all_fit(replies, held.len())
                &&& #[trigger] broke_off(error, sent, left_by(held, replies), left, last)
                &&& after == before + #[trigger] exchanges(sent, held.len(), replies) + last
            },
    }
}

/// A clock that was started at `start`, as the session saw it.
pub open spec fn clock_start(start: Instant) -> Seq<Event> {
    seq![Event::ClockStarted(start)]
}

/// A message and its echo with the time that they took: the clock is started just before the
/// message goes out and read just after the echo is in.
pub open spec fn timed_exchange(
    sent: Seq<u8>,
    room: nat,
    reply: Seq<u8>,
    start: Instant,
    latency: Duration,
) -> Seq<Event> {
    seq![
        Event::ClockStarted(start),
        Event::Sent(sent),
        Event::Received { room, data: reply },
        Event::ClockRead { since: start, elapsed: latency },
    ]
}

/// The same message sent again and again, each time with its echo and the time that it took.
pub open spec fn timed_exchanges(
    sent: Seq<u8>,
    room: nat,
    replies: Seq<Seq<u8>>,
    starts: Seq<Instant>,
    latencies: Seq<Duration>,
) -> Seq<Event>
    decreases replies.len(),
{
    if replies.len() == 0 {
        Seq::empty()
    } else {
        timed_exchanges(
            sent,
            room,
            replies.drop_last(),
            starts.drop_last(),
            latencies.drop_last(),
        ) + timed_exchange(sent, room, replies.last(), starts.last(), latencies.last())
    }
}

/// What a round got to see: the replies, the instants at which its messages went out, and the
/// instant at which it began.
pub struct RoundView {
    pub replies: Seq<Seq<u8>>,
    pub starts: Seq<Instant>,
    pub began: Instant,
}

/// A finished round with the times that it measured, as the session saw it: one clock runs from
/// before the first message to after the last echo, and one for every message.
pub open spec fn round_events(
    sent: Seq<u8>,
    room: nat,
    seen: RoundView,
    latencies: Seq<Duration>,
    total: Duration,
) -> Seq<Event> {
    clock_start(seen.began) + timed_exchanges(sent, room, seen.replies, seen.starts, latencies)
        + seq![Event::ClockRead { since: seen.began, elapsed: total }]
}

/// There are `count` exchanges in the round, and every reply is `len` bytes long.
pub open spec fn round_fits(seen: RoundView, count: nat, len: nat) -> bool {
    &&& seen.replies.len() == count
    &&& seen.starts.len() == count
    &&& all_sized(seen.replies, len)
}

/// The timed exchange that broke off with `error`, as the session saw it. A reply of the wrong
/// length is noticed after its clock was read.
pub open spec fn timed_broke_off(
    error: PingError,
    sent: Seq<u8>,
    held: Seq<u8>,
    left: Seq<u8>,
    last: Seq<Event>,
) -> bool {
    match error {
        PingError::SizeMismatch { got, expected } => {
            &&& expected == sent.len()
            &&& got != expected
            &&& exists|reply: Seq<u8>, start: Instant, latency: Duration|
                {
                    &&& reply.len() == got
                    &&& got <= held.len()
                    &&& left == filled(held, reply, reply.len())
                    &&& last == #[trigger] timed_exchange(sent, held.len(), reply, start, latency)
                }
        },
        _ => exists|start: Instant, rest: Seq<Event>|
            {
                &&& #[trigger] broke_off(error, sent, held, left, rest)
                &&& last == #[trigger] clock_start(start) + rest
            },
    }
}

/// A round that broke off with `error` after some exchanges, as the session saw it.
pub open spec fn round_stopped(
    before: Seq<Event>,
    after: Seq<Event>,
    sent: Seq<u8>,
    held: Seq<u8>,
    left: Seq<u8>,
    seen: RoundView,
    latencies: Seq<Duration>,
    error: PingError,
) -> bool {
    &&& seen.replies.len() > 0 ==> sent.len() <= held.len()
    &&& exists|last: Seq<Event>|
        {
            &&& #[trigger] timed_broke_off(
                error,
                sent,
                left_by(held, seen.replies),
                left,
                last,
            )
            &&& after == before + clock_start(seen.began) + timed_exchanges(
                sent,
                held.len(),
                seen.replies,
                seen.starts,
                latencies,
            ) + last
        }
}

/// A round that finished with `result`, as the session saw it.
pub open spec fn round_finished(
    before: Seq<Event>,
    after: Seq<Event>,
    sent: Seq<u8>,
    held: Seq<u8>,
    left: Seq<u8>,
    seen: RoundView,
    result: RoundResult,
) -> bool {
    &&& seen.replies.len() > 0 ==> sent.len() <= held.len()
    &&& after == before + round_events(
        sent,
        held.len(),
        seen,
        result.latencies@,
        result.total_elapsed,
    )
    &&& left == left_by(held, seen.replies)
}

/// What came of a round of `count` messages: the session saw the exchanges with their times, up
/// to the first that broke off, and the receive buffer went from `held` to `left`.
pub open spec fn round_outcome(
    before: Seq<Event>,
    after: Seq<Event>,
    sent: Seq<u8>,
    held: Seq<u8>,
    left: Seq<u8>,
    count: nat,
    outcome: Result<RoundResult, PingError>,
) -> bool {
    match outcome {
        Ok(result) => {
            &&& result.latencies@.len() == count
            &&& exists|seen: RoundView|
                {
                    &&& #[trigger] round_fits(seen, count, sent.len())
                    &&& round_finished(before, after, sent, held, left, seen, result)
                }
        },
        Err(error) => exists|seen: RoundView, latencies: Seq<Duration>|
            {
                &&& latencies.len() < count
                &&& round_fits(seen, latencies.len(), sent.len())
                &&& #[trigger] round_stopped(
                    before,
                    after,
                    sent,
                    held,
                    left,
                    seen,
                    latencies,
                    error,
                )
            },
    }
}

/// Sends a message and receives one reply. Returns the reply's length.
fn ping<T: Transport>(
    transport: &mut Session<T>,
    send_buf: &[u8],
    recv_buf: &mut [u8],
) -> (reply: Result<usize, PingError>)
    ensures
        final(recv_buf)@.len() == old(recv_buf)@.len(),
        match reply {
            Ok(n) => {
                &&& n <= final(recv_buf)@.len()
                &&& final(recv_buf)@ == filled(
                    old(recv_buf)@,
                    final(recv_buf)@.take(n as int),
                    n as nat,
                )
                &&& final(transport).trace() == old(transport).trace() + exchange(
                    send_buf@,
                    old(recv_buf)@.len(),
                    final(recv_buf)@.take(n as int),
                )
            },
            Err(error) => exists|last: Seq<Event>|
                {
                    &&& #[trigger] broke_off(
                        error,
                        send_buf@,
                        old(recv_buf)@,
                        final(recv_buf)@,
                        last,
                    )
                    &&& final(transport).trace() == old(transport).trace() + last
                },
        },
        goes_on(
            old(transport).record(),
            old(transport).inner(),
            final(transport).record(),
            final(transport).inner(),
        ),
        forall|at: int|
            old(transport).record().len() <= at < final(transport).record().len() ==> {
                let step = #[trigger] final(transport).record()[at];
                ||| exists|t: &mut T, buf: &[u8], sent: std::io::Result<()>|
                    {
                        &&& *t == step.before
                        &&& *final(t) == step.after
                        &&& step.event == send_event(buf@, sent)
                        &&& #[trigger] call_ensures(T::send, (t, buf), sent)
                    }
                ||| exists|t: &mut T, room: &mut [u8], received: std::io::Result<usize>|
                    {
                        &&& *t == step.before
                        &&& *final(t) == step.after
                        &&& step.event == recv_event(room@, final(room)@, received)
                        &&& #[trigger] call_ensures(T::recv, (t, room), received)
                    }
            },
{
    let ghost held = recv_buf@;
    let ghost record = transport.record();
    let ghost start = transport.inner();
    match transport.send(send_buf) {
        Ok(_) => {},
        Err(e) => {
            let error = PingError::Send(e);
            proof {
                let last = seq![send_event(send_buf@, Err(error->Send_0))];
                assert(broke_off(error, send_buf@, held, recv_buf@, last));
                assert(transport.trace() =~= old(transport).trace() + last);
                lemma_goes_on_push(record, start, record, transport.record().last());
            }
            return Err(error);
        },
    }
    let ghost sent = transport.record();
    proof {
        lemma_goes_on_push(record, start, record, sent.last());
    }
    match transport.recv(recv_buf) {
        Ok(n) => {
            proof {
                lemma_goes_on_push(record, start, sent, transport.record().last());
                let reply = recv_buf@.take(n as int);
                assert(recv_buf@ =~= reply + recv_buf@.skip(n as int));
                assert(reply.take(n as int) =~= reply);
                assert(transport.trace() =~= old(transport).trace() + exchange(
                    send_buf@,
                    held.len(),
                    reply,
                ));
            }
            Ok(n)
        },
        Err(e) => {
            let error = PingError::Recv(e);
            proof {
                let failed = recv_event(held, recv_buf@, Err(error->Recv_0));
                let last = seq![Event::Sent(send_buf@), failed];
                lemma_goes_on_push(record, start, sent, transport.record().last());
                assert(broke_off(error, send_buf@, held, recv_buf@, last));
                assert(transport.trace() =~= old(transport).trace() + last);
            }
            Err(error)
        },
    }
}

/// Exchanges `warmup` messages without looking at the echoes or at the clock. Every step on
/// record is a call that the transport answered so.
pub fn warm_up<T: Transport>(
    transport: &mut Session<T>,
    send_buf: &[u8],
    recv_buf: &mut [u8],
    warmup: usize,
) -> (warmed: Result<(), PingError>)
    ensures
        final(recv_buf)@.len() == old(recv_buf)@.len(),
        warm_up_outcome(
            old(transport).trace(),
            final(transport).trace(),
            send_buf@,
            old(recv_buf)@,
            final(recv_buf)@,
            warmup as nat,
            warmed,
        ),
        goes_on(
            old(transport).record(),
            old(transport).inner(),
            final(transport).record(),
            final(transport).inner(),
        ),
        forall|at: int|
            old(transport).record().len() <= at < final(transport).record().len() ==> {
                let step = #[trigger] final(transport).record()[at];
                ||| exists|t: &mut T, buf: &[u8], sent: std::io::Result<()>|
                    {
                        &&& *t == step.before
                        &&& *final(t) == step.after
                        &&& step.event == send_event(buf@, sent)
                        &&& #[trigger] call_ensures(T::send, (t, buf), sent)
                    }
                ||| exists|t: &mut T, room: &mut [u8], received: std::io::Result<usize>|
                    {
                        &&& *t == step.before
                        &&& *final(t) == step.after
                        &&& step.event == recv_event(room@, final(room)@, received)
                        &&& #[trigger] call_ensures(T::recv, (t, room), received)
                    }
            },
{
    let ghost before = transport.trace();
    let ghost held = recv_buf@;
    let ghost room = held.len();
    let ghost mut replies = Seq::<Seq<u8>>::empty();
    let mut i: usize = 0;
    proof {
        assert(transport.trace() =~= before + exchanges(send_buf@, room, replies));
    }
    while i < warmup
        invariant
            i <= warmup,
            before == old(transport).trace(),
            held == old(recv_buf)@,
            room == held.len(),
            recv_buf@.len() == room,
            replies.len() == i,
            all_fit(replies, room),
            recv_buf@ == left_by(held, replies),
            transport.trace() == before + exchanges(send_buf@, room, replies),
            goes_on(
            old(transport).record(),
            old(transport).inner(),
            transport.record(),
            transport.inner(),
        ),
            forall|at: int|
                old(transport).record().len() <= at < transport.record().len() ==> {
                    let step = #[trigger] transport.record()[at];
                    ||| exists|t: &mut T, buf: &[u8], sent: std::io::Result<()>|
                        {
                            &&& *t == step.before
                            &&& *final(t) == step.after
                            &&& step.event == send_event(buf@, sent)
                            &&& #[trigger] call_ensures(T::send, (t, buf), sent)
                        }
                    ||| exists|t: &mut T, room: &mut [u8], received: std::io::Result<usize>|
                        {
                            &&& *t == step.before
                            &&& *final(t) == step.after
                            &&& step.event == recv_event(room@, final(room)@, received)
                            &&& #[trigger] call_ensures(T::recv, (t, room), received)
                        }
                },
        decreases warmup - i,
    {
        let ghost so_far = transport.trace();
        let ghost (record, inner) = (transport.record(), transport.inner());
        let reply = ping(transport, send_buf, recv_buf);
        proof {
            lemma_goes_on_joins(
                old(transport).record(),
                old(transport).inner(),
                record,
                inner,
                transport.record(),
                transport.inner(),
            );
            lemma_goes_on_keeps(record, inner, transport.record(), transport.inner());
        }
        match reply {
            Ok(n) => {
                proof {
                    let more = replies.push(recv_buf@.take(n as int));
                    assert(more.drop_last() =~= replies);
                    assert(transport.trace() =~= before + exchanges(send_buf@, room, more));
                    replies = more;
                }
            },
            Err(error) => {
                proof {
                    let last = choose|last: Seq<Event>|
                        {
                            &&& #[trigger] broke_off(
                                error,
                                send_buf@,
                                left_by(held, replies),
                                recv_buf@,
                                last,
                            )
                            &&& transport.trace() == so_far + last
                        };
                    assert(broke_off(
                        error,
                        send_buf@,
                        left_by(held, replies),
                        recv_buf@,
                        last,
                    ));
                    assert(transport.trace() == before + exchanges(send_buf@, room, replies)
                        + last);
                }
                return Err(error);
            },
        }
        i = i + 1;
    }
    Ok(())
}

/// Runs one round: exchanges `count` messages, each of which has to come back as long as it
/// went out, and takes the time of each and of the round. Every step on record is a look at the
/// clock or a call that the transport answered so. There has to be address space for a list of
/// `count` times of 16 bytes each.
pub fn run_one_round<T: Transport>(
    transport: &mut Session<T>,
    send_buf: &[u8],
    recv_buf: &mut [u8],
    count: usize,
) -> (round: Result<RoundResult, PingError>)
    requires
        count * 16 <= isize::MAX,
    ensures
        final(recv_buf)@.len() == old(recv_buf)@.len(),
        round_outcome(
            old(transport).trace(),
            final(transport).trace(),
            send_buf@,
            old(recv_buf)@,
            final(recv_buf)@,
            count as nat,
            round,
        ),
        count == 0 ==> round is Ok && final(recv_buf)@ == old(recv_buf)@,
        round is Ok ==> final(recv_buf)@.skip(send_buf@.len() as int) == old(recv_buf)@.skip(
            send_buf@.len() as int,
        ),
        goes_on(
            old(transport).record(),
            old(transport).inner(),
            final(transport).record(),
            final(transport).inner(),
        ),
        forall|at: int|
            old(transport).record().len() <= at < final(transport).record().len() ==> {
                let step = #[trigger] final(transport).record()[at];
                ||| is_clock(step.event) && step.after == step.before
                ||| exists|t: &mut T, buf: &[u8], sent: std::io::Result<()>|
                    {
                        &&& *t == step.before
                        &&& *final(t) == step.after
                        &&& step.event == send_event(buf@, sent)
                        &&& #[trigger] call_ensures(T::send, (t, buf), sent)
                    }
                ||| exists|t: &mut T, room: &mut [u8], received: std::io::Result<usize>|
                    {
                        &&& *t == step.before
                        &&& *final(t) == step.after
                        &&& step.event == recv_event(room@, final(room)@, received)
                        &&& #[trigger] call_ensures(T::recv, (t, room), received)
                    }
            },
{
    let ghost before = transport.trace();
    let ghost held = recv_buf@;
    let ghost room = held.len();
    let ghost mut replies = Seq::<Seq<u8>>::empty();
    let ghost mut starts = Seq::<Instant>::empty();
    let mut latencies: Vec<Duration> = Vec::with_capacity(count);
    let total_start: Instant = transport.start_clock();
    proof {
        lemma_goes_on_push(
            old(transport).record(),
            old(transport).inner(),
            old(transport).record(),
            transport.record().last(),
        );
    }
    let mut i: usize = 0;
    proof {
        assert(transport.trace() =~= before + clock_start(total_start) + timed_exchanges(
            send_buf@,
            room,
            replies,
            starts,
            latencies@,
        ));
    }
    while i < count
        invariant
            i <= count,
            before == old(transport).trace(),
            held == old(recv_buf)@,
            room == held.len(),
            recv_buf@.len() == room,
            latencies@.len() == i,
            starts.len() == i,
            replies.len() == i,
            all_sized(replies, send_buf@.len()),
            i > 0 ==> send_buf@.len() <= room,
            recv_buf@ == left_by(held, replies),
            transport.trace() == before + clock_start(total_start) + timed_exchanges(
                send_buf@,
                room,
                replies,
                starts,
                latencies@,
            ),
            goes_on(
            old(transport).record(),
            old(transport).inner(),
            transport.record(),
            transport.inner(),
        ),
            forall|at: int|
                old(transport).record().len() <= at < transport.record().len() ==> {
                    let step = #[trigger] transport.record()[at];
                    ||| is_clock(step.event) && step.after == step.before
                    ||| exists|t: &mut T, buf: &[u8], sent: std::io::Result<()>|
                        {
                            &&& *t == step.before
                            &&& *final(t) == step.after
                            &&& step.event == send_event(buf@, sent)
                            &&& #[trigger] call_ensures(T::send, (t, buf), sent)
                        }
                    ||| exists|t: &mut T, room: &mut [u8], received: std::io::Result<usize>|
                        {
                            &&& *t == step.before
                            &&& *final(t) == step.after
                            &&& step.event == recv_event(room@, final(room)@, received)
                            &&& #[trigger] call_ensures(T::recv, (t, room), received)
                        }
                },
        decreases count - i,
    {
        let ghost so_far = transport.trace();
        let ghost seen = RoundView { replies, starts, began: total_start };
        let ghost record = transport.record();
        let start: Instant = transport.start_clock();
        proof {
            lemma_goes_on_push(
                old(transport).record(),
                old(transport).inner(),
                record,
                transport.record().last(),
            );
        }
        let ghost (record, inner) = (transport.record(), transport.inner());
        let reply = ping(transport, send_buf, recv_buf);
        proof {
            lemma_goes_on_joins(
                old(transport).record(),
                old(transport).inner(),
                record,
                inner,
                transport.record(),
                transport.inner(),
            );
            lemma_goes_on_keeps(record, inner, transport.record(), transport.inner());
        }
        match reply {
            Ok(n) => {
                let ghost record = transport.record();
                let latency: Duration = transport.read_clock(&start);
                proof {
                    lemma_goes_on_push(
                        old(transport).record(),
                        old(transport).inner(),
                        record,
                        transport.record().last(),
                    );
                }
                let ghost reply = recv_buf@.take(n as int);
                assert(transport.trace() =~= so_far + timed_exchange(
                    send_buf@,
                    room,
                    reply,
                    start,
                    latency,
                ));
                if n != send_buf.len() {
                    let error = PingError::SizeMismatch { got: n, expected: send_buf.len() };
                    proof {
                        let last = timed_exchange(send_buf@, room, reply, start, latency);
                        assert(timed_broke_off(
                            error,
                            send_buf@,
                            left_by(held, replies),
                            recv_buf@,
                            last,
                        ));
                        assert(round_fits(seen, latencies@.len(), send_buf@.len()));
                        assert(round_stopped(
                            before,
                            transport.trace(),
                            send_buf@,
                            held,
                            recv_buf@,
                            seen,
                            latencies@,
                            error,
                        ));
                    }
                    return Err(error);
                }
                let ghost earlier = latencies@;
                latencies.push(latency);
                proof {
                    let more = replies.push(reply);
                    let later = starts.push(start);
                    assert(more.drop_last() =~= replies);
                    assert(later.drop_last() =~= starts);
                    assert(latencies@.drop_last() =~= earlier);
                    assert(transport.trace() =~= before + clock_start(total_start)
                        + timed_exchanges(send_buf@, room, more, later, latencies@));
                    replies = more;
                    starts = later;
                }
            },
            Err(error) => {
                proof {
                    let rest = choose|rest: Seq<Event>|
                        {
                            &&& #[trigger] broke_off(
                                error,
                                send_buf@,
                                left_by(held, replies),
                                recv_buf@,
                                rest,
                            )
                            &&& transport.trace() == so_far.push(Event::ClockStarted(start)) + rest
                        };
                    let last = clock_start(start) + rest;
                    assert(timed_broke_off(
                        error,
                        send_buf@,
                        left_by(held, replies),
                        recv_buf@,
                        last,
                    ));
                    assert(transport.trace() =~= so_far + last);
                    assert(round_fits(seen, latencies@.len(), send_buf@.len()));
                    assert(round_stopped(
                        before,
                        transport.trace(),
                        send_buf@,
                        held,
                        recv_buf@,
                        seen,
                        latencies@,
                        error,
                    ));
                }
                return Err(error);
            },
        }
        i = i + 1;
    }
    let ghost record = transport.record();
    let total_elapsed: Duration = transport.read_clock(&total_start);
    proof {
        lemma_goes_on_push(
            old(transport).record(),
            old(transport).inner(),
            record,
            transport.record().last(),
        );
    }
    let result = RoundResult { latencies, total_elapsed };
    proof {
        if count > 0 {
            let len = send_buf@.len();
            law_last_reply_stays(held, replies, len);
            assert(replies[replies.len() - 1].len() == len);
            assert(recv_buf@.skip(len as int) =~= held.skip(len as int));
        }
        let seen = RoundView { replies, starts, began: total_start };
        assert(round_fits(seen, count as nat, send_buf@.len()));
        assert(transport.trace() =~= before + round_events(
            send_buf@,
            room,
            seen,
            result.latencies@,
            result.total_elapsed,
        ));
        assert(round_finished(
            before,
            transport.trace(),
            send_buf@,
            held,
            recv_buf@,
            seen,
            result,
        ));
    }
    Ok(result)
}

/// A benchmark message of `len` bytes.
pub open spec fn benchmark_message(len: nat) -> Seq<u8> {
    Seq::new(len, |i: int| FILL_BYTE)
}

/// A receive buffer of `len` bytes before anything came in.
pub open spec fn blank_buffer(len: nat) -> Seq<u8> {
    Seq::new(len, |i: int| 0u8)
}

/// The rounds that a client ran.
pub struct PingPong {
    /// The finished rounds.
    pub rounds: Vec<RoundResult>,
    /// Why the client stopped early, if it did.
    pub failure: Option<PingError>,
}

/// Finished rounds with the times that they measured, as the session saw them.
pub open spec fn rounds_events(
    sent: Seq<u8>,
    room: nat,
    seen: Seq<RoundView>,
    results: Seq<RoundResult>,
) -> Seq<Event>
    decreases seen.len(),
{
    if seen.len() == 0 {
        Seq::empty()
    } else {
        rounds_events(sent, room, seen.drop_last(), results.drop_last()) + round_events(
            sent,
            room,
            seen.last(),
            results.last().latencies@,
            results.last().total_elapsed,
        )
    }
}

/// A receive buffer after some rounds.
pub open spec fn left_by_rounds(buffer: Seq<u8>, seen: Seq<RoundView>) -> Seq<u8>
    decreases seen.len(),
{
    if seen.len() == 0 {
        buffer
    } else {
        left_by(left_by_rounds(buffer, seen.drop_last()), seen.last().replies)
    }
}

/// There are `count` exchanges in each round, and every reply is `len` bytes long.
pub open spec fn rounds_fit(seen: Seq<RoundView>, count: nat, len: nat) -> bool {
    forall|i: int| 0 <= i < seen.len() ==> round_fits(#[trigger] seen[i], count, len)
}

/// Every finished round has a latency for each of its messages.
pub open spec fn rounds_complete(rounds: Seq<RoundResult>, count: nat) -> bool {
    forall|i: int| 0 <= i < rounds.len() ==> (#[trigger] rounds[i]).latencies@.len() == count
}

/// A warmup and then these finished rounds in this order, as the session saw them.
pub open spec fn benchmark_events(
    sent: Seq<u8>,
    warm: Seq<Seq<u8>>,
    seen: Seq<RoundView>,
    results: Seq<RoundResult>,
) -> Seq<Event> {
    exchanges(sent, sent.len(), warm) + rounds_events(sent, sent.len(), seen, results)
}

/// The warmup exchanges and the finished rounds of a client add up to `results`.
pub open spec fn benchmark_fits(
    warm: Seq<Seq<u8>>,
    seen: Seq<RoundView>,
    results: Seq<RoundResult>,
    msg_size: nat,
    count: nat,
    warmup: nat,
) -> bool {
    &&& warm.len() == warmup
    &&& all_fit(warm, msg_size)
    &&& seen.len() == results.len()
    &&& rounds_fit(seen, count, msg_size)
}

/// What came of a client's run. The session saw the warmup exchanges, then the finished rounds
/// with the times that they measured, the first round first, up to the first exchange that
/// broke off.
pub open spec fn ping_pong_outcome(
    before: Seq<Event>,
    after: Seq<Event>,
    msg_size: nat,
    count: nat,
    rounds: nat,
    warmup: nat,
    run: PingPong,
) -> bool {
    let sent = benchmark_message(msg_size);
    let blank = blank_buffer(msg_size);
    match run.failure {
        None => {
            &&& run.rounds@.len() == rounds
            &&& exists|warm: Seq<Seq<u8>>, seen: Seq<RoundView>|
                {
                    &&& benchmark_fits(warm, seen, run.rounds@, msg_size, count, warmup)
                    &&& after == before + #[trigger] benchmark_events(
                        sent,
                        warm,
                        seen,
                        run.rounds@,
                    )
                }
        },
        Some(error) => {
            ||| {
                &&& run.rounds@.len() == 0
                &&& exists|left: Seq<u8>| #[trigger]
                    warm_up_outcome(before, after, sent, blank, left, warmup, Err(error))
            }
            ||| {
                &&& run.rounds@.len() < rounds
                &&& exists|warm: Seq<Seq<u8>>, seen: Seq<RoundView>, left: Seq<u8>|
                    {
                        &&& benchmark_fits(warm, seen, run.rounds@, msg_size, count, warmup)
                        &&& #[trigger] round_outcome(
                            before + benchmark_events(sent, warm, seen, run.rounds@),
                            after,
                            sent,
                            left_by_rounds(left_by(blank, warm), seen),
                            left,
                            count,
                            Err(error),
                        )
                    }
            }
        },
    }
}

/// The client's side of a benchmark: exchanges `warmup` messages of `msg_size` bytes and then
/// runs `rounds` rounds of `count` messages. Stops with the first exchange that fails. Every
/// step on record is a look at the clock or a call that the transport answered so.
pub fn run_ping_pong<T: Transport>(
    transport: &mut Session<T>,
    msg_size: usize,
    count: usize,
    rounds: usize,
    warmup: usize,
) -> (run: PingPong)
    requires
        msg_size <= isize::MAX,
        count * 16 <= isize::MAX,
    ensures
        rounds_complete(run.rounds@, count as nat),
        ping_pong_outcome(
            old(transport).trace(),
            final(transport).trace(),
            msg_size as nat,
            count as nat,
            rounds as nat,
            warmup as nat,
            run,
        ),
        goes_on(
            old(transport).record(),
            old(transport).inner(),
            final(transport).record(),
            final(transport).inner(),
        ),
        forall|at: int|
            old(transport).record().len() <= at < final(transport).record().len() ==> {
                let step = #[trigger] final(transport).record()[at];
                ||| is_clock(step.event) && step.after == step.before
                ||| exists|t: &mut T, buf: &[u8], sent: std::io::Result<()>|
                    {
                        &&& *t == step.before
                        &&& *final(t) == step.after
                        &&& step.event == send_event(buf@, sent)
                        &&& #[trigger] call_ensures(T::send, (t, buf), sent)
                    }
                ||| exists|t: &mut T, room: &mut [u8], received: std::io::Result<usize>|
                    {
                        &&& *t == step.before
                        &&& *final(t) == step.after
                        &&& step.event == recv_event(room@, final(room)@, received)
                        &&& #[trigger] call_ensures(T::recv, (t, room), received)
                    }
            },
{
    let send_buf: Vec<u8> = vec![FILL_BYTE; msg_size];
    let mut recv_buf: Vec<u8> = vec![0u8; msg_size];
    let ghost before = transport.trace();
    let ghost room = msg_size as nat;
    let ghost message = benchmark_message(room);
    let ghost blank = blank_buffer(room);
    assert(send_buf@ =~= message);
    assert(recv_buf@ =~= blank);
    let mut results: Vec<RoundResult> = Vec::new();
    match warm_up(transport, send_buf.as_slice(), recv_buf.as_mut_slice(), warmup) {
        Ok(_) => {},
        Err(error) => {
            return PingPong { rounds: results, failure: Some(error) };
        },
    }
    let ghost warm = choose|warm: Seq<Seq<u8>>|
        {
            &&& warm.len() == warmup
            &&& all_fit(warm, room)
            &&& transport.trace() == before + #[trigger] exchanges(message, room, warm)
            &&& recv_buf@ == left_by(blank, warm)
        };
    let ghost mut seen = Seq::<RoundView>::empty();
    proof {
        assert(transport.trace() =~= before + benchmark_events(message, warm, seen, results@));
    }
    let mut r: usize = 0;
    while r < rounds
        invariant
            r <= rounds,
            count * 16 <= isize::MAX,
            before == old(transport).trace(),
            room == msg_size,
            message == benchmark_message(room),
            message.len() == msg_size,
            blank == blank_buffer(room),
            send_buf@ == message,
            recv_buf@.len() == room,
            recv_buf@ == left_by_rounds(left_by(blank, warm), seen),
            results@.len() == r,
            rounds_complete(results@, count as nat),
            benchmark_fits(warm, seen, results@, room, count as nat, warmup as nat),
            transport.trace() == before + benchmark_events(message, warm, seen, results@),
            goes_on(
            old(transport).record(),
            old(transport).inner(),
            transport.record(),
            transport.inner(),
        ),
            forall|at: int|
                old(transport).record().len() <= at < transport.record().len() ==> {
                    let step = #[trigger] transport.record()[at];
                    ||| is_clock(step.event) && step.after == step.before
                    ||| exists|t: &mut T, buf: &[u8], sent: std::io::Result<()>|
                        {
                            &&& *t == step.before
                            &&& *final(t) == step.after
                            &&& step.event == send_event(buf@, sent)
                            &&& #[trigger] call_ensures(T::send, (t, buf), sent)
                        }
                    ||| exists|t: &mut T, room: &mut [u8], received: std::io::Result<usize>|
                        {
                            &&& *t == step.before
                            &&& *final(t) == step.after
                            &&& step.event == recv_event(room@, final(room)@, received)
                            &&& #[trigger] call_ensures(T::recv, (t, room), received)
                        }
                },
        decreases rounds - r,
    {
        let ghost so_far = transport.trace();
        let ghost held = recv_buf@;
        let ghost (record, inner) = (transport.record(), transport.inner());
        let round = run_one_round(
            transport,
            send_buf.as_slice(),
            recv_buf.as_mut_slice(),
            count,
        );
        proof {
            lemma_goes_on_joins(
                old(transport).record(),
                old(transport).inner(),
                record,
                inner,
                transport.record(),
                transport.inner(),
            );
            lemma_goes_on_keeps(record, inner, transport.record(), transport.inner());
        }
        match round {
            Ok(result) => {
                let ghost earlier = results@;
                results.push(result);
                proof {
                    let view = choose|round: RoundView|
                        {
                            &&& #[trigger] round_fits(round, count as nat, message.len())
                            &&& round_finished(
                                so_far,
                                transport.trace(),
                                message,
                                held,
                                recv_buf@,
                                round,
                                result,
                            )
                        };
                    let more = seen.push(view);
                    assert(more.drop_last() =~= seen);
                    assert(results@.drop_last() =~= earlier);
                    assert(transport.trace() =~= before + benchmark_events(
                        message,
                        warm,
                        more,
                        results@,
                    ));
                    seen = more;
                }
            },
            Err(error) => {
                return PingPong { rounds: results, failure: Some(error) };
            },
        }
        r = r + 1;
    }
    PingPong { rounds: results, failure: None }
}

} // verus!
