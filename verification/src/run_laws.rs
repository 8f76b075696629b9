//! What the client's side of a benchmark does, event by event.
//!
//! A warmup takes two events for each message: it goes out and its echo comes in. A round takes
//! four for each message, since its clock is started before and read after these two, and one
//! more at either end for the clock of the round.

use std::time::{Duration, Instant};
use vstd::prelude::*;


use crate::ping_pong::{
    all_fit, benchmark_events, benchmark_fits, benchmark_message, blank_buffer, broke_off,
    clock_start, exchange, exchanges, left_by, left_by_rounds, round_events, round_finished,
    round_fits, round_outcome, round_stopped, rounds_complete, rounds_events, rounds_fit,
    run_one_round, run_ping_pong, timed_broke_off, timed_exchange, timed_exchanges, warm_up,
    warm_up_outcome, PingError, PingPong, RoundResult, RoundView,
};
use crate::ping_pong_laws::{law_last_reply_stays, lemma_exchanges_parts, lemma_left_by_len};
use crate::transport::session::{Event, Session};
use crate::transport::Transport;

verus! {

/// A call that is made with this message or with this much room, or a look at the clock.
spec fn belongs(event: Event, sent: Seq<u8>, room: nat) -> bool {
    match event {
        Event::Sent(message) => message == sent,
        Event::SendFailed { message, .. } => message == sent,
        Event::Received { room: there, .. } => there == room,
        Event::RecvFailed { left, .. } => left.len() == room,
        Event::ClockStarted(_) => true,
        Event::ClockRead { .. } => true,
        _ => false,
    }
}

spec fn all_belong(events: Seq<Event>, sent: Seq<u8>, room: nat) -> bool {
    forall|i: int| 0 <= i < events.len() ==> belongs(#[trigger] events[i], sent, room)
}

/// No call failed.
spec fn all_well(events: Seq<Event>) -> bool {
    forall|i: int|
        0 <= i < events.len() ==> !(#[trigger] events[i] is SendFailed) && !(
        events[i] is RecvFailed)
}

proof fn lemma_belong_joins(first: Seq<Event>, second: Seq<Event>, sent: Seq<u8>, room: nat)
    requires
        all_belong(first, sent, room),
        all_belong(second, sent, room),
    ensures
        all_belong(first + second, sent, room),
{
    assert forall|i: int| 0 <= i < (first + second).len() implies belongs(
        #[trigger] (first + second)[i],
        sent,
        room,
    ) by {
        if i < first.len() {
            assert(belongs(first[i], sent, room));
        } else {
            assert(belongs(second[i - first.len()], sent, room));
        }
    }
}

proof fn lemma_well_joins(first: Seq<Event>, second: Seq<Event>)
    requires
        all_well(first),
        all_well(second),
    ensures
        all_well(first + second),
{
    assert forall|i: int| 0 <= i < (first + second).len() implies !(#[trigger] (first
        + second)[i] is SendFailed) && !((first + second)[i] is RecvFailed) by {
        if i < first.len() {
            assert(!(first[i] is SendFailed));
        } else {
            assert(!(second[i - first.len()] is SendFailed));
        }
    }
}

proof fn lemma_exchanges_belong(sent: Seq<u8>, room: nat, replies: Seq<Seq<u8>>)
    ensures
        all_belong(exchanges(sent, room, replies), sent, room),
        all_well(exchanges(sent, room, replies)),
    decreases replies.len(),
{
    if replies.len() > 0 {
        let earlier = exchanges(sent, room, replies.drop_last());
        let last = exchange(sent, room, replies.last());
        lemma_exchanges_belong(sent, room, replies.drop_last());
        lemma_belong_joins(earlier, last, sent, room);
        lemma_well_joins(earlier, last);
    }
}

/// Timed exchanges, event by event.
proof fn lemma_timed_is(
    sent: Seq<u8>,
    room: nat,
    replies: Seq<Seq<u8>>,
    starts: Seq<Instant>,
    latencies: Seq<Duration>,
)
    requires
        starts.len() == replies.len(),
        latencies.len() == replies.len(),
    ensures
        timed_exchanges(sent, room, replies, starts, latencies).len() == 4 * replies.len(),
        all_belong(timed_exchanges(sent, room, replies, starts, latencies), sent, room),
        all_well(timed_exchanges(sent, room, replies, starts, latencies)),
        forall|k: int|
            #![trigger latencies[k]]
            0 <= k < replies.len() ==> {
                let timed = timed_exchanges(sent, room, replies, starts, latencies);
                &&& timed[4 * k] == Event::ClockStarted(starts[k])
                &&& timed[4 * k + 1] == Event::Sent(sent)
                &&& timed[4 * k + 2] == (Event::Received { room, data: replies[k] })
                &&& timed[4 * k + 3] == (Event::ClockRead {
                    since: starts[k],
                    elapsed: latencies[k],
                })
            },
    decreases replies.len(),
{
    if replies.len() > 0 {
        let timed = timed_exchanges(sent, room, replies, starts, latencies);
        let shorter = latencies.drop_last();
        let earlier = timed_exchanges(
            sent,
            room,
            replies.drop_last(),
            starts.drop_last(),
            shorter,
        );
        let last = timed_exchange(sent, room, replies.last(), starts.last(), latencies.last());
        lemma_timed_is(sent, room, replies.drop_last(), starts.drop_last(), shorter);
        lemma_belong_joins(earlier, last, sent, room);
        lemma_well_joins(earlier, last);
        assert forall|k: int| #![trigger latencies[k]] 0 <= k < replies.len() implies {
            &&& timed[4 * k] == Event::ClockStarted(starts[k])
            &&& timed[4 * k + 1] == Event::Sent(sent)
            &&& timed[4 * k + 2] == (Event::Received { room, data: replies[k] })
            &&& timed[4 * k + 3] == (Event::ClockRead { since: starts[k], elapsed: latencies[k] })
        } by {
            if k < replies.len() - 1 {
                assert(shorter[k] == latencies[k]);
                assert(timed[4 * k] == earlier[4 * k]);
                assert(timed[4 * k + 1] == earlier[4 * k + 1]);
                assert(timed[4 * k + 2] == earlier[4 * k + 2]);
                assert(timed[4 * k + 3] == earlier[4 * k + 3]);
            } else {
                assert(timed[4 * k] == last[0]);
                assert(timed[4 * k + 1] == last[1]);
                assert(timed[4 * k + 2] == last[2]);
                assert(timed[4 * k + 3] == last[3]);
            }
        }
    }
}

/// A finished round, event by event.
proof fn lemma_round_is(
    sent: Seq<u8>,
    room: nat,
    seen: RoundView,
    latencies: Seq<Duration>,
    total: Duration,
)
    requires
        seen.starts.len() == seen.replies.len(),
        latencies.len() == seen.replies.len(),
    ensures
        ({
            let events = round_events(sent, room, seen, latencies, total);
            let count = latencies.len() as int;
            &&& events.len() == 4 * count + 2
            &&& all_belong(events, sent, room)
            &&& all_well(events)
            &&& events[0] == Event::ClockStarted(seen.began)
            &&& events[4 * count + 1] == (Event::ClockRead { since: seen.began, elapsed: total })
            &&& forall|k: int|
                #![trigger latencies[k]]
                0 <= k < count ==> {
                    &&& events[1 + 4 * k] == Event::ClockStarted(seen.starts[k])
                    &&& events[2 + 4 * k] == Event::Sent(sent)
                    &&& events[3 + 4 * k] == (Event::Received { room, data: seen.replies[k] })
                    &&& events[4 + 4 * k] == (Event::ClockRead {
                        since: seen.starts[k],
                        elapsed: latencies[k],
                    })
                }
        }),
{
    let events = round_events(sent, room, seen, latencies, total);
    let timed = timed_exchanges(sent, room, seen.replies, seen.starts, latencies);
    let first = clock_start(seen.began);
    let last = seq![Event::ClockRead { since: seen.began, elapsed: total }];
    lemma_timed_is(sent, room, seen.replies, seen.starts, latencies);
    lemma_belong_joins(first, timed, sent, room);
    lemma_belong_joins(first + timed, last, sent, room);
    lemma_well_joins(first, timed);
    lemma_well_joins(first + timed, last);
    assert forall|k: int| #![trigger latencies[k]] 0 <= k < latencies.len() implies {
        &&& events[1 + 4 * k] == Event::ClockStarted(seen.starts[k])
        &&& events[2 + 4 * k] == Event::Sent(sent)
        &&& events[3 + 4 * k] == (Event::Received { room, data: seen.replies[k] })
        &&& events[4 + 4 * k] == (Event::ClockRead {
            since: seen.starts[k],
            elapsed: latencies[k],
        })
    } by {
        assert(events[1 + 4 * k] == timed[4 * k]);
        assert(events[2 + 4 * k] == timed[4 * k + 1]);
        assert(events[3 + 4 * k] == timed[4 * k + 2]);
        assert(events[4 + 4 * k] == timed[4 * k + 3]);
    }
}

/// One exchange of a finished round, event by event.
proof fn lemma_round_exchange(
    sent: Seq<u8>,
    room: nat,
    seen: RoundView,
    latencies: Seq<Duration>,
    total: Duration,
    k: int,
)
    requires
        seen.starts.len() == seen.replies.len(),
        latencies.len() == seen.replies.len(),
        0 <= k < latencies.len(),
    ensures
        ({
            let events = round_events(sent, room, seen, latencies, total);
            &&& events[1 + 4 * k] == Event::ClockStarted(seen.starts[k])
            &&& events[2 + 4 * k] == Event::Sent(sent)
            &&& events[3 + 4 * k] == (Event::Received { room, data: seen.replies[k] })
            &&& events[4 + 4 * k] == (Event::ClockRead {
                since: seen.starts[k],
                elapsed: latencies[k],
            })
        }),
{
    lemma_round_is(sent, room, seen, latencies, total);
    let latency = latencies[k];
}

/// An exchange that broke off, event by event.
proof fn lemma_broke_off_is(
    error: PingError,
    sent: Seq<u8>,
    held: Seq<u8>,
    left: Seq<u8>,
    last: Seq<Event>,
)
    requires
        broke_off(error, sent, held, left, last),
    ensures
        all_belong(last, sent, held.len()),
        !(error is SizeMismatch),
        error matches PingError::Send(e) ==> {
            &&& last.len() == 1
            &&& last[0] == (Event::SendFailed { message: sent, error: e })
            &&& left == held
        },
        error matches PingError::Recv(e) ==> {
            &&& last.len() == 2
            &&& last[0] == Event::Sent(sent)
            &&& last[1] == (Event::RecvFailed { left, error: e })
        },
{
}

/// A timed exchange that broke off, event by event.
proof fn lemma_timed_broke_off_is(
    error: PingError,
    sent: Seq<u8>,
    held: Seq<u8>,
    left: Seq<u8>,
    last: Seq<Event>,
)
    requires
        timed_broke_off(error, sent, held, left, last),
    ensures
        all_belong(last, sent, held.len()),
        last.len() >= 2,
        last[0] is ClockStarted,
        error matches PingError::Send(e) ==> {
            &&& last.len() == 2
            &&& last[1] == (Event::SendFailed { message: sent, error: e })
            &&& left == held
        },
        error matches PingError::Recv(e) ==> {
            &&& last.len() == 3
            &&& last[1] == Event::Sent(sent)
            &&& last[2] == (Event::RecvFailed { left, error: e })
        },
        error matches PingError::SizeMismatch { got, expected } ==> {
            &&& expected == sent.len()
            &&& got != sent.len()
            &&& last.len() == 4
            &&& last[1] == Event::Sent(sent)
            &&& last[2] matches Event::Received { data, .. } && data.len() == got
            &&& last[3] matches Event::ClockRead { since, .. } && last[0] == Event::ClockStarted(
                since,
            )
        },
{
    match error {
        PingError::SizeMismatch { got, expected } => {
            let (reply, start, latency) = choose|reply: Seq<u8>, start: Instant, latency: Duration|
                {
                    &&& reply.len() == got
                    &&& last == #[trigger] timed_exchange(sent, held.len(), reply, start, latency)
                };
            assert(last == timed_exchange(sent, held.len(), reply, start, latency));
        },
        _ => {
            let (start, rest) = choose|start: Instant, rest: Seq<Event>|
                {
                    &&& #[trigger] broke_off(error, sent, held, left, rest)
                    &&& last == #[trigger] clock_start(start) + rest
                };
            lemma_broke_off_is(error, sent, held, left, rest);
            lemma_belong_joins(clock_start(start), rest, sent, held.len());
        },
    }
}

/// `warm_up` exchanges its message `warmup` times: each time the whole of it goes out and one
/// receive gets the whole buffer. It looks at no clock. It breaks off with the first call that
/// fails and hands out that call's error, and it succeeds if none does.
pub proof fn law_warm_up<T: Transport>(
    transport: &mut Session<T>,
    send_buf: &[u8],
    recv_buf: &mut [u8],
    warmup: usize,
    warmed: Result<(), PingError>,
)
    requires
        call_ensures(warm_up::<T>, (transport, send_buf, recv_buf, warmup), warmed),
    ensures
        final(recv_buf)@.len() == old(recv_buf)@.len(),
        ({
            let n = old(transport).trace().len() as int;
            let trace = final(transport).trace();
            &&& trace.take(n) == old(transport).trace()
            &&& warmed is Ok ==> {
                &&& trace.len() == n + 2 * warmup
                &&& forall|k: int|
                    n <= k < trace.len() ==> if (k - n) % 2 == 0 {
                        #[trigger] trace[k] == Event::Sent(send_buf@)
                    } else {
                        trace[k] matches Event::Received { room, .. } && room == old(
                            recv_buf,
                        )@.len()
                    }
            }
            &&& warmed matches Err(error) ==> exists|done: int|
                {
                    &&& 0 <= done < warmup
                    &&& n + 2 * done < trace.len()
                    &&& forall|k: int|
                        n <= k < n + 2 * done ==> if (k - n) % 2 == 0 {
                            #[trigger] trace[k] == Event::Sent(send_buf@)
                        } else {
                            trace[k] matches Event::Received { room, .. } && room == old(
                                recv_buf,
                            )@.len()
                        }
                    &&& match error {
                        PingError::Send(e) => {
                            &&& trace.len() == n + 2 * done + 1
                            &&& #[trigger] trace[n + 2 * done] == (Event::SendFailed {
                                message: send_buf@,
                                error: e,
                            })
                        },
                        PingError::Recv(e) => {
                            &&& trace.len() == n + 2 * done + 2
                            &&& trace[n + 2 * done] == Event::Sent(send_buf@)
                            &&& trace[n + 2 * done + 1] == (Event::RecvFailed {
                                left: final(recv_buf)@,
                                error: e,
                            })
                        },
                        PingError::SizeMismatch { .. } => false,
                    }
                }
        }),
{
    let before = old(transport).trace();
    let trace = final(transport).trace();
    let n = before.len() as int;
    let (sent, held) = (send_buf@, old(recv_buf)@);
    let room = held.len();
    match warmed {
        Ok(_) => {
            let replies = choose|replies: Seq<Seq<u8>>|
                {
                    &&& replies.len() == warmup
                    &&& all_fit(replies, room)
                    &&& trace == before + #[trigger] exchanges(sent, room, replies)
                    &&& final(recv_buf)@ == left_by(held, replies)
                };
            let events = exchanges(sent, room, replies);
            lemma_exchanges_kinds(sent, room, replies);
            assert(trace.take(n) =~= before);
            assert forall|k: int| n <= k < trace.len() implies if (k - n) % 2 == 0 {
                #[trigger] trace[k] == Event::Sent(sent)
            } else {
                trace[k] matches Event::Received { room: there, .. } && there == room
            } by {
                assert(trace[k] == events[k - n]);
            }
        },
        Err(error) => {
            let (replies, last) = choose|replies: Seq<Seq<u8>>, last: Seq<Event>|
                {
                    &&& replies.len() < warmup
                    &&& all_fit(replies, room)
                    &&& #[trigger] broke_off(
                        error,
                        sent,
                        left_by(held, replies),
                        final(recv_buf)@,
                        last,
                    )
                    &&& trace == before + #[trigger] exchanges(sent, room, replies) + last
                };
            let events = exchanges(sent, room, replies);
            let done = replies.len() as int;
            lemma_exchanges_kinds(sent, room, replies);
            lemma_broke_off_is(error, sent, left_by(held, replies), final(recv_buf)@, last);
            assert(trace.take(n) =~= before);
            assert forall|k: int| n <= k < n + 2 * done implies if (k - n) % 2 == 0 {
                #[trigger] trace[k] == Event::Sent(sent)
            } else {
                trace[k] matches Event::Received { room: there, .. } && there == room
            } by {
                assert(trace[k] == events[k - n]);
            }
            assert(trace[n + 2 * done] == last[0]);
            if error is Recv {
                assert(trace[n + 2 * done + 1] == last[1]);
            }
        },
    }
}

/// Echoes come into the front of the buffer that `warm_up` was given and leave the bytes behind
/// them alone: in the end, byte `i` is the one that came with echo `k`, the last that reached so
/// far, or still the old one if there is none.
pub proof fn law_warm_up_buffer<T: Transport>(
    transport: &mut Session<T>,
    send_buf: &[u8],
    recv_buf: &mut [u8],
    warmup: usize,
    i: int,
    k: int,
)
    requires
        call_ensures(
            warm_up::<T>,
            (transport, send_buf, recv_buf, warmup),
            Ok::<(), PingError>(()),
        ),
        0 <= i < old(recv_buf)@.len(),
        -1 <= k < warmup,
        forall|j: int|
            k < j < warmup ==> (#[trigger] final(transport).trace()[old(transport).trace().len() + 1
                + 2 * j] matches Event::Received { data, .. } && data.len() <= i),
    ensures
        k < 0 ==> final(recv_buf)@[i] == old(recv_buf)@[i],
        k >= 0 ==> (final(transport).trace()[old(transport).trace().len() + 1 + 2 * k] matches
            Event::Received { data, .. } && (i < data.len() ==> final(recv_buf)@[i] == data[i])),
{
    let before = old(transport).trace();
    let trace = final(transport).trace();
    let n = before.len() as int;
    let (sent, held) = (send_buf@, old(recv_buf)@);
    let room = held.len();
    let replies = choose|replies: Seq<Seq<u8>>|
        {
            &&& replies.len() == warmup
            &&& all_fit(replies, room)
            &&& trace == before + #[trigger] exchanges(sent, room, replies)
            &&& final(recv_buf)@ == left_by(held, replies)
        };
    let events = exchanges(sent, room, replies);
    lemma_exchanges_kinds(sent, room, replies);
    assert forall|j: int| 0 <= j < warmup implies #[trigger] trace[n + 1 + 2 * j]
        == (Event::Received { room, data: replies[j] }) by {
        assert(trace[n + 1 + 2 * j] == events[1 + 2 * j]);
    }
    assert forall|j: int| k < j < warmup implies (#[trigger] replies[j]).len() <= i by {
        assert(trace[n + 1 + 2 * j] == (Event::Received { room, data: replies[j] }));
    }
    if k >= 0 {
        assert(trace[n + 1 + 2 * k] == (Event::Received { room, data: replies[k] }));
    }
    if k < 0 || i < replies[k].len() {
        lemma_left_by_byte(held, replies, i, k);
    }
}

/// A byte of a buffer comes from the last reply that reached so far.
proof fn lemma_left_by_byte(buffer: Seq<u8>, replies: Seq<Seq<u8>>, i: int, k: int)
    requires
        all_fit(replies, buffer.len()),
        0 <= i < buffer.len(),
        -1 <= k < replies.len(),
        k >= 0 ==> i < replies[k].len(),
        forall|j: int| k < j < replies.len() ==> (#[trigger] replies[j]).len() <= i,
    ensures
        left_by(buffer, replies)[i] == if k < 0 {
            buffer[i]
        } else {
            replies[k][i]
        },
    decreases replies.len(),
{
    if replies.len() > 0 {
        let earlier = replies.drop_last();
        let last = replies.len() - 1;
        assert(replies[last].len() <= buffer.len());
        assert(all_fit(earlier, buffer.len())) by {
            assert forall|j: int| 0 <= j < earlier.len() implies (#[trigger] earlier[j]).len()
                <= buffer.len() by {
                assert(replies[j].len() <= buffer.len());
            }
        }
        lemma_left_by_len(buffer, earlier);
        if k < last {
            assert forall|j: int| k < j < earlier.len() implies (#[trigger] earlier[j]).len()
                <= i by {
                assert(replies[j].len() <= i);
            }
            lemma_left_by_byte(buffer, earlier, i, k);
        }
    }
}

/// Exchanges, event by event.
proof fn lemma_exchanges_kinds(sent: Seq<u8>, room: nat, replies: Seq<Seq<u8>>)
    ensures
        exchanges(sent, room, replies).len() == 2 * replies.len(),
        forall|i: int|
            0 <= i < 2 * replies.len() ==> if i % 2 == 0 {
                #[trigger] exchanges(sent, room, replies)[i] == Event::Sent(sent)
            } else {
                exchanges(sent, room, replies)[i] == (Event::Received {
                    room,
                    data: replies[i / 2],
                })
            },
{
    let events = exchanges(sent, room, replies);
    lemma_exchanges_parts(sent, room, replies);
    assert forall|i: int| 0 <= i < 2 * replies.len() implies if i % 2 == 0 {
        #[trigger] events[i] == Event::Sent(sent)
    } else {
        events[i] == (Event::Received { room, data: replies[i / 2] })
    } by {
        let j = i / 2;
        assert(replies[j] == replies[j]);
        assert(events[2 * j] == Event::Sent(sent));
        assert(events[2 * j + 1] == (Event::Received { room, data: replies[j] }));
    }
}

/// `run_one_round` exchanges its message `count` times: each time the whole of it goes out and
/// one receive gets the whole buffer. The k-th latency is a reading, right after the k-th echo,
/// of the clock that was started right before the k-th message; the total is a reading, after
/// all of them, of the one that was started before all of them. Every echo of a finished round
/// is as long as the message, the last one stands at the front of the buffer, and the bytes
/// behind it stay. A round breaks off with the first call that fails and hands out its error, or
/// with the first echo of another length, which it names; otherwise it finishes.
pub proof fn law_round<T: Transport>(
    transport: &mut Session<T>,
    send_buf: &[u8],
    recv_buf: &mut [u8],
    count: usize,
    round: Result<RoundResult, PingError>,
)
    requires
        call_ensures(run_one_round::<T>, (transport, send_buf, recv_buf, count), round),
    ensures
        final(recv_buf)@.len() == old(recv_buf)@.len(),
        ({
            let n = old(transport).trace().len() as int;
            let trace = final(transport).trace();
            &&& trace.take(n) == old(transport).trace()
            &&& trace.len() > n
            &&& trace[n] is ClockStarted
        }),
        ({
            let n = old(transport).trace().len() as int;
            let trace = final(transport).trace();
            forall|i: int|
                n <= i < trace.len() ==> match #[trigger] trace[i] {
                    Event::Sent(message) => message == send_buf@,
                    Event::SendFailed { message, .. } => message == send_buf@,
                    Event::Received { room, .. } => room == old(recv_buf)@.len(),
                    Event::RecvFailed { left, .. } => left.len() == old(recv_buf)@.len(),
                    Event::ClockStarted(_) => true,
                    Event::ClockRead { .. } => true,
                    _ => false,
                }
        }),
        round matches Ok(result) ==> {
            let n = old(transport).trace().len() as int;
            let trace = final(transport).trace();
            &&& result.latencies@.len() == count
            &&& trace.len() == n + 4 * count + 2
            &&& trace[n + 4 * count + 1] matches Event::ClockRead { since, elapsed } && trace[n]
                == Event::ClockStarted(since) && elapsed == result.total_elapsed
        },
        round matches Ok(result) ==> {
            let n = old(transport).trace().len() as int;
            let trace = final(transport).trace();
            &&& forall|k: int|
                0 <= k < count ==> #[trigger] trace[n + 2 + 4 * k] == Event::Sent(send_buf@)
            &&& forall|k: int|
                0 <= k < count ==> (#[trigger] trace[n + 3 + 4 * k] matches Event::Received {
                    data,
                    ..
                } && data.len() == send_buf@.len())
            &&& forall|k: int|
                0 <= k < count ==> (#[trigger] trace[n + 4 + 4 * k] matches Event::ClockRead {
                    since,
                    elapsed,
                } && trace[n + 1 + 4 * k] == Event::ClockStarted(since) && elapsed
                    == result.latencies@[k])
        },
        round is Ok && count == 0 ==> final(recv_buf)@ == old(recv_buf)@,
        round is Ok && count > 0 ==> {
            let n = old(transport).trace().len() as int;
            let trace = final(transport).trace();
            (trace[n + 4 * count - 1] matches Event::Received { data, .. }
                && final(recv_buf)@ == data + old(recv_buf)@.skip(send_buf@.len() as int))
        },
        round matches Err(error) ==> {
            let n = old(transport).trace().len() as int;
            let trace = final(transport).trace();
            exists|done: int|
                {
                    &&& 0 <= done < count
                    &&& n + 2 + 4 * done < trace.len()
                    &&& #[trigger] trace[n + 1 + 4 * done] is ClockStarted
                    &&& forall|i: int|
                        n <= i < n + 1 + 4 * done ==> !(#[trigger] trace[i] is SendFailed) && !(
                        trace[i] is RecvFailed)
                    &&& forall|k: int|
                        0 <= k < done ==> (#[trigger] trace[n + 3 + 4 * k] matches Event::Received {
                            data,
                            ..
                        } && data.len() == send_buf@.len())
                    &&& match error {
                        PingError::Send(e) => {
                            &&& trace.len() == n + 3 + 4 * done
                            &&& trace[n + 2 + 4 * done] == (Event::SendFailed {
                                message: send_buf@,
                                error: e,
                            })
                        },
                        PingError::Recv(e) => {
                            &&& trace.len() == n + 4 + 4 * done
                            &&& trace[n + 3 + 4 * done] == (Event::RecvFailed {
                                left: final(recv_buf)@,
                                error: e,
                            })
                        },
                        PingError::SizeMismatch { got, expected } => {
                            &&& expected == send_buf@.len()
                            &&& got != expected
                            &&& trace.len() == n + 5 + 4 * done
                            &&& trace[n + 3 + 4 * done] matches Event::Received { data, .. }
                                && data.len() == got
                            &&& trace[n + 4 + 4 * done] is ClockRead
                        },
                    }
                }
        },
{
    let before = old(transport).trace();
    let trace = final(transport).trace();
    let n = before.len() as int;
    let (sent, held, left) = (send_buf@, old(recv_buf)@, final(recv_buf)@);
    match round {
        Ok(result) => {
            lemma_round_finished_is(before, trace, sent, held, left, count as nat, result);
            assert forall|k: int| 0 <= k < count implies #[trigger] trace[n + 2 + 4 * k]
                == Event::Sent(send_buf@) by {
                assert(is_timed(trace, n + 1 + 4 * k, sent, result.latencies@[k]));
            }
            assert forall|k: int| 0 <= k < count implies (#[trigger] trace[n + 3 + 4 * k] matches
                Event::Received { data, .. } && data.len() == send_buf@.len()) by {
                assert(is_timed(trace, n + 1 + 4 * k, sent, result.latencies@[k]));
            }
            assert forall|k: int| 0 <= k < count implies (#[trigger] trace[n + 4 + 4 * k] matches
                Event::ClockRead { since, elapsed } && trace[n + 1 + 4 * k] == Event::ClockStarted(
                since,
            ) && elapsed == result.latencies@[k]) by {
                assert(is_timed(trace, n + 1 + 4 * k, sent, result.latencies@[k]));
            }
        },
        Err(error) => {
            let done = lemma_round_stopped_is(
                before,
                trace,
                sent,
                held,
                left,
                count as nat,
                error,
            );
            assert(trace[n + 1 + 4 * done] is ClockStarted);
        },
    }
    assert forall|i: int| n <= i < trace.len() implies match #[trigger] trace[i] {
        Event::Sent(message) => message == send_buf@,
        Event::SendFailed { message, .. } => message == send_buf@,
        Event::Received { room, .. } => room == old(recv_buf)@.len(),
        Event::RecvFailed { left, .. } => left.len() == old(recv_buf)@.len(),
        Event::ClockStarted(_) => true,
        Event::ClockRead { .. } => true,
        _ => false,
    } by {
        assert(trace[i] == trace.skip(n)[i - n]);
        assert(belongs(trace.skip(n)[i - n], send_buf@, old(recv_buf)@.len()));
    }
}

/// At `at` stands an exchange of this message with an echo of its length, timed as `latency`.
spec fn is_timed(trace: Seq<Event>, at: int, sent: Seq<u8>, latency: Duration) -> bool {
    &&& trace[at + 1] == Event::Sent(sent)
    &&& trace[at + 2] matches Event::Received { data, .. } && data.len() == sent.len()
    &&& trace[at + 3] matches Event::ClockRead { since, elapsed } && trace[at]
        == Event::ClockStarted(since) && elapsed == latency
}

/// A finished round, event by event.
proof fn lemma_round_finished_is(
    before: Seq<Event>,
    trace: Seq<Event>,
    sent: Seq<u8>,
    held: Seq<u8>,
    left: Seq<u8>,
    count: nat,
    result: RoundResult,
)
    requires
        round_outcome(before, trace, sent, held, left, count, Ok(result)),
    ensures
        ({
            let n = before.len() as int;
            &&& trace.take(n) == before
            &&& result.latencies@.len() == count
            &&& trace.len() == n + 4 * count + 2
            &&& trace[n] is ClockStarted
            &&& all_belong(trace.skip(n), sent, held.len())
            &&& all_well(trace.skip(n))
            &&& trace[n + 4 * count + 1] matches Event::ClockRead { since, elapsed } && trace[n]
                == Event::ClockStarted(since) && elapsed == result.total_elapsed
            &&& forall|k: int|
                0 <= k < count ==> is_timed(
                    trace,
                    n + 1 + 4 * k,
                    sent,
                    #[trigger] result.latencies@[k],
                )
            &&& count == 0 ==> left == held
            &&& count > 0 ==> (trace[n + 4 * count - 1] matches Event::Received { data, .. }
                && left == data + held.skip(sent.len() as int))
        }),
{
    let n = before.len() as int;
    let room = held.len();
    let latencies = result.latencies@;
    let seen = choose|seen: RoundView|
        {
            &&& #[trigger] round_fits(seen, count, sent.len())
            &&& round_finished(before, trace, sent, held, left, seen, result)
        };
    let events = round_events(sent, room, seen, latencies, result.total_elapsed);
    lemma_round_is(sent, room, seen, latencies, result.total_elapsed);
    assert(trace.take(n) =~= before);
    assert(trace.skip(n) =~= events);
    assert(trace[n] == events[0]);
    assert(trace[n + 4 * count + 1] == events[4 * count as int + 1]);
    assert forall|k: int| 0 <= k < count implies is_timed(
        trace,
        n + 1 + 4 * k,
        sent,
        #[trigger] result.latencies@[k],
    ) by {
        assert(latencies[k] == result.latencies@[k]);
        assert(trace[n + 1 + 4 * k] == events[1 + 4 * k]);
        assert(trace[n + 2 + 4 * k] == events[2 + 4 * k]);
        assert(trace[n + 3 + 4 * k] == events[3 + 4 * k]);
        assert(trace[n + 4 + 4 * k] == events[4 + 4 * k]);
        assert(seen.replies[k].len() == sent.len());
    }
    if count > 0 {
        let k = count - 1;
        assert(latencies[k] == result.latencies@[k]);
        assert(trace[n + 3 + 4 * k] == events[3 + 4 * k]);
        law_last_reply_stays(held, seen.replies, sent.len());
        assert(seen.replies.last() == seen.replies[k]);
        assert(n + 4 * count - 1 == n + 3 + 4 * k);
    }
}

/// A round that broke off, event by event. Returns how many exchanges went well.
proof fn lemma_round_stopped_is(
    before: Seq<Event>,
    trace: Seq<Event>,
    sent: Seq<u8>,
    held: Seq<u8>,
    left: Seq<u8>,
    count: nat,
    error: PingError,
) -> (done: int)
    requires
        round_outcome(before, trace, sent, held, left, count, Err(error)),
    ensures
        ({
            let n = before.len() as int;
            &&& trace.take(n) == before
            &&& 0 <= done < count
            &&& n + 2 + 4 * done < trace.len()
            &&& trace[n] is ClockStarted
            &&& all_belong(trace.skip(n), sent, held.len())
            &&& trace[n + 1 + 4 * done] is ClockStarted
            &&& forall|i: int|
                n <= i < n + 1 + 4 * done ==> !(#[trigger] trace[i] is SendFailed) && !(
                trace[i] is RecvFailed)
            &&& forall|k: int|
                0 <= k < done ==> (#[trigger] trace[n + 3 + 4 * k] matches Event::Received {
                    data,
                    ..
                } && data.len() == sent.len())
            &&& match error {
                PingError::Send(e) => {
                    &&& trace.len() == n + 3 + 4 * done
                    &&& trace[n + 2 + 4 * done] == (Event::SendFailed { message: sent, error: e })
                },
                PingError::Recv(e) => {
                    &&& trace.len() == n + 4 + 4 * done
                    &&& trace[n + 2 + 4 * done] == Event::Sent(sent)
                    &&& trace[n + 3 + 4 * done] == (Event::RecvFailed { left, error: e })
                },
                PingError::SizeMismatch { got, expected } => {
                    &&& expected == sent.len()
                    &&& got != expected
                    &&& trace.len() == n + 5 + 4 * done
                    &&& trace[n + 2 + 4 * done] == Event::Sent(sent)
                    &&& trace[n + 3 + 4 * done] matches Event::Received { data, .. } && data.len()
                        == got
                    &&& trace[n + 4 + 4 * done] is ClockRead
                },
            }
        }),
{
    let n = before.len() as int;
    let room = held.len();
    let (seen, latencies) = choose|seen: RoundView, latencies: Seq<Duration>|
        {
            &&& latencies.len() < count
            &&& round_fits(seen, latencies.len(), sent.len())
            &&& #[trigger] round_stopped(before, trace, sent, held, left, seen, latencies, error)
        };
    let first = clock_start(seen.began);
    let timed = timed_exchanges(sent, room, seen.replies, seen.starts, latencies);
    let now = left_by(held, seen.replies);
    let last = choose|last: Seq<Event>|
        {
            &&& #[trigger] timed_broke_off(error, sent, now, left, last)
            &&& trace == before + first + timed + last
        };
    let done = latencies.len() as int;
    assert(all_fit(seen.replies, room));
    lemma_left_by_len(held, seen.replies);
    lemma_timed_is(sent, room, seen.replies, seen.starts, latencies);
    lemma_timed_broke_off_is(error, sent, now, left, last);
    lemma_belong_joins(first, timed, sent, room);
    lemma_belong_joins(first + timed, last, sent, room);
    lemma_well_joins(first, timed);
    assert(trace.take(n) =~= before);
    assert(trace.skip(n) =~= first + timed + last);
    assert(trace[n] == first[0]);
    assert(trace[n + 1 + 4 * done] == last[0]);
    assert(trace[n + 2 + 4 * done] == last[1]);
    assert forall|i: int| n <= i < n + 1 + 4 * done implies !(#[trigger] trace[i] is SendFailed)
        && !(trace[i] is RecvFailed) by {
        assert(trace[i] == (first + timed)[i - n]);
    }
    assert forall|k: int| 0 <= k < done implies (#[trigger] trace[n + 3 + 4 * k] matches
        Event::Received { data, .. } && data.len() == sent.len()) by {
        let latency = latencies[k];
        assert(timed[4 * k + 2] == (Event::Received { room, data: seen.replies[k] }));
        assert(trace[n + 3 + 4 * k] == timed[4 * k + 2]);
        assert(seen.replies[k].len() == sent.len());
    }
    if !(error is Send) {
        assert(trace[n + 3 + 4 * done] == last[2]);
    }
    if error is SizeMismatch {
        assert(trace[n + 4 + 4 * done] == last[3]);
    }
    done
}

/// Finished rounds, one after the other.
proof fn lemma_rounds_are(
    sent: Seq<u8>,
    room: nat,
    seen: Seq<RoundView>,
    results: Seq<RoundResult>,
    count: nat,
)
    requires
        seen.len() == results.len(),
        rounds_fit(seen, count, sent.len()),
        rounds_complete(results, count),
    ensures
        rounds_events(sent, room, seen, results).len() == results.len() * (4 * count + 2),
        all_belong(rounds_events(sent, room, seen, results), sent, room),
        all_well(rounds_events(sent, room, seen, results)),
    decreases seen.len(),
{
    if seen.len() > 0 {
        let (shorter_seen, shorter) = (seen.drop_last(), results.drop_last());
        let result = results.last();
        lemma_shorter_rounds(seen, results, count, sent.len());
        lemma_rounds_are(sent, room, shorter_seen, shorter, count);
        let earlier = rounds_events(sent, room, shorter_seen, shorter);
        let last = round_events(
            sent,
            room,
            seen.last(),
            result.latencies@,
            result.total_elapsed,
        );
        assert(round_fits(seen[seen.len() - 1], count, sent.len()));
        assert(results[results.len() - 1].latencies@.len() == count);
        lemma_round_is(sent, room, seen.last(), result.latencies@, result.total_elapsed);
        lemma_belong_joins(earlier, last, sent, room);
        lemma_well_joins(earlier, last);
        let (size, rounds) = (4 * count as int + 2, results.len() as int);
        assert((rounds - 1) * size + size == rounds * size) by (nonlinear_arith);
    }
}

/// All rounds but the last are as sound as all.
proof fn lemma_shorter_rounds(
    seen: Seq<RoundView>,
    results: Seq<RoundResult>,
    count: nat,
    len: nat,
)
    requires
        0 < seen.len() == results.len(),
        rounds_fit(seen, count, len),
        rounds_complete(results, count),
    ensures
        rounds_fit(seen.drop_last(), count, len),
        rounds_complete(results.drop_last(), count),
{
    assert forall|i: int| 0 <= i < seen.len() - 1 implies round_fits(
        #[trigger] seen.drop_last()[i],
        count,
        len,
    ) by {
        assert(round_fits(seen[i], count, len));
    }
    assert forall|i: int| 0 <= i < results.len() - 1 implies (
    #[trigger] results.drop_last()[i]).latencies@.len() == count by {
        assert(results[i].latencies@.len() == count);
    }
}

/// Where a finished round stands among all.
proof fn lemma_round_at(
    sent: Seq<u8>,
    room: nat,
    seen: Seq<RoundView>,
    results: Seq<RoundResult>,
    count: nat,
    r: int,
    j: int,
)
    requires
        seen.len() == results.len(),
        rounds_fit(seen, count, sent.len()),
        rounds_complete(results, count),
        0 <= r < results.len(),
        0 <= j < 4 * count + 2,
    ensures
        0 <= r * (4 * count + 2) + j < rounds_events(sent, room, seen, results).len(),
        rounds_events(sent, room, seen, results)[r * (4 * count + 2) + j] == round_events(
            sent,
            room,
            seen[r],
            results[r].latencies@,
            results[r].total_elapsed,
        )[j],
    decreases seen.len(),
{
    let (shorter_seen, shorter) = (seen.drop_last(), results.drop_last());
    let result = results.last();
    let earlier = rounds_events(sent, room, shorter_seen, shorter);
    let (size, rounds) = (4 * count as int + 2, results.len() as int);
    lemma_shorter_rounds(seen, results, count, sent.len());
    lemma_rounds_are(sent, room, shorter_seen, shorter, count);
    lemma_rounds_are(sent, room, seen, results, count);
    assert(0 <= r * size) by (nonlinear_arith)
        requires
            0 <= r,
            0 <= size,
    ;
    if r < rounds - 1 {
        lemma_round_at(sent, room, shorter_seen, shorter, count, r, j);
        assert(shorter[r] == results[r] && shorter_seen[r] == seen[r]);
        assert(rounds_events(sent, room, seen, results)[r * size + j] == earlier[r * size + j]);
        assert((rounds - 1) * size + size == rounds * size) by (nonlinear_arith);
    } else {
        assert(round_fits(seen[seen.len() - 1], count, sent.len()));
        assert(results[results.len() - 1].latencies@.len() == count);
        lemma_round_is(sent, room, seen.last(), result.latencies@, result.total_elapsed);
        assert(r * size == earlier.len());
        assert((rounds - 1) * size + size == rounds * size) by (nonlinear_arith);
    }
}

/// Rounds do not change the length of a receive buffer.
proof fn lemma_left_by_rounds_len(buffer: Seq<u8>, seen: Seq<RoundView>, count: nat, len: nat)
    requires
        rounds_fit(seen, count, len),
        len <= buffer.len(),
    ensures
        left_by_rounds(buffer, seen).len() == buffer.len(),
    decreases seen.len(),
{
    if seen.len() > 0 {
        let shorter = seen.drop_last();
        assert forall|i: int| 0 <= i < shorter.len() implies round_fits(
            #[trigger] shorter[i],
            count,
            len,
        ) by {
            assert(round_fits(seen[i], count, len));
        }
        lemma_left_by_rounds_len(buffer, shorter, count, len);
        assert(round_fits(seen[seen.len() - 1], count, len));
        let replies = seen.last().replies;
        assert(all_fit(replies, buffer.len())) by {
            assert forall|i: int| 0 <= i < replies.len() implies (#[trigger] replies[i]).len()
                <= buffer.len() by {
                assert(replies[i].len() == len);
            }
        }
        lemma_left_by_len(left_by_rounds(buffer, shorter), replies);
    }
}

/// A warmup that broke off, event by event. Returns how many exchanges went well.
proof fn lemma_warm_up_stopped_is(
    before: Seq<Event>,
    trace: Seq<Event>,
    sent: Seq<u8>,
    held: Seq<u8>,
    left: Seq<u8>,
    warmup: nat,
    error: PingError,
) -> (done: int)
    requires
        warm_up_outcome(before, trace, sent, held, left, warmup, Err(error)),
    ensures
        ({
            let n = before.len() as int;
            &&& trace.take(n) == before
            &&& 0 <= done < warmup
            &&& n + 2 * done < trace.len()
            &&& all_belong(trace.skip(n), sent, held.len())
            &&& forall|i: int|
                n <= i < n + 2 * done ==> !(#[trigger] trace[i] is SendFailed) && !(
                trace[i] is RecvFailed)
            &&& match error {
                PingError::Send(e) => {
                    &&& trace.len() == n + 2 * done + 1
                    &&& trace[n + 2 * done] == (Event::SendFailed { message: sent, error: e })
                },
                PingError::Recv(e) => {
                    &&& trace.len() == n + 2 * done + 2
                    &&& trace[n + 2 * done] == Event::Sent(sent)
                    &&& trace[n + 2 * done + 1] == (Event::RecvFailed { left, error: e })
                },
                PingError::SizeMismatch { .. } => false,
            }
        }),
{
    let n = before.len() as int;
    let room = held.len();
    let (replies, last) = choose|replies: Seq<Seq<u8>>, last: Seq<Event>|
        {
            &&& replies.len() < warmup
            &&& all_fit(replies, room)
            &&& #[trigger] broke_off(error, sent, left_by(held, replies), left, last)
            &&& trace == before + #[trigger] exchanges(sent, room, replies) + last
        };
    let events = exchanges(sent, room, replies);
    let done = replies.len() as int;
    lemma_left_by_len(held, replies);
    lemma_exchanges_kinds(sent, room, replies);
    lemma_exchanges_belong(sent, room, replies);
    lemma_broke_off_is(error, sent, left_by(held, replies), left, last);
    lemma_belong_joins(events, last, sent, room);
    assert(trace.take(n) =~= before);
    assert(trace.skip(n) =~= events + last);
    assert forall|i: int| n <= i < n + 2 * done implies !(#[trigger] trace[i] is SendFailed) && !(
    trace[i] is RecvFailed) by {
        assert(trace[i] == events[i - n]);
    }
    assert(trace[n + 2 * done] == last[0]);
    if error is Recv {
        assert(trace[n + 2 * done + 1] == last[1]);
    }
    done
}

/// The warmup and the rounds that a run finished.
proof fn lemma_benchmark_is(
    sent: Seq<u8>,
    warm: Seq<Seq<u8>>,
    seen: Seq<RoundView>,
    results: Seq<RoundResult>,
    count: nat,
    warmup: nat,
)
    requires
        benchmark_fits(warm, seen, results, sent.len(), count, warmup),
        rounds_complete(results, count),
    ensures
        benchmark_events(sent, warm, seen, results).len() == 2 * warmup + results.len() * (4 * count
            + 2),
        all_belong(benchmark_events(sent, warm, seen, results), sent, sent.len()),
        all_well(benchmark_events(sent, warm, seen, results)),
{
    let room = sent.len();
    lemma_exchanges_kinds(sent, room, warm);
    lemma_exchanges_belong(sent, room, warm);
    lemma_rounds_are(sent, room, seen, results, count);
    lemma_belong_joins(
        exchanges(sent, room, warm),
        rounds_events(sent, room, seen, results),
        sent,
        room,
    );
    lemma_well_joins(exchanges(sent, room, warm), rounds_events(sent, room, seen, results));
}

/// In a run with messages of `msg_size` bytes, every message that the transport is handed, in
/// the warmup and in all rounds, is `msg_size` bytes long and made of the byte 0xAB, and every
/// receive gets a buffer of `msg_size` bytes. The run finishes all its rounds, each with a
/// latency for every message, unless a call fails or an echo has another length.
pub proof fn law_run_messages<T: Transport>(
    transport: &mut Session<T>,
    msg_size: usize,
    count: usize,
    rounds: usize,
    warmup: usize,
    run: PingPong,
)
    requires
        call_ensures(run_ping_pong::<T>, (transport, msg_size, count, rounds, warmup), run),
    ensures
        forall|r: int|
            0 <= r < run.rounds@.len() ==> (#[trigger] run.rounds@[r]).latencies@.len() == count,
        ({
            let n = old(transport).trace().len() as int;
            let trace = final(transport).trace();
            &&& trace.take(n) == old(transport).trace()
            &&& forall|i: int|
                n <= i < trace.len() ==> match #[trigger] trace[i] {
                    Event::Sent(message) => {
                        &&& message.len() == msg_size
                        &&& forall|j: int| 0 <= j < message.len() ==> #[trigger] message[j] == 0xAB
                    },
                    Event::SendFailed { message, .. } => {
                        &&& message.len() == msg_size
                        &&& forall|j: int| 0 <= j < message.len() ==> #[trigger] message[j] == 0xAB
                    },
                    Event::Received { room, .. } => room == msg_size,
                    Event::RecvFailed { left, .. } => left.len() == msg_size,
                    Event::ClockStarted(_) => true,
                    Event::ClockRead { .. } => true,
                    _ => false,
                }
        }),
        run.failure is None ==> {
            &&& run.rounds@.len() == rounds
            &&& final(transport).trace().len() == old(transport).trace().len() + 2 * warmup + rounds
                * (4 * count + 2)
        },
{
    let before = old(transport).trace();
    let trace = final(transport).trace();
    let n = before.len() as int;
    lemma_run_is(before, trace, msg_size as nat, count as nat, rounds as nat, warmup as nat, run);
    let sent = benchmark_message(msg_size as nat);
    assert forall|i: int| n <= i < trace.len() implies match #[trigger] trace[i] {
        Event::Sent(message) => {
            &&& message.len() == msg_size
            &&& forall|j: int| 0 <= j < message.len() ==> #[trigger] message[j] == 0xAB
        },
        Event::SendFailed { message, .. } => {
            &&& message.len() == msg_size
            &&& forall|j: int| 0 <= j < message.len() ==> #[trigger] message[j] == 0xAB
        },
        Event::Received { room, .. } => room == msg_size,
        Event::RecvFailed { left, .. } => left.len() == msg_size,
        Event::ClockStarted(_) => true,
        Event::ClockRead { .. } => true,
        _ => false,
    } by {
        assert(trace[i] == trace.skip(n)[i - n]);
        assert(belongs(trace.skip(n)[i - n], sent, msg_size as nat));
    }
}

/// A run, event by event, as far as all runs are alike.
proof fn lemma_run_is(
    before: Seq<Event>,
    trace: Seq<Event>,
    msg_size: nat,
    count: nat,
    rounds: nat,
    warmup: nat,
    run: PingPong,
)
    requires
        crate::ping_pong::ping_pong_outcome(before, trace, msg_size, count, rounds, warmup, run),
        rounds_complete(run.rounds@, count),
    ensures
        trace.take(before.len() as int) == before,
        all_belong(trace.skip(before.len() as int), benchmark_message(msg_size), msg_size),
        run.failure is None ==> {
            &&& run.rounds@.len() == rounds
            &&& trace.len() == before.len() + 2 * warmup + rounds * (4 * count + 2)
            &&& all_well(trace.skip(before.len() as int))
        },
{
    let n = before.len() as int;
    let sent = benchmark_message(msg_size);
    let blank = blank_buffer(msg_size);
    let results = run.rounds@;
    match run.failure {
        None => {
            let (warm, seen) = choose|warm: Seq<Seq<u8>>, seen: Seq<RoundView>|
                {
                    &&& benchmark_fits(warm, seen, results, msg_size, count, warmup)
                    &&& trace == before + #[trigger] benchmark_events(sent, warm, seen, results)
                };
            lemma_benchmark_is(sent, warm, seen, results, count, warmup);
            assert(trace.take(n) =~= before);
            assert(trace.skip(n) =~= benchmark_events(sent, warm, seen, results));
        },
        Some(error) => {
            if exists|left: Seq<u8>| #[trigger]
                warm_up_outcome(before, trace, sent, blank, left, warmup, Err(error)) {
                let left = choose|left: Seq<u8>| #[trigger]
                    warm_up_outcome(before, trace, sent, blank, left, warmup, Err(error));
                let done = lemma_warm_up_stopped_is(
                    before,
                    trace,
                    sent,
                    blank,
                    left,
                    warmup,
                    error,
                );
            } else {
                let (warm, seen, left) = choose|
                    warm: Seq<Seq<u8>>,
                    seen: Seq<RoundView>,
                    left: Seq<u8>,
                |
                    {
                        &&& benchmark_fits(warm, seen, results, msg_size, count, warmup)
                        &&& #[trigger] round_outcome(
                            before + benchmark_events(sent, warm, seen, results),
                            trace,
                            sent,
                            left_by_rounds(left_by(blank, warm), seen),
                            left,
                            count,
                            Err(error),
                        )
                    };
                let events = benchmark_events(sent, warm, seen, results);
                lemma_benchmark_is(sent, warm, seen, results, count, warmup);
                lemma_left_by_len(blank, warm);
                lemma_left_by_rounds_len(left_by(blank, warm), seen, count, msg_size);
                let held = left_by_rounds(left_by(blank, warm), seen);
                let done = lemma_round_stopped_is(
                    before + events,
                    trace,
                    sent,
                    held,
                    left,
                    count,
                    error,
                );
                let m = (before + events).len() as int;
                assert(trace.take(n) =~= trace.take(m).take(n));
                assert((before + events).take(n) =~= before);
                assert(trace.skip(n) =~= trace.take(m).skip(n) + trace.skip(m));
                assert((before + events).skip(n) =~= events);
                lemma_belong_joins(events, trace.skip(m), sent, msg_size);
            }
        },
    }
}

/// The warmup and the finished rounds of a run that got through its warmup.
proof fn lemma_run_begins(
    before: Seq<Event>,
    trace: Seq<Event>,
    msg_size: nat,
    count: nat,
    rounds: nat,
    warmup: nat,
    run: PingPong,
) -> (found: (Seq<Seq<u8>>, Seq<RoundView>))
    requires
        crate::ping_pong::ping_pong_outcome(before, trace, msg_size, count, rounds, warmup, run),
        rounds_complete(run.rounds@, count),
        run.failure is None || run.rounds@.len() > 0,
    ensures
        benchmark_fits(found.0, found.1, run.rounds@, msg_size, count, warmup),
        ({
            let events = benchmark_events(
                benchmark_message(msg_size),
                found.0,
                found.1,
                run.rounds@,
            );
            &&& trace.len() >= before.len() + events.len()
            &&& trace.take((before.len() + events.len()) as int) == before + events
        }),
{
    let sent = benchmark_message(msg_size);
    let blank = blank_buffer(msg_size);
    let results = run.rounds@;
    match run.failure {
        None => {
            let (warm, seen) = choose|warm: Seq<Seq<u8>>, seen: Seq<RoundView>|
                {
                    &&& benchmark_fits(warm, seen, results, msg_size, count, warmup)
                    &&& trace == before + #[trigger] benchmark_events(sent, warm, seen, results)
                };
            assert(trace.take(trace.len() as int) =~= trace);
            (warm, seen)
        },
        Some(error) => {
            let (warm, seen, left) = choose|
                warm: Seq<Seq<u8>>,
                seen: Seq<RoundView>,
                left: Seq<u8>,
            |
                {
                    &&& benchmark_fits(warm, seen, results, msg_size, count, warmup)
                    &&& #[trigger] round_outcome(
                        before + benchmark_events(sent, warm, seen, results),
                        trace,
                        sent,
                        left_by_rounds(left_by(blank, warm), seen),
                        left,
                        count,
                        Err(error),
                    )
                };
            let done = lemma_round_stopped_is(
                before + benchmark_events(sent, warm, seen, results),
                trace,
                sent,
                left_by_rounds(left_by(blank, warm), seen),
                left,
                count,
                error,
            );
            (warm, seen)
        },
    }
}

/// The warmup of a run comes before all rounds: `warmup` messages, each followed by its echo, of
/// whatever length, and no look at the clock.
pub proof fn law_run_warmup<T: Transport>(
    transport: &mut Session<T>,
    msg_size: usize,
    count: usize,
    rounds: usize,
    warmup: usize,
    run: PingPong,
    k: int,
)
    requires
        call_ensures(run_ping_pong::<T>, (transport, msg_size, count, rounds, warmup), run),
        run.failure is None || run.rounds@.len() > 0,
        0 <= k < warmup,
    ensures
        ({
            let n = old(transport).trace().len() as int;
            let trace = final(transport).trace();
            &&& n + 2 * warmup <= trace.len()
            &&& trace[n + 2 * k] is Sent
            &&& trace[n + 2 * k + 1] is Received
        }),
{
    let before = old(transport).trace();
    let trace = final(transport).trace();
    let n = before.len() as int;
    let size = msg_size as nat;
    let (warm, seen) = lemma_run_begins(
        before,
        trace,
        size,
        count as nat,
        rounds as nat,
        warmup as nat,
        run,
    );
    let sent = benchmark_message(size);
    let first = exchanges(sent, sent.len(), warm);
    let events = benchmark_events(sent, warm, seen, run.rounds@);
    lemma_exchanges_kinds(sent, sent.len(), warm);
    let all = before + events;
    assert(events.len() >= first.len());
    assert(trace[n + 2 * k] == trace.take(all.len() as int)[n + 2 * k]);
    assert(trace[n + 2 * k + 1] == trace.take(all.len() as int)[n + 2 * k + 1]);
    assert(all[n + 2 * k] == first[2 * k]);
    assert(all[n + 2 * k + 1] == first[2 * k + 1]);
}

/// The rounds of a run come one after the other behind the warmup, in the order in which they
/// are reported. In round `r`, message `k` goes out, its echo comes back with the same length,
/// and the latency reported for it is a reading, right after that, of the clock that was started
/// right before. The time reported for the round is a reading, behind its last message, of the
/// clock that was started in front of its first.
pub proof fn law_run_rounds<T: Transport>(
    transport: &mut Session<T>,
    msg_size: usize,
    count: usize,
    rounds: usize,
    warmup: usize,
    run: PingPong,
    r: int,
    k: int,
)
    requires
        call_ensures(run_ping_pong::<T>, (transport, msg_size, count, rounds, warmup), run),
        0 <= r < run.rounds@.len(),
        0 <= k < count,
    ensures
        ({
            let trace = final(transport).trace();
            let at = old(transport).trace().len() + 2 * warmup + r * (4 * count + 2);
            &&& at + 4 * count + 2 <= trace.len()
            &&& trace[at + 4 * count + 1] matches Event::ClockRead { since, elapsed } && trace[at]
                == Event::ClockStarted(since) && elapsed == run.rounds@[r].total_elapsed
        }),
        ({
            let trace = final(transport).trace();
            let at = old(transport).trace().len() + 2 * warmup + r * (4 * count + 2);
            &&& trace[at + 2 + 4 * k] is Sent
            &&& trace[at + 3 + 4 * k] matches Event::Received { data, .. } && data.len() == msg_size
        }),
        ({
            let trace = final(transport).trace();
            let at = old(transport).trace().len() + 2 * warmup + r * (4 * count + 2);
            &&& trace[at + 4 + 4 * k] matches Event::ClockRead { since, elapsed } && trace[at + 1
                + 4 * k] == Event::ClockStarted(since) && elapsed == run.rounds@[r].latencies@[k]
        }),
{
    let before = old(transport).trace();
    let trace = final(transport).trace();
    let n = before.len() as int;
    let size = msg_size as nat;
    let results = run.rounds@;
    let (warm, seen) = lemma_run_begins(
        before,
        trace,
        size,
        count as nat,
        rounds as nat,
        warmup as nat,
        run,
    );
    let sent = benchmark_message(size);
    let room = sent.len();
    let result = results[r];
    let c = count as nat;
    assert(round_fits(seen[r], c, room));
    assert(result.latencies@.len() == count);
    lemma_round_is(sent, room, seen[r], result.latencies@, result.total_elapsed);
    lemma_round_exchange(sent, room, seen[r], result.latencies@, result.total_elapsed, k);
    assert(seen[r].replies[k].len() == room);
    lemma_run_event(before, trace, sent, warm, seen, results, c, warmup as nat, r, 0);
    lemma_run_event(before, trace, sent, warm, seen, results, c, warmup as nat, r, 1 + 4 * k);
    lemma_run_event(before, trace, sent, warm, seen, results, c, warmup as nat, r, 2 + 4 * k);
    lemma_run_event(before, trace, sent, warm, seen, results, c, warmup as nat, r, 3 + 4 * k);
    lemma_run_event(before, trace, sent, warm, seen, results, c, warmup as nat, r, 4 + 4 * k);
    lemma_run_event(before, trace, sent, warm, seen, results, c, warmup as nat, r, 4 * count + 1);
    let at = old(transport).trace().len() + 2 * warmup + r * (4 * count + 2);
    let events = round_events(sent, room, seen[r], result.latencies@, result.total_elapsed);
    assert(trace[at] == events[0]);
    assert(trace[at + 1 + 4 * k] == events[1 + 4 * k]);
    assert(trace[at + 2 + 4 * k] == events[2 + 4 * k]);
    assert(trace[at + 3 + 4 * k] == events[3 + 4 * k]);
    assert(trace[at + 4 + 4 * k] == events[4 + 4 * k]);
    assert(trace[at + 4 * count + 1] == events[4 * count + 1]);
    assert(room == msg_size);
    assert(events[3 + 4 * k] == (Event::Received { room, data: seen[r].replies[k] }));
    assert(events[4 + 4 * k] == (Event::ClockRead {
        since: seen[r].starts[k],
        elapsed: result.latencies@[k],
    }));
}

/// Where an event of a round stands.
proof fn lemma_run_event(
    before: Seq<Event>,
    trace: Seq<Event>,
    sent: Seq<u8>,
    warm: Seq<Seq<u8>>,
    seen: Seq<RoundView>,
    results: Seq<RoundResult>,
    count: nat,
    warmup: nat,
    r: int,
    j: int,
)
    requires
        benchmark_fits(warm, seen, results, sent.len(), count, warmup),
        rounds_complete(results, count),
        trace.len() >= before.len() + benchmark_events(sent, warm, seen, results).len(),
        trace.take((before.len() + benchmark_events(sent, warm, seen, results).len()) as int)
            == before + benchmark_events(sent, warm, seen, results),
        0 <= r < results.len(),
        0 <= j < 4 * count + 2,
    ensures
        ({
            let at = before.len() + 2 * warmup + r * (4 * count + 2) + j;
            &&& 0 <= at < trace.len()
            &&& trace[at] == round_events(
                sent,
                sent.len(),
                seen[r],
                results[r].latencies@,
                results[r].total_elapsed,
            )[j]
        }),
{
    let room = sent.len();
    let first = exchanges(sent, room, warm);
    let second = rounds_events(sent, room, seen, results);
    let all = before + benchmark_events(sent, warm, seen, results);
    lemma_exchanges_kinds(sent, room, warm);
    lemma_round_at(sent, room, seen, results, count, r, j);
    lemma_event_at(before, trace, first, second, r * (4 * count + 2) + j, all);
}

/// Where an event behind a warmup stands.
proof fn lemma_event_at(
    before: Seq<Event>,
    trace: Seq<Event>,
    first: Seq<Event>,
    second: Seq<Event>,
    j: int,
    all: Seq<Event>,
)
    requires
        all == before + (first + second),
        trace.len() >= all.len(),
        trace.take(all.len() as int) == all,
    ensures
        0 <= j < second.len() ==> before.len() + first.len() + j < trace.len() && trace[before.len()
            + first.len() + j] == second[j],
{
    if 0 <= j < second.len() {
        let at = before.len() + first.len() + j;
        assert(trace[at] == trace.take(all.len() as int)[at]);
        assert(all[at] == (first + second)[at - before.len()]);
    }
}

/// A run that does not finish breaks off with a call that fails, or with an echo of another
/// length, and hands out what broke it off. That event is the last but for a reading of the
/// clock, and no call before it failed. In the warmup only a failing call breaks a run off, and
/// then no round is reported. Later, all the rounds that finished before are reported, fewer
/// than the run was to make.
pub proof fn law_run_breaks_off<T: Transport>(
    transport: &mut Session<T>,
    msg_size: usize,
    count: usize,
    rounds: usize,
    warmup: usize,
    run: PingPong,
    error: PingError,
)
    requires
        call_ensures(run_ping_pong::<T>, (transport, msg_size, count, rounds, warmup), run),
        run.failure == Some(error),
    ensures
        ({
            let n = old(transport).trace().len() as int;
            let trace = final(transport).trace();
            let last = trace.len() - 1;
            &&& trace.len() > n
            &&& match error {
                PingError::Send(e) => trace[last] matches Event::SendFailed { error, .. } && error
                    == e,
                PingError::Recv(e) => trace[last] matches Event::RecvFailed { error, .. } && error
                    == e,
                PingError::SizeMismatch { got, expected } => {
                    &&& expected == msg_size
                    &&& got != msg_size
                    &&& trace[last] is ClockRead
                    &&& trace[last - 1] matches Event::Received { data, .. } && data.len() == got
                },
            }
        }),
        ({
            let n = old(transport).trace().len() as int;
            let trace = final(transport).trace();
            forall|i: int|
                n <= i < trace.len() - 1 ==> !(#[trigger] trace[i] is SendFailed) && !(
                trace[i] is RecvFailed)
        }),
        ({
            let n = old(transport).trace().len() as int;
            let trace = final(transport).trace();
            let at = n + 2 * warmup + run.rounds@.len() * (4 * count + 2);
            ||| {
                &&& run.rounds@.len() == 0
                &&& !(error is SizeMismatch)
                &&& exists|done: int|
                    {
                        &&& 0 <= done < warmup
                        &&& #[trigger] trace[n + 2 * done] is Sent <==> error is Recv
                        &&& trace.len() == n + 2 * done + if error is Send {
                            1int
                        } else {
                            2
                        }
                    }
            }
            ||| {
                &&& run.rounds@.len() < rounds
                &&& exists|done: int|
                    {
                        &&& 0 <= done < count
                        &&& #[trigger] trace[at + 1 + 4 * done] is ClockStarted
                        &&& forall|k: int|
                            0 <= k < done ==> (#[trigger] trace[at + 3 + 4 * k] matches
                                Event::Received { data, .. } && data.len() == msg_size)
                        &&& trace.len() == at + 1 + 4 * done + if error is Send {
                            2int
                        } else if error is Recv {
                            3
                        } else {
                            4
                        }
                    }
            }
        }),
{
    let before = old(transport).trace();
    let trace = final(transport).trace();
    let n = before.len() as int;
    let size = msg_size as nat;
    let sent = benchmark_message(size);
    let blank = blank_buffer(size);
    let results = run.rounds@;
    let (c, w) = (count as nat, warmup as nat);
    if results.len() == 0 && exists|left: Seq<u8>| #[trigger]
        warm_up_outcome(before, trace, sent, blank, left, w, Err(error)) {
        let left = choose|left: Seq<u8>| #[trigger]
            warm_up_outcome(before, trace, sent, blank, left, w, Err(error));
        let done = lemma_warm_up_stopped_is(before, trace, sent, blank, left, w, error);
        assert(trace[n + 2 * done] is Sent <==> error is Recv);
    } else {
        let (warm, seen, left) = choose|warm: Seq<Seq<u8>>, seen: Seq<RoundView>, left: Seq<u8>|
            {
                &&& benchmark_fits(warm, seen, results, size, c, w)
                &&& #[trigger] round_outcome(
                    before + benchmark_events(sent, warm, seen, results),
                    trace,
                    sent,
                    left_by_rounds(left_by(blank, warm), seen),
                    left,
                    c,
                    Err(error),
                )
            };
        let events = benchmark_events(sent, warm, seen, results);
        lemma_benchmark_is(sent, warm, seen, results, c, w);
        let held = left_by_rounds(left_by(blank, warm), seen);
        let done = lemma_round_stopped_is(before + events, trace, sent, held, left, c, error);
        let m = (before + events).len() as int;
        assert forall|i: int| n <= i < trace.len() - 1 implies !(#[trigger] trace[i] is SendFailed)
            && !(trace[i] is RecvFailed) by {
            if i < m {
                assert(trace[i] == trace.take(m)[i]);
                assert(trace[i] == events[i - n]);
            } else if i >= m + 1 + 4 * done {
                assert(i == m + 1 + 4 * done || i == m + 2 + 4 * done || i == m + 3 + 4 * done);
            }
        }
        let at = n + 2 * warmup + run.rounds@.len() * (4 * count + 2);
        assert(at == m);
        assert(trace[at + 1 + 4 * done] is ClockStarted);
    }
}

/// Behind the warmup, each round of a run has its own clock: the time reported for round `r` is a
/// reading of it right behind the round's messages, and it was started right in front of them.
pub proof fn law_run_totals<T: Transport>(
    transport: &mut Session<T>,
    msg_size: usize,
    count: usize,
    rounds: usize,
    warmup: usize,
    run: PingPong,
    r: int,
)
    requires
        call_ensures(run_ping_pong::<T>, (transport, msg_size, count, rounds, warmup), run),
        0 <= r < run.rounds@.len(),
    ensures
        ({
            let trace = final(transport).trace();
            let at = old(transport).trace().len() + 2 * warmup + r * (4 * count + 2);
            &&& at + 4 * count + 2 <= trace.len()
            &&& trace[at + 4 * count + 1] matches Event::ClockRead { since, elapsed } && trace[at]
                == Event::ClockStarted(since) && elapsed == run.rounds@[r].total_elapsed
        }),
{
    let before = old(transport).trace();
    let trace = final(transport).trace();
    let size = msg_size as nat;
    let results = run.rounds@;
    let (c, w) = (count as nat, warmup as nat);
    let (warm, seen) = lemma_run_begins(before, trace, size, c, rounds as nat, w, run);
    let sent = benchmark_message(size);
    let result = results[r];
    assert(round_fits(seen[r], c, sent.len()));
    assert(result.latencies@.len() == count);
    lemma_round_is(sent, sent.len(), seen[r], result.latencies@, result.total_elapsed);
    lemma_run_event(before, trace, sent, warm, seen, results, c, w, r, 0);
    lemma_run_event(before, trace, sent, warm, seen, results, c, w, r, 4 * count + 1);
    let at = old(transport).trace().len() + 2 * warmup + r * (4 * count + 2);
    let events = round_events(
        sent,
        sent.len(),
        seen[r],
        result.latencies@,
        result.total_elapsed,
    );
    assert(trace[at] == events[0]);
    assert(trace[at + 4 * count + 1] == events[4 * count + 1]);
}

} // verus!
