//! What holds of every benchmark run: what it asks of a transport, and what it measures.

use std::time::{Duration, Instant};
use vstd::prelude::*;

use crate::ping_pong::{
    all_fit, all_sized, benchmark_events, benchmark_fits, benchmark_message, broke_off,
    clock_start, exchange, exchanges, left_by, ping_pong_outcome, round_events, round_finished,
    round_fits, round_outcome, round_stopped, rounds_complete, rounds_events, rounds_fit,
    timed_broke_off, timed_exchange, timed_exchanges, PingError, PingPong, RoundResult, RoundView,
};
use crate::stats::report_of;
use crate::transport::session::{
    answer_alike, clock_readings, lemma_same_requests, lemma_traces_join, received_messages,
    request, sent_messages, transport_calls, Event, Request,
};

verus! {

/// Exchanges in a row are one run of exchanges.
pub proof fn law_exchanges_join(
    sent: Seq<u8>,
    room: nat,
    first: Seq<Seq<u8>>,
    second: Seq<Seq<u8>>,
)
    ensures
        exchanges(sent, room, first + second) == exchanges(sent, room, first) + exchanges(
            sent,
            room,
            second,
        ),
    decreases second.len(),
{
    if second.len() == 0 {
        assert(first + second =~= first);
    } else {
        let shorter = second.drop_last();
        assert((first + second).drop_last() =~= first + shorter);
        law_exchanges_join(sent, room, first, shorter);
        assert(exchanges(sent, room, first + second) =~= exchanges(sent, room, first) + exchanges(
            sent,
            room,
            second,
        ));
    }
}

/// A client that gets its echoes has sent the same message for every reply.
pub proof fn law_client_repeats_its_message(sent: Seq<u8>, room: nat, replies: Seq<Seq<u8>>)
    ensures
        received_messages(exchanges(sent, room, replies)) == replies,
        sent_messages(exchanges(sent, room, replies)) == Seq::new(replies.len(), |i: int| sent),
    decreases replies.len(),
{
    reveal_with_fuel(received_messages, 3);
    reveal_with_fuel(sent_messages, 3);
    if replies.len() > 0 {
        let earlier = replies.drop_last();
        law_client_repeats_its_message(sent, room, earlier);
        let went = exchanges(sent, room, earlier).push(Event::Sent(sent));
        assert(exchanges(sent, room, replies) =~= went.push(
            Event::Received { room, data: replies.last() },
        ));
        assert(exchanges(sent, room, replies).drop_last() =~= went);
        assert(went.drop_last() =~= exchanges(sent, room, earlier));
        assert(earlier.push(replies.last()) =~= replies);
    }
    assert(sent_messages(exchanges(sent, room, replies)) =~= Seq::new(
        replies.len(),
        |i: int| sent,
    ));
}

/// Of replies of one length, a receive buffer keeps the last one; the bytes behind it stay as
/// they were.
pub proof fn law_last_reply_stays(buffer: Seq<u8>, replies: Seq<Seq<u8>>, len: nat)
    requires
        replies.len() > 0,
        all_sized(replies, len),
        len <= buffer.len(),
    ensures
        left_by(buffer, replies) == replies.last() + buffer.skip(len as int),
    decreases replies.len(),
{
    let earlier = replies.drop_last();
    assert(replies[replies.len() - 1].len() == len);
    assert(replies.last().take(len as int) =~= replies.last());
    if earlier.len() > 0 {
        assert forall|i: int| 0 <= i < earlier.len() implies (#[trigger] earlier[i]).len()
            == len by {
            assert(replies[i].len() == len);
        }
        law_last_reply_stays(buffer, earlier, len);
        assert(earlier[earlier.len() - 1].len() == len);
        assert(left_by(buffer, earlier).skip(len as int) =~= buffer.skip(len as int));
    }
}

/// Receiving into a buffer does not change its length.
pub proof fn lemma_left_by_len(buffer: Seq<u8>, replies: Seq<Seq<u8>>)
    requires
        all_fit(replies, buffer.len()),
    ensures
        left_by(buffer, replies).len() == buffer.len(),
    decreases replies.len(),
{
    if replies.len() > 0 {
        assert(all_fit(replies.drop_last(), buffer.len())) by {
            assert forall|i: int| 0 <= i < replies.len() - 1 implies (
            #[trigger] replies.drop_last()[i]).len() <= buffer.len() by {
                assert(replies[i].len() <= buffer.len());
            }
        }
        lemma_left_by_len(buffer, replies.drop_last());
        assert(replies[replies.len() - 1].len() <= buffer.len());
    }
}

/// The calls of exchanges, one by one.
pub proof fn lemma_exchanges_parts(sent: Seq<u8>, room: nat, replies: Seq<Seq<u8>>)
    ensures
        exchanges(sent, room, replies).len() == 2 * replies.len(),
        forall|j: int|
            #![trigger replies[j]]
            0 <= j < replies.len() ==> {
                &&& exchanges(sent, room, replies)[2 * j] == Event::Sent(sent)
                &&& exchanges(sent, room, replies)[2 * j + 1] == (Event::Received {
                    room,
                    data: replies[j],
                })
            },
        forall|i: int|
            0 <= i < 2 * replies.len() ==> request(
                #[trigger] exchanges(sent, room, replies)[i],
            ) == (if i % 2 == 0 {
                Some(Request::Send(sent))
            } else {
                Some(Request::Recv(room))
            }),
        transport_calls(exchanges(sent, room, replies)) == exchanges(sent, room, replies),
        clock_readings(exchanges(sent, room, replies)) == Seq::<Duration>::empty(),
    decreases replies.len(),
{
    reveal_with_fuel(transport_calls, 3);
    reveal_with_fuel(clock_readings, 3);
    if replies.len() > 0 {
        let earlier = replies.drop_last();
        let all = exchanges(sent, room, replies);
        lemma_exchanges_parts(sent, room, earlier);
        let last = exchange(sent, room, replies.last());
        lemma_traces_join(exchanges(sent, room, earlier), last);
        assert(last.drop_last().drop_last() =~= Seq::empty());
        assert(transport_calls(last) =~= last);
        assert(clock_readings(last) =~= Seq::empty());
        assert forall|j: int| #![trigger replies[j]] 0 <= j < replies.len() implies {
            &&& all[2 * j] == Event::Sent(sent)
            &&& all[2 * j + 1] == (Event::Received { room, data: replies[j] })
        } by {
            if j < replies.len() - 1 {
                assert(earlier[j] == replies[j]);
            }
        }
    }
}

/// Timed exchanges are exchanges with a reading of the clock after each.
proof fn lemma_timed_exchanges_parts(
    sent: Seq<u8>,
    room: nat,
    replies: Seq<Seq<u8>>,
    starts: Seq<Instant>,
    latencies: Seq<Duration>,
)
    requires
        starts.len() == replies.len(),
        latencies.len() == replies.len(),
    ensures
        transport_calls(timed_exchanges(sent, room, replies, starts, latencies)) == exchanges(
            sent,
            room,
            replies,
        ),
        clock_readings(timed_exchanges(sent, room, replies, starts, latencies)) == latencies,
    decreases replies.len(),
{
    if replies.len() > 0 {
        let earlier = timed_exchanges(
            sent,
            room,
            replies.drop_last(),
            starts.drop_last(),
            latencies.drop_last(),
        );
        let last = timed_exchange(sent, room, replies.last(), starts.last(), latencies.last());
        lemma_timed_exchanges_parts(
            sent,
            room,
            replies.drop_last(),
            starts.drop_last(),
            latencies.drop_last(),
        );
        lemma_traces_join(earlier, last);
        lemma_timed_exchange_parts(sent, room, replies.last(), starts.last(), latencies.last());
        assert(latencies =~= latencies.drop_last() + seq![latencies.last()]);
    } else {
        assert(latencies =~= Seq::empty());
    }
}

/// A timed exchange is an exchange with a reading of the clock after it.
proof fn lemma_timed_exchange_parts(
    sent: Seq<u8>,
    room: nat,
    reply: Seq<u8>,
    start: Instant,
    latency: Duration,
)
    ensures
        transport_calls(timed_exchange(sent, room, reply, start, latency)) == exchange(
            sent,
            room,
            reply,
        ),
        clock_readings(timed_exchange(sent, room, reply, start, latency)) == seq![latency],
{
    reveal_with_fuel(transport_calls, 5);
    reveal_with_fuel(clock_readings, 5);
    let all = timed_exchange(sent, room, reply, start, latency);
    assert(all.drop_last() =~= all.take(3));
    assert(all.take(3).drop_last() =~= all.take(2));
    assert(all.take(2).drop_last() =~= all.take(1));
    assert(all.take(1).drop_last() =~= Seq::empty());
    assert(transport_calls(all) =~= exchange(sent, room, reply));
    assert(clock_readings(all) =~= seq![latency]);
}

/// A round makes the same calls as exchanges that nobody times. The readings of its clocks are
/// the latencies that it reports, in their order, and then the time that it reports for itself.
pub proof fn law_round_measures_its_exchanges(
    sent: Seq<u8>,
    room: nat,
    seen: RoundView,
    latencies: Seq<Duration>,
    total: Duration,
)
    requires
        seen.starts.len() == seen.replies.len(),
        latencies.len() == seen.replies.len(),
    ensures
        transport_calls(round_events(sent, room, seen, latencies, total)) == exchanges(
            sent,
            room,
            seen.replies,
        ),
        clock_readings(round_events(sent, room, seen, latencies, total)) == latencies.push(total),
{
    reveal_with_fuel(transport_calls, 2);
    reveal_with_fuel(clock_readings, 2);
    let first = clock_start(seen.began);
    let timed = timed_exchanges(sent, room, seen.replies, seen.starts, latencies);
    let last = seq![Event::ClockRead { since: seen.began, elapsed: total }];
    lemma_timed_exchanges_parts(sent, room, seen.replies, seen.starts, latencies);
    lemma_traces_join(first, timed);
    lemma_traces_join(first + timed, last);
    assert(first.drop_last() =~= Seq::empty());
    assert(last.drop_last() =~= Seq::empty());
    assert(transport_calls(first + timed + last) =~= exchanges(sent, room, seen.replies));
    assert(clock_readings(first + timed + last) =~= latencies.push(total));
}

/// Receiving some replies and then some more is receiving them all.
pub proof fn law_received_buffers_join(
    buffer: Seq<u8>,
    first: Seq<Seq<u8>>,
    second: Seq<Seq<u8>>,
)
    ensures
        left_by(left_by(buffer, first), second) == left_by(buffer, first + second),
    decreases second.len(),
{
    if second.len() == 0 {
        assert(first + second =~= first);
    } else {
        assert((first + second).drop_last() =~= first + second.drop_last());
        law_received_buffers_join(buffer, first, second.drop_last());
    }
}

/// The calls of an exchange that did not get an answer of the right length.
spec fn ill_answered(sent: Seq<u8>, room: nat, calls: Seq<Event>) -> bool {
    ||| {
        &&& calls.len() == 1
        &&& calls[0] matches Event::SendFailed { message, .. } && message == sent
    }
    ||| {
        &&& calls.len() == 2
        &&& calls[0] == Event::Sent(sent)
        &&& match calls[1] {
            Event::RecvFailed { left, .. } => left.len() == room,
            Event::Received { room: there, data } => there == room && data.len() != sent.len(),
            _ => false,
        }
    }
}

/// A timed exchange that broke off did not get an answer of the right length.
proof fn lemma_broke_off_calls(
    error: PingError,
    sent: Seq<u8>,
    held: Seq<u8>,
    left: Seq<u8>,
    last: Seq<Event>,
)
    requires
        timed_broke_off(error, sent, held, left, last),
    ensures
        ill_answered(sent, held.len(), transport_calls(last)),
{
    reveal_with_fuel(transport_calls, 3);
    let room = held.len();
    match error {
        PingError::SizeMismatch { got, expected } => {
            let (reply, start, latency) = choose|reply: Seq<u8>, start: Instant, latency: Duration|
                {
                    &&& reply.len() == got
                    &&& last == #[trigger] timed_exchange(sent, room, reply, start, latency)
                };
            lemma_timed_exchange_parts(sent, room, reply, start, latency);
        },
        _ => {
            let (start, rest) = choose|start: Instant, rest: Seq<Event>|
                {
                    &&& #[trigger] broke_off(error, sent, held, left, rest)
                    &&& last == #[trigger] clock_start(start) + rest
                };
            lemma_traces_join(clock_start(start), rest);
            assert(clock_start(start).drop_last() =~= Seq::empty());
            if error is Send {
                assert(rest.drop_last() =~= Seq::empty());
            } else {
                assert(rest.drop_last().drop_last() =~= Seq::empty());
            }
            assert(transport_calls(rest) =~= rest);
        },
    }
}

/// Where exchanges end with one that did not get an answer of the right length, the transport
/// did not answer like one that always gives such an answer.
proof fn lemma_ill_answered(
    sent: Seq<u8>,
    room: nat,
    done: Seq<Seq<u8>>,
    last: Seq<Event>,
    replies: Seq<Seq<u8>>,
)
    requires
        done.len() < replies.len(),
        all_sized(replies, sent.len()),
        ill_answered(sent, room, last),
    ensures
        !answer_alike(exchanges(sent, room, done) + last, exchanges(sent, room, replies)),
{
    let made = exchanges(sent, room, done) + last;
    let asked = exchanges(sent, room, replies);
    let at = 2 * done.len() as int;
    lemma_exchanges_parts(sent, room, done);
    lemma_exchanges_parts(sent, room, replies);
    assert(replies[done.len() as int].len() == sent.len());
    assert(asked[at] == Event::Sent(sent));
    assert(asked[at + 1] == (Event::Received { room, data: replies[done.len() as int] }));
    if answer_alike(made, asked) {
        let end = made.len() as int;
        assert forall|i: int| 0 <= i < end implies request(#[trigger] made[i]) == request(
            asked[i],
        ) by {
            if i < at {
                assert(made[i] == exchanges(sent, room, done)[i]);
            } else {
                assert(made[i] == last[i - at]);
            }
        }
        lemma_same_requests(made, asked, end);
        assert(made.take(end)[end - 1] == asked.take(end)[end - 1]);
        assert(made[end - 1] == last[end - 1 - at]);
    }
}

/// Two rounds in a row do what one round of all their messages does: over a transport that
/// answers alike, starting from the same receive buffer, the one round finishes, makes the same
/// calls, measures as many latencies and leaves the same receive buffer.
pub proof fn law_rounds_join(
    sent: Seq<u8>,
    first_trace: (Seq<Event>, Seq<Event>),
    second_trace: (Seq<Event>, Seq<Event>),
    joint_trace: (Seq<Event>, Seq<Event>),
    held: Seq<u8>,
    between: Seq<u8>,
    left: Seq<u8>,
    joint_left: Seq<u8>,
    first_count: nat,
    second_count: nat,
    first: RoundResult,
    second: RoundResult,
    joint: Result<RoundResult, PingError>,
)
    requires
        round_outcome(
            first_trace.0,
            first_trace.1,
            sent,
            held,
            between,
            first_count,
            Ok(first),
        ),
        round_outcome(
            second_trace.0,
            second_trace.1,
            sent,
            between,
            left,
            second_count,
            Ok(second),
        ),
        second_trace.0 == first_trace.1,
        between.len() == held.len(),
        round_outcome(
            joint_trace.0,
            joint_trace.1,
            sent,
            held,
            joint_left,
            first_count + second_count,
            joint,
        ),
        answer_alike(
            transport_calls(joint_trace.1.skip(joint_trace.0.len() as int)),
            transport_calls(second_trace.1.skip(first_trace.0.len() as int)),
        ),
    ensures
        joint is Ok,
        joint->Ok_0.latencies@.len() == first.latencies@.len() + second.latencies@.len(),
        transport_calls(joint_trace.1.skip(joint_trace.0.len() as int)) == transport_calls(
            second_trace.1.skip(first_trace.0.len() as int),
        ),
        joint_left == left,
{
    let room = held.len();
    let one = choose|seen: RoundView|
        {
            &&& #[trigger] round_fits(seen, first_count, sent.len())
            &&& round_finished(first_trace.0, first_trace.1, sent, held, between, seen, first)
        };
    let two = choose|seen: RoundView|
        {
            &&& #[trigger] round_fits(seen, second_count, sent.len())
            &&& round_finished(second_trace.0, second_trace.1, sent, between, left, seen, second)
        };
    let replies = one.replies + two.replies;
    let one_events = round_events(sent, room, one, first.latencies@, first.total_elapsed);
    let two_events = round_events(sent, room, two, second.latencies@, second.total_elapsed);
    let asked = transport_calls(second_trace.1.skip(first_trace.0.len() as int));
    assert(second_trace.1.skip(first_trace.0.len() as int) =~= one_events + two_events);
    lemma_traces_join(one_events, two_events);
    law_round_measures_its_exchanges(sent, room, one, first.latencies@, first.total_elapsed);
    law_round_measures_its_exchanges(sent, room, two, second.latencies@, second.total_elapsed);
    law_exchanges_join(sent, room, one.replies, two.replies);
    assert(asked == exchanges(sent, room, replies));
    law_received_buffers_join(held, one.replies, two.replies);
    let made = transport_calls(joint_trace.1.skip(joint_trace.0.len() as int));
    match joint {
        Ok(result) => {
            let all = choose|seen: RoundView|
                {
                    &&& #[trigger] round_fits(seen, first_count + second_count, sent.len())
                    &&& round_finished(
                        joint_trace.0,
                        joint_trace.1,
                        sent,
                        held,
                        joint_left,
                        seen,
                        result,
                    )
                };
            let events = round_events(sent, room, all, result.latencies@, result.total_elapsed);
            assert(joint_trace.1.skip(joint_trace.0.len() as int) =~= events);
            law_round_measures_its_exchanges(
                sent,
                room,
                all,
                result.latencies@,
                result.total_elapsed,
            );
            lemma_exchanges_parts(sent, room, all.replies);
            lemma_exchanges_parts(sent, room, replies);
            let end = made.len() as int;
            lemma_same_requests(made, asked, end);
            assert(made.take(end) =~= made);
            assert(asked.take(end) =~= asked);
            assert forall|j: int| 0 <= j < replies.len() implies all.replies[j]
                == #[trigger] replies[j] by {
                assert(made[2 * j + 1] == (Event::Received { room, data: all.replies[j] }));
                assert(asked[2 * j + 1] == (Event::Received { room, data: replies[j] }));
            }
            assert(all.replies =~= replies);
        },
        Err(error) => {
            let (seen, latencies) = choose|seen: RoundView, latencies: Seq<Duration>|
                {
                    &&& latencies.len() < first_count + second_count
                    &&& round_fits(seen, latencies.len(), sent.len())
                    &&& #[trigger] round_stopped(
                        joint_trace.0,
                        joint_trace.1,
                        sent,
                        held,
                        joint_left,
                        seen,
                        latencies,
                        error,
                    )
                };
            let last = choose|last: Seq<Event>|
                {
                    &&& #[trigger] timed_broke_off(
                        error,
                        sent,
                        left_by(held, seen.replies),
                        joint_left,
                        last,
                    )
                    &&& joint_trace.1 == joint_trace.0 + clock_start(seen.began) + timed_exchanges(
                        sent,
                        room,
                        seen.replies,
                        seen.starts,
                        latencies,
                    ) + last
                };
            assert(all_fit(seen.replies, room));
            lemma_left_by_len(held, seen.replies);
            let begin = clock_start(seen.began);
            let timed = timed_exchanges(sent, room, seen.replies, seen.starts, latencies);
            assert(joint_trace.1.skip(joint_trace.0.len() as int) =~= begin + timed + last);
            reveal_with_fuel(transport_calls, 2);
            assert(begin.drop_last() =~= Seq::empty());
            lemma_timed_exchanges_parts(sent, room, seen.replies, seen.starts, latencies);
            lemma_traces_join(begin, timed);
            lemma_traces_join(begin + timed, last);
            assert(made =~= exchanges(sent, room, seen.replies) + transport_calls(last));
            lemma_broke_off_calls(error, sent, left_by(held, seen.replies), joint_left, last);
            lemma_ill_answered(sent, room, seen.replies, transport_calls(last), replies);
        },
    }
}

/// Every event has its time, and no event is earlier than the one before it.
pub open spec fn in_time_order(trace: Seq<Event>, times: Seq<int>) -> bool {
    &&& times.len() == trace.len()
    &&& forall|i: int, j: int|
        0 <= i <= j < times.len() ==> #[trigger] times[i] <= #[trigger] times[j]
}

/// The clock keeps time: an instant stands for the time at which a clock was started, and a
/// reading is the time since then. `moment` gives the time of an instant and `nanos` the length
/// of a duration.
pub open spec fn clock_keeps_time(
    trace: Seq<Event>,
    times: Seq<int>,
    moment: spec_fn(Instant) -> int,
    nanos: spec_fn(Duration) -> int,
) -> bool {
    forall|i: int|
        0 <= i < trace.len() ==> match #[trigger] trace[i] {
            Event::ClockStarted(start) => moment(start) == times[i],
            Event::ClockRead { since, elapsed } => nanos(elapsed) == times[i] - moment(since),
            _ => true,
        }
}

/// The sum of some durations.
pub open spec fn sum_of(durations: Seq<Duration>, nanos: spec_fn(Duration) -> int) -> int
    decreases durations.len(),
{
    if durations.len() == 0 {
        0
    } else {
        sum_of(durations.drop_last(), nanos) + nanos(durations.last())
    }
}

/// The looks at the clock of timed exchanges, one by one.
proof fn lemma_timed_exchanges_clocks(
    sent: Seq<u8>,
    room: nat,
    replies: Seq<Seq<u8>>,
    starts: Seq<Instant>,
    latencies: Seq<Duration>,
)
    requires
        starts.len() == replies.len(),
        latencies.len() == replies.len(),
    ensures
        timed_exchanges(sent, room, replies, starts, latencies).len() == 4 * replies.len(),
        forall|k: int|
            #![trigger latencies[k]]
            0 <= k < replies.len() ==> {
                let timed = timed_exchanges(sent, room, replies, starts, latencies);
                &&& timed[4 * k] == Event::ClockStarted(starts[k])
                &&& timed[4 * k + 3] == (Event::ClockRead {
                    since: starts[k],
                    elapsed: latencies[k],
                })
            },
    decreases replies.len(),
{
    if replies.len() > 0 {
        let timed = timed_exchanges(sent, room, replies, starts, latencies);
        let earlier = latencies.drop_last();
        lemma_timed_exchanges_clocks(
            sent,
            room,
            replies.drop_last(),
            starts.drop_last(),
            earlier,
        );
        assert forall|k: int| #![trigger latencies[k]] 0 <= k < replies.len() implies {
            &&& timed[4 * k] == Event::ClockStarted(starts[k])
            &&& timed[4 * k + 3] == (Event::ClockRead { since: starts[k], elapsed: latencies[k] })
        } by {
            if k < replies.len() - 1 {
                assert(earlier[k] == latencies[k]);
            }
        }
    }
}

/// The latencies of the first exchanges of a round take no longer than the round so far.
proof fn lemma_latencies_fit(
    sent: Seq<u8>,
    room: nat,
    seen: RoundView,
    latencies: Seq<Duration>,
    total: Duration,
    times: Seq<int>,
    moment: spec_fn(Instant) -> int,
    nanos: spec_fn(Duration) -> int,
    done: int,
)
    requires
        seen.starts.len() == seen.replies.len(),
        latencies.len() == seen.replies.len(),
        in_time_order(round_events(sent, room, seen, latencies, total), times),
        clock_keeps_time(round_events(sent, room, seen, latencies, total), times, moment, nanos),
        0 <= done <= latencies.len(),
    ensures
        times.len() == 4 * latencies.len() + 2,
        sum_of(latencies.take(done), nanos) <= times[4 * done] - times[0],
    decreases done,
{
    let events = round_events(sent, room, seen, latencies, total);
    let timed = timed_exchanges(sent, room, seen.replies, seen.starts, latencies);
    lemma_timed_exchanges_clocks(sent, room, seen.replies, seen.starts, latencies);
    if done > 0 {
        let k = done - 1;
        lemma_latencies_fit(sent, room, seen, latencies, total, times, moment, nanos, k);
        assert(latencies.take(done).drop_last() =~= latencies.take(k));
        assert(latencies.take(done).last() == latencies[k]);
        assert(events[4 * k + 1] == timed[4 * k]);
        assert(events[4 * k + 4] == timed[4 * k + 3]);
        assert(nanos(latencies[k]) == times[4 * k + 4] - times[4 * k + 1]);
        assert(times[4 * k] <= times[4 * k + 1]);
    } else {
        assert(latencies.take(done) =~= Seq::empty());
    }
}

/// By a clock that keeps time, the latencies of a round together take no longer than the round:
/// the timed exchanges do not overlap, and all of them lie within the round.
pub proof fn law_latencies_fit_in_the_round(
    sent: Seq<u8>,
    room: nat,
    seen: RoundView,
    result: RoundResult,
    times: Seq<int>,
    moment: spec_fn(Instant) -> int,
    nanos: spec_fn(Duration) -> int,
)
    requires
        round_fits(seen, result.latencies@.len(), sent.len()),
        in_time_order(
            round_events(sent, room, seen, result.latencies@, result.total_elapsed),
            times,
        ),
        clock_keeps_time(
            round_events(sent, room, seen, result.latencies@, result.total_elapsed),
            times,
            moment,
            nanos,
        ),
    ensures
        sum_of(result.latencies@, nanos) <= nanos(result.total_elapsed),
{
    let latencies = result.latencies@;
    let total = result.total_elapsed;
    let count = latencies.len() as int;
    let events = round_events(sent, room, seen, latencies, total);
    lemma_latencies_fit(sent, room, seen, latencies, total, times, moment, nanos, count);
    assert(latencies.take(count) =~= latencies);
    assert(events[0] == Event::ClockStarted(seen.began));
    assert(events[4 * count + 1] == (Event::ClockRead { since: seen.began, elapsed: total }));
    assert(times[4 * count] <= times[4 * count + 1]);
}

/// What rounds measured, one after the other: the latencies of a round and then its time.
pub open spec fn measured(results: Seq<RoundResult>) -> Seq<Duration>
    decreases results.len(),
{
    if results.len() == 0 {
        Seq::empty()
    } else {
        measured(results.drop_last()) + results.last().latencies@.push(
            results.last().total_elapsed,
        )
    }
}

/// The readings of the clocks in some rounds are what the rounds measured.
proof fn lemma_rounds_measure(
    sent: Seq<u8>,
    room: nat,
    seen: Seq<RoundView>,
    results: Seq<RoundResult>,
    count: nat,
)
    requires
        seen.len() == results.len(),
        rounds_fit(seen, count, sent.len()),
        rounds_complete(results, count),
    ensures
        clock_readings(rounds_events(sent, room, seen, results)) == measured(results),
    decreases seen.len(),
{
    if seen.len() > 0 {
        let last = seen.last();
        let result = results.last();
        assert(round_fits(seen[seen.len() - 1], count, sent.len()));
        assert(results[results.len() - 1].latencies@.len() == count);
        assert forall|i: int| 0 <= i < seen.len() - 1 implies round_fits(
            #[trigger] seen.drop_last()[i],
            count,
            sent.len(),
        ) by {
            assert(round_fits(seen[i], count, sent.len()));
        }
        assert forall|i: int| 0 <= i < results.len() - 1 implies (
        #[trigger] results.drop_last()[i]).latencies@.len() == count by {
            assert(results[i].latencies@.len() == count);
        }
        lemma_rounds_measure(sent, room, seen.drop_last(), results.drop_last(), count);
        law_round_measures_its_exchanges(
            sent,
            room,
            last,
            result.latencies@,
            result.total_elapsed,
        );
        lemma_traces_join(
            rounds_events(sent, room, seen.drop_last(), results.drop_last()),
            round_events(sent, room, last, result.latencies@, result.total_elapsed),
        );
    }
}

/// Rounds of the same size that measured the same one after the other measured the same round
/// by round.
proof fn lemma_measured_apart(left: Seq<RoundResult>, right: Seq<RoundResult>, count: nat)
    requires
        left.len() == right.len(),
        rounds_complete(left, count),
        rounds_complete(right, count),
        measured(left) == measured(right),
    ensures
        same_times(left, right),
    decreases left.len(),
{
    if left.len() > 0 {
        let end = left.len() - 1;
        let (l, r) = (left.last(), right.last());
        assert(left[end].latencies@.len() == count);
        assert(right[end].latencies@.len() == count);
        assert forall|i: int| 0 <= i < end implies (
        #[trigger] left.drop_last()[i]).latencies@.len() == count by {
            assert(left[i].latencies@.len() == count);
        }
        assert forall|i: int| 0 <= i < end implies (
        #[trigger] right.drop_last()[i]).latencies@.len() == count by {
            assert(right[i].latencies@.len() == count);
        }
        let before = measured(left).len() - count - 1;
        let (ll, rr) = (l.latencies@.push(l.total_elapsed), r.latencies@.push(r.total_elapsed));
        assert(measured(left).skip(before) =~= ll);
        assert(measured(right).skip(before) =~= rr);
        assert(measured(left).take(before) =~= measured(left.drop_last()));
        assert(measured(right).take(before) =~= measured(right.drop_last()));
        assert(l.latencies@ =~= ll.drop_last());
        assert(r.latencies@ =~= rr.drop_last());
        assert(l.total_elapsed == ll.last() && r.total_elapsed == rr.last());
        lemma_measured_apart(left.drop_last(), right.drop_last(), count);
        assert forall|i: int| 0 <= i < left.len() implies {
            &&& (#[trigger] left[i]).latencies@ == (#[trigger] right[i]).latencies@
            &&& left[i].total_elapsed == right[i].total_elapsed
        } by {
            if i < end {
                assert(left.drop_last()[i] == left[i]);
                assert(right.drop_last()[i] == right[i]);
            }
        }
    }
}

/// Two lists of rounds hold the same times.
pub open spec fn same_times(left: Seq<RoundResult>, right: Seq<RoundResult>) -> bool {
    &&& left.len() == right.len()
    &&& forall|i: int|
        0 <= i < left.len() ==> {
            &&& (#[trigger] left[i]).latencies@ == (#[trigger] right[i]).latencies@
            &&& left[i].total_elapsed == right[i].total_elapsed
        }
}

/// The latencies of rounds as numbers.
pub open spec fn latencies_in(
    results: Seq<RoundResult>,
    nanos: spec_fn(Duration) -> u128,
) -> Seq<Seq<u128>> {
    results.map_values(|result: RoundResult| result.latencies@.map_values(nanos))
}

/// The keys by which rounds are ordered, each made from the time of its round.
pub open spec fn keys_in(
    results: Seq<RoundResult>,
    key: spec_fn(Duration) -> u64,
) -> Seq<u64> {
    results.map_values(|result: RoundResult| key(result.total_elapsed))
}

/// A finished run reports nothing of its warmup: of two runs whose clocks showed the same, the
/// rounds hold the same times and have the same report, however long the warmups were and
/// whatever came back in them. No clock is read in a warmup, so the readings are those of the
/// measured rounds alone.
pub proof fn law_warmup_is_not_reported(
    first_trace: (Seq<Event>, Seq<Event>),
    second_trace: (Seq<Event>, Seq<Event>),
    msg_size: nat,
    count: nat,
    rounds: nat,
    first_warmup: nat,
    second_warmup: nat,
    first: PingPong,
    second: PingPong,
    nanos: spec_fn(Duration) -> u128,
    key: spec_fn(Duration) -> u64,
)
    requires
        ping_pong_outcome(
            first_trace.0,
            first_trace.1,
            msg_size,
            count,
            rounds,
            first_warmup,
            first,
        ),
        ping_pong_outcome(
            second_trace.0,
            second_trace.1,
            msg_size,
            count,
            rounds,
            second_warmup,
            second,
        ),
        rounds_complete(first.rounds@, count),
        rounds_complete(second.rounds@, count),
        first.failure is None,
        second.failure is None,
        clock_readings(first_trace.1.skip(first_trace.0.len() as int)) == clock_readings(
            second_trace.1.skip(second_trace.0.len() as int),
        ),
    ensures
        clock_readings(first_trace.1.skip(first_trace.0.len() as int)) == measured(first.rounds@),
        same_times(first.rounds@, second.rounds@),
        report_of(latencies_in(first.rounds@, nanos), keys_in(first.rounds@, key)) == report_of(
            latencies_in(second.rounds@, nanos),
            keys_in(second.rounds@, key),
        ),
{
    lemma_run_measures(first_trace.0, first_trace.1, msg_size, count, rounds, first_warmup, first);
    lemma_run_measures(
        second_trace.0,
        second_trace.1,
        msg_size,
        count,
        rounds,
        second_warmup,
        second,
    );
    let (left, right) = (first.rounds@, second.rounds@);
    lemma_measured_apart(left, right, count);
    assert(latencies_in(left, nanos) =~= latencies_in(right, nanos)) by {
        assert forall|i: int| 0 <= i < left.len() implies latencies_in(left, nanos)[i]
            == latencies_in(right, nanos)[i] by {
            assert(left[i].latencies@ == right[i].latencies@);
        }
    }
    assert(keys_in(left, key) =~= keys_in(right, key)) by {
        assert forall|i: int| 0 <= i < left.len() implies keys_in(left, key)[i] == keys_in(
            right,
            key,
        )[i] by {
            assert(left[i].total_elapsed == right[i].total_elapsed);
        }
    }
}

/// The readings of the clocks in a finished run are what its rounds measured.
proof fn lemma_run_measures(
    before: Seq<Event>,
    after: Seq<Event>,
    msg_size: nat,
    count: nat,
    rounds: nat,
    warmup: nat,
    run: PingPong,
)
    requires
        ping_pong_outcome(before, after, msg_size, count, rounds, warmup, run),
        rounds_complete(run.rounds@, count),
        run.failure is None,
    ensures
        run.rounds@.len() == rounds,
        clock_readings(after.skip(before.len() as int)) == measured(run.rounds@),
{
    let sent = benchmark_message(msg_size);
    let (warm, seen) = choose|warm: Seq<Seq<u8>>, seen: Seq<RoundView>|
        {
            &&& benchmark_fits(warm, seen, run.rounds@, msg_size, count, warmup)
            &&& after == before + #[trigger] benchmark_events(sent, warm, seen, run.rounds@)
        };
    assert(after.skip(before.len() as int) =~= benchmark_events(sent, warm, seen, run.rounds@));
    lemma_traces_join(
        exchanges(sent, sent.len(), warm),
        rounds_events(sent, sent.len(), seen, run.rounds@),
    );
    lemma_exchanges_parts(sent, sent.len(), warm);
    lemma_rounds_measure(sent, sent.len(), seen, run.rounds@, count);
    assert(clock_readings(after.skip(before.len() as int)) =~= measured(run.rounds@));
}

} // verus!
