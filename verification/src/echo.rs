//! The server's side of a benchmark: send every message back.

use vstd::prelude::*;

use crate::frame::MSG_HEADER_SIZE;
use crate::ping_pong::exchanges;
use crate::ping_pong_laws::law_client_repeats_its_message;
use crate::transport::ring_layout::RING_DATA_SIZE;
use crate::transport::session::{
    cleanup_event, goes_on, lemma_goes_on_push, received_messages, recv_event, send_event,
    sent_messages, Event, Session,
};
use crate::transport::Transport;

verus! {

/// Bytes of the server's buffer.
pub const ECHO_BUFFER_SIZE: usize = 16777216;

/// Why a server stopped.
pub enum EchoEnd {
    /// It has sent back as many messages as it was asked to.
    Finished,
    /// A message could not be received.
    Recv(std::io::Error),
    /// A message could not be sent back.
    Send(std::io::Error),
    /// It has sent back one message more than it can count.
    CounterFull,
}

/// What a server did.
pub struct EchoRun {
    /// The messages that were sent back and counted.
    pub echoed: usize,
    pub end: EchoEnd,
    /// What came of cleaning the channel up, if the server did so.
    pub cleaned: Option<std::io::Result<()>>,
}

/// A message that came and went back, as the transport saw it.
pub open spec fn echo(message: Seq<u8>) -> Seq<Event> {
    seq![
        Event::Received { room: ECHO_BUFFER_SIZE as nat, data: message },
        Event::Sent(message),
    ]
}

/// A message that came and could not be sent back, as the transport saw it.
pub open spec fn lost_echo(message: Seq<u8>, error: std::io::Error) -> Seq<Event> {
    seq![
        Event::Received { room: ECHO_BUFFER_SIZE as nat, data: message },
        Event::SendFailed { message, error },
    ]
}

/// A receive that failed, as the transport saw it.
pub open spec fn no_message(left: Seq<u8>, error: std::io::Error) -> Seq<Event> {
    seq![Event::RecvFailed { left, error }]
}

/// Messages that came and went back, one after the other.
pub open spec fn echoes(messages: Seq<Seq<u8>>) -> Seq<Event>
    decreases messages.len(),
{
    if messages.len() == 0 {
        Seq::empty()
    } else {
        echoes(messages.drop_last()) + echo(messages.last())
    }
}

/// What the transport saw last, after the messages that went back.
pub open spec fn stopped_with(end: EchoEnd, last: Seq<Event>) -> bool {
    match end {
        EchoEnd::Finished => last == Seq::<Event>::empty(),
        EchoEnd::Recv(error) => exists|left: Seq<u8>|
            left.len() == ECHO_BUFFER_SIZE && last == #[trigger] no_message(left, error),
        EchoEnd::Send(error) => exists|message: Seq<u8>|
            last == #[trigger] lost_echo(message, error),
        EchoEnd::CounterFull => exists|message: Seq<u8>| last == #[trigger] echo(message),
    }
}

/// Why and when a server stops that was asked to send `count` messages back.
pub open spec fn ended(count: usize, echoed: usize, end: EchoEnd) -> bool {
    match end {
        EchoEnd::Finished => count > 0 && echoed == count,
        EchoEnd::Recv(_) => count == 0 || echoed < count,
        EchoEnd::Send(_) => count == 0 || echoed < count,
        EchoEnd::CounterFull => count == 0 && echoed == usize::MAX,
    }
}

/// The call that cleans the channel up, if there is one, as the session saw it.
pub open spec fn cleaning(name: Seq<char>, cleaned: Option<std::io::Result<()>>) -> Seq<Event> {
    match cleaned {
        Some(result) => seq![cleanup_event(name, result)],
        None => Seq::empty(),
    }
}

/// Sends `count` messages back, or every message that comes if `count` is 0. Stops with the
/// first call that fails. Returns how many messages went back and were counted.
fn echo_messages<T: Transport>(transport: &mut Session<T>, count: usize) -> (run: (usize, EchoEnd))
    ensures
        ended(count, run.0, run.1),
        exists|messages: Seq<Seq<u8>>, last: Seq<Event>|
            {
                &&& messages.len() == run.0
                &&& #[trigger] stopped_with(run.1, last)
                &&& final(transport).trace() == old(transport).trace() + #[trigger] echoes(messages)
                    + last
            },
        goes_on(
            old(transport).record(),
            old(transport).inner(),
            final(transport).record(),
            final(transport).inner(),
        ),
        forall|at: int|
            old(transport).record().len() <= at < final(transport).record().len() ==> {
                let step = #[trigger] final(transport).record()[at];
                ||| exists|t: &mut T, buf: &[u8], sent: std::io::Result<()>|
                    {
                        &&& *t == step.before
                        &&& *final(t) == step.after
                        &&& step.event == send_event(buf@, sent)
                        &&& #[trigger] call_ensures(T::send, (t, buf), sent)
                    }
                ||| exists|t: &mut T, room: &mut [u8], received: std::io::Result<usize>|
                    {
                        &&& *t == step.before
                        &&& *final(t) == step.after
                        &&& step.event == recv_event(room@, final(room)@, received)
                        &&& #[trigger] call_ensures(T::recv, (t, room), received)
                    }
            },
{
    let mut buf: Vec<u8> = vec![0u8; ECHO_BUFFER_SIZE];
    let ghost before = transport.trace();
    let ghost mut messages = Seq::<Seq<u8>>::empty();
    let mut i: usize = 0;
    assert(transport.trace() =~= before + echoes(messages));
    loop
        invariant
            before == old(transport).trace(),
            buf@.len() == ECHO_BUFFER_SIZE,
            messages.len() == i,
            count > 0 ==> i <= count,
            transport.trace() == before + echoes(messages),
            goes_on(
            old(transport).record(),
            old(transport).inner(),
            transport.record(),
            transport.inner(),
        ),
            forall|at: int|
                old(transport).record().len() <= at < transport.record().len() ==> {
                    let step = #[trigger] transport.record()[at];
                    ||| exists|t: &mut T, buf: &[u8], sent: std::io::Result<()>|
                        {
                            &&& *t == step.before
                            &&& *final(t) == step.after
                            &&& step.event == send_event(buf@, sent)
                            &&& #[trigger] call_ensures(T::send, (t, buf), sent)
                        }
                    ||| exists|t: &mut T, room: &mut [u8], received: std::io::Result<usize>|
                        {
                            &&& *t == step.before
                            &&& *final(t) == step.after
                            &&& step.event == recv_event(room@, final(room)@, received)
                            &&& #[trigger] call_ensures(T::recv, (t, room), received)
                        }
                },
        decreases usize::MAX - i,
    {
        if count > 0 && i >= count {
            let run = (i, EchoEnd::Finished);
            proof {
                let last = Seq::<Event>::empty();
                assert(stopped_with(run.1, last));
                assert(transport.trace() =~= before + echoes(messages) + last);
            }
            return run;
        }
        let ghost record = transport.record();
        let received = transport.recv(buf.as_mut_slice());
        proof {
            lemma_goes_on_push(
                old(transport).record(),
                old(transport).inner(),
                record,
                transport.record().last(),
            );
        }
        match received {
            Ok(n) => {
                let ghost message = buf@.take(n as int);
                let reply: &[u8] = &buf.as_slice()[0..n];
                assert(reply@ =~= message);
                let ghost record = transport.record();
                let sent = transport.send(reply);
                proof {
                    lemma_goes_on_push(
                        old(transport).record(),
                        old(transport).inner(),
                        record,
                        transport.record().last(),
                    );
                }
                match sent {
                    Ok(_) => {
                        let ghost more = messages.push(message);
                        proof {
                            assert(more.drop_last() =~= messages);
                            assert(transport.trace() =~= before + echoes(messages) + echo(message));
                        }
                        if i == usize::MAX {
                            proof {
                                assert(stopped_with(EchoEnd::CounterFull, echo(message)));
                            }
                            return (i, EchoEnd::CounterFull);
                        }
                        proof {
                            assert(transport.trace() =~= before + echoes(more));
                            messages = more;
                        }
                        i = i + 1;
                    },
                    Err(e) => {
                        let end = EchoEnd::Send(e);
                        proof {
                            let last = lost_echo(message, end->Send_0);
                            assert(stopped_with(end, last));
                            assert(transport.trace() =~= before + echoes(messages) + last);
                        }
                        return (i, end);
                    },
                }
            },
            Err(e) => {
                let end = EchoEnd::Recv(e);
                proof {
                    let last = no_message(buf@, end->Recv_0);
                    assert(stopped_with(end, last));
                    assert(transport.trace() =~= before + echoes(messages) + last);
                }
                return (i, end);
            },
        }
    }
}

/// The server's side of a benchmark: sends `count` messages back, or every message that comes
/// if `count` is 0, and stops with the first call that fails. Cleans the channel called `name`
/// up as its last call, unless a message could not be sent back or counted. Every step on
/// record is a call that the transport answered so.
pub fn run_echo_server<T: Transport>(
    transport: &mut Session<T>,
    name: &str,
    count: usize,
) -> (run: EchoRun)
    ensures
        ended(count, run.echoed, run.end),
        run.cleaned is Some <==> run.end is Finished || run.end is Recv,
        exists|messages: Seq<Seq<u8>>, last: Seq<Event>|
            {
                &&& messages.len() == run.echoed
                &&& #[trigger] stopped_with(run.end, last)
                &&& final(transport).trace() == old(transport).trace() + #[trigger] echoes(messages)
                    + last + cleaning(name@, run.cleaned)
            },
        goes_on(
            old(transport).record(),
            old(transport).inner(),
            final(transport).record(),
            final(transport).inner(),
        ),
        forall|at: int|
            old(transport).record().len() <= at < final(transport).record().len() ==> {
                let step = #[trigger] final(transport).record()[at];
                ||| exists|t: &mut T, buf: &[u8], sent: std::io::Result<()>|
                    {
                        &&& *t == step.before
                        &&& *final(t) == step.after
                        &&& step.event == send_event(buf@, sent)
                        &&& #[trigger] call_ensures(T::send, (t, buf), sent)
                    }
                ||| exists|t: &mut T, room: &mut [u8], received: std::io::Result<usize>|
                    {
                        &&& *t == step.before
                        &&& *final(t) == step.after
                        &&& step.event == recv_event(room@, final(room)@, received)
                        &&& #[trigger] call_ensures(T::recv, (t, room), received)
                    }
                ||| exists|name: &str, cleaned: std::io::Result<()>|
                    {
                        &&& step.after == step.before
                        &&& step.event == cleanup_event(name@, cleaned)
                        &&& #[trigger] call_ensures(T::cleanup, (name,), cleaned)
                    }
            },
{
    let (echoed, end) = echo_messages(transport, count);
    let ghost before = transport.trace();
    let ghost record = transport.record();
    let cleaned = match &end {
        EchoEnd::Finished | EchoEnd::Recv(_) => {
            let cleaned = transport.cleanup(name);
            proof {
                lemma_goes_on_push(
                    old(transport).record(),
                    old(transport).inner(),
                    record,
                    transport.record().last(),
                );
            }
            Some(cleaned)
        },
        EchoEnd::Send(_) | EchoEnd::CounterFull => None,
    };
    assert(transport.trace() =~= before + cleaning(name@, cleaned));
    EchoRun { echoed, end, cleaned }
}

/// A server sends back just the messages that it received, unchanged and in their order.
pub proof fn law_server_sends_back_what_came(messages: Seq<Seq<u8>>)
    ensures
        received_messages(echoes(messages)) == messages,
        sent_messages(echoes(messages)) == messages,
    decreases messages.len(),
{
    reveal_with_fuel(received_messages, 3);
    reveal_with_fuel(sent_messages, 3);
    if messages.len() > 0 {
        let earlier = messages.drop_last();
        law_server_sends_back_what_came(earlier);
        let came = echoes(earlier).push(
            Event::Received { room: ECHO_BUFFER_SIZE as nat, data: messages.last() },
        );
        assert(echoes(messages) =~= came.push(Event::Sent(messages.last())));
        assert(echoes(messages).drop_last() =~= came);
        assert(came.drop_last() =~= echoes(earlier));
        assert(earlier.push(messages.last()) =~= messages);
    }
}

/// Over a channel that delivers messages whole and in order, a client that exchanged its message
/// with the server got it back every time, and the server saw as many messages as the client
/// got replies.
pub proof fn law_client_gets_its_message_back(
    sent: Seq<u8>,
    room: nat,
    replies: Seq<Seq<u8>>,
    messages: Seq<Seq<u8>>,
)
    requires
        received_messages(echoes(messages)) == sent_messages(exchanges(sent, room, replies)),
        received_messages(exchanges(sent, room, replies)) == sent_messages(echoes(messages)),
    ensures
        replies == messages,
        forall|i: int| 0 <= i < replies.len() ==> #[trigger] replies[i] == sent,
{
    law_server_sends_back_what_came(messages);
    law_client_repeats_its_message(sent, room, replies);
}

/// The server's buffer holds every message that shared memory can carry, so none of them comes
/// back shortened.
pub proof fn law_buffer_holds_any_shared_memory_message(message: Seq<u8>)
    requires
        MSG_HEADER_SIZE + message.len() <= RING_DATA_SIZE,
    ensures
        message.len() <= ECHO_BUFFER_SIZE,
{
}

/// Messages that went back, event by event.
proof fn lemma_echoes_are(messages: Seq<Seq<u8>>)
    ensures
        echoes(messages).len() == 2 * messages.len(),
        forall|k: int|
            0 <= k < messages.len() ==> is_echo(echoes(messages), 2 * k, #[trigger] messages[k]),
    decreases messages.len(),
{
    if messages.len() > 0 {
        let earlier = messages.drop_last();
        lemma_echoes_are(earlier);
        assert forall|k: int| 0 <= k < messages.len() implies is_echo(
            echoes(messages),
            2 * k,
            #[trigger] messages[k],
        ) by {
            if k < earlier.len() {
                assert(is_echo(echoes(earlier), 2 * k, earlier[k]));
                assert(echoes(messages)[2 * k] == echoes(earlier)[2 * k]);
                assert(echoes(messages)[2 * k + 1] == echoes(earlier)[2 * k + 1]);
            } else {
                assert(echoes(messages)[2 * k] == echo(messages.last())[0]);
                assert(echoes(messages)[2 * k + 1] == echo(messages.last())[1]);
            }
        }
    }
}

/// At `at` a message came and went back.
spec fn is_echo(trace: Seq<Event>, at: int, message: Seq<u8>) -> bool {
    &&& trace[at] == (Event::Received { room: ECHO_BUFFER_SIZE as nat, data: message })
    &&& trace[at + 1] == Event::Sent(message)
}

/// A server receives each message into a buffer of 16777216 bytes and sends back just the bytes
/// that came.
pub proof fn law_echoes<T: Transport>(
    transport: &mut Session<T>,
    name: &str,
    count: usize,
    run: EchoRun,
    k: int,
)
    requires
        call_ensures(run_echo_server::<T>, (transport, name, count), run),
        0 <= k < run.echoed,
    ensures
        ({
            let n = old(transport).trace().len() as int;
            let trace = final(transport).trace();
            &&& n + 2 * run.echoed <= trace.len()
            &&& trace[n + 2 * k] matches Event::Received { room, data } && room == 16777216
                && trace[n + 2 * k + 1] == Event::Sent(data)
        }),
{
    let before = old(transport).trace();
    let trace = final(transport).trace();
    let n = before.len() as int;
    let (messages, last) = choose|messages: Seq<Seq<u8>>, last: Seq<Event>|
        {
            &&& messages.len() == run.echoed
            &&& #[trigger] stopped_with(run.end, last)
            &&& trace == before + #[trigger] echoes(messages) + last + cleaning(
                name@,
                run.cleaned,
            )
        };
    lemma_echoes_are(messages);
    assert(is_echo(echoes(messages), 2 * k, messages[k]));
    assert(trace[n + 2 * k] == echoes(messages)[2 * k]);
    assert(trace[n + 2 * k + 1] == echoes(messages)[2 * k + 1]);
}

/// How a server ends. One that was asked for no number of messages never finishes: it stops when
/// a call fails, or when it can count no further. One that was asked for some finishes after
/// just as many. A failing call ends it before that, and its error is handed out. Unless a
/// message could not be sent back or counted, cleaning the channel up is its last call, and its
/// only one of that kind.
pub proof fn law_echo_end<T: Transport>(
    transport: &mut Session<T>,
    name: &str,
    count: usize,
    run: EchoRun,
)
    requires
        call_ensures(run_echo_server::<T>, (transport, name, count), run),
    ensures
        count == 0 ==> !(run.end is Finished),
        run.end is Finished ==> run.echoed == count,
        count > 0 && !(run.end is Finished) ==> run.echoed < count,
        run.end is CounterFull ==> count == 0 && run.echoed == usize::MAX,
        run.cleaned is None <==> run.end is Send || run.end is CounterFull,
        final(transport).trace().take(old(transport).trace().len() as int)
            == old(transport).trace(),
        ({
            let trace = final(transport).trace();
            let at = old(transport).trace().len() + 2 * run.echoed;
            &&& match run.end {
                EchoEnd::Finished => trace.len() == at + 1,
                EchoEnd::Recv(e) => {
                    &&& trace.len() == at + 2
                    &&& trace[at] matches Event::RecvFailed { left, error } && left.len()
                        == 16777216 && error == e
                },
                EchoEnd::Send(e) => {
                    &&& trace.len() == at + 2
                    &&& trace[at] matches Event::Received { room, data } && room == 16777216
                        && trace[at + 1] == (Event::SendFailed { message: data, error: e })
                },
                EchoEnd::CounterFull => {
                    &&& trace.len() == at + 2
                    &&& trace[at] matches Event::Received { room, data } && room == 16777216
                        && trace[at + 1] == Event::Sent(data)
                },
            }
            &&& run.cleaned matches Some(result) ==> trace.last() == (Event::CleanedUp {
                name: name@,
                cleaned: result,
            })
        }),
{
    let before = old(transport).trace();
    let trace = final(transport).trace();
    let n = before.len() as int;
    let (messages, last) = choose|messages: Seq<Seq<u8>>, last: Seq<Event>|
        {
            &&& messages.len() == run.echoed
            &&& #[trigger] stopped_with(run.end, last)
            &&& trace == before + #[trigger] echoes(messages) + last + cleaning(
                name@,
                run.cleaned,
            )
        };
    lemma_echoes_are(messages);
    assert(trace.take(n) =~= before);
    let at = n + 2 * run.echoed;
    let end = cleaning(name@, run.cleaned);
    assert(trace.len() == at + last.len() + end.len());
    if run.cleaned is Some {
        assert(trace.last() == end[0]);
    }
    match run.end {
        EchoEnd::Finished => {},
        EchoEnd::Recv(e) => {
            assert(trace[at] == last[0]);
        },
        EchoEnd::Send(e) => {
            let message = choose|message: Seq<u8>| last == #[trigger] lost_echo(message, e);
            assert(last == lost_echo(message, e));
            assert(trace[at] == last[0]);
            assert(trace[at + 1] == last[1]);
        },
        EchoEnd::CounterFull => {
            let message = choose|message: Seq<u8>| last == #[trigger] echo(message);
            assert(last == echo(message));
            assert(trace[at] == last[0]);
            assert(trace[at + 1] == last[1]);
        },
    }
}

/// A server that was asked for some messages and whose calls all succeed finishes after just as
/// many, and cleans up.
pub proof fn law_echo_finishes<T: Transport>(
    transport: &mut Session<T>,
    name: &str,
    count: usize,
    run: EchoRun,
)
    requires
        call_ensures(run_echo_server::<T>, (transport, name, count), run),
        count > 0,
        forall|i: int|
            old(transport).trace().len() <= i < final(transport).trace().len() ==> {
                let event = #[trigger] final(transport).trace()[i];
                !(event is SendFailed) && !(event is RecvFailed)
            },
    ensures
        run.end is Finished,
        run.echoed == count,
        run.cleaned is Some,
{
    law_echo_end(transport, name, count, run);
    let at = old(transport).trace().len() + 2 * run.echoed;
    if run.end is Recv {
        assert(final(transport).trace()[at] is RecvFailed);
    }
    if run.end is Send {
        assert(final(transport).trace()[at + 1] is SendFailed);
    }
}

} // verus!
