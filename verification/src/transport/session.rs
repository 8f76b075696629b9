//! A transport in use, with a clock at hand.

use std::time::{Duration, Instant};
use vstd::prelude::*;

use crate::transport::{Role, Transport};

verus! {

/// `std::time::Instant`, carried through unread.
#[verifier::external_type_specification]
#[verifier::external_body]
pub struct ExInstant(std::time::Instant);

/// `Instant::now` of std: the current time, of which nothing is known beforehand.
pub assume_specification[ std::time::Instant::now ]() -> std::time::Instant
;

/// `Instant::elapsed` of std: the time since an instant, of which nothing is known beforehand.
pub assume_specification[ std::time::Instant::elapsed ](
    instant: &std::time::Instant,
) -> std::time::Duration
;

/// One finished call of a transport, or one look at the clock.
pub enum Event {
    /// `send` accepted all the bytes of a message.
    Sent(Seq<u8>),
    /// `send` was handed a message and failed with an error.
    SendFailed { message: Seq<u8>, error: std::io::Error },
    /// `recv` had room for `room` bytes and put `data` at the front of its buffer.
    Received { room: nat, data: Seq<u8> },
    /// `recv` failed with an error and left these bytes in its buffer.
    RecvFailed { left: Seq<u8>, error: std::io::Error },
    /// `open` opened the channel called `name`.
    Opened { name: Seq<char>, role: Role },
    /// `cleanup` was asked to clean up the channel called `name`.
    CleanedUp { name: Seq<char>, cleaned: std::io::Result<()> },
    /// The clock was started and showed this instant.
    ClockStarted(Instant),
    /// The clock that was started at `since` was read.
    ClockRead { since: Instant, elapsed: Duration },
}

/// What a call of `send` leaves on record.
pub open spec fn send_event(message: Seq<u8>, sent: std::io::Result<()>) -> Event {
    match sent {
        Ok(_) => Event::Sent(message),
        Err(error) => Event::SendFailed { message, error },
    }
}

/// What a call of `recv` leaves on record. Its buffer was `held` before and `left` after it.
pub open spec fn recv_event(
    held: Seq<u8>,
    left: Seq<u8>,
    received: std::io::Result<usize>,
) -> Event {
    match received {
        Ok(n) => Event::Received { room: held.len(), data: left.take(n as int) },
        Err(error) => Event::RecvFailed { left, error },
    }
}

/// What a call of `cleanup` leaves on record.
pub open spec fn cleanup_event(name: Seq<char>, cleaned: std::io::Result<()>) -> Event {
    Event::CleanedUp { name, cleaned }
}

/// A look at the clock.
pub open spec fn is_clock(event: Event) -> bool {
    event is ClockStarted || event is ClockRead
}

/// An event, with the transport as it was before and after it.
pub struct Step<T> {
    pub event: Event,
    pub before: T,
    pub after: T,
}

/// The events of a record.
pub open spec fn events<T>(record: Seq<Step<T>>) -> Seq<Event> {
    record.map_values(|step: Step<T>| step.event)
}

/// The record `later` goes on where `earlier` ended: it starts with `earlier`, and every step
/// behind that finds the transport as the step before it left it, from `start` up to `end`.
pub open spec fn goes_on<T>(
    earlier: Seq<Step<T>>,
    start: T,
    later: Seq<Step<T>>,
    end: T,
) -> bool
    decreases later.len(),
{
    if later.len() <= earlier.len() {
        later == earlier && end == start
    } else {
        later.last().after == end && goes_on(
            earlier,
            start,
            later.drop_last(),
            later.last().before,
        )
    }
}

/// One more step lets a record go on.
pub proof fn lemma_goes_on_push<T>(
    earlier: Seq<Step<T>>,
    start: T,
    later: Seq<Step<T>>,
    step: Step<T>,
)
    requires
        goes_on(earlier, start, later, step.before),
    ensures
        goes_on(earlier, start, later.push(step), step.after),
{
    lemma_goes_on_keeps(earlier, start, later, step.before);
    assert(later.push(step).drop_last() =~= later);
}

/// Records that go on from each other go on as a whole.
pub proof fn lemma_goes_on_joins<T>(
    first: Seq<Step<T>>,
    start: T,
    second: Seq<Step<T>>,
    between: T,
    third: Seq<Step<T>>,
    end: T,
)
    requires
        goes_on(first, start, second, between),
        goes_on(second, between, third, end),
    ensures
        goes_on(first, start, third, end),
    decreases third.len(),
{
    lemma_goes_on_keeps(first, start, second, between);
    if third.len() > second.len() {
        lemma_goes_on_joins(
            first,
            start,
            second,
            between,
            third.drop_last(),
            third.last().before,
        );
    }
}

/// A record that goes on keeps what it held.
pub proof fn lemma_goes_on_keeps<T>(
    earlier: Seq<Step<T>>,
    start: T,
    later: Seq<Step<T>>,
    end: T,
)
    requires
        goes_on(earlier, start, later, end),
    ensures
        earlier.len() <= later.len(),
        later.take(earlier.len() as int) == earlier,
        forall|i: int| 0 <= i < earlier.len() ==> #[trigger] later[i] == earlier[i],
    decreases later.len(),
{
    if later.len() > earlier.len() {
        lemma_goes_on_keeps(earlier, start, later.drop_last(), later.last().before);
        assert(later.take(earlier.len() as int) =~= later.drop_last().take(earlier.len() as int));
    } else {
        assert(later.take(earlier.len() as int) =~= earlier);
    }
    assert forall|i: int| 0 <= i < earlier.len() implies #[trigger] later[i] == earlier[i] by {
        assert(later.take(earlier.len() as int)[i] == later[i]);
    }
}

/// In a record that goes on, each step finds the transport as the step before it left it.
pub proof fn law_steps_follow_each_other<T>(
    earlier: Seq<Step<T>>,
    start: T,
    later: Seq<Step<T>>,
    end: T,
    at: int,
)
    requires
        goes_on(earlier, start, later, end),
        earlier.len() <= at < later.len(),
    ensures
        later[at].before == if at == earlier.len() {
            start
        } else {
            later[at - 1].after
        },
        at == later.len() - 1 ==> later[at].after == end,
    decreases later.len(),
{
    reveal_with_fuel(goes_on, 3);
    if at < later.len() - 1 {
        law_steps_follow_each_other(
            earlier,
            start,
            later.drop_last(),
            later.last().before,
            at,
        );
    } else if later.len() - 1 > earlier.len() {
        assert(later.drop_last().last() == later[at - 1]);
    }
}

/// What a transport was asked for.
pub enum Request {
    /// To send a message.
    Send(Seq<u8>),
    /// To receive a message into a buffer of so many bytes.
    Recv(nat),
}

/// What a transport was asked for in a call.
pub open spec fn request(event: Event) -> Option<Request> {
    match event {
        Event::Sent(message) => Some(Request::Send(message)),
        Event::SendFailed { message, .. } => Some(Request::Send(message)),
        Event::Received { room, .. } => Some(Request::Recv(room)),
        Event::RecvFailed { left, .. } => Some(Request::Recv(left.len())),
        _ => None,
    }
}

/// Two transports answer their calls alike: as long as both were asked for the same, both gave
/// the same answers.
pub open spec fn answer_alike(left: Seq<Event>, right: Seq<Event>) -> bool {
    forall|i: int|
        {
            &&& 0 <= i < left.len()
            &&& i < right.len()
            &&& left.take(i) == right.take(i)
            &&& request(#[trigger] left[i]) == request(#[trigger] right[i])
        } ==> left[i] == right[i]
}

/// The calls of the transport alone.
pub open spec fn transport_calls(trace: Seq<Event>) -> Seq<Event>
    decreases trace.len(),
{
    if trace.len() == 0 {
        Seq::empty()
    } else {
        let earlier = transport_calls(trace.drop_last());
        match trace.last() {
            Event::ClockStarted(_) => earlier,
            Event::ClockRead { .. } => earlier,
            call => earlier.push(call),
        }
    }
}

/// What the clock showed each time it was read.
pub open spec fn clock_readings(trace: Seq<Event>) -> Seq<Duration>
    decreases trace.len(),
{
    if trace.len() == 0 {
        Seq::empty()
    } else {
        let earlier = clock_readings(trace.drop_last());
        match trace.last() {
            Event::ClockRead { elapsed, .. } => earlier.push(elapsed),
            _ => earlier,
        }
    }
}

/// The messages that were sent.
pub open spec fn sent_messages(trace: Seq<Event>) -> Seq<Seq<u8>>
    decreases trace.len(),
{
    if trace.len() == 0 {
        Seq::empty()
    } else {
        let earlier = sent_messages(trace.drop_last());
        match trace.last() {
            Event::Sent(message) => earlier.push(message),
            _ => earlier,
        }
    }
}

/// The messages that were received, as far as there was room for them.
pub open spec fn received_messages(trace: Seq<Event>) -> Seq<Seq<u8>>
    decreases trace.len(),
{
    if trace.len() == 0 {
        Seq::empty()
    } else {
        let earlier = received_messages(trace.drop_last());
        match trace.last() {
            Event::Received { data, .. } => earlier.push(data),
            _ => earlier,
        }
    }
}

/// The calls, and the readings of the clock, of a trace in two parts are those of its parts.
pub proof fn lemma_traces_join(first: Seq<Event>, second: Seq<Event>)
    ensures
        transport_calls(first + second) == transport_calls(first) + transport_calls(second),
        clock_readings(first + second) == clock_readings(first) + clock_readings(second),
    decreases second.len(),
{
    if second.len() == 0 {
        assert(first + second =~= first);
    } else {
        lemma_traces_join(first, second.drop_last());
        assert((first + second).drop_last() =~= first + second.drop_last());
    }
    assert(transport_calls(first + second) =~= transport_calls(first) + transport_calls(second));
    assert(clock_readings(first + second) =~= clock_readings(first) + clock_readings(second));
}

/// What was sent and received shows in the calls of the transport alone.
pub proof fn law_clock_moves_no_messages(trace: Seq<Event>)
    ensures
        sent_messages(transport_calls(trace)) == sent_messages(trace),
        received_messages(transport_calls(trace)) == received_messages(trace),
        clock_readings(transport_calls(trace)) == Seq::<Duration>::empty(),
    decreases trace.len(),
{
    if trace.len() > 0 {
        law_clock_moves_no_messages(trace.drop_last());
        let earlier = transport_calls(trace.drop_last());
        assert(earlier.push(trace.last()).drop_last() =~= earlier);
    }
}

/// Transports that answer alike and are asked for the same give the same answers.
pub proof fn lemma_same_requests(left: Seq<Event>, right: Seq<Event>, count: int)
    requires
        0 <= count <= left.len(),
        count <= right.len(),
        answer_alike(left, right),
        forall|i: int| 0 <= i < count ==> request(#[trigger] left[i]) == request(right[i]),
    ensures
        left.take(count) == right.take(count),
    decreases count,
{
    if count > 0 {
        lemma_same_requests(left, right, count - 1);
        assert(request(left[count - 1]) == request(right[count - 1]));
        assert(left.take(count) =~= left.take(count - 1).push(left[count - 1]));
        assert(right.take(count) =~= right.take(count - 1).push(right[count - 1]));
    } else {
        assert(left.take(0) =~= right.take(0));
    }
}

/// An open transport. It keeps a record of its calls and of the looks at the clock between
/// them, for proofs only.
pub struct Session<T: Transport> {
    transport: T,
    steps: Ghost<Seq<Step<T>>>,
}

impl<T: Transport> Session<T> {
    /// The calls of the transport and the looks at the clock so far, oldest first, each with
    /// what it made of the transport.
    pub closed spec fn record(&self) -> Seq<Step<T>> {
        self.steps@
    }

    /// The calls of the transport and the looks at the clock so far, oldest first.
    pub open spec fn trace(&self) -> Seq<Event> {
        events(self.record())
    }

    /// The transport itself.
    pub closed spec fn inner(&self) -> T {
        self.transport
    }

    /// A session on a transport that is open.
    pub fn new(transport: T) -> (session: Self)
        ensures
            session.inner() == transport,
            session.record() == Seq::<Step<T>>::empty(),
            session.trace() == Seq::<Event>::empty(),
    {
        let session = Session { transport, steps: Ghost(Seq::empty()) };
        assert(session.trace() =~= Seq::<Event>::empty());
        session
    }

    /// Opens the channel called `name`, as the transport does.
    pub fn open(name: &str, role: Role) -> (opened: std::io::Result<Self>)
        ensures
            match opened {
                Ok(session) => call_ensures(T::open, (name, role), Ok(session.inner())),
                Err(error) => call_ensures(T::open, (name, role), Err(error)),
            },
            opened matches Ok(session) ==> session.trace() == seq![
                Event::Opened { name: name@, role },
            ],
    {
        match T::open(name, role) {
            Ok(transport) => {
                let ghost step = Step {
                    event: Event::Opened { name: name@, role },
                    before: transport,
                    after: transport,
                };
                let mut session = Session::new(transport);
                session.note(Ghost(step));
                assert(session.trace() =~= seq![step.event]);
                Ok(session)
            },
            Err(e) => Err(e),
        }
    }

    /// Sends all the bytes of `buf` as one message, as the transport does.
    pub fn send(&mut self, buf: &[u8]) -> (sent: std::io::Result<()>)
        ensures
            exists|transport: &mut T|
                {
                    &&& *transport == old(self).inner()
                    &&& *final(transport) == final(self).inner()
                    &&& #[trigger] call_ensures(T::send, (transport, buf), sent)
                },
            final(self).trace() == old(self).trace().push(send_event(buf@, sent)),
            final(self).record() == old(self).record().push(
                Step {
                    event: send_event(buf@, sent),
                    before: old(self).inner(),
                    after: final(self).inner(),
                },
            ),
    {
        let sent = self.transport.send(buf);
        self.note(
            Ghost(
                Step {
                    event: send_event(buf@, sent),
                    before: old(self).inner(),
                    after: self.inner(),
                },
            ),
        );
        sent
    }

    /// Receives one message into the front of `buf`, as the transport does, and returns the
    /// number of bytes read.
    pub fn recv(&mut self, buf: &mut [u8]) -> (received: std::io::Result<usize>)
        ensures
            exists|transport: &mut T, room: &mut [u8]|
                {
                    &&& *transport == old(self).inner()
                    &&& *final(transport) == final(self).inner()
                    &&& room@ == old(buf)@
                    &&& final(room)@ == final(buf)@
                    &&& #[trigger] call_ensures(T::recv, (transport, room), received)
                },
            final(buf)@.len() == old(buf)@.len(),
            received matches Ok(n) ==> {
                &&& n <= old(buf)@.len()
                &&& final(buf)@.skip(n as int) == old(buf)@.skip(n as int)
            },
            final(self).trace() == old(self).trace().push(
                recv_event(old(buf)@, final(buf)@, received),
            ),
            final(self).record() == old(self).record().push(
                Step {
                    event: recv_event(old(buf)@, final(buf)@, received),
                    before: old(self).inner(),
                    after: final(self).inner(),
                },
            ),
    {
        let received = self.transport.recv(buf);
        self.note(
            Ghost(
                Step {
                    event: recv_event(old(buf)@, buf@, received),
                    before: old(self).inner(),
                    after: self.inner(),
                },
            ),
        );
        received
    }

    /// Releases what the channel called `name` holds in the operating system, as the transport
    /// does.
    pub fn cleanup(&mut self, name: &str) -> (cleaned: std::io::Result<()>)
        ensures
            call_ensures(T::cleanup, (name,), cleaned),
            final(self).inner() == old(self).inner(),
            final(self).trace() == old(self).trace().push(cleanup_event(name@, cleaned)),
            final(self).record() == old(self).record().push(
                Step {
                    event: cleanup_event(name@, cleaned),
                    before: old(self).inner(),
                    after: old(self).inner(),
                },
            ),
    {
        let cleaned = T::cleanup(name);
        self.note(
            Ghost(
                Step {
                    event: cleanup_event(name@, cleaned),
                    before: self.inner(),
                    after: self.inner(),
                },
            ),
        );
        cleaned
    }

    /// Starts a clock.
    pub fn start_clock(&mut self) -> (start: Instant)
        ensures
            call_ensures(Instant::now, (), start),
            final(self).inner() == old(self).inner(),
            final(self).trace() == old(self).trace().push(Event::ClockStarted(start)),
            final(self).record() == old(self).record().push(
                Step {
                    event: Event::ClockStarted(start),
                    before: old(self).inner(),
                    after: old(self).inner(),
                },
            ),
    {
        let start: Instant = Instant::now();
        self.note(
            Ghost(
                Step {
                    event: Event::ClockStarted(start),
                    before: self.inner(),
                    after: self.inner(),
                },
            ),
        );
        start
    }

    /// Reads the clock that was started at `start`.
    pub fn read_clock(&mut self, start: &Instant) -> (elapsed: Duration)
        ensures
            call_ensures(Instant::elapsed, (start,), elapsed),
            final(self).inner() == old(self).inner(),
            final(self).trace() == old(self).trace().push(
                Event::ClockRead { since: *start, elapsed },
            ),
            final(self).record() == old(self).record().push(
                Step {
                    event: Event::ClockRead { since: *start, elapsed },
                    before: old(self).inner(),
                    after: old(self).inner(),
                },
            ),
    {
        let elapsed: Duration = start.elapsed();
        self.note(
            Ghost(
                Step {
                    event: Event::ClockRead { since: *start, elapsed },
                    before: self.inner(),
                    after: self.inner(),
                },
            ),
        );
        elapsed
    }

    /// Puts a step on record.
    fn note(&mut self, step: Ghost<Step<T>>)
        ensures
            final(self).inner() == old(self).inner(),
            final(self).record() == old(self).record().push(step@),
            final(self).trace() == old(self).trace().push(step@.event),
    {
        self.steps = Ghost(self.steps@.push(step@));
        assert(self.trace() =~= old(self).trace().push(step@.event));
    }
}

/// A session begins with an open transport and nothing on record, or with having opened it.
pub proof fn law_session_begins<T: Transport>(
    transport: T,
    fresh: Session<T>,
    name: &str,
    role: Role,
    opened: std::io::Result<Session<T>>,
)
    requires
        call_ensures(Session::<T>::new, (transport,), fresh),
        call_ensures(Session::<T>::open, (name, role), opened),
    ensures
        fresh.inner() == transport,
        fresh.trace().len() == 0,
        opened matches Ok(session) ==> {
            &&& call_ensures(T::open, (name, role), Ok(session.inner()))
            &&& session.trace().len() == 1
            &&& session.trace()[0] == (Event::Opened { name: name@, role })
        },
        opened matches Err(error) ==> call_ensures(T::open, (name, role), Err(error)),
{
}

/// A session's calls are the transport's own, with the same arguments, results and effects, and
/// each leaves one event that says so. Nothing on record is changed by them.
pub proof fn law_session_calls<T: Transport>(
    session: &mut Session<T>,
    buf: &[u8],
    sent: std::io::Result<()>,
)
    requires
        call_ensures(Session::<T>::send, (session, buf), sent),
    ensures
        exists|transport: &mut T|
            {
                &&& *transport == old(session).inner()
                &&& *final(transport) == final(session).inner()
                &&& #[trigger] call_ensures(T::send, (transport, buf), sent)
            },
        final(session).trace().len() == old(session).trace().len() + 1,
        final(session).trace().drop_last() == old(session).trace(),
        final(session).trace().last() == match sent {
            Ok(_) => Event::Sent(buf@),
            Err(error) => Event::SendFailed { message: buf@, error },
        },
{
    assert(final(session).trace().drop_last() =~= old(session).trace());
}

/// Receiving through a session is receiving through its transport: the buffer is what the
/// transport left in it, and the event holds what came.
pub proof fn law_session_receives<T: Transport>(
    session: &mut Session<T>,
    buf: &mut [u8],
    received: std::io::Result<usize>,
)
    requires
        call_ensures(Session::<T>::recv, (session, buf), received),
    ensures
        exists|transport: &mut T, room: &mut [u8]|
            {
                &&& *transport == old(session).inner()
                &&& *final(transport) == final(session).inner()
                &&& room@ == old(buf)@
                &&& final(room)@ == final(buf)@
                &&& #[trigger] call_ensures(T::recv, (transport, room), received)
            },
        final(buf)@.len() == old(buf)@.len(),
        received matches Ok(n) ==> {
            &&& n <= old(buf)@.len()
            &&& forall|i: int| n <= i < old(buf)@.len() ==> #[trigger] final(buf)@[i]
                == old(buf)@[i]
        },
        final(session).trace().len() == old(session).trace().len() + 1,
        final(session).trace().drop_last() == old(session).trace(),
        final(session).trace().last() == match received {
            Ok(n) => Event::Received { room: old(buf)@.len(), data: final(buf)@.take(n as int) },
            Err(error) => Event::RecvFailed { left: final(buf)@, error },
        },
{
    assert(final(session).trace().drop_last() =~= old(session).trace());
    if let Ok(n) = received {
        assert forall|i: int| n <= i < old(buf)@.len() implies #[trigger] final(buf)@[i]
            == old(buf)@[i] by {
            assert(final(buf)@.skip(n as int)[i - n] == old(buf)@.skip(n as int)[i - n]);
        }
    }
}

/// Cleaning up through a session is the transport's own call, for the channel that was named,
/// and leaves the transport alone.
pub proof fn law_session_cleans_up<T: Transport>(
    session: &mut Session<T>,
    name: &str,
    cleaned: std::io::Result<()>,
)
    requires
        call_ensures(Session::<T>::cleanup, (session, name), cleaned),
    ensures
        call_ensures(T::cleanup, (name,), cleaned),
        final(session).inner() == old(session).inner(),
        final(session).trace() == old(session).trace().push(
            Event::CleanedUp { name: name@, cleaned },
        ),
{
}

/// A clock is started and read at the time of the call and changes nothing else: the instant is
/// one that `Instant::now` gave, and the reading one that `elapsed` gave for the instant that the
/// caller named.
pub proof fn law_session_clock<T: Transport>(
    starting: &mut Session<T>,
    start: Instant,
    reading: &mut Session<T>,
    since: &Instant,
    elapsed: Duration,
)
    requires
        call_ensures(Session::<T>::start_clock, (starting,), start),
        call_ensures(Session::<T>::read_clock, (reading, since), elapsed),
    ensures
        call_ensures(Instant::now, (), start),
        final(starting).inner() == old(starting).inner(),
        final(starting).trace() == old(starting).trace().push(Event::ClockStarted(start)),
        call_ensures(Instant::elapsed, (since,), elapsed),
        final(reading).inner() == old(reading).inner(),
        final(reading).trace() == old(reading).trace().push(
            Event::ClockRead { since: *since, elapsed },
        ),
{
}

} // verus!
