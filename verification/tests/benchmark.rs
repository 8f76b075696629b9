use std::collections::VecDeque;
use std::io;
use std::sync::{Arc, Mutex};
use std::time::{Duration, Instant};

use ipc_bench::echo::{run_echo_server, EchoEnd, ECHO_BUFFER_SIZE};
use ipc_bench::ping_pong::{run_one_round, run_ping_pong, warm_up, PingError};
use ipc_bench::stats::{
    median_round, report, round_p50, summarize, total_bytes, Report, Summary,
};
use ipc_bench::transport::session::Session;
use ipc_bench::transport::{Role, Transport};

type Messages = Arc<Mutex<Vec<Vec<u8>>>>;

/// A transport that follows a script and keeps what it was given.
struct Scripted {
    /// The messages to receive. An echoing transport adds what was sent.
    incoming: VecDeque<Vec<u8>>,
    outgoing: Messages,
    echo: bool,
    sends_left: usize,
}

impl Scripted {
    fn echoing(sends_left: usize) -> (Self, Messages) {
        let outgoing = Messages::default();
        let transport = Scripted {
            incoming: VecDeque::new(),
            outgoing: outgoing.clone(),
            echo: true,
            sends_left,
        };
        (transport, outgoing)
    }

    fn receiving(messages: &[&[u8]], sends_left: usize) -> (Self, Messages) {
        let outgoing = Messages::default();
        let transport = Scripted {
            incoming: messages.iter().map(|m| m.to_vec()).collect(),
            outgoing: outgoing.clone(),
            echo: false,
            sends_left,
        };
        (transport, outgoing)
    }
}

impl Transport for Scripted {
    fn open(name: &str, role: Role) -> io::Result<Self> {
        if name == "nowhere" {
            return Err(io::Error::new(io::ErrorKind::NotFound, "no such channel"));
        }
        assert_eq!(role, Role::Client);
        Ok(Scripted::echoing(usize::MAX).0)
    }

    fn send(&mut self, buf: &[u8]) -> io::Result<()> {
        if self.sends_left == 0 {
            return Err(io::Error::new(io::ErrorKind::BrokenPipe, "closed"));
        }
        self.sends_left -= 1;
        self.outgoing.lock().unwrap().push(buf.to_vec());
        if self.echo {
            self.incoming.push_back(buf.to_vec());
        }
        Ok(())
    }

    fn recv(&mut self, buf: &mut [u8]) -> io::Result<usize> {
        match self.incoming.pop_front() {
            Some(message) => {
                let n = message.len().min(buf.len());
                buf[..n].copy_from_slice(&message[..n]);
                Ok(n)
            }
            None => Err(io::Error::new(io::ErrorKind::UnexpectedEof, "nothing left")),
        }
    }

    fn cleanup(name: &str) -> io::Result<()> {
        if name == "stuck" {
            return Err(io::Error::new(io::ErrorKind::PermissionDenied, "cannot be removed"));
        }
        Ok(())
    }

    fn transport_name() -> &'static str {
        "Scripted"
    }
}

#[test]
fn a_session_opens_its_transport() {
    assert!(Session::<Scripted>::open("somewhere", Role::Client).is_ok());
    assert!(Session::<Scripted>::open("nowhere", Role::Client).is_err());
}

#[test]
fn a_session_passes_calls_on() {
    let (transport, outgoing) = Scripted::echoing(1);
    let mut session = Session::new(transport);
    assert!(session.send(b"abc").is_ok());
    assert!(session.send(b"def").is_err());
    let mut buf = [0u8; 5];
    assert_eq!(session.recv(&mut buf).unwrap(), 3);
    assert_eq!(buf, *b"abc\0\0");
    assert!(session.recv(&mut buf).is_err());
    assert_eq!(*outgoing.lock().unwrap(), vec![b"abc".to_vec()]);
}

#[test]
fn a_round_measures_every_message() {
    let (transport, outgoing) = Scripted::echoing(usize::MAX);
    let mut session = Session::new(transport);
    let mut buf = [0u8; 4];
    let round = run_one_round(&mut session, b"ping", &mut buf, 7).ok().unwrap();
    assert_eq!(round.latencies.len(), 7);
    assert!(round.total_elapsed >= round.latencies.iter().copied().max().unwrap());
    assert_eq!(buf, *b"ping");
    assert_eq!(*outgoing.lock().unwrap(), vec![b"ping".to_vec(); 7]);
}

#[test]
fn an_empty_round_succeeds_on_a_dead_transport() {
    let mut session = Session::new(Scripted::receiving(&[], 0).0);
    let mut buf = [7u8; 4];
    let round = run_one_round(&mut session, b"ping", &mut buf, 0).ok().unwrap();
    assert_eq!(round.latencies.len(), 0);
    assert_eq!(buf, [7; 4]);
}

#[test]
fn a_round_leaves_the_bytes_behind_its_replies() {
    let (transport, outgoing) = Scripted::echoing(usize::MAX);
    let mut session = Session::new(transport);
    let mut buf = [0, 0, 0, 9];
    let round = run_one_round(&mut session, &[0xAB, 0xCD, 0xEF], &mut buf, 2).ok().unwrap();
    assert_eq!(round.latencies.len(), 2);
    assert_eq!(buf, [0xAB, 0xCD, 0xEF, 9]);
    assert_eq!(*outgoing.lock().unwrap(), vec![vec![0xAB, 0xCD, 0xEF]; 2]);
}

#[test]
fn a_round_that_fails_leaves_the_last_reply() {
    let mut session = Session::new(Scripted::receiving(&[b"ab", b"c"], usize::MAX).0);
    let mut buf = *b"....";
    assert!(run_one_round(&mut session, b"xy", &mut buf, 3).is_err());
    assert_eq!(buf, *b"cb..");
}

/// A transport whose n-th reply takes n times `STEP`.
struct Slow {
    replies: u32,
}

const STEP: Duration = Duration::from_millis(20);

fn spend(time: Duration) {
    let start = Instant::now();
    while start.elapsed() < time {}
}

impl Transport for Slow {
    fn open(_name: &str, _role: Role) -> io::Result<Self> {
        Ok(Slow { replies: 0 })
    }

    fn send(&mut self, _buf: &[u8]) -> io::Result<()> {
        Ok(())
    }

    fn recv(&mut self, buf: &mut [u8]) -> io::Result<usize> {
        self.replies += 1;
        spend(STEP * self.replies);
        Ok(buf.len())
    }

    fn cleanup(_name: &str) -> io::Result<()> {
        Ok(())
    }

    fn transport_name() -> &'static str {
        "Slow"
    }
}

#[test]
fn latencies_are_those_of_their_exchanges() {
    let mut session = Session::new(Slow { replies: 0 });
    let start = Instant::now();
    let round = run_one_round(&mut session, b"a", &mut [0u8; 1], 4).ok().unwrap();
    let around = start.elapsed();
    for (i, latency) in round.latencies.iter().enumerate() {
        assert!(*latency >= STEP * (i as u32 + 1));
    }
    assert!(round.latencies.iter().sum::<Duration>() <= round.total_elapsed);
    assert!(round.total_elapsed <= around);
}

#[test]
fn rounds_come_in_order_and_warmup_is_not_measured() {
    let mut session = Session::new(Slow { replies: 0 });
    let start = Instant::now();
    let run = run_ping_pong(&mut session, 1, 1, 3, 2);
    let around = start.elapsed();
    assert!(run.failure.is_none());
    for (i, round) in run.rounds.iter().enumerate() {
        assert_eq!(round.latencies.len(), 1);
        assert!(round.latencies[0] >= STEP * (i as u32 + 3));
        assert!(round.total_elapsed >= round.latencies[0]);
    }
    let measured: Duration = run.rounds.iter().map(|round| round.total_elapsed).sum();
    assert!(measured + STEP * 3 <= around);
}

#[test]
fn a_session_reads_the_clock_that_it_started() {
    let mut session = Session::new(Slow { replies: 0 });
    let before = Instant::now();
    let start = session.start_clock();
    assert!(before <= start && start <= Instant::now());
    spend(STEP);
    let elapsed = session.read_clock(&start);
    assert!(STEP <= elapsed && elapsed <= before.elapsed());
}

#[test]
fn two_rounds_do_what_one_does() {
    let replies: Vec<Vec<u8>> = (0..5u8).map(|n| vec![n, n + 1]).collect();
    let replies: Vec<&[u8]> = replies.iter().map(|reply| &reply[..]).collect();
    let (transport, apart_sent) = Scripted::receiving(&replies, usize::MAX);
    let mut apart = Session::new(transport);
    let mut apart_buf = [8u8; 3];
    let first = run_one_round(&mut apart, b"hi", &mut apart_buf, 2).ok().unwrap();
    let second = run_one_round(&mut apart, b"hi", &mut apart_buf, 3).ok().unwrap();
    let (transport, joint_sent) = Scripted::receiving(&replies, usize::MAX);
    let mut joint_buf = [8u8; 3];
    let joint = run_one_round(&mut Session::new(transport), b"hi", &mut joint_buf, 5).ok().unwrap();
    assert_eq!(joint.latencies.len(), first.latencies.len() + second.latencies.len());
    assert_eq!(joint_buf, apart_buf);
    assert_eq!(joint_buf, [4, 5, 8]);
    assert_eq!(*joint_sent.lock().unwrap(), *apart_sent.lock().unwrap());
}

#[test]
fn a_round_stops_when_sending_fails() {
    let (transport, outgoing) = Scripted::echoing(2);
    let mut session = Session::new(transport);
    let error = run_one_round(&mut session, b"ping", &mut [0u8; 4], 5).err().unwrap();
    assert!(matches!(error, PingError::Send(e) if e.kind() == io::ErrorKind::BrokenPipe));
    assert_eq!(outgoing.lock().unwrap().len(), 2);
}

#[test]
fn a_round_stops_when_receiving_fails() {
    let (transport, outgoing) = Scripted::receiving(&[b"ping", b"ping"], usize::MAX);
    let mut session = Session::new(transport);
    let error = run_one_round(&mut session, b"ping", &mut [0u8; 4], 5).err().unwrap();
    assert!(matches!(error, PingError::Recv(e) if e.kind() == io::ErrorKind::UnexpectedEof));
    assert_eq!(outgoing.lock().unwrap().len(), 3);
}

#[test]
fn a_round_stops_at_an_echo_of_the_wrong_size() {
    let mut session = Session::new(Scripted::receiving(&[b"ping", b"pi"], usize::MAX).0);
    let error = run_one_round(&mut session, b"ping", &mut [0u8; 4], 5).err().unwrap();
    assert!(matches!(error, PingError::SizeMismatch { got: 2, expected: 4 }));
}

#[test]
fn warming_up_does_not_look_at_sizes() {
    let (transport, outgoing) = Scripted::receiving(&[b"p", b"", b"ping"], usize::MAX);
    let mut session = Session::new(transport);
    assert!(warm_up(&mut session, b"ping", &mut [0u8; 4], 3).is_ok());
    assert_eq!(outgoing.lock().unwrap().len(), 3);
    let error = warm_up(&mut session, b"ping", &mut [0u8; 4], 1).err().unwrap();
    assert!(matches!(error, PingError::Recv(_)));
}

#[test]
fn ping_pong_runs_all_rounds() {
    let (transport, outgoing) = Scripted::echoing(usize::MAX);
    let mut session = Session::new(transport);
    let run = run_ping_pong(&mut session, 64, 10, 5, 3);
    assert!(run.failure.is_none());
    assert_eq!(run.rounds.len(), 5);
    assert!(run.rounds.iter().all(|round| round.latencies.len() == 10));
    assert_eq!(*outgoing.lock().unwrap(), vec![vec![0xABu8; 64]; 53]);
}

#[test]
fn ping_pong_keeps_finished_rounds() {
    let mut session = Session::new(Scripted::echoing(3 + 2 * 10 + 4).0);
    let run = run_ping_pong(&mut session, 8, 10, 5, 3);
    assert!(matches!(run.failure, Some(PingError::Send(_))));
    assert_eq!(run.rounds.len(), 2);
    let mut session = Session::new(Scripted::echoing(2).0);
    let run = run_ping_pong(&mut session, 8, 10, 5, 3);
    assert!(matches!(run.failure, Some(PingError::Send(_))));
    assert_eq!(run.rounds.len(), 0);
}

#[test]
fn the_server_sends_back_what_came() {
    let messages: [&[u8]; 3] = [b"one", b"", b"three"];
    let (transport, outgoing) = Scripted::receiving(&messages, usize::MAX);
    let run = run_echo_server(&mut Session::new(transport), "echo", 3);
    assert_eq!(run.echoed, 3);
    assert!(matches!(run.end, EchoEnd::Finished));
    assert_eq!(*outgoing.lock().unwrap(), messages.map(|m| m.to_vec()));
}

#[test]
fn the_server_stops_at_its_count() {
    let (transport, outgoing) = Scripted::receiving(&[b"one", b"two"], usize::MAX);
    let run = run_echo_server(&mut Session::new(transport), "echo", 1);
    assert_eq!(run.echoed, 1);
    assert!(matches!(run.end, EchoEnd::Finished));
    assert_eq!(outgoing.lock().unwrap().len(), 1);
}

#[test]
fn the_server_without_a_count_runs_until_receiving_fails() {
    let mut session = Session::new(Scripted::receiving(&[&b"a"[..]; 9], 9).0);
    let run = run_echo_server(&mut session, "echo", 0);
    assert_eq!(run.echoed, 9);
    assert!(matches!(run.end, EchoEnd::Recv(_)));
}

#[test]
fn the_server_stops_when_sending_fails() {
    let mut session = Session::new(Scripted::receiving(&[&b"a"[..]; 9], 4).0);
    let run = run_echo_server(&mut session, "echo", 0);
    assert_eq!(run.echoed, 4);
    assert!(matches!(run.end, EchoEnd::Send(_)));
}

#[test]
fn the_server_cleans_up_unless_sending_fails() {
    let mut session = Session::new(Scripted::receiving(&[b"a"], 1).0);
    let run = run_echo_server(&mut session, "echo", 1);
    assert!(matches!(run.cleaned, Some(Ok(()))));
    let run = run_echo_server(&mut session, "stuck", 0);
    assert!(matches!(run.end, EchoEnd::Recv(e) if e.kind() == io::ErrorKind::UnexpectedEof));
    let cleaned = run.cleaned.unwrap();
    assert_eq!(cleaned.unwrap_err().kind(), io::ErrorKind::PermissionDenied);
    let mut session = Session::new(Scripted::receiving(&[b"a"], 0).0);
    let run = run_echo_server(&mut session, "stuck", 1);
    assert!(matches!(run.end, EchoEnd::Send(e) if e.kind() == io::ErrorKind::BrokenPipe));
    assert!(run.cleaned.is_none());
}

#[test]
fn a_session_cleans_up_as_its_transport_does() {
    let mut session = Session::new(Scripted::echoing(0).0);
    assert!(session.cleanup("echo").is_ok());
    assert!(session.cleanup("stuck").is_err());
}

#[test]
fn the_server_cuts_what_its_buffer_cannot_hold() {
    let long = vec![5u8; ECHO_BUFFER_SIZE + 1];
    let (transport, outgoing) = Scripted::receiving(&[&long], 1);
    run_echo_server(&mut Session::new(transport), "echo", 1);
    assert!(outgoing.lock().unwrap()[0] == long[..ECHO_BUFFER_SIZE]);
}

#[test]
fn a_summary_picks_percentiles() {
    let latencies: Vec<u128> = (1..=1000u128).rev().map(|n| n * 10).collect();
    let summary = summarize(&latencies);
    let expected = Summary { min: 10, p50: 5010, p95: 9510, p99: 9910, max: 10000 };
    assert_eq!(summary, expected);
    assert_eq!(round_p50(&latencies), 5010);
}

#[test]
fn a_summary_of_few_latencies() {
    let one = Summary { min: 4, p50: 4, p95: 4, p99: 4, max: 4 };
    assert_eq!(summarize(&[4]), one);
    let three = Summary { min: 1, p50: 2, p95: 3, p99: 3, max: 3 };
    assert_eq!(summarize(&[3, 1, 2]), three);
    assert_eq!(summarize(&[2, 3, 1]), three);
    assert_eq!(round_p50(&[9, 1]), 9);
}

#[test]
fn the_median_round_has_the_middle_key() {
    assert_eq!(median_round(&[5]), 0);
    assert_eq!(median_round(&[50, 10, 40, 20, 30]), 4);
    assert_eq!(median_round(&[7, 7, 7, 7, 7]), 2);
    assert_eq!(median_round(&[2, 1]), 0);
    assert_eq!(median_round(&[u64::MAX, 0, u64::MAX]), 0);
}

#[test]
fn median_round_orders_throughputs_by_their_bits() {
    let rates = [418.25f64, 152.0, 94.5, 67.0, 9.74];
    let keys: Vec<u64> = rates.iter().map(|rate| rate.to_bits()).collect();
    assert_eq!(median_round(&keys), 2);
}

#[test]
fn a_report_is_on_the_median_round() {
    let rounds = vec![vec![30, 10, 20], vec![6, 5, 4], vec![700, 900, 800]];
    let summary = Summary { min: 4, p50: 5, p95: 6, p99: 6, max: 6 };
    assert_eq!(report(&rounds, &[3, 2, 1]), Report { median: 1, summary });
    let summary = Summary { min: 10, p50: 20, p95: 30, p99: 30, max: 30 };
    assert_eq!(report(&rounds, &[2, 3, 1]), Report { median: 0, summary });
    assert_eq!(report(&rounds, &[5, 5, 5]).median, 1);
}

#[test]
fn bytes_count_both_ways() {
    assert_eq!(total_bytes(64, 1000), 128000);
    assert_eq!(total_bytes(0, 1000), 0);
    assert_eq!(total_bytes(10 << 20, 20), 419430400);
}
