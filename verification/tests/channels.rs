use ipc_bench::retry::{AfterFailure, Retry};
use ipc_bench::text::{decimal, same_text, surround};
use ipc_bench::transport::channel::{hash_name, is_gone, Removal};
use ipc_bench::transport::kind::TransportKind;
use ipc_bench::transport::named_pipe::{FifoEnd, NamedPipeTransport};
use ipc_bench::transport::named_pipe_win::WinNamedPipeTransport;
use ipc_bench::transport::shared_mem::SharedMemPadded;
use ipc_bench::transport::stream::RecvPlan;
use ipc_bench::transport::tcp_socket::TcpSocketTransport;
use ipc_bench::transport::unix_socket::UnixSocketTransport;
use ipc_bench::transport::websocket::{WebSocketTransport, WsMessage};
use ipc_bench::transport::Role;

const NAMES: [&str; 19] = [
    "tcp_socket",
    "websocket",
    "unix_socket",
    "named_pipe",
    "shared_mem",
    "shared_mem_compact",
    "shared_mem_compact_uninit1k",
    "shared_mem_inline",
    "shared_mem_inline512",
    "shared_mem_inline1k",
    "shared_mem_inline2k",
    "shared_mem_inline4k",
    "shared_mem_inline8k",
    "shared_mem_uninit",
    "shared_mem_uninit512",
    "shared_mem_uninit1k",
    "shared_mem_uninit2k",
    "shared_mem_uninit4k",
    "shared_mem_uninit8k",
];

#[test]
fn ports_come_from_names() {
    assert_eq!(TcpSocketTransport::port("bench"), 32832);
    assert_eq!(TcpSocketTransport::port(""), 10000);
    assert_eq!(TcpSocketTransport::port("a"), 10097);
    assert_eq!(TcpSocketTransport::port("日本"), 40658);
    assert_eq!(TcpSocketTransport::port("a long channel name that wraps"), 44547);
    assert_eq!(WebSocketTransport::port("bench"), 49088);
    assert_eq!(WebSocketTransport::port(""), 11000);
    assert_eq!(WebSocketTransport::port("日本"), 46092);
    assert_eq!(WebSocketTransport::port("a long channel name that wraps"), 23205);
}

#[test]
fn ports_stay_in_their_range() {
    for i in 0..2000 {
        let name = format!("channel {}", i);
        assert!((10000..60000).contains(&TcpSocketTransport::port(&name)));
        assert!((11000..61000).contains(&WebSocketTransport::port(&name)));
    }
}

#[test]
fn hash_multiplies_and_adds() {
    assert_eq!(hash_name("ab", 31), 97 * 31 + 98);
    assert_eq!(hash_name("zzzzzzzzzz", 31), "zzzzzzzzzz".bytes().fold(0u32, |acc, b| acc
        .wrapping_mul(31)
        .wrapping_add(b as u32)));
}

#[test]
fn addresses_name_the_local_host() {
    assert_eq!(TcpSocketTransport::address("a"), "127.0.0.1:10097");
    assert_eq!(WebSocketTransport::address(""), "127.0.0.1:11000");
    assert_eq!(WebSocketTransport::url(""), "ws://127.0.0.1:11000");
}

#[test]
fn paths_hold_the_name() {
    assert_eq!(UnixSocketTransport::socket_path("bench"), "/tmp/ipc_bench_bench.sock");
    assert_eq!(NamedPipeTransport::s2c_path("bench"), "/tmp/ipc_bench_bench_s2c");
    assert_eq!(NamedPipeTransport::c2s_path("bench"), "/tmp/ipc_bench_bench_c2s");
    assert_eq!(SharedMemPadded::shm_path("bench"), "/dev/shm/ipc_bench_bench");
    assert_eq!(SharedMemPadded::shm_path_in("C:\\Temp\\", "x"), "C:\\Temp\\ipc_bench_x");
    assert_eq!(WinNamedPipeTransport::pipe_name("bench"), r"\\.\pipe\ipc_bench_bench");
}

#[test]
fn different_names_have_different_paths() {
    assert_ne!(UnixSocketTransport::socket_path("a"), UnixSocketTransport::socket_path("b"));
    assert_ne!(NamedPipeTransport::s2c_path("a"), NamedPipeTransport::s2c_path("b"));
    assert_ne!(NamedPipeTransport::s2c_path("a"), NamedPipeTransport::c2s_path("a"));
    assert_ne!(SharedMemPadded::shm_path("a"), SharedMemPadded::shm_path("a_"));
}

#[test]
fn both_ends_open_fifos_in_the_same_order() {
    let (server_first, server_second) = NamedPipeTransport::open("x", Role::Server);
    let (client_first, client_second) = NamedPipeTransport::open("x", Role::Client);
    assert_eq!(server_first.path, "/tmp/ipc_bench_x_s2c");
    assert_eq!(server_second.path, "/tmp/ipc_bench_x_c2s");
    assert_eq!(server_first.path, client_first.path);
    assert_eq!(server_second.path, client_second.path);
    assert_eq!((server_first.end, server_second.end), (FifoEnd::Write, FifoEnd::Read));
    assert_eq!((client_first.end, client_second.end), (FifoEnd::Read, FifoEnd::Write));
}

#[test]
fn decimal_writes_numbers() {
    for n in [0u64, 7, 10, 99, 100, 10097, 16777212, u64::MAX] {
        assert_eq!(decimal(n), n.to_string());
    }
    assert_eq!(surround("<", "name", ">"), "<name>");
    assert!(same_text("abc", "abc"));
    assert!(!same_text("abc", "abd"));
}

#[test]
fn kinds_are_found_by_name() {
    for name in NAMES {
        let kind = TransportKind::parse(name).unwrap();
        assert_eq!(kind.name(), name);
    }
    assert_eq!(TransportKind::parse("shared_mem"), Some(TransportKind::SharedMem));
    assert_eq!(
        TransportKind::parse("shared_mem_compact_uninit1k"),
        Some(TransportKind::SharedMemCompactUninit1k)
    );
    for name in ["", "tcp", "shared_mem_", "TCP_SOCKET", "unknown"] {
        assert_eq!(TransportKind::parse(name), None);
    }
}

#[test]
fn kinds_have_different_names() {
    for (i, left) in NAMES.iter().enumerate() {
        for (j, right) in NAMES.iter().enumerate() {
            let same = TransportKind::parse(left) == TransportKind::parse(right);
            assert_eq!(same, i == j);
        }
    }
}

#[test]
fn a_client_gives_up_after_a_second() {
    let mut retry = Retry::new();
    let mut waited = 0;
    let mut retries = 0;
    while let AfterFailure::Again(delay) = retry.after_failure() {
        waited += delay;
        retries += 1;
    }
    assert_eq!((retries, waited), (100, 1000));
    assert_eq!(retry.after_failure(), AfterFailure::GiveUp);
}

#[test]
fn a_missing_file_is_gone() {
    assert!(is_gone(Removal::Removed));
    assert!(is_gone(Removal::Missing));
    assert!(!is_gone(Removal::Failed));
}

#[test]
fn an_early_client_is_connected() {
    assert!(WinNamedPipeTransport::is_connected(1, None));
    assert!(WinNamedPipeTransport::is_connected(1, Some(5)));
    assert!(WinNamedPipeTransport::is_connected(0, Some(535)));
    assert!(!WinNamedPipeTransport::is_connected(0, Some(5)));
    assert!(!WinNamedPipeTransport::is_connected(0, None));
}

#[test]
fn websocket_passes_over_other_messages() {
    let mut buf = [1u8; 4];
    assert_eq!(WebSocketTransport::recv(&WsMessage::Other, &mut buf), None);
    assert_eq!(buf, [1, 1, 1, 1]);
    assert_eq!(WebSocketTransport::recv(&WsMessage::Binary(vec![7, 8]), &mut buf), Some(2));
    assert_eq!(buf, [7, 8, 1, 1]);
    assert_eq!(WebSocketTransport::recv(&WsMessage::Binary(vec![2; 9]), &mut buf), Some(4));
    assert_eq!(buf, [2, 2, 2, 2]);
}

#[test]
fn streams_carry_frames() {
    let frame = vec![2, 0, 0, 0, 8, 9];
    assert_eq!(UnixSocketTransport::send(&[8, 9]).unwrap(), frame);
    assert_eq!(TcpSocketTransport::send(&[8, 9]).unwrap(), frame);
    assert_eq!(NamedPipeTransport::send(&[8, 9]).unwrap(), frame);
    assert_eq!(WinNamedPipeTransport::send(&[8, 9]).unwrap(), frame);
    let plan = RecvPlan { read_len: 3, discard: 259 };
    assert_eq!(UnixSocketTransport::recv(&[6, 1, 0, 0], 3), plan);
    assert_eq!(TcpSocketTransport::recv(&[6, 1, 0, 0], 3), plan);
    assert_eq!(NamedPipeTransport::recv(&[6, 1, 0, 0], 3), plan);
    assert_eq!(WinNamedPipeTransport::recv(&[6, 1, 0, 0], 3), plan);
}

#[test]
fn transports_have_names_for_reports() {
    assert_eq!(UnixSocketTransport::transport_name(), "UnixSocket");
    assert_eq!(TcpSocketTransport::transport_name(), "TcpSocket");
    assert_eq!(NamedPipeTransport::transport_name(), "NamedPipe");
    assert_eq!(WinNamedPipeTransport::transport_name(), "NamedPipe(Win)");
    assert_eq!(WebSocketTransport::transport_name(), "WebSocket");
}
