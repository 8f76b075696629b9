use ipc_bench::playground::{
    is_drained, messages, preview, ring_read as read_slowly, ring_read_length as length_slowly,
    ring_write as write_slowly, HEADER_SIZE, RING_SIZE, SHM_SIZE,
};
use ipc_bench::ring::{has_room, ring_read_bytes, ring_read_length, ring_write_bytes};
use ipc_bench::transport::ring_layout::{
    CompactHeader, CompactLayout, CompactUninit1kLayout, PaddedHeader, PaddedInline1kLayout,
    PaddedInline8kLayout, PaddedInlineLayout, PaddedLayout, PaddedUninit1kLayout,
    PaddedUninitLayout, RingHeader, RingLayout, RING_DATA_SIZE,
};
use ipc_bench::transport::shared_mem::{
    SharedMemCompact, SharedMemPadded, SharedMemTransport, TooLarge,
};
use ipc_bench::transport::Role;

/// Two ends of a channel over one memory, with the cursors that each ring's ends see.
struct Channel<L: RingLayout> {
    mem: Vec<u8>,
    server: SharedMemTransport<L>,
    client: SharedMemTransport<L>,
    to_client: (u64, u64),
    to_server: (u64, u64),
}

impl<L: RingLayout> Channel<L> {
    fn new() -> Self {
        Self::starting_at(0)
    }

    fn starting_at(cursor: u64) -> Self {
        Channel {
            mem: vec![0u8; SharedMemTransport::<L>::shm_size()],
            server: SharedMemTransport::open(Role::Server),
            client: SharedMemTransport::open(Role::Client),
            to_client: (cursor, cursor),
            to_server: (cursor, cursor),
        }
    }

    fn send(&mut self, role: Role, message: &[u8]) -> bool {
        let (end, cursors) = match role {
            Role::Server => (&self.server, &mut self.to_client),
            Role::Client => (&self.client, &mut self.to_server),
        };
        let header = L::Header::observe(cursors.0, cursors.1);
        match end.send_step(&mut self.mem, &header, message) {
            Some(cursor) => {
                cursors.0 = cursor;
                true
            }
            None => false,
        }
    }

    fn recv(&mut self, role: Role, room: usize) -> Option<Vec<u8>> {
        let (end, cursors) = match role {
            Role::Server => (&self.server, &mut self.to_server),
            Role::Client => (&self.client, &mut self.to_client),
        };
        let header = L::Header::observe(cursors.0, cursors.1);
        let len = end.recv_length(&self.mem, &header)?;
        let mut buf = vec![0xEEu8; room];
        let message = end.recv_step(&self.mem, &header, len, &mut buf)?;
        assert!(buf[message.len..].iter().all(|b| *b == 0xEE));
        buf.truncate(message.len);
        cursors.1 = message.cursor;
        Some(buf)
    }
}

fn pattern(len: usize, seed: u8) -> Vec<u8> {
    (0..len).map(|i| (i as u8).wrapping_mul(31).wrapping_add(seed)).collect()
}

fn exercise<L: RingLayout>() {
    let mut channel = Channel::<L>::starting_at(3 * RING_DATA_SIZE as u64 - 700);
    let sizes = [0usize, 1, 4, 60, 256, 257, 1024, 1025, 8192, 8193, 70000];
    for (i, size) in sizes.iter().enumerate() {
        assert!(channel.send(Role::Server, &pattern(*size, i as u8)));
        assert!(channel.send(Role::Client, &pattern(*size, 100 + i as u8)));
    }
    for (i, size) in sizes.iter().enumerate() {
        assert_eq!(channel.recv(Role::Client, 80000).unwrap(), pattern(*size, i as u8));
        assert_eq!(channel.recv(Role::Server, 80000).unwrap(), pattern(*size, 100 + i as u8));
    }
    assert!(channel.recv(Role::Client, 80000).is_none());
    assert!(channel.recv(Role::Server, 80000).is_none());
}

#[test]
fn padded_ring_is_a_queue() {
    exercise::<PaddedLayout>();
}

#[test]
fn compact_ring_is_a_queue() {
    exercise::<CompactLayout>();
}

#[test]
fn inline_rings_are_queues() {
    exercise::<PaddedInlineLayout>();
    exercise::<PaddedInline1kLayout>();
    exercise::<PaddedInline8kLayout>();
}

#[test]
fn uninit_rings_are_queues() {
    exercise::<PaddedUninitLayout>();
    exercise::<PaddedUninit1kLayout>();
    exercise::<CompactUninit1kLayout>();
}

#[test]
fn joined_and_separate_copies_leave_the_same_memory() {
    let mut plain = Channel::<PaddedLayout>::new();
    let mut zeroed = Channel::<PaddedInline1kLayout>::new();
    let mut uninit = Channel::<PaddedUninit1kLayout>::new();
    for size in [0usize, 64, 1024, 2000] {
        assert!(plain.send(Role::Client, &pattern(size, 7)));
        assert!(zeroed.send(Role::Client, &pattern(size, 7)));
        assert!(uninit.send(Role::Client, &pattern(size, 7)));
    }
    assert!(plain.mem == zeroed.mem);
    assert!(plain.mem == uninit.mem);
}

#[test]
fn a_short_buffer_gets_the_front_of_a_message() {
    let mut channel = Channel::<PaddedUninit1kLayout>::new();
    assert!(channel.send(Role::Server, b"hello world"));
    assert!(channel.send(Role::Server, &pattern(5000, 1)));
    assert!(channel.send(Role::Server, b"next"));
    assert_eq!(channel.recv(Role::Client, 5).unwrap(), b"hello");
    assert_eq!(channel.recv(Role::Client, 10).unwrap(), pattern(5000, 1)[..10].to_vec());
    assert_eq!(channel.recv(Role::Client, 64).unwrap(), b"next");
}

#[test]
fn large_transfers_fit() {
    let mut channel = Channel::<PaddedLayout>::new();
    for round in 0..3u8 {
        let message = pattern(10 << 20, round);
        assert!(channel.send(Role::Client, &message));
        assert!(channel.recv(Role::Server, 16 << 20).unwrap() == message);
    }
    assert_eq!(channel.to_server, (3 * ((10 << 20) + 4), 3 * ((10 << 20) + 4)));
}

#[test]
fn a_full_ring_makes_the_writer_wait() {
    let mut channel = Channel::<CompactLayout>::new();
    let longest = pattern(RING_DATA_SIZE - 4, 3);
    assert!(SharedMemCompact::check_size(longest.len()).is_ok());
    assert!(channel.send(Role::Server, &longest));
    assert!(!channel.send(Role::Server, b""));
    assert_eq!(channel.to_client, (RING_DATA_SIZE as u64, 0));
    assert!(channel.recv(Role::Client, RING_DATA_SIZE).unwrap() == longest);
    assert!(channel.send(Role::Server, b""));
    assert_eq!(channel.recv(Role::Client, 1).unwrap(), b"");
}

#[test]
fn an_oversized_message_is_refused() {
    let error = SharedMemPadded::check_size(RING_DATA_SIZE - 3).unwrap_err();
    assert_eq!(error, TooLarge { len: 16777213, max: 16777212 });
    assert_eq!(error.message(), "Message too large: 16777213 bytes (max 16777212)");
    assert!(SharedMemPadded::check_size(usize::MAX).is_err());
    assert_eq!(SharedMemPadded::check_size(0), Ok(()));
}

#[test]
fn a_message_comes_as_a_whole_or_not_at_all() {
    let mut channel = Channel::<CompactLayout>::new();
    assert!(channel.send(Role::Server, b"abcdef"));
    let whole = channel.to_client;
    channel.to_client = (3, 0);
    let header = CompactHeader::observe(3, 0);
    assert_eq!(channel.client.recv_length(&channel.mem, &header), None);
    let header = CompactHeader::observe(9, 0);
    assert_eq!(channel.client.recv_length(&channel.mem, &header), Some(6));
    let mut buf = [7u8; 8];
    assert_eq!(channel.client.recv_step(&channel.mem, &header, 6, &mut buf), None);
    assert_eq!(buf, [7u8; 8]);
    channel.to_client = whole;
    assert_eq!(channel.recv(Role::Client, 8).unwrap(), b"abcdef");
}

#[test]
fn rings_and_cursors_lie_where_the_layout_says() {
    assert_eq!(SharedMemPadded::ring_total_size(), 128 + 16777216);
    assert_eq!(SharedMemPadded::shm_size(), 2 * (128 + 16777216));
    assert_eq!(SharedMemCompact::shm_size(), 2 * (16 + 16777216));
    let server = SharedMemPadded::open(Role::Server);
    let client = SharedMemPadded::open(Role::Client);
    assert_eq!((server.write_cursor(), server.write_read_cursor()), (0, 64));
    assert_eq!((server.read_write_cursor(), server.read_cursor()), (16777344, 16777408));
    assert_eq!((client.write_cursor(), client.write_read_cursor()), (16777344, 16777408));
    assert_eq!((client.read_write_cursor(), client.read_cursor()), (0, 64));
    let compact = SharedMemCompact::open(Role::Client);
    assert_eq!((compact.write_cursor(), compact.write_read_cursor()), (16777232, 16777240));
}

#[test]
fn sending_leaves_headers_and_the_other_ring_alone() {
    let mut channel = Channel::<PaddedLayout>::starting_at(RING_DATA_SIZE as u64 - 2);
    channel.mem.fill(0x55);
    assert!(channel.send(Role::Client, &pattern(300, 0)));
    let total = SharedMemPadded::ring_total_size();
    assert!(channel.mem[..total + 128].iter().all(|b| *b == 0x55));
    assert_eq!(channel.mem[2 * total - 2..], [44, 1]);
    assert_eq!(channel.mem[total + 128..total + 130], [0, 0]);
    assert!(channel.mem[total + 128 + 302..2 * total - 2].iter().all(|b| *b == 0x55));
}

#[test]
fn layouts_have_their_labels() {
    assert_eq!(SharedMemPadded::transport_name(), "SharedMem");
    assert_eq!(SharedMemCompact::transport_name(), "SharedMem(compact)");
    assert_eq!(PaddedInlineLayout::LABEL, "SharedMem(inline256)");
    assert_eq!(PaddedUninit1kLayout::LABEL, "SharedMem(uninit1k)");
    assert_eq!(CompactUninit1kLayout::LABEL, "SharedMem[compact,(uninit1k)]");
}

#[test]
fn the_server_has_to_make_the_whole_file() {
    let size = SharedMemPadded::shm_size() as u64;
    assert!(!SharedMemPadded::is_created(None));
    assert!(!SharedMemPadded::is_created(Some(0)));
    assert!(!SharedMemPadded::is_created(Some(size - 1)));
    assert!(SharedMemPadded::is_created(Some(size)));
    assert!(SharedMemPadded::is_created(Some(size + 1)));
}

#[test]
fn headers_hold_what_was_observed() {
    let padded = PaddedHeader::observe(9, 4);
    assert_eq!((padded.write_cursor.value, padded.read_cursor.value), (9, 4));
    assert_eq!((padded.write_cursor(), padded.read_cursor()), (9, 4));
    let compact = CompactHeader::observe(9, 4);
    assert_eq!(compact, CompactHeader { write_cursor: 9, read_cursor: 4 });
}

#[test]
fn a_write_wraps_around() {
    let mut mem = [0u8; 12];
    ring_write_bytes(&mut mem, 2, 8, 6, &[1, 2, 3, 4]);
    assert_eq!(mem, [0, 0, 3, 4, 0, 0, 0, 0, 1, 2, 0, 0]);
    let mut buf = [0u8; 4];
    ring_read_bytes(&mem, 2, 8, 6, &mut buf);
    assert_eq!(buf, [1, 2, 3, 4]);
    ring_read_bytes(&mem, 2, 8, 8 * 1000 + 6, &mut buf);
    assert_eq!(buf, [1, 2, 3, 4]);
    ring_write_bytes(&mut mem, 2, 8, 15, &[5, 0, 0, 0]);
    assert_eq!(ring_read_length(&mem, 2, 8, 15), 5);
}

#[test]
fn room_is_what_is_not_used() {
    assert!(has_room(8, 10, 10, 8));
    assert!(!has_room(8, 10, 10, 9));
    assert!(has_room(8, 10, 5, 3));
    assert!(!has_room(8, 10, 5, 4));
    assert!(!has_room(8, 10, 2, 1));
}

#[test]
fn writing_byte_by_byte_is_writing_at_once() {
    let message = pattern(200, 9);
    let header = CompactHeader { write_cursor: 5000, read_cursor: 4900 };
    let mut slow = vec![0u8; SHM_SIZE];
    assert_eq!(write_slowly(&mut slow, &header, &message), Some(5204));
    let mut fast = vec![0u8; SHM_SIZE];
    ring_write_bytes(&mut fast, HEADER_SIZE, RING_SIZE, 5000, &[200, 0, 0, 0]);
    ring_write_bytes(&mut fast, HEADER_SIZE, RING_SIZE, 5004, &message);
    assert_eq!(slow, fast);
}

#[test]
fn playground_passes_its_messages() {
    let mut mem = vec![0u8; SHM_SIZE];
    let mut cursors = CompactHeader { write_cursor: 0, read_cursor: 0 };
    for round in 0..20usize {
        for len in [5usize, 5, 41, 200, 5, 5] {
            let message = pattern(len, round as u8);
            cursors.write_cursor = write_slowly(&mut mem, &cursors, &message).unwrap();
            assert!(!is_drained(&cursors));
            let announced = length_slowly(&mem, &cursors).unwrap();
            assert_eq!(announced, len);
            let mut buf = vec![0u8; 512];
            let message_read = read_slowly(&mem, &cursors, announced, &mut buf).unwrap();
            assert_eq!(&buf[..message_read.len], &message[..]);
            cursors.read_cursor = message_read.cursor;
            assert!(is_drained(&cursors));
        }
    }
    assert_eq!(cursors.write_cursor, 20 * (261 + 6 * 4));
    assert_eq!(length_slowly(&mem, &cursors), None);
}

#[test]
fn playground_makes_the_writer_wait() {
    let mut mem = vec![0u8; SHM_SIZE];
    let header = CompactHeader { write_cursor: 1000, read_cursor: 0 };
    assert_eq!(write_slowly(&mut mem, &header, &[1u8; 21]), None);
    assert_eq!(mem, vec![0u8; SHM_SIZE]);
    assert_eq!(write_slowly(&mut mem, &header, &[1u8; 20]), Some(1024));
    let empty = CompactHeader { write_cursor: 7, read_cursor: 7 };
    assert_eq!(write_slowly(&mut mem, &empty, &[1u8; 1021]), None);
    assert_eq!(write_slowly(&mut mem, &empty, &[1u8; 1020]), Some(7 + 1024));
}

#[test]
fn long_texts_are_cut() {
    assert_eq!(preview(5), (5, false));
    assert_eq!(preview(30), (30, false));
    assert_eq!(preview(31), (30, true));
}

#[test]
fn out_of_date_views_lose_nothing() {
    let mut mem = vec![0u8; SHM_SIZE];
    let (mut written, mut consumed) = (0u64, 0u64);
    let (mut writer_saw, mut reader_saw) = (0u64, 0u64);
    let (mut sent, mut received) = (Vec::new(), Vec::new());
    let mut state = 12345u32;
    for step in 0..20000usize {
        state = state.wrapping_mul(1664525).wrapping_add(1013904223);
        let dice = state >> 16;
        match dice % 4 {
            0 | 1 => {
                let message = pattern((dice / 4) as usize % 300, step as u8);
                assert!(written - writer_saw <= RING_SIZE as u64);
                let view = CompactHeader { write_cursor: written, read_cursor: writer_saw };
                if let Some(cursor) = write_slowly(&mut mem, &view, &message) {
                    written = cursor;
                    sent.push(message);
                }
            }
            2 => {
                assert!(consumed <= reader_saw);
                let view = CompactHeader { write_cursor: reader_saw, read_cursor: consumed };
                if let Some(len) = length_slowly(&mem, &view) {
                    let mut buf = vec![0u8; 300];
                    let message = read_slowly(&mem, &view, len, &mut buf).unwrap();
                    buf.truncate(message.len);
                    consumed = message.cursor;
                    received.push(buf);
                }
            }
            _ => {
                if dice % 8 == 3 {
                    writer_saw = consumed;
                } else {
                    reader_saw = written;
                }
            }
        }
    }
    assert!(received.len() > 1000);
    assert_eq!(received[..], sent[..received.len()]);
}

/// Runs the same calls on a fresh channel and returns what they gave.
fn transcript<L: RingLayout>() -> (Vec<Option<Vec<u8>>>, (u64, u64), (u64, u64), Vec<u8>) {
    let mut channel = Channel::<L>::new();
    let mut results = Vec::new();
    for (i, len) in [0usize, 5, 511, 512, 513, 1024, 1025, 8192, 8193, 70000].iter().enumerate() {
        assert!(channel.send(Role::Server, &pattern(*len, i as u8)));
        assert!(channel.send(Role::Client, &pattern(*len, 100 + i as u8)));
        results.push(channel.recv(Role::Client, 600));
        if i % 2 == 1 {
            results.push(channel.recv(Role::Server, 100000));
        }
    }
    results.push(channel.recv(Role::Client, 10));
    let ring = SharedMemTransport::<L>::ring_total_size();
    let header = L::HEADER_SIZE;
    let mut data = channel.mem[header..ring].to_vec();
    data.extend_from_slice(&channel.mem[ring + header..]);
    (results, channel.to_client, channel.to_server, data)
}

#[test]
fn layouts_differ_only_in_where_the_rings_lie() {
    let padded = transcript::<PaddedLayout>();
    assert_eq!(padded.0.last(), Some(&None));
    assert!(padded == transcript::<CompactLayout>());
    assert!(padded == transcript::<CompactUninit1kLayout>());
    assert!(padded == transcript::<PaddedInline1kLayout>());
    assert!(padded == transcript::<PaddedInline8kLayout>());
    assert!(padded == transcript::<PaddedUninit1kLayout>());
}

#[test]
fn cursors_count_all_bytes() {
    let mut channel = Channel::<PaddedInline1kLayout>::new();
    let lengths = [0usize, 1, 700, 1024, 5000];
    let total: usize = lengths.iter().map(|len| 4 + len).sum();
    for len in lengths {
        assert!(channel.send(Role::Server, &pattern(len, 1)));
    }
    assert_eq!(channel.to_client, (total as u64, 0));
    // A message that is cut short counts with its full length.
    for (i, len) in lengths.iter().enumerate() {
        let received = channel.recv(Role::Client, 3).unwrap();
        assert_eq!(received, pattern(*len, 1)[..3.min(*len)]);
        let so_far: usize = lengths[..=i].iter().map(|len| 4 + len).sum();
        assert_eq!(channel.to_client, (total as u64, so_far as u64));
    }
    assert_eq!(channel.to_server, (0, 0));
}

#[test]
fn both_directions_deliver_in_order() {
    let mut channel = Channel::<PaddedUninit1kLayout>::starting_at(RING_DATA_SIZE as u64 - 50);
    for i in 0..30u8 {
        assert!(channel.send(Role::Server, &pattern(i as usize * 90, i)));
        assert!(channel.send(Role::Client, &pattern(i as usize * 7, i)));
        if i % 3 == 2 {
            let expected = pattern(i as usize / 3 * 90, i / 3);
            assert_eq!(channel.recv(Role::Client, 4096).unwrap(), expected);
        }
    }
    for i in 10..30u8 {
        assert_eq!(channel.recv(Role::Client, 4096).unwrap(), pattern(i as usize * 90, i));
    }
    for i in 0..30u8 {
        assert_eq!(channel.recv(Role::Server, 4096).unwrap(), pattern(i as usize * 7, i));
    }
    assert_eq!(channel.recv(Role::Client, 4096), None);
    assert_eq!(channel.recv(Role::Server, 4096), None);
}

#[test]
fn a_found_length_can_be_used_later() {
    let mut mem = vec![0u8; SharedMemPadded::shm_size()];
    let server = SharedMemPadded::open(Role::Server);
    let client = SharedMemPadded::open(Role::Client);
    let one = server.send_step(&mut mem, &PaddedHeader::observe(0, 0), b"one").unwrap();
    let len = client.recv_length(&mem, &PaddedHeader::observe(one, 0)).unwrap();
    let two = server.send_step(&mut mem, &PaddedHeader::observe(one, 0), b"second").unwrap();
    client.send_step(&mut mem, &PaddedHeader::observe(0, 0), b"other way").unwrap();
    let mut buf = [0u8; 5];
    let header = PaddedHeader::observe(two, 0);
    let message = client.recv_step(&mem, &header, len, &mut buf).unwrap();
    assert_eq!((message.len, message.cursor), (3, one));
    assert_eq!(buf, *b"one\0\0");
}

#[test]
fn sending_checks_size_and_room() {
    let mut mem = vec![0u8; SharedMemCompact::shm_size()];
    let end = SharedMemCompact::open(Role::Client);
    let largest = vec![1u8; RING_DATA_SIZE - 4];
    let error = TooLarge { len: RING_DATA_SIZE - 3, max: RING_DATA_SIZE - 4 };
    let empty = CompactHeader::observe(5, 5);
    assert_eq!(end.send(&mut mem, &empty, &vec![1u8; RING_DATA_SIZE - 3]), Err(error));
    assert!(mem.iter().all(|b| *b == 0));
    let full = RING_DATA_SIZE as u64 + 5;
    assert_eq!(end.send(&mut mem, &CompactHeader::observe(6, 5), &largest), Ok(None));
    assert!(mem.iter().all(|b| *b == 0));
    assert_eq!(end.send(&mut mem, &empty, &largest), Ok(Some(full)));
    assert_eq!(end.send(&mut mem, &CompactHeader::observe(full, 5), b""), Ok(None));
}

#[test]
fn receiving_waits_for_a_whole_message() {
    let mut mem = vec![0u8; SharedMemPadded::shm_size()];
    let server = SharedMemPadded::open(Role::Server);
    let client = SharedMemPadded::open(Role::Client);
    let sent = server.send(&mut mem, &PaddedHeader::observe(0, 0), b"hello").unwrap().unwrap();
    let mut buf = *b".......";
    for seen in 0..sent {
        assert_eq!(client.recv(&mem, &PaddedHeader::observe(seen, 0), &mut buf), Ok(None));
        assert_eq!(buf, *b".......");
    }
    let message = client.recv(&mem, &PaddedHeader::observe(sent, 0), &mut buf).unwrap().unwrap();
    assert_eq!((message.len, message.cursor), (5, 9));
    assert_eq!(buf, *b"hello..");
}

#[test]
fn a_message_longer_than_its_ring_is_refused() {
    let mut mem = vec![0u8; SharedMemPadded::shm_size()];
    mem[128..132].copy_from_slice(&[1, 0, 0, 1]);
    let client = SharedMemPadded::open(Role::Client);
    let mut buf = vec![7u8; RING_DATA_SIZE + 1];
    let error = TooLarge { len: RING_DATA_SIZE + 1, max: RING_DATA_SIZE - 4 };
    let whole = PaddedHeader::observe(RING_DATA_SIZE as u64 + 5, 0);
    assert_eq!(client.recv(&mem, &whole, &mut buf), Err(error));
    assert!(buf.iter().all(|b| *b == 7));
    let part = PaddedHeader::observe(RING_DATA_SIZE as u64 + 4, 0);
    assert_eq!(client.recv(&mem, &part, &mut buf), Ok(None));
}

#[test]
fn playground_messages_go_around_the_ring() {
    let messages = messages();
    let lengths: Vec<usize> = messages.iter().map(|message| message.len()).collect();
    assert_eq!(lengths, [5, 5, 41, 960, 5, 5]);
    assert_eq!(messages[0], b"Hello");
    assert_eq!(messages[1], b"World");
    assert_eq!(messages[2], b"This is a longer message to test wrapping");
    assert!(messages[3].iter().all(|b| *b == b'x'));
    assert_eq!(messages[4], b"Short");
    assert_eq!(messages[5], b"Done!");
    let total: usize = lengths.iter().map(|len| 4 + len).sum();
    assert!(total > RING_SIZE);
}
