use ipc_bench::bytes::{deliver, overwrite};
use ipc_bench::frame::{
    frame_message, length_prefix, payload_length, TooLarge, MSG_HEADER_SIZE,
};
use ipc_bench::transport::stream::{plan_recv, RecvPlan};

fn frame(payload: &[u8]) -> Vec<u8> {
    frame_message(payload).unwrap()
}

/// Takes one message from the front of a stream, as a receiver with `room` bytes does.
fn receive(stream: &[u8], room: usize) -> (Vec<u8>, Vec<u8>) {
    let prefix = [stream[0], stream[1], stream[2], stream[3]];
    let plan = plan_recv(&prefix, room);
    let end = MSG_HEADER_SIZE + plan.read_len;
    (stream[MSG_HEADER_SIZE..end].to_vec(), stream[end + plan.discard..].to_vec())
}

#[test]
fn prefix_is_little_endian() {
    assert_eq!(length_prefix(0), [0, 0, 0, 0]);
    assert_eq!(length_prefix(64), [64, 0, 0, 0]);
    assert_eq!(length_prefix(0x0403_0201), [1, 2, 3, 4]);
    assert_eq!(length_prefix(u32::MAX), [255, 255, 255, 255]);
    for len in [0u32, 1, 255, 256, 65535, 65536, 1 << 20, 10 << 20] {
        assert_eq!(length_prefix(len), len.to_le_bytes());
    }
}

#[test]
fn prefix_round_trips() {
    for len in [0u32, 5, 1024, 16777212, u32::MAX] {
        assert_eq!(payload_length(&length_prefix(len)), len as usize);
    }
    assert_eq!(length_prefix(payload_length(&[9, 8, 7, 6]) as u32), [9, 8, 7, 6]);
}

#[test]
fn a_frame_is_prefix_and_payload() {
    assert_eq!(frame_message(b"").unwrap(), [0, 0, 0, 0]);
    assert_eq!(frame_message(b"abc").unwrap(), [3, 0, 0, 0, b'a', b'b', b'c']);
    let long = vec![7u8; 70000];
    let framed = frame_message(&long).unwrap();
    assert_eq!(framed.len(), 70004);
    assert_eq!(framed[..4], [112, 17, 1, 0]);
    assert_eq!(framed[4..], long[..]);
}

#[test]
fn a_frame_that_is_refused_says_why() {
    let error = TooLarge { len: 4294967296, max: u32::MAX as usize };
    assert_eq!(error.message(), "Message too large: 4294967296 bytes (max 4294967295)");
}

#[test]
fn deliver_copies_what_fits() {
    let mut buf = [9u8; 4];
    assert_eq!(deliver(&[1, 2], &mut buf), 2);
    assert_eq!(buf, [1, 2, 9, 9]);
    assert_eq!(deliver(&[5, 6, 7, 8, 0], &mut buf), 4);
    assert_eq!(buf, [5, 6, 7, 8]);
    assert_eq!(deliver(&[], &mut buf), 0);
    assert_eq!(buf, [5, 6, 7, 8]);
}

#[test]
fn overwrite_changes_only_its_place() {
    let mut mem = [0u8; 6];
    overwrite(&mut mem, 2, &[7, 8]);
    assert_eq!(mem, [0, 0, 7, 8, 0, 0]);
}

#[test]
fn plan_reads_what_fits_and_discards_the_rest() {
    assert_eq!(plan_recv(&[5, 0, 0, 0], 8), RecvPlan { read_len: 5, discard: 0 });
    assert_eq!(plan_recv(&[5, 0, 0, 0], 5), RecvPlan { read_len: 5, discard: 0 });
    assert_eq!(plan_recv(&[5, 0, 0, 0], 2), RecvPlan { read_len: 2, discard: 3 });
    assert_eq!(plan_recv(&[0, 0, 0, 0], 0), RecvPlan { read_len: 0, discard: 0 });
}

#[test]
fn stream_gives_messages_back_in_order() {
    let mut stream = Vec::new();
    for message in [&b"one"[..], b"", b"three"] {
        stream.extend_from_slice(&frame(message));
    }
    stream.extend_from_slice(b"rest");
    let (first, stream) = receive(&stream, 16);
    assert_eq!(first, b"one");
    let (second, stream) = receive(&stream, 16);
    assert_eq!(second, b"");
    let (third, stream) = receive(&stream, 16);
    assert_eq!(third, b"three");
    assert_eq!(stream, b"rest");
}

#[test]
fn stream_goes_on_after_a_shortened_message() {
    let mut stream = frame(b"a long message");
    stream.extend_from_slice(&frame(b"next"));
    let (first, stream) = receive(&stream, 6);
    assert_eq!(first, b"a long");
    let (second, stream) = receive(&stream, 6);
    assert_eq!(second, b"next");
    assert!(stream.is_empty());
}
