use megabit_coproc_simulator::framing::{
    encode_packet, find_zero, poll_frame, take_frame, SerialReceiver,
};

#[test]
fn encode_packet_known_frames() {
    assert_eq!(encode_packet(&[10, 11, 0, 12]), vec![3, 10, 11, 2, 12, 0]);
    assert_eq!(encode_packet(&[0, 0, 1, 0]), vec![1, 1, 2, 1, 1, 0]);
    assert_eq!(encode_packet(&[255, 0]), vec![2, 255, 1, 0]);
    assert_eq!(encode_packet(&[1]), vec![2, 1, 0]);
    assert_eq!(encode_packet(&[0xde, 0x01, 0x00]), vec![3, 0xde, 0x01, 1, 0]);
}

#[test]
fn encode_packet_empty_payload_is_a_lone_zero() {
    assert_eq!(encode_packet(&[]), vec![0]);
}

#[test]
fn encode_packet_long_run_without_zero() {
    let payload: Vec<u8> = (1..=254u32).map(|x| x as u8).collect();
    let frame = encode_packet(&payload);
    let mut expected = vec![0xff];
    expected.extend_from_slice(&payload);
    expected.push(0);
    assert_eq!(frame, expected);
}

#[test]
fn encoded_frame_has_only_its_terminating_zero() {
    let payload: Vec<u8> = (0..600u32).map(|x| (x % 7) as u8).collect();
    let frame = encode_packet(&payload);
    assert_eq!(frame.last(), Some(&0));
    assert!(frame[..frame.len() - 1].iter().all(|b| *b != 0));
}

#[test]
fn find_zero_gives_first_zero() {
    assert_eq!(find_zero(&[]), None);
    assert_eq!(find_zero(&[1, 2, 3]), None);
    assert_eq!(find_zero(&[1, 0, 3, 0]), Some(1));
    assert_eq!(find_zero(&[0]), Some(0));
    assert_eq!(find_zero(&[0, 0, 2, 9, 0, 5]), Some(0));
}

#[test]
fn take_frame_splits_after_first_zero() {
    let buffer = [3, 10, 11, 2, 12, 0, 7, 8];
    assert_eq!(
        take_frame(&buffer, Some(vec![10, 11, 0, 12])),
        Some((vec![10, 11, 0, 12], vec![7, 8]))
    );
    assert_eq!(take_frame(&buffer, None), None);
    assert_eq!(take_frame(&[2, 9, 0], Some(vec![9])), Some((vec![9], vec![])));
    // a leading zero: only that zero is cut off
    assert_eq!(take_frame(&[0, 2, 9, 0, 1], Some(vec![9])), Some((vec![9], vec![2, 9, 0, 1])));
    assert_eq!(take_frame(&[0, 2, 9], Some(vec![9])), Some((vec![9], vec![2, 9])));
    // accepted by the decoder, but no zero has arrived yet
    assert_eq!(take_frame(&[2, 9], Some(vec![9])), None);
}

#[test]
fn poll_frame_complete_and_incomplete() {
    assert_eq!(poll_frame(&[2, 9, 0, 4]), Some((vec![9], vec![4])));
    // decodable without its terminator, but no zero has arrived yet
    assert_eq!(poll_frame(&[2, 9]), None);
    // malformed: the zero comes too early
    assert_eq!(poll_frame(&[3, 1, 0]), None);
    assert_eq!(poll_frame(&[]), None);
    assert_eq!(poll_frame(&[0]), None);
}

#[test]
fn receiver_roundtrip_single_read() {
    let payload = vec![0xde, 0x00, 0x01];
    let mut rx = SerialReceiver::new();
    assert_eq!(rx.receive(&encode_packet(&payload)), Some(payload));
    assert!(rx.pending().is_empty());
}

#[test]
fn receiver_roundtrip_in_chunks() {
    let payload = vec![0xde, 0x02, 0x00, 0x10, 0x20];
    let frame = encode_packet(&payload);
    for k in 1..frame.len() {
        let mut rx = SerialReceiver::new();
        assert_eq!(rx.receive(&frame[..k]), None);
        assert_eq!(rx.pending(), &frame[..k]);
        let mut tail = frame[k..].to_vec();
        tail.extend_from_slice(&[9, 9]);
        assert_eq!(rx.receive(&tail), Some(payload.clone()));
        assert_eq!(rx.pending(), &[9, 9]);
    }
}

#[test]
fn receiver_two_frames_in_one_read() {
    let mut bytes = encode_packet(&[1, 2]);
    bytes.extend(encode_packet(&[3]));
    let mut rx = SerialReceiver::new();
    assert_eq!(rx.receive(&bytes), Some(vec![1, 2]));
    assert_eq!(rx.pending(), &[2, 3, 0]);
    assert_eq!(rx.receive(&[]), Some(vec![3]));
    assert!(rx.pending().is_empty());
}

#[test]
fn receiver_waits_for_terminator() {
    let mut rx = SerialReceiver::new();
    assert_eq!(rx.receive(&[2, 0x11]), None);
    assert_eq!(rx.pending(), &[2, 0x11]);
    assert_eq!(rx.receive(&[0]), Some(vec![0x11]));
    assert!(rx.pending().is_empty());
}

#[test]
fn receiver_keeps_undecodable_bytes() {
    let mut rx = SerialReceiver::new();
    assert_eq!(rx.receive(&[3, 1, 0]), None);
    assert_eq!(rx.pending(), &[3, 1, 0]);
}

#[test]
fn receiver_leading_zero_cuts_only_that_zero() {
    let mut rx = SerialReceiver::new();
    assert_eq!(rx.receive(&[0, 2, 0x11]), Some(vec![0x11]));
    assert_eq!(rx.pending(), &[2, 0x11]);
    assert_eq!(rx.receive(&[0, 4]), Some(vec![0x11]));
    assert_eq!(rx.pending(), &[4]);
}

#[test]
fn receiver_empty_payload_frame_yields_nothing() {
    let mut rx = SerialReceiver::new();
    assert_eq!(rx.receive(&encode_packet(&[])), None);
    assert_eq!(rx.pending(), &[0]);
    // the lone zero now leads the next frame: its payload is handed on twice
    assert_eq!(rx.receive(&encode_packet(&[7])), Some(vec![7]));
    assert_eq!(rx.pending(), &[2, 7, 0]);
    assert_eq!(rx.receive(&[]), Some(vec![7]));
    assert!(rx.pending().is_empty());
    assert_eq!(rx.receive(&[]), None);
}

#[test]
fn receiver_stream_of_frames_in_many_reads() {
    let payloads: Vec<Vec<u8>> = vec![
        vec![0xde, 0x00, 0x01],
        vec![0],
        (0..300u32).map(|x| (x % 5) as u8).collect(),
        vec![0xde, 0x02, 1, 2, 3],
    ];
    let mut stream = Vec::new();
    for p in &payloads {
        stream.extend(encode_packet(p));
    }
    for chunk_len in [1usize, 2, 3, 7, 64, 1000] {
        let mut rx = SerialReceiver::new();
        let mut delivered = Vec::new();
        for chunk in stream.chunks(chunk_len) {
            if let Some(p) = rx.receive(chunk) {
                delivered.push(p);
            }
        }
        while let Some(p) = rx.receive(&[]) {
            delivered.push(p);
        }
        assert_eq!(delivered, payloads);
        assert!(rx.pending().is_empty());
    }
}
