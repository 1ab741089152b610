use meshtastic_serial_udp::serial_framing::{frame_payload, FrameReader, START1, START2};

#[test]
fn test_frame_payload_roundtrip() {
    let data = b"hello meshtastic";
    let framed = frame_payload(data);
    let mut reader = FrameReader::new();
    let frames = reader.feed_bytes(&framed);
    assert_eq!(frames.len(), 1);
    assert_eq!(frames[0], data);
}

#[test]
fn test_frame_reader_resyncs_on_garbage() {
    let data = b"\x01\x02\x03\xFF";
    let mut reader = FrameReader::new();

    // Feed garbage including trailing 0x94 (partial START1)
    let garbage = [0xAA, 0xBB, 0xCC, 0xDD, 0x94, 0x00, 0x94];
    let frames = reader.feed_bytes(&garbage);
    assert!(frames.is_empty());

    // Now feed a valid frame
    let framed = frame_payload(data);
    let frames = reader.feed_bytes(&framed);
    assert_eq!(frames.len(), 1);
    assert_eq!(frames[0], data);
}

#[test]
fn test_frame_reader_rejects_oversized() {
    let mut reader = FrameReader::new();
    // Frame header claiming 513 bytes (> MAX_PACKET_SIZE)
    let header = [START1, START2, 0x02, 0x01]; // length = 513
    let frames = reader.feed_bytes(&header);
    assert!(frames.is_empty());

    // Reader should have reset, so a valid frame should work
    let data = b"ok";
    let framed = frame_payload(data);
    let frames = reader.feed_bytes(&framed);
    assert_eq!(frames.len(), 1);
    assert_eq!(frames[0], data);
}

#[test]
fn test_frame_reader_multiple_frames() {
    let data1 = b"first";
    let data2 = b"second";
    let mut combined = frame_payload(data1);
    combined.extend_from_slice(&frame_payload(data2));

    let mut reader = FrameReader::new();
    let frames = reader.feed_bytes(&combined);
    assert_eq!(frames.len(), 2);
    assert_eq!(frames[0], data1);
    assert_eq!(frames[1], data2);
}

#[test]
fn test_frame_payload_empty() {
    let framed = frame_payload(b"");
    assert_eq!(framed, [START1, START2, 0x00, 0x00]);

    let mut reader = FrameReader::new();
    let frames = reader.feed_bytes(&framed);
    assert_eq!(frames.len(), 1);
    assert!(frames[0].is_empty());
}

#[test]
fn frame_payload_header_bytes() {
    let payload = vec![7u8; 300];
    let framed = frame_payload(&payload);
    assert_eq!(framed[..4], [START1, START2, 0x01, 0x2C]);
    assert_eq!(framed.len(), 304);
}

#[test]
fn max_size_frame_roundtrip_and_byte_by_byte() {
    let payload: Vec<u8> = (0..512u32).map(|i| (i % 251) as u8).collect();
    let framed = frame_payload(&payload);
    let mut reader = FrameReader::new();
    let mut got = Vec::new();
    for b in &framed {
        if let Some(p) = reader.feed(*b) {
            got.push(p);
        }
    }
    assert_eq!(got, vec![payload]);
}

#[test]
fn split_feeding_gives_same_frames() {
    let mut all = frame_payload(b"abc");
    all.extend_from_slice(&frame_payload(b"defgh"));
    let mut whole = FrameReader::new();
    let expected = whole.feed_bytes(&all);
    let mut parts = FrameReader::new();
    let mut got = parts.feed_bytes(&all[..6]);
    got.extend(parts.feed_bytes(&all[6..]));
    assert_eq!(got, expected);
    assert_eq!(got.len(), 2);
}

#[test]
fn repeated_start1_keeps_waiting_for_start2() {
    let mut reader = FrameReader::new();
    let frames = reader.feed_bytes(&[START1, START1, START1, START2, 0, 1, 0x42]);
    assert_eq!(frames, vec![vec![0x42]]);
}
