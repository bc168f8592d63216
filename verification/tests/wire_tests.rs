use lan_screen_stream::wire::CHUNK_SIZE;
use lan_screen_stream::wire::HEADER_LEN;
use lan_screen_stream::wire::build_packet;
use lan_screen_stream::wire::parse_header;
use lan_screen_stream::wire::split_into_chunks;

fn pattern_payload(len: usize) -> Vec<u8> {
    let mut v = Vec::with_capacity(len);
    for i in 0..len {
        v.push((i % 251) as u8);
    }
    v
}

fn concat(chunks: &[Vec<u8>]) -> Vec<u8> {
    let mut out = Vec::new();
    for c in chunks {
        out.extend_from_slice(c);
    }
    out
}

#[test]
fn test_chunking_round_trip_lengths() {
    // ceil(L / C) chunks whose in-order concatenation reproduces the
    // payload, for the boundary lengths.
    let cases = [
        (0usize, 0usize),
        (1, 1),
        (CHUNK_SIZE - 1, 1),
        (CHUNK_SIZE, 1),
        (CHUNK_SIZE + 1, 2),
        (10 * CHUNK_SIZE, 10),
    ];
    for (len, expected_chunks) in cases {
        let payload = pattern_payload(len);
        let chunks = split_into_chunks(&payload);
        assert_eq!(chunks.len(), expected_chunks);
        assert_eq!(concat(&chunks), payload);
    }
}

#[test]
fn test_chunk_sizes() {
    let payload = pattern_payload(2 * CHUNK_SIZE + 5);
    let chunks = split_into_chunks(&payload);
    assert_eq!(chunks.len(), 3);
    assert_eq!(chunks[0].len(), CHUNK_SIZE);
    assert_eq!(chunks[1].len(), CHUNK_SIZE);
    assert_eq!(chunks[2].len(), 5);
}

#[test]
fn test_packet_header_round_trip() {
    let payload = pattern_payload(100);
    let packet = build_packet(0xDEADBEEF, 3, 9, &payload);
    assert_eq!(packet.len(), HEADER_LEN + 100);
    let header = parse_header(&packet).unwrap();
    assert_eq!(header.frame_id, 0xDEADBEEF);
    assert_eq!(header.chunk_index, 3);
    assert_eq!(header.total_chunks, 9);
    assert_eq!(&packet[HEADER_LEN..], &payload[..]);
}

#[test]
fn test_header_is_big_endian() {
    let packet = build_packet(0x01020304, 0x05060708, 0x090A0B0C, &[]);
    assert_eq!(
        packet,
        vec![0x01, 0x02, 0x03, 0x04, 0x05, 0x06, 0x07, 0x08, 0x09, 0x0A, 0x0B, 0x0C]
    );
}

#[test]
fn test_parse_header_rejects_short_datagram() {
    assert!(parse_header(&[0u8; 11]).is_none());
    assert!(parse_header(&[]).is_none());
    assert!(parse_header(&[0u8; 12]).is_some());
}
