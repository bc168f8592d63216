use lan_screen_stream::receiver::Reassembler;
use lan_screen_stream::wire::build_packet;

/// A payload that passes the receiver's validation: JPEG start and end
/// markers with patterned filler, split into `total` chunks of
/// `chunk_len` bytes each.
fn framed_chunks(total: usize, chunk_len: usize) -> (Vec<u8>, Vec<Vec<u8>>) {
    let len = total * chunk_len;
    assert!(len >= 100 && chunk_len >= 2);
    let mut payload = vec![0u8; len];
    for (i, b) in payload.iter_mut().enumerate() {
        *b = (i % 251) as u8;
    }
    payload[0] = 0xFF;
    payload[1] = 0xD8;
    payload[len - 2] = 0xFF;
    payload[len - 1] = 0xD9;
    let chunks = payload.chunks(chunk_len).map(|c| c.to_vec()).collect();
    (payload, chunks)
}

fn datagram(frame_id: u32, idx: usize, total: usize, chunk: &[u8]) -> Vec<u8> {
    build_packet(frame_id, idx as u32, total as u32, chunk)
}

#[test]
fn test_reassembly_in_order() {
    let (payload, chunks) = framed_chunks(5, 1000);
    let mut rx = Reassembler::new();
    for i in 0..4 {
        assert!(rx.handle_datagram(&datagram(1, i, 5, &chunks[i]), 0).is_none());
        assert!(rx.is_pending(1));
    }
    let emitted = rx.handle_datagram(&datagram(1, 4, 5, &chunks[4]), 0);
    assert_eq!(emitted, Some(payload));
    assert!(!rx.is_pending(1));
}

#[test]
fn test_reassembly_out_of_order() {
    // Reverse delivery order yields the same reconstructed payload.
    let (payload, chunks) = framed_chunks(5, 1000);
    let mut rx = Reassembler::new();
    for i in (1..5).rev() {
        assert!(rx.handle_datagram(&datagram(1, i, 5, &chunks[i]), 0).is_none());
    }
    let emitted = rx.handle_datagram(&datagram(1, 0, 5, &chunks[0]), 0);
    assert_eq!(emitted, Some(payload));
}

#[test]
fn test_duplicate_chunk_is_idempotent() {
    let (payload, chunks) = framed_chunks(5, 1000);
    let mut rx = Reassembler::new();
    for _ in 0..3 {
        assert!(rx.handle_datagram(&datagram(1, 0, 5, &chunks[0]), 0).is_none());
    }
    for i in 1..4 {
        assert!(rx.handle_datagram(&datagram(1, i, 5, &chunks[i]), 0).is_none());
    }
    let emitted = rx.handle_datagram(&datagram(1, 4, 5, &chunks[4]), 0);
    assert_eq!(emitted, Some(payload));
}

#[test]
fn test_partial_frame_eviction() {
    // Chunks 0..3 of 5 arrive (ratio 0.8 < 0.98), then nothing for longer
    // than the timeout: the frame is evicted and never emitted.
    let (_, chunks) = framed_chunks(5, 1000);
    let mut rx = Reassembler::new();
    for i in 0..4 {
        assert!(rx.handle_datagram(&datagram(1, i, 5, &chunks[i]), 0).is_none());
    }
    assert!(rx.is_pending(1));
    // 1000 ms later another frame's chunk triggers the eviction scan.
    let other = rx.handle_datagram(&datagram(2, 0, 2, &chunks[0]), 1000);
    assert!(other.is_none());
    assert!(!rx.is_pending(1));
    assert!(rx.is_pending(2));
    // Even the missing chunk arriving now only starts the frame over.
    assert!(rx.handle_datagram(&datagram(1, 4, 5, &chunks[4]), 1000).is_none());
    assert!(rx.is_pending(1));
    assert_eq!(rx.pending_count(), 2);
}

#[test]
fn test_timestamp_refresh_keeps_frame_alive() {
    // Each arriving chunk refreshes the entry, so a slow but steady frame
    // is not evicted.
    let (_, chunks) = framed_chunks(5, 1000);
    let mut rx = Reassembler::new();
    assert!(rx.handle_datagram(&datagram(1, 0, 5, &chunks[0]), 0).is_none());
    assert!(rx.handle_datagram(&datagram(1, 1, 5, &chunks[1]), 400).is_none());
    assert!(rx.handle_datagram(&datagram(1, 2, 5, &chunks[2]), 800).is_none());
    assert!(rx.is_pending(1));
}

#[test]
fn test_salvage_at_98_percent() {
    // 100 chunks; index 50 never arrives.  As soon as the fill ratio
    // reaches the 0.98 threshold short of completion, the frame is
    // emitted via the salvage path: the arrived chunks in index order,
    // the missing ones skipped, exempt from the end-marker check.
    let (payload, chunks) = framed_chunks(100, 10);
    let mut rx = Reassembler::new();
    let mut emitted: Option<Vec<u8>> = None;
    let mut deliveries = 0usize;
    for i in (0..100).filter(|&i| i != 50) {
        assert!(emitted.is_none());
        emitted = rx.handle_datagram(&datagram(1, i, 100, &chunks[i]), 0);
        deliveries += 1;
        if emitted.is_some() {
            break;
        }
    }
    // The salvage fires once 98 of 100 slots are filled.
    assert_eq!(deliveries, 98);
    let got = emitted.expect("salvage should have emitted the frame");
    // Chunks 0..=97 arrived (index 50 skipped means deliveries covered
    // indices 0..=49 and 51..=98).
    let mut expected = Vec::new();
    for i in (0..99).filter(|&i| i != 50) {
        expected.extend_from_slice(&chunks[i]);
    }
    assert_eq!(got, expected);
    assert_ne!(got, payload);
    assert!(!rx.is_pending(1));
}

#[test]
fn test_no_salvage_below_threshold() {
    // 95 of 100 chunks (ratio 0.95) never reach the salvage threshold:
    // nothing is emitted.
    let (_, chunks) = framed_chunks(100, 10);
    let mut rx = Reassembler::new();
    for i in (0..100).filter(|&i| i % 20 != 19) {
        assert!(rx.handle_datagram(&datagram(1, i, 100, &chunks[i]), 0).is_none());
    }
    assert!(rx.is_pending(1));
}

#[test]
fn test_invalid_chunk_index_discarded() {
    let (_, chunks) = framed_chunks(5, 1000);
    let mut rx = Reassembler::new();
    // Index at or past total_chunks never creates or touches an entry.
    assert!(rx.handle_datagram(&datagram(1, 5, 5, &chunks[0]), 0).is_none());
    assert!(!rx.is_pending(1));
    assert!(rx.handle_datagram(&datagram(1, 0, 5, &chunks[0]), 0).is_none());
    assert!(rx.is_pending(1));
    assert!(rx.handle_datagram(&datagram(1, 7, 5, &chunks[1]), 0).is_none());
    assert_eq!(rx.pending_count(), 1);
}

#[test]
fn test_short_datagram_ignored() {
    let mut rx = Reassembler::new();
    assert!(rx.handle_datagram(&[0u8; 11], 0).is_none());
    assert!(rx.handle_datagram(&[], 0).is_none());
    assert_eq!(rx.pending_count(), 0);
}

#[test]
fn test_validation_drops_frame_without_markers() {
    // A complete frame that does not look like a JPEG is dropped without
    // being emitted, and its entry is removed.
    let mut rx = Reassembler::new();
    let chunk = vec![7u8; 200];
    assert!(rx.handle_datagram(&datagram(1, 0, 2, &chunk), 0).is_none());
    assert!(rx.handle_datagram(&datagram(1, 1, 2, &chunk), 0).is_none());
    assert!(!rx.is_pending(1));
}

#[test]
fn test_complete_frame_requires_end_marker() {
    // Complete frames must end with the JPEG end marker; this one does
    // not, so it is dropped.
    let (_, chunks) = framed_chunks(2, 100);
    let mut truncated = chunks.clone();
    let last = truncated[1].len() - 1;
    truncated[1][last] = 0;
    let mut rx = Reassembler::new();
    assert!(rx.handle_datagram(&datagram(1, 0, 2, &truncated[0]), 0).is_none());
    assert!(rx.handle_datagram(&datagram(1, 1, 2, &truncated[1]), 0).is_none());
    assert!(!rx.is_pending(1));
}

#[test]
fn test_too_small_frame_dropped() {
    // A reconstructed payload under 100 bytes fails validation.
    let mut rx = Reassembler::new();
    let mut chunk = vec![0u8; 40];
    chunk[0] = 0xFF;
    chunk[1] = 0xD8;
    chunk[38] = 0xFF;
    chunk[39] = 0xD9;
    assert!(rx.handle_datagram(&datagram(1, 0, 1, &chunk), 0).is_none());
    assert!(!rx.is_pending(1));
}
