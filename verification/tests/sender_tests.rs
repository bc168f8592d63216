use lan_screen_stream::receiver::Reassembler;
use lan_screen_stream::sender::CaptureEvent;
use lan_screen_stream::sender::SendAction;
use lan_screen_stream::sender::StreamSender;
use lan_screen_stream::sender::frame_packets;
use lan_screen_stream::wire::CHUNK_SIZE;
use lan_screen_stream::wire::parse_header;

fn framed_payload(len: usize) -> Vec<u8> {
    assert!(len >= 100);
    let mut payload = vec![0u8; len];
    for (i, b) in payload.iter_mut().enumerate() {
        *b = (i % 251) as u8;
    }
    payload[0] = 0xFF;
    payload[1] = 0xD8;
    payload[len - 2] = 0xFF;
    payload[len - 1] = 0xD9;
    payload
}

#[test]
fn test_consecutive_failure_stop() {
    // The tenth consecutive capture failure halts the streaming loop; a
    // NotReady (would-block) in between neither advances nor resets the
    // count.
    let mut sender = StreamSender::new();
    for _ in 0..5 {
        assert!(matches!(sender.on_capture_event(CaptureEvent::Failed), SendAction::Skip));
    }
    assert_eq!(sender.consecutive_failures, 5);
    assert!(matches!(sender.on_capture_event(CaptureEvent::NotReady), SendAction::Skip));
    assert_eq!(sender.consecutive_failures, 5);
    for _ in 0..4 {
        assert!(matches!(sender.on_capture_event(CaptureEvent::Failed), SendAction::Skip));
        assert!(sender.running);
    }
    assert!(matches!(sender.on_capture_event(CaptureEvent::Failed), SendAction::Stop));
    assert!(!sender.running);
    // Once stopped, every further event just reports Stop.
    assert!(matches!(sender.on_capture_event(CaptureEvent::NotReady), SendAction::Stop));
}

#[test]
fn test_success_resets_failure_count() {
    let mut sender = StreamSender::new();
    for _ in 0..9 {
        sender.on_capture_event(CaptureEvent::Failed);
    }
    assert_eq!(sender.consecutive_failures, 9);
    let action = sender.on_capture_event(CaptureEvent::Frame(framed_payload(200)));
    assert!(matches!(action, SendAction::Transmit(_)));
    assert_eq!(sender.consecutive_failures, 0);
    assert!(sender.running);
}

#[test]
fn test_frame_id_advances_on_transmit_only() {
    let mut sender = StreamSender::new();
    assert_eq!(sender.frame_id, 0);
    // A degenerate (too small) payload is skipped and consumes no id.
    assert!(matches!(
        sender.on_capture_event(CaptureEvent::Frame(vec![1u8; 50])),
        SendAction::Skip
    ));
    assert_eq!(sender.frame_id, 0);
    assert!(matches!(
        sender.on_capture_event(CaptureEvent::Frame(framed_payload(200))),
        SendAction::Transmit(_)
    ));
    assert_eq!(sender.frame_id, 1);
    assert!(matches!(sender.on_capture_event(CaptureEvent::NotReady), SendAction::Skip));
    assert_eq!(sender.frame_id, 1);
}

#[test]
fn test_packet_plan_redundancy() {
    // More than two chunks: the first and last packets are re-sent, so the
    // plan has n + 2 datagrams.
    let payload = framed_payload(2 * CHUNK_SIZE + 500);
    let packets = frame_packets(7, &payload);
    assert_eq!(packets.len(), 5);
    assert_eq!(packets[3], packets[0]);
    assert_eq!(packets[4], packets[2]);
    let h0 = parse_header(&packets[0]).unwrap();
    assert_eq!(h0.frame_id, 7);
    assert_eq!(h0.chunk_index, 0);
    assert_eq!(h0.total_chunks, 3);
    let h2 = parse_header(&packets[2]).unwrap();
    assert_eq!(h2.chunk_index, 2);

    // Two chunks or fewer: no redundant packets.
    let small = framed_payload(CHUNK_SIZE + 100);
    assert_eq!(frame_packets(1, &small).len(), 2);
    let tiny = framed_payload(100);
    assert_eq!(frame_packets(1, &tiny).len(), 1);
}

#[test]
fn test_sender_to_receiver_end_to_end() {
    // A payload split into 5 chunks, transmitted and reassembled in
    // order, arrives byte-identical.
    let payload = framed_payload(4 * CHUNK_SIZE + 2000);
    let mut sender = StreamSender::new();
    let action = sender.on_capture_event(CaptureEvent::Frame(payload.clone()));
    let packets = match action {
        SendAction::Transmit(p) => p,
        _ => panic!("expected a transmission"),
    };
    assert_eq!(packets.len(), 7);
    let mut rx = Reassembler::new();
    let mut emitted = None;
    for (i, packet) in packets.iter().enumerate().take(5) {
        let r = rx.handle_datagram(packet, 0);
        if i < 4 {
            assert!(r.is_none());
        } else {
            emitted = r;
        }
    }
    assert_eq!(emitted, Some(payload));
}

#[test]
fn test_dropped_chunk_below_salvage_is_never_emitted() {
    // Chunk 2 of 5 dropped: ratio 0.8 < 0.98, so the frame is never
    // emitted and is evicted after the timeout.
    let payload = framed_payload(4 * CHUNK_SIZE + 2000);
    let mut sender = StreamSender::new();
    let packets = match sender.on_capture_event(CaptureEvent::Frame(payload)) {
        SendAction::Transmit(p) => p,
        _ => panic!("expected a transmission"),
    };
    let mut rx = Reassembler::new();
    for (i, packet) in packets.iter().enumerate().take(5) {
        if i == 2 {
            continue;
        }
        assert!(rx.handle_datagram(packet, 0).is_none());
    }
    assert!(rx.is_pending(0));
    // Long after the timeout, an unrelated datagram triggers eviction.
    let unrelated = lan_screen_stream::wire::build_packet(99, 0, 2, &[1, 2, 3]);
    assert!(rx.handle_datagram(&unrelated, 5000).is_none());
    assert!(!rx.is_pending(0));
}

#[test]
fn test_stop_request() {
    let mut sender = StreamSender::new();
    sender.stop();
    assert!(!sender.running);
    assert!(matches!(
        sender.on_capture_event(CaptureEvent::Frame(framed_payload(200))),
        SendAction::Stop
    ));
}
