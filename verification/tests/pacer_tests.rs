use lan_screen_stream::pacer::AdaptiveFramePacer;
use lan_screen_stream::pacer::FramePacer;

#[test]
fn test_adaptive_pacer() {
    let mut pacer = AdaptiveFramePacer::new(30, 10, 60, 0);

    // High packet loss should reduce FPS (15% loss, in permille).
    pacer.adjust_for_packet_loss(150);
    assert!(pacer.target_fps() < 30);

    // Low packet loss should increase FPS (1% loss, in permille).
    pacer.adjust_for_packet_loss(10);
}

#[test]
fn test_frame_pacer_interval() {
    let mut pacer = FramePacer::new(30, 1000);
    // The interval at 30 fps is 33 ms; nothing is due before it elapses.
    assert!(!pacer.should_capture(1000));
    assert!(!pacer.should_capture(1032));
    assert!(pacer.should_capture(1033));
    // The release timestamp advanced to 1033, so the next frame is due at 1066.
    assert!(!pacer.should_capture(1033));
    assert!(!pacer.should_capture(1065));
    assert!(pacer.should_capture(1066));
    assert_eq!(pacer.frame_count(), 2);
}

#[test]
fn test_frame_pacer_accessors() {
    let mut pacer = FramePacer::new(30, 0);
    assert_eq!(pacer.spf(), 33);
    assert_eq!(pacer.target_fps(), 30);
    pacer.set_fps(60);
    assert_eq!(pacer.target_fps(), 60);
    assert_eq!(pacer.spf(), 16);
    assert!(pacer.should_capture(100));
    assert_eq!(pacer.frame_count(), 1);
    pacer.reset(200);
    assert_eq!(pacer.frame_count(), 0);
    assert_eq!(pacer.time_until_next_ms(200), 16);
    assert_eq!(pacer.time_until_next_ms(216), 0);
}

#[test]
fn test_pacer_rate_stays_in_bounds() {
    // Arbitrary loss and latency reports never push the target rate out of
    // [min_fps, max_fps].
    let mut pacer = AdaptiveFramePacer::new(30, 10, 60, 0);
    for _ in 0..50 {
        pacer.adjust_for_packet_loss(999);
        assert!(pacer.target_fps() >= 10 && pacer.target_fps() <= 60);
    }
    assert_eq!(pacer.target_fps(), 10);
    for _ in 0..50 {
        pacer.adjust_for_packet_loss(0);
        assert!(pacer.target_fps() >= 10 && pacer.target_fps() <= 60);
    }
    assert_eq!(pacer.target_fps(), 60);
    for _ in 0..100 {
        pacer.adjust_for_slow_frame(10_000);
        assert!(pacer.target_fps() >= 10 && pacer.target_fps() <= 60);
    }
    assert_eq!(pacer.target_fps(), 10);
}

#[test]
fn test_slow_frames_reduce_rate_after_five() {
    let mut pacer = AdaptiveFramePacer::new(30, 10, 60, 0);
    // Four consecutive slow cycles change nothing.
    for _ in 0..4 {
        pacer.adjust_for_slow_frame(1000);
        assert_eq!(pacer.target_fps(), 30);
    }
    // The fifth cuts the rate to 9/10.
    pacer.adjust_for_slow_frame(1000);
    assert_eq!(pacer.target_fps(), 27);
    // A fast cycle resets the streak: four more slow cycles do nothing.
    pacer.adjust_for_slow_frame(1000);
    pacer.adjust_for_slow_frame(10);
    for _ in 0..4 {
        pacer.adjust_for_slow_frame(1000);
        assert_eq!(pacer.target_fps(), 27);
    }
    pacer.adjust_for_slow_frame(1000);
    assert_eq!(pacer.target_fps(), 24);
}

#[test]
fn test_loss_reduction_is_multiplicative() {
    let mut pacer = AdaptiveFramePacer::new(60, 10, 60, 0);
    // 8/10 of 60 is 48.
    pacer.adjust_for_packet_loss(200);
    assert_eq!(pacer.target_fps(), 48);
    // Loss between the watermarks leaves the rate alone.
    pacer.adjust_for_packet_loss(75);
    assert_eq!(pacer.target_fps(), 48);
    // 11/10 of 48 is 52 (integer division).
    pacer.adjust_for_packet_loss(0);
    assert_eq!(pacer.target_fps(), 52);
}
