use lan_screen_stream::capture::bgra_to_rgba;
use lan_screen_stream::capture::get_capture_method_name;
use lan_screen_stream::capture::is_windows_graphics_capture_available;
use lan_screen_stream::capture::rgba_to_rgb;
use lan_screen_stream::codec::encode_frame_event;
use lan_screen_stream::encoder::EncoderConfig;
use lan_screen_stream::encoder::EncoderType;
use lan_screen_stream::encoder::H264HardwareEncoder;
use lan_screen_stream::encoder::JpegEncoder;
use lan_screen_stream::encoder::auto_detect_encoder;
use lan_screen_stream::encoder::calculate_bitrate;
use lan_screen_stream::encoder::create_encoder;
use lan_screen_stream::receiver::Reassembler;
use lan_screen_stream::sender::CaptureEvent;
use lan_screen_stream::sender::SendAction;
use lan_screen_stream::sender::StreamSender;

#[test]
fn test_frame_event_encoding() {
    // Standard base64 with padding.
    assert_eq!(encode_frame_event(b"hi"), "aGk=");
    assert_eq!(encode_frame_event(b"hello world~"), "aGVsbG8gd29ybGR+");
    assert_eq!(encode_frame_event(b""), "");
    assert_eq!(encode_frame_event(&[0xFF, 0xD8, 0xFF, 0xD9]), "/9j/2Q==");
}

#[test]
fn test_jpeg_encoder_produces_jpeg() {
    let config = EncoderConfig {
        width: 8,
        height: 8,
        fps: 30,
        bitrate: 0,
        encoder_type: EncoderType::Software,
        quality: 80,
    };
    let encoder = JpegEncoder::new(&config).unwrap();
    let rgba = vec![0x40u8; 8 * 8 * 4];
    let jpeg = encoder.encode_rgba(&rgba).unwrap();
    // A real JPEG bitstream, not the pixels handed in.
    assert_eq!(&jpeg[..2], &[0xFF, 0xD8]);
    assert_eq!(&jpeg[jpeg.len() - 2..], &[0xFF, 0xD9]);
    assert_ne!(jpeg, rgba);
}

#[test]
fn test_jpeg_encoder_rejects_bad_dimensions() {
    let config = EncoderConfig {
        width: 8,
        height: 8,
        fps: 30,
        bitrate: 0,
        encoder_type: EncoderType::Software,
        quality: 80,
    };
    let encoder = JpegEncoder::new(&config).unwrap();
    // Buffer does not match the configured dimensions.
    assert!(encoder.encode_rgba(&vec![0u8; 16]).is_err());
    // Zero-sized frames are outside the JPEG-legal range.
    let degenerate = EncoderConfig { width: 0, ..config };
    let encoder = JpegEncoder::new(&degenerate).unwrap();
    assert!(encoder.encode_rgba(&[]).is_err());
}

#[test]
fn test_oversized_payload_is_recompressed() {
    // A 500x500 RGB bitmap is about 750 KB, over the recompression
    // threshold.  The sender recompresses it to JPEG before chunking; the
    // reassembled frame is a JPEG, not the bitmap.
    let width = 500u32;
    let height = 500u32;
    let mut rgb = vec![0u8; (width * height * 3) as usize];
    for (i, b) in rgb.iter_mut().enumerate() {
        *b = (i % 256) as u8;
    }
    let mut bmp = std::io::Cursor::new(Vec::new());
    image::codecs::bmp::BmpEncoder::new(&mut bmp)
        .encode(&rgb, width, height, image::ExtendedColorType::Rgb8)
        .unwrap();
    let bmp_bytes = bmp.into_inner();
    assert!(bmp_bytes.len() > 500_000);

    let mut sender = StreamSender::new();
    let packets = match sender.on_capture_event(CaptureEvent::Frame(bmp_bytes.clone())) {
        SendAction::Transmit(p) => p,
        _ => panic!("expected the recompressed frame to be transmitted"),
    };
    let mut rx = Reassembler::new();
    let mut emitted = None;
    for packet in &packets {
        if let Some(frame) = rx.handle_datagram(packet, 0) {
            emitted = Some(frame);
            break;
        }
    }
    let frame = emitted.expect("the recompressed frame should reassemble");
    assert_eq!(&frame[..2], &[0xFF, 0xD8]);
    assert!(frame.len() < bmp_bytes.len());
}

#[test]
fn test_undecodable_oversized_payload_is_skipped() {
    // Over the threshold but not an image: recompression fails and the
    // frame is skipped without stopping the stream.
    let junk = vec![7u8; 600_000];
    let mut sender = StreamSender::new();
    assert!(matches!(sender.on_capture_event(CaptureEvent::Frame(junk)), SendAction::Skip));
    assert!(sender.running);
    assert_eq!(sender.frame_id, 0);
}

#[test]
fn test_rgba_to_rgb_drops_alpha() {
    assert_eq!(rgba_to_rgb(&[1, 2, 3, 4, 5, 6, 7, 8]), vec![1, 2, 3, 5, 6, 7]);
    assert_eq!(rgba_to_rgb(&[]), Vec::<u8>::new());
    // Incomplete trailing group is dropped.
    assert_eq!(rgba_to_rgb(&[1, 2, 3, 4, 9, 9]), vec![1, 2, 3]);
}

#[test]
fn test_bgra_to_rgba_swizzles() {
    // Two pixels, one row, no padding.
    let bgra = [10, 20, 30, 40, 50, 60, 70, 80];
    let rgba = bgra_to_rgba(&bgra, 2, 1).unwrap();
    assert_eq!(rgba, vec![30, 20, 10, 40, 70, 60, 50, 80]);
    // Row padding (stride 12 for one 2-pixel row) is dropped.
    let padded = [10, 20, 30, 40, 50, 60, 70, 80, 0, 0, 0, 0];
    let rgba = bgra_to_rgba(&padded, 2, 1).unwrap();
    assert_eq!(rgba, vec![30, 20, 10, 40, 70, 60, 50, 80]);
    // Degenerate dimensions and short buffers fail.
    assert!(bgra_to_rgba(&bgra, 0, 1).is_err());
    assert!(bgra_to_rgba(&bgra, 2, 0).is_err());
    assert!(bgra_to_rgba(&bgra, 3, 1).is_err());
}

#[test]
fn test_encoder_factory_falls_back_to_jpeg() {
    let config = auto_detect_encoder(1280, 720, 30);
    assert_eq!(config.width, 1280);
    assert_eq!(config.height, 720);
    assert_eq!(config.fps, 30);
    assert_eq!(config.encoder_type, EncoderType::Software);
    assert_eq!(config.quality, 70);

    let hw = EncoderConfig { encoder_type: EncoderType::HardwareH264, quality: 23, ..config };
    let encoder = create_encoder(hw).unwrap();
    assert_eq!(encoder.width, 1280);
    assert_eq!(encoder.quality, 23);

    assert!(!H264HardwareEncoder::is_available());
    assert!(H264HardwareEncoder::new(&auto_detect_encoder(640, 480, 30)).is_err());
}

#[test]
fn test_calculate_bitrate() {
    // 0.15 bits per pixel: 1920*1080*30 pixels/s * 3 / 20.
    assert_eq!(calculate_bitrate(1920, 1080, 30), 9_331_200);
    assert_eq!(calculate_bitrate(0, 1080, 30), 0);
    assert_eq!(calculate_bitrate(100, 100, 0), 0);
}

#[test]
fn test_capture_probes() {
    assert!(!is_windows_graphics_capture_available());
    assert_eq!(get_capture_method_name(), "scrap (fallback)");
}
