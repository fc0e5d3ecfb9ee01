use beast_parser::BeastFrame;
use beast_parser::BeastFrameType;
use beast_parser::BeastParser;
use beast_parser::Options;

#[test]
fn test_beast_frame_type_conversion() {
    assert_eq!(BeastFrameType::try_from(0x31).unwrap(), BeastFrameType::ModeAC);
    assert_eq!(BeastFrameType::try_from(0x32).unwrap(), BeastFrameType::ModeSShort);
    assert_eq!(BeastFrameType::try_from(0x33).unwrap(), BeastFrameType::ModeSLong);
    assert!(BeastFrameType::try_from(0x34).is_err());
}

#[test]
fn test_beast_parser_creation() {
    let parser = BeastParser::new();
    assert!(!parser.sync_found);
    assert!(parser.buffer.is_empty());
}

#[test]
fn test_escape_handling() {
    let parser = BeastParser::new();
    let data = vec![0x1A, 0x1A, 0x42]; // Escaped 0x1A followed by 0x42
    let result = parser.unescape_data(&data);
    assert_eq!(result, vec![0x1A, 0x42]);
}

#[test]
fn test_timestamp_conversion() {
    let frame = BeastFrame {
        frame_type: BeastFrameType::ModeSLong,
        timestamp_12mhz: 12_000_000, // 1 second at 12MHz
        signal_level: 100,
        message_data: vec![0; 14],
    };
    assert_eq!(frame.timestamp_ms(), 1000); // Should be 1000ms
}

fn mode_s_long_frame() -> Vec<u8> {
    let mut bytes = vec![0x1A, 0x33, 0x00, 0x00, 0x00, 0x00, 0x00, 0x01, 0x64];
    bytes.extend_from_slice(&[
        0x8D, 0x40, 0x62, 0x1D, 0x58, 0xC3, 0x82, 0xD6, 0x90, 0xC8, 0xAC, 0x28, 0x63, 0xA7,
    ]);
    bytes
}

#[test]
fn test_single_mode_s_long_frame() {
    let mut parser = BeastParser::new();
    let bytes = mode_s_long_frame();
    let frames = parser.parse_frames(&bytes);
    assert_eq!(frames.len(), 1);
    assert_eq!(frames[0].frame_type, BeastFrameType::ModeSLong);
    assert_eq!(frames[0].timestamp_12mhz, 1);
    assert_eq!(frames[0].signal_level, 100);
    assert_eq!(
        frames[0].message_data,
        vec![0x8D, 0x40, 0x62, 0x1D, 0x58, 0xC3, 0x82, 0xD6, 0x90, 0xC8, 0xAC, 0x28, 0x63, 0xA7]
    );
    assert!(parser.buffer.is_empty());
    assert!(!parser.sync_found);
}

#[test]
fn test_frame_split_across_two_chunks() {
    // The same frame in one chunk and split after the third timestamp byte
    // must decode identically.
    let bytes = mode_s_long_frame();
    let mut whole = BeastParser::new();
    let expected = whole.parse_frames(&bytes);

    let mut split = BeastParser::new();
    let first = split.parse_frames(&bytes[..5]);
    assert!(first.is_empty());
    assert!(split.sync_found);
    let second = split.parse_frames(&bytes[5..]);
    assert_eq!(second.len(), 1);
    assert_eq!(second[0].frame_type, expected[0].frame_type);
    assert_eq!(second[0].timestamp_12mhz, expected[0].timestamp_12mhz);
    assert_eq!(second[0].signal_level, expected[0].signal_level);
    assert_eq!(second[0].message_data, expected[0].message_data);
    assert!(split.buffer.is_empty());
}

#[test]
fn test_chunk_boundaries_do_not_matter() {
    // Noise, one Mode-AC frame, more noise, one Mode-S short frame,
    // delivered byte by byte and all at once.
    let mut bytes: Vec<u8> = vec![0x07, 0x55];
    bytes.extend_from_slice(&[0x1A, 0x31, 0, 0, 0, 0, 0, 0x10, 0x21, 0xAB, 0xCD]);
    bytes.extend_from_slice(&[0x99]);
    bytes.extend_from_slice(&[0x1A, 0x32, 0, 0, 0, 0, 0, 0x20, 0x42, 1, 2, 3, 4, 5, 6, 7]);

    let mut whole = BeastParser::new();
    let expected = whole.parse_frames(&bytes);
    assert_eq!(expected.len(), 2);

    let mut dribble = BeastParser::new();
    let mut collected: Vec<BeastFrame> = Vec::new();
    for b in &bytes {
        collected.extend(dribble.parse_frames(&[*b]));
    }
    assert_eq!(collected.len(), expected.len());
    for (got, want) in collected.iter().zip(expected.iter()) {
        assert_eq!(got.frame_type, want.frame_type);
        assert_eq!(got.timestamp_12mhz, want.timestamp_12mhz);
        assert_eq!(got.signal_level, want.signal_level);
        assert_eq!(got.message_data, want.message_data);
    }
}

#[test]
fn test_noise_only_yields_nothing_and_is_discarded() {
    let mut parser = BeastParser::new();
    let noise = vec![0x00, 0x31, 0x32, 0x33, 0xFF, 0x7E, 0x19, 0x1B];
    let frames = parser.parse_frames(&noise);
    assert!(frames.is_empty());
    assert!(parser.buffer.is_empty());
    assert!(!parser.sync_found);
}

#[test]
fn test_resync_after_unrecognized_type() {
    // A sync byte followed by a bad type tag, then a valid frame
    // appended immediately after: the parser recovers and decodes it.
    let mut bytes = vec![0x1A, 0x40];
    bytes.extend_from_slice(&[0x1A, 0x31, 0, 0, 0, 0, 0, 0x05, 0x30, 0x11, 0x22]);
    let mut parser = BeastParser::new();
    let frames = parser.parse_frames(&bytes);
    assert_eq!(frames.len(), 1);
    assert_eq!(frames[0].frame_type, BeastFrameType::ModeAC);
    assert_eq!(frames[0].timestamp_12mhz, 5);
    assert_eq!(frames[0].signal_level, 0x30);
    assert_eq!(frames[0].message_data, vec![0x11, 0x22]);
}

#[test]
fn test_doubled_sync_before_frame_still_decodes() {
    // Two consecutive sync bytes before a genuine frame: the second one is
    // no type tag, but scanning resumes at it, so it re-arms the parser.
    let mut bytes = vec![0x1A];
    bytes.extend_from_slice(&[0x1A, 0x31, 0, 0, 0, 0, 0, 0x05, 0x30, 0x11, 0x22]);
    let mut parser = BeastParser::new();
    let frames = parser.parse_frames(&bytes);
    assert_eq!(frames.len(), 1);
    assert_eq!(frames[0].frame_type, BeastFrameType::ModeAC);
    assert_eq!(frames[0].message_data, vec![0x11, 0x22]);
}

#[test]
fn test_escaped_payload_within_frame() {
    // A Mode-AC frame whose two wire payload bytes are a doubled sync:
    // the logical payload is a single sync byte.
    let bytes = vec![0x1A, 0x31, 0, 0, 0, 0, 0, 0x07, 0x55, 0x1A, 0x1A];
    let mut parser = BeastParser::new();
    let frames = parser.parse_frames(&bytes);
    assert_eq!(frames.len(), 1);
    assert_eq!(frames[0].message_data, vec![0x1A]);
}

#[test]
fn test_timestamp_big_endian_order() {
    let bytes = vec![0x1A, 0x31, 0x00, 0x00, 0x00, 0x00, 0x01, 0x00, 0x00, 0x00, 0x00];
    let mut parser = BeastParser::new();
    let frames = parser.parse_frames(&bytes);
    assert_eq!(frames.len(), 1);
    assert_eq!(frames[0].timestamp_12mhz, 256);
}

#[test]
fn test_timestamp_all_bits() {
    let bytes = vec![0x1A, 0x31, 0xFF, 0xFF, 0xFF, 0xFF, 0xFF, 0xFF, 0x00, 0x00, 0x00];
    let mut parser = BeastParser::new();
    let frames = parser.parse_frames(&bytes);
    assert_eq!(frames.len(), 1);
    assert_eq!(frames[0].timestamp_12mhz, 0xFFFF_FFFF_FFFF);
}

#[test]
fn test_incomplete_frame_waits_without_emitting() {
    let bytes = mode_s_long_frame();
    let mut parser = BeastParser::new();
    let frames = parser.parse_frames(&bytes[..8]);
    assert!(frames.is_empty());
    assert!(parser.sync_found);
    // The sync byte is consumed; everything from the type tag on stays.
    assert_eq!(parser.buffer, bytes[1..8].to_vec());
    // Zero-length chunks are a no-op.
    let frames = parser.parse_frames(&[]);
    assert!(frames.is_empty());
    let frames = parser.parse_frames(&bytes[8..]);
    assert_eq!(frames.len(), 1);
}

#[test]
fn test_unescape_round_trip_examples() {
    let parser = BeastParser::new();
    // Payload ending in a sync byte.
    assert_eq!(parser.unescape_data(&[0x42, 0x1A, 0x1A]), vec![0x42, 0x1A]);
    // All-sync payload.
    assert_eq!(parser.unescape_data(&[0x1A, 0x1A, 0x1A, 0x1A]), vec![0x1A, 0x1A]);
    // No sync byte at all: unchanged.
    assert_eq!(parser.unescape_data(&[1, 2, 3]), vec![1, 2, 3]);
    // Empty payload.
    assert_eq!(parser.unescape_data(&[]), Vec::<u8>::new());
}

#[test]
fn test_message_bytes_and_default() {
    let frame = BeastFrame {
        frame_type: BeastFrameType::ModeAC,
        timestamp_12mhz: 0,
        signal_level: 0,
        message_data: vec![0xAA, 0xBB],
    };
    assert_eq!(frame.message_bytes().to_vec(), vec![0xAA, 0xBB]);
    let parser = BeastParser::default();
    assert!(parser.buffer.is_empty());
    assert!(!parser.sync_found);
}

#[test]
fn test_ingest_and_drain() {
    let mut parser = BeastParser::new();
    parser.ingest(&[1, 2, 3, 4]);
    parser.ingest(&[5]);
    assert_eq!(parser.buffer, vec![1, 2, 3, 4, 5]);
    parser.drain(2);
    assert_eq!(parser.buffer, vec![3, 4, 5]);
    parser.drain(3);
    assert!(parser.buffer.is_empty());
}

#[test]
fn test_get_port_defaults() {
    let mut options = Options {
        host: String::from("localhost"),
        port: None,
        panic_display: false,
        panic_decode: false,
        debug: false,
        beast_mode: false,
    };
    assert_eq!(options.get_port(), 30002);
    options.beast_mode = true;
    assert_eq!(options.get_port(), 30005);
    options.port = Some(4321);
    assert_eq!(options.get_port(), 4321);
}
