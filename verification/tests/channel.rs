use openmediatransport::protocol::frame::{FrameHeader, HEADER_SIZE, PROTOCOL_VERSION};
use openmediatransport::transport::channel::{max_payload_for, Channel, MAX_REASSEMBLY};
use openmediatransport::types::{FrameType, AUDIO_MAX_SIZE, METADATA_FRAME_SIZE, VIDEO_MAX_SIZE};
use openmediatransport::OmtError;

#[test]
fn rejects_oversized_data_length() {
    let mut ch = Channel::new(FrameType::video());
    let mut hdr = [0u8; HEADER_SIZE];
    hdr[0] = PROTOCOL_VERSION;
    hdr[1] = FrameType::video().0;
    let huge = (VIDEO_MAX_SIZE as i32).saturating_add(1);
    hdr[12..16].copy_from_slice(&huge.to_le_bytes());
    ch.push_bytes(&hdr);
    let err = ch.try_pop_frame().unwrap_err();
    let msg = err.to_string();
    assert!(msg.contains("exceeds max") || msg.contains("protocol"), "{msg}");
}

#[test]
fn rejects_invalid_frame_type() {
    let mut ch = Channel::new(FrameType::video());
    let mut hdr = [0u8; HEADER_SIZE];
    hdr[0] = PROTOCOL_VERSION;
    hdr[1] = 0xFF;
    hdr[12..16].copy_from_slice(&0i32.to_le_bytes());
    ch.push_bytes(&hdr);
    assert!(ch.try_pop_frame().is_err());
}

#[test]
fn accepts_complete_metadata_frame() {
    let mut ch = Channel::new(FrameType::metadata());
    let header = FrameHeader {
        version: PROTOCOL_VERSION,
        frame_type: FrameType::metadata(),
        timestamp: 1,
        metadata_length: 0,
        data_length: 4,
    };
    let mut bytes = Vec::new();
    bytes.extend_from_slice(&header.to_bytes());
    bytes.extend_from_slice(&[1, 2, 3, 4]);
    ch.push_bytes(&bytes);
    let frame = ch.try_pop_frame().unwrap().expect("frame");
    assert_eq!(frame.data, [1, 2, 3, 4]);
}

#[test]
fn bad_version_clears_reassembly_buffer() {
    let mut ch = Channel::new(FrameType::video());
    let mut hdr = [0u8; HEADER_SIZE];
    hdr[0] = 99;
    hdr[1] = FrameType::video().0;
    ch.push_bytes(&hdr);
    assert!(ch.try_pop_frame().is_err());
    assert_eq!(ch.buffered_len(), 0);
}

#[test]
fn short_buffer_waits_for_more_bytes() {
    let mut ch = Channel::new(FrameType::video());
    ch.push_bytes(&[PROTOCOL_VERSION, 2, 0, 0]);
    assert_eq!(ch.try_pop_frame().unwrap(), None);
    assert_eq!(ch.buffered_len(), 4);
}

#[test]
fn partial_body_is_kept_and_trailing_bytes_stay_buffered() {
    let mut ch = Channel::new(FrameType::metadata());
    let header = FrameHeader {
        version: PROTOCOL_VERSION,
        frame_type: FrameType::metadata(),
        timestamp: 7,
        metadata_length: 0,
        data_length: 3,
    };
    ch.push_bytes(&header.to_bytes());
    ch.push_bytes(&[9, 8]);
    assert_eq!(ch.try_pop_frame().unwrap(), None);
    assert_eq!(ch.buffered_len(), HEADER_SIZE + 2);
    ch.push_bytes(&[7, 42, 43]);
    let frame = ch.try_pop_frame().unwrap().expect("frame");
    assert_eq!(frame.data, [9, 8, 7]);
    assert_eq!(frame.header.timestamp, 7);
    assert_eq!(ch.buffered_len(), 2);
}

#[test]
fn negative_data_length_is_a_protocol_error() {
    let mut ch = Channel::new(FrameType::metadata());
    let mut hdr = [0u8; HEADER_SIZE];
    hdr[0] = PROTOCOL_VERSION;
    hdr[1] = FrameType::metadata().0;
    hdr[12..16].copy_from_slice(&(-1i32).to_le_bytes());
    ch.push_bytes(&hdr);
    assert!(matches!(ch.try_pop_frame(), Err(OmtError::Protocol(_))));
    assert_eq!(ch.buffered_len(), 0);
}

#[test]
fn accept_read_end_of_stream() {
    let mut ch = Channel::new(FrameType::video());
    assert_eq!(ch.accept_read(None).unwrap(), None);
    ch.push_bytes(&[1, 2]);
    assert!(matches!(ch.accept_read(None), Err(OmtError::Network(_))));
    assert_eq!(ch.buffered_len(), 2);
    assert!(matches!(ch.accept_read(Some(&[3])), Err(OmtError::Io(_))));
    assert_eq!(ch.buffered_len(), 3);
}

#[test]
fn accept_read_overflow_clears_buffer() {
    let mut ch = Channel::new(FrameType::video());
    ch.push_bytes(&[1, 2, 3]);
    let big = vec![0u8; MAX_REASSEMBLY];
    assert!(matches!(ch.accept_read(Some(&big)), Err(OmtError::Protocol(_))));
    assert_eq!(ch.buffered_len(), 0);
}

#[test]
fn payload_limits_by_frame_type() {
    assert_eq!(max_payload_for(FrameType::video()), VIDEO_MAX_SIZE);
    assert_eq!(max_payload_for(FrameType::audio()), AUDIO_MAX_SIZE);
    assert_eq!(max_payload_for(FrameType::metadata()), METADATA_FRAME_SIZE);
}

#[test]
fn error_text_names_its_kind() {
    assert_eq!(OmtError::Protocol("x".to_string()).to_string(), "protocol error: x");
    assert_eq!(OmtError::NotImplemented("Redirect::run").to_string(), "not implemented: Redirect::run");
}
