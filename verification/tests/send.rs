use openmediatransport::send_video::{grown_buffer_len, needs_new_encoder, EncoderKey, BITSTREAM_BUFFER_START};
use openmediatransport::types::ColorSpace;
use openmediatransport::protocol::frame::AssembledFrame;
use openmediatransport::protocol::metadata::{tally_xml, PREVIEW_ON, SUBSCRIBE_AUDIO, SUBSCRIBE_VIDEO};
use openmediatransport::send::{
    apply_metadata, assemble_frame, metadata_frame, peer_wants, recompute_subscriptions,
    FrameBuilder, MediaFrame, PeerState, SenderConfig,
};
use openmediatransport::send_video::{encode_plan, EncodePlan};
use openmediatransport::types::{Codec, FrameType, Quality, Tally, VideoFlags};
use openmediatransport::OmtError;

#[test]
fn uyva_is_unimplemented() {
    let frame = MediaFrame {
        frame_type: FrameType(2),
        codec: Codec::Uyva.as_i32(),
        width: 64,
        height: 64,
        stride: 128,
        data: vec![0u8; 64 * 64 * 3],
        ..Default::default()
    };
    match encode_plan(&frame) {
        Err(OmtError::NotImplemented("UYVA encode")) => {}
        other => panic!("expected NotImplemented, got {other:?}"),
    }
}

#[test]
fn encode_plan_checks_layout() {
    let mut frame = MediaFrame {
        frame_type: FrameType(2),
        codec: Codec::Uyvy.as_i32(),
        width: 64,
        height: 64,
        stride: 0,
        data: vec![0u8; 64 * 2 * 64],
        ..Default::default()
    };
    assert_eq!(encode_plan(&frame).unwrap(), EncodePlan::Uyvy { stride: 128 });
    frame.data.pop();
    match encode_plan(&frame) {
        Err(OmtError::InvalidArgument(m)) => assert_eq!(m, "UYVY frame data too short: need 8192, have 8191"),
        other => panic!("unexpected {other:?}"),
    }
    frame.width = 8;
    match encode_plan(&frame) {
        Err(OmtError::InvalidArgument(m)) => assert_eq!(m, "video frame too small: 8x64"),
        other => panic!("unexpected {other:?}"),
    }
    let nv12 = MediaFrame {
        frame_type: FrameType(2),
        codec: Codec::Nv12.as_i32(),
        width: 16,
        height: 17,
        stride: 16,
        data: vec![0u8; 16 * 17 + 16 * 9],
        ..Default::default()
    };
    assert_eq!(encode_plan(&nv12).unwrap(), EncodePlan::Nv12 { stride: 16, y_size: 272 });
    let bgra = MediaFrame {
        frame_type: FrameType(2),
        codec: Codec::Bgra.as_i32(),
        width: 32,
        height: 32,
        stride: 32 * 4,
        data: vec![0u8; 32 * 32 * 4],
        flags: VideoFlags(2),
        ..Default::default()
    };
    assert_eq!(encode_plan(&bgra).unwrap(), EncodePlan::Bgra { stride: 128, alpha: true });
    let narrow = MediaFrame { stride: 10, ..bgra.clone() };
    match encode_plan(&narrow) {
        Err(OmtError::InvalidArgument(m)) => assert_eq!(m, "stride 10 is smaller than width 32"),
        other => panic!("unexpected {other:?}"),
    }
    let unknown = MediaFrame { codec: 1234, ..bgra };
    match encode_plan(&unknown) {
        Err(OmtError::InvalidArgument(m)) => assert_eq!(m, "unsupported video codec 1234"),
        other => panic!("unexpected {other:?}"),
    }
}

#[test]
fn control_messages_update_peer() {
    let mut s = PeerState::new();
    apply_metadata(&mut s, SUBSCRIBE_VIDEO);
    apply_metadata(&mut s, SUBSCRIBE_AUDIO);
    apply_metadata(&mut s, PREVIEW_ON);
    apply_metadata(&mut s, "<OMTSettings Quality=\"High\" />");
    assert!(s.video && s.audio && s.preview && !s.metadata);
    assert_eq!(s.quality, Quality::High);
    apply_metadata(&mut s, "<OMTSettings Quality=\"Bogus\" />");
    assert_eq!(s.quality, Quality::Default);
    apply_metadata(&mut s, tally_xml(Tally::new(1, 1)));
    assert_eq!(s.tally, Tally::new(1, 1));
    apply_metadata(&mut s, "<OMTTally Preview=\"false\" Program=\"true\" />");
    assert_eq!(s.tally, Tally::new(0, 1));
    apply_metadata(&mut s, "<Other />");
    assert_eq!(s.tally, Tally::new(0, 1));
}

#[test]
fn sent_tally_is_applied_as_normalized_state() {
    let mut s = PeerState::new();
    apply_metadata(&mut s, SUBSCRIBE_VIDEO);
    apply_metadata(&mut s, tally_xml(Tally::new(7, 0)));
    assert_eq!(s.tally, Tally::new(1, 0));
    assert!(s.video && !s.audio);
    apply_metadata(&mut s, tally_xml(Tally::new(0, -3)));
    assert_eq!(s.tally, Tally::new(0, 1));
    apply_metadata(&mut s, tally_xml(Tally::new(0, 0)));
    assert_eq!(s.tally, Tally::new(0, 0));
    assert!(s.video);
}

#[test]
fn subscriptions_combine_peers() {
    let mut a = PeerState::new();
    a.video = true;
    a.quality = Quality::Low;
    a.tally = Tally::new(1, 0);
    let mut b = PeerState::new();
    b.audio = true;
    b.quality = Quality::Medium;
    b.tally = Tally::new(0, 1);
    let agg = recompute_subscriptions(&[a, b], Quality::Default);
    assert!(agg.video && agg.audio && !agg.metadata && !agg.preview);
    assert_eq!(agg.quality, Quality::Medium);
    assert_eq!(agg.tally, Tally::new(1, 1));
    assert_eq!(recompute_subscriptions(&[a, b], Quality::Low).quality, Quality::Low);
    assert_eq!(recompute_subscriptions(&[], Quality::Default), PeerState::new());
}

#[test]
fn peers_receive_what_they_subscribed() {
    let mut s = PeerState::new();
    assert!(peer_wants(&s, FrameType(1)));
    assert!(!peer_wants(&s, FrameType(2)));
    assert!(!peer_wants(&s, FrameType(4)));
    s.video = true;
    assert!(peer_wants(&s, FrameType(3)));
    assert!(peer_wants(&s, FrameType(0)));
}

#[test]
fn video_frame_keeps_payload_and_metadata() {
    let frame = MediaFrame {
        frame_type: FrameType(2),
        timestamp: 77,
        codec: 9999,
        width: 16,
        height: 16,
        data: vec![1, 2, 3],
        frame_metadata: Some("<m/>".to_string()),
        ..Default::default()
    };
    let mut b = FrameBuilder::new();
    let f = b.build_frame(frame).unwrap();
    assert_eq!(f.header.timestamp, 77);
    assert_eq!(f.header.frame_type, FrameType(2));
    assert_eq!(f.header.metadata_length, 5);
    assert_eq!(f.header.data_length, 32 + 3 + 5);
    assert_eq!(f.video.unwrap().codec, Codec::Uyvy);
    assert_eq!(f.metadata, b"<m/>\0".to_vec());
    let back = AssembledFrame::from_bytes(&f.to_bytes()).unwrap();
    assert_eq!(back, f);
}

#[test]
fn audio_frame_is_fpa1_encoded() {
    let mut data = Vec::new();
    for v in [0.5f32, -0.5] {
        data.extend_from_slice(&v.to_le_bytes());
    }
    data.extend_from_slice(&[0u8; 8]);
    let frame = MediaFrame {
        frame_type: FrameType(4),
        timestamp: 10,
        sample_rate: 48000,
        channels: 2,
        samples_per_channel: 2,
        data,
        ..Default::default()
    };
    let f = assemble_frame(frame.clone(), 10).unwrap();
    let a = f.audio.unwrap();
    assert_eq!(a.codec, Codec::Fpa1);
    assert_eq!(a.active_channels, 0b01);
    assert_eq!(f.data.len(), 8);
    assert_eq!(f.header.data_length, 24 + 8);
    let short = MediaFrame { data: vec![0u8; 3], ..frame.clone() };
    match assemble_frame(short, 0) {
        Err(OmtError::InvalidArgument(m)) => assert_eq!(m, "audio frame data too short"),
        other => panic!("unexpected {other:?}"),
    }
    let empty = MediaFrame { channels: 0, ..frame };
    match assemble_frame(empty, 0) {
        Err(OmtError::InvalidArgument(m)) => assert_eq!(m, "audio frame missing geometry"),
        other => panic!("unexpected {other:?}"),
    }
}

#[test]
fn metadata_frames_carry_text() {
    let frame = MediaFrame {
        frame_type: FrameType(1),
        timestamp: 3,
        frame_metadata: Some("<a/>".to_string()),
        ..Default::default()
    };
    let f = assemble_frame(frame, 3).unwrap();
    assert_eq!(f.data, b"<a/>".to_vec());
    assert_eq!(f.header.metadata_length, 0);
    let m = metadata_frame(9, "<b/>");
    assert_eq!(m.header.data_length, 4);
    assert_eq!(m.header.timestamp, 9);
    assert!(m.metadata.is_empty());
}

#[test]
fn auto_timestamps_advance() {
    let mut b = FrameBuilder::new();
    let mk = || MediaFrame { frame_type: FrameType(2), timestamp: -1, frame_rate_n: 50, frame_rate_d: 1, ..Default::default() };
    let t0 = b.build_frame(mk()).unwrap().header.timestamp;
    let t1 = b.build_frame(mk()).unwrap().header.timestamp;
    assert_eq!(t0, 0);
    assert!(t1 >= 200_000);
}

#[test]
fn sender_config_defaults() {
    let c = SenderConfig::default();
    assert_eq!(c.send_buffer, 65_536);
    assert_eq!(c.recv_buffer, 65_536);
    assert_eq!(c.send_queue_depth, 4);
}

#[test]
fn encoder_is_recreated_only_on_change() {
    let key = EncoderKey { width: 1920, height: 1080, quality: Quality::Medium, color_space: ColorSpace::Bt709 };
    assert!(needs_new_encoder(None, key));
    assert!(!needs_new_encoder(Some(key), key));
    assert!(needs_new_encoder(Some(key), EncoderKey { width: 1280, ..key }));
    assert!(needs_new_encoder(Some(key), EncoderKey { quality: Quality::High, ..key }));
    assert!(needs_new_encoder(Some(key), EncoderKey { color_space: ColorSpace::Bt601, ..key }));
}

#[test]
fn bitstream_buffer_grows() {
    assert_eq!(BITSTREAM_BUFFER_START, 1 << 20);
    assert_eq!(grown_buffer_len(1 << 20, 100), 2 << 20);
    assert_eq!(grown_buffer_len(1 << 20, 5 << 20), 5 << 20);
    assert_eq!(grown_buffer_len(usize::MAX, 1), usize::MAX);
}

#[test]
fn per_frame_metadata_ends_in_nul() {
    let f = MediaFrame {
        frame_type: FrameType(2),
        timestamp: 5,
        codec: Codec::Vmx1.as_i32(),
        data: vec![1, 2, 3],
        frame_metadata: Some("<x/>".into()),
        ..Default::default()
    };
    let mut b = FrameBuilder::new();
    let r = b.build_frame(f).unwrap();
    assert_eq!(r.metadata, b"<x/>\0".to_vec());
    assert_eq!(r.header.metadata_length, 5);
    assert_eq!(r.header.data_length, 40);
    assert_eq!(r.data, vec![1, 2, 3]);
    assert_eq!(r.header.timestamp, 5);
}
