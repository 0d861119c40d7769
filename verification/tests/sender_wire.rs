use openmediatransport::send::{frame_fits_memory, MediaFrame};
use openmediatransport::send_video::plan_fits_memory;
use openmediatransport::protocol::frame::{AssembledFrame, FrameHeader, VideoHeader, PROTOCOL_VERSION};
use openmediatransport::protocol::metadata::{tally_xml, PREVIEW_ON, SUBSCRIBE_AUDIO, SUBSCRIBE_VIDEO};
use openmediatransport::send::{
    apply_peer_bytes, broadcast_route, count_subscribers, force_preview_all, force_subscribe_all,
    metadata_frame, preview_video_bytes, sent_len, use_preview, PeerState, Route,
};
use openmediatransport::types::{Codec, ColorSpace, FrameType, Tally, VideoFlags};

fn video_frame(codec: Codec) -> AssembledFrame {
    let data = vec![1u8, 2, 3, 4, 5, 6, 7, 8];
    let metadata = b"<m/>\0".to_vec();
    AssembledFrame {
        header: FrameHeader {
            version: PROTOCOL_VERSION,
            frame_type: FrameType::video(),
            timestamp: 42,
            metadata_length: metadata.len() as u16,
            data_length: (32 + data.len() + metadata.len()) as i32,
        },
        video: Some(VideoHeader {
            codec,
            width: 64,
            height: 64,
            frame_rate_n: 30,
            frame_rate_d: 1,
            aspect_ratio_bits: (16.0f32 / 9.0).to_bits(),
            flags: VideoFlags::none(),
            color_space: ColorSpace::Bt709,
        }),
        audio: None,
        data,
        metadata,
    }
}

#[test]
fn peer_reads_apply_each_control_frame() {
    let mut bytes = Vec::new();
    bytes.extend_from_slice(&metadata_frame(0, SUBSCRIBE_VIDEO).to_bytes());
    bytes.extend_from_slice(&metadata_frame(0, PREVIEW_ON).to_bytes());
    bytes.extend_from_slice(&metadata_frame(0, tally_xml(Tally::new(1, 1))).to_bytes());
    let partial = metadata_frame(0, SUBSCRIBE_AUDIO).to_bytes();
    bytes.extend_from_slice(&partial[..partial.len() - 3]);
    let mut state = PeerState::new();
    apply_peer_bytes(&mut state, &bytes);
    assert!(state.video);
    assert!(state.preview);
    assert_eq!(state.tally, Tally::new(1, 1));
    // The truncated last frame is not applied.
    assert!(!state.audio);
}

#[test]
fn peer_read_stops_at_bad_header() {
    let mut bytes = vec![99u8; 16];
    bytes.extend_from_slice(&metadata_frame(0, SUBSCRIBE_VIDEO).to_bytes());
    let mut state = PeerState::new();
    apply_peer_bytes(&mut state, &bytes);
    assert_eq!(state, PeerState::new());
}

#[test]
fn preview_variant_keeps_prefix_and_sets_flag() {
    let frame = video_frame(Codec::Vmx1);
    let bytes = preview_video_bytes(&frame, 3).expect("preview");
    let back = AssembledFrame::from_bytes(&bytes).unwrap();
    assert_eq!(back.data, vec![1, 2, 3]);
    assert_eq!(back.metadata, frame.metadata);
    assert_eq!(back.header.data_length, (32 + 3 + frame.metadata.len()) as i32);
    assert!(back.video.unwrap().flags.contains(VideoFlags::preview()));
    assert!(bytes.len() < frame.to_bytes().len());
    assert!(preview_video_bytes(&frame, 0).is_none());
    assert!(preview_video_bytes(&frame, 9).is_none());
    assert!(preview_video_bytes(&video_frame(Codec::Uyvy), 3).is_none());
}

#[test]
fn frames_are_routed_by_type() {
    assert_eq!(broadcast_route(FrameType::metadata()), Route::Direct);
    assert_eq!(broadcast_route(FrameType::audio()), Route::AudioQueue);
    assert_eq!(broadcast_route(FrameType::video()), Route::VideoQueue);
    assert_eq!(broadcast_route(FrameType::video().union(FrameType::audio())), Route::VideoQueue);
    assert_eq!(broadcast_route(FrameType::metadata().union(FrameType::audio())), Route::AudioQueue);
}

#[test]
fn preview_peers_and_counts() {
    let mut peers = vec![PeerState::new(), PeerState::new(), PeerState::new()];
    peers[1].preview = true;
    assert!(use_preview(&peers[1], FrameType::video(), true));
    assert!(!use_preview(&peers[1], FrameType::video(), false));
    assert!(!use_preview(&peers[1], FrameType::audio(), true));
    assert!(!use_preview(&peers[0], FrameType::video(), true));
    assert_eq!(sent_len(true, Some(10), 100), 10);
    assert_eq!(sent_len(false, Some(10), 100), 100);
    assert_eq!(sent_len(true, None, 100), 100);
    force_subscribe_all(&mut peers, true, false, true);
    assert_eq!(count_subscribers(&peers, true), 3);
    assert_eq!(count_subscribers(&peers, false), 0);
    assert!(peers[1].preview);
    force_preview_all(&mut peers, false);
    assert!(peers.iter().all(|p| !p.preview && p.video && p.metadata));
}

#[test]
fn sender_setup_checks() {
    use_setup_checks();
}

fn use_setup_checks() {
    assert!(openmediatransport::send::check_sender_name("Cam").is_ok());
    match openmediatransport::send::check_sender_name("") {
        Err(openmediatransport::OmtError::InvalidArgument(m)) => assert_eq!(m, "sender name is empty"),
        other => panic!("unexpected {other:?}"),
    }
    let cfg = openmediatransport::send::SenderConfig::default();
    assert!(openmediatransport::send::uses_default_buffers(&cfg));
    let custom = openmediatransport::send::SenderConfig { send_buffer: 1, ..cfg };
    assert!(!openmediatransport::send::uses_default_buffers(&custom));
    let none = openmediatransport::types::SenderInfo::new("", "", "");
    assert!(openmediatransport::send::info_frame(&none).is_none());
    let info = openmediatransport::types::SenderInfo::new("Prod", "Maker", "1.0");
    let f = openmediatransport::send::info_frame(&info).expect("info frame");
    assert_eq!(f.header.timestamp, 0);
    assert_eq!(f.data, info.to_xml().into_bytes());
}

#[test]
fn size_checks_and_codec_time() {
    let f = MediaFrame { frame_type: FrameType::audio(), channels: 2, samples_per_channel: 480, ..Default::default() };
    assert!(frame_fits_memory(&f));
    let v = MediaFrame { codec: Codec::Uyvy.as_i32(), width: 64, height: 64, stride: 128, ..Default::default() };
    assert!(plan_fits_memory(&v));
    let mut st = openmediatransport::types::Statistics::default();
    st.record_codec(5);
    st.record_codec(7);
    assert_eq!(st.codec_time, 12);
    assert_eq!(st.codec_time_since_last, 12);
    st.mark_sample();
    assert_eq!(st.codec_time_since_last, 0);
    assert_eq!(st.codec_time, 12);
}
