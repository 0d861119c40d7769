use openmediatransport::receive::wanted_sockets;
use openmediatransport::OmtError;
use openmediatransport::receive::{bgra_layout, reuse_decoder};
use openmediatransport::receive::{needs_subscribe, Reconnect, SupervisorStep};
use openmediatransport::protocol::frame::{AssembledFrame, FrameHeader, VideoHeader, PROTOCOL_VERSION};
use openmediatransport::receive::{
    classify_av_frame, metadata_frame_of, order_endpoints, receiver_hosts,
    record_codec_time, subscription_messages, AvAction, DecodedVideoQueue, IpAddress,
    ReceiverConfig,
};
use openmediatransport::types::{
    Codec, ColorSpace, DecodedVideoFrame, FrameType, Quality, SessionStatistics, VideoFlags,
};

fn mk(ts: i64) -> DecodedVideoFrame {
    DecodedVideoFrame {
        width: 2,
        height: 2,
        stride: 8,
        timestamp: ts,
        frame_rate_n: 60,
        frame_rate_d: 1,
        color_space: ColorSpace::Bt709,
        pixels: vec![0u8; 16],
        frame_metadata: None,
    }
}

#[test]
fn decoded_video_queue_drops_oldest_when_full() {
    let mut slot = DecodedVideoQueue::new(1);
    let mut stats = SessionStatistics::default();
    slot.publish(mk(1), &mut stats);
    slot.publish(mk(2), &mut stats);
    assert_eq!(slot.overwrites(), 1);
    assert_eq!(stats.frames_dropped_decode, 1);
    let f = slot.try_take().unwrap();
    assert_eq!(f.timestamp, 2);
    assert!(slot.try_take().is_none());
}

#[test]
fn decoded_video_queue_is_fifo() {
    let mut slot = DecodedVideoQueue::new(4);
    let mut stats = SessionStatistics::default();
    slot.publish(mk(1), &mut stats);
    slot.publish(mk(2), &mut stats);
    assert_eq!(slot.try_take().unwrap().timestamp, 1);
    assert_eq!(slot.try_take().unwrap().timestamp, 2);
}

#[test]
fn zero_capacity_queue_holds_one() {
    let mut slot = DecodedVideoQueue::new(0);
    let mut stats = SessionStatistics::default();
    slot.publish(mk(1), &mut stats);
    assert_eq!(slot.len(), 1);
    slot.publish(mk(2), &mut stats);
    assert_eq!(slot.len(), 1);
    assert_eq!(slot.overwrites(), 1);
}

#[test]
fn endpoints_are_tried_in_given_order_each_once() {
    let v = vec![
        IpAddress::V4([127, 0, 0, 1]),
        IpAddress::V6([0xfe80, 0, 0, 0, 0, 0, 0, 1]),
        IpAddress::V4([10, 0, 0, 5]),
        IpAddress::V4([127, 0, 0, 1]),
        IpAddress::V4([10, 0, 0, 6]),
    ];
    assert_eq!(
        order_endpoints(&v),
        vec![
            IpAddress::V4([127, 0, 0, 1]),
            IpAddress::V6([0xfe80, 0, 0, 0, 0, 0, 0, 1]),
            IpAddress::V4([10, 0, 0, 5]),
            IpAddress::V4([10, 0, 0, 6]),
        ]
    );
}

#[test]
fn hosts_are_trimmed_and_deduplicated() {
    let extra = vec![" HostA ".to_string(), "".to_string()];
    let url = vec!["hosta".to_string(), "10.0.0.1".to_string()];
    assert_eq!(receiver_hosts(&extra, &url).unwrap(), vec!["HostA".to_string(), "10.0.0.1".to_string()]);
    assert!(receiver_hosts(&[], &["  ".to_string()]).is_err());
}

#[test]
fn subscriptions_follow_libomtnet_order() {
    let (av, audio) = subscription_messages(FrameType(7), Quality::High, true, false);
    assert_eq!(
        av,
        vec![
            "<OMTSubscribe Metadata=\"true\" />".to_string(),
            "<OMTSettings Preview=\"true\" />".to_string(),
            "<OMTSubscribe Video=\"true\" />".to_string(),
            "<OMTSettings Quality=\"High\" />".to_string(),
        ]
    );
    assert_eq!(audio, vec!["<OMTSubscribe Audio=\"true\" />".to_string()]);
    let (av2, audio2) = subscription_messages(FrameType(4), Quality::Default, false, true);
    assert_eq!(av2, vec!["<OMTSubscribe Audio=\"true\" />".to_string()]);
    assert_eq!(audio2.len(), 1);
}

fn video_frame(codec: Codec, flags: VideoFlags) -> AssembledFrame {
    AssembledFrame {
        header: FrameHeader {
            version: PROTOCOL_VERSION,
            frame_type: FrameType(2),
            timestamp: 5,
            metadata_length: 0,
            data_length: 36,
        },
        video: Some(VideoHeader {
            codec,
            width: 16,
            height: 16,
            frame_rate_n: 60,
            frame_rate_d: 0,
            aspect_ratio_bits: 0,
            flags,
            color_space: ColorSpace::Bt709,
        }),
        audio: None,
        data: vec![1, 2, 3, 4],
        metadata: Vec::new(),
    }
}

#[test]
fn av_frames_are_classified() {
    assert_eq!(
        classify_av_frame(&video_frame(Codec::Vmx1, VideoFlags(8)), false),
        AvAction::QueueVideo { preview: true, frame_rate_d: 1 }
    );
    assert_eq!(classify_av_frame(&video_frame(Codec::Uyvy, VideoFlags(0)), false), AvAction::DropVideo);
    assert_eq!(classify_av_frame(&video_frame(Codec::Vmx1, VideoFlags(2)), false), AvAction::DropVideo);
    let mut meta = video_frame(Codec::Vmx1, VideoFlags(0));
    meta.header.frame_type = FrameType(1);
    meta.video = None;
    meta.data = b"<x/>".to_vec();
    assert_eq!(classify_av_frame(&meta, false), AvAction::Metadata);
    let mf = metadata_frame_of(&meta);
    assert_eq!(mf.xml, "<x/>");
    assert_eq!(mf.timestamp, 5);
    meta.metadata = b"<m/>\0".to_vec();
    assert_eq!(metadata_frame_of(&meta).xml, "<m/>");
    meta.header.frame_type = FrameType(4);
    assert_eq!(classify_av_frame(&meta, true), AvAction::DecodeAudio);
    assert_eq!(classify_av_frame(&meta, false), AvAction::Ignore);
}

#[test]
fn codec_time_peak_ignores_warmup() {
    let mut s = SessionStatistics::default();
    for _ in 0..30 {
        record_codec_time(&mut s, 100, 1);
    }
    record_codec_time(&mut s, 50, 9);
    assert_eq!(s.codec_time_ns_peak, 100);
    assert_eq!(s.frame_age_us_peak, 9);
    assert_eq!(s.frames_decoded, 31);
    assert_eq!(s.codec_time_ns, 3050);
}

#[test]
fn receiver_config_defaults() {
    let c = ReceiverConfig::default();
    assert_eq!(c.frame_types, FrameType(7));
    assert_eq!(c.connect_timeout_ms, 5000);
    assert!(c.auto_reconnect);
    assert!(!c.preview);
}

#[test]
fn reconnect_backoff_doubles_to_two_seconds() {
    let mut r = Reconnect::new(true);
    assert_eq!(r.next_step(false, true), SupervisorStep::UsePrimed);
    assert!(!needs_subscribe(SupervisorStep::UsePrimed));
    assert_eq!(r.next_step(false, false), SupervisorStep::WaitThenConnect(250));
    assert_eq!(r.next_step(false, false), SupervisorStep::WaitThenConnect(500));
    assert_eq!(r.next_step(false, false), SupervisorStep::WaitThenConnect(1000));
    assert_eq!(r.next_step(false, false), SupervisorStep::WaitThenConnect(2000));
    assert_eq!(r.next_step(false, false), SupervisorStep::WaitThenConnect(2000));
    r.connected();
    assert_eq!(r.next_step(false, false), SupervisorStep::WaitThenConnect(250));
    assert_eq!(r.next_step(true, false), SupervisorStep::Stop);
    let mut fresh = Reconnect::new(false);
    assert_eq!(fresh.next_step(false, false), SupervisorStep::WaitThenConnect(250));
    assert!(needs_subscribe(SupervisorStep::Connect));
}

#[test]
fn decoder_reuse_and_output_layout() {
    assert!(reuse_decoder(Some((1920, 1080)), 1920, 1080));
    assert!(!reuse_decoder(Some((1920, 1080)), 1280, 720));
    assert!(!reuse_decoder(None, 1920, 1080));
    assert_eq!(bgra_layout(240, 136), Some((960, 960 * 136)));
    assert_eq!(bgra_layout(0, 10), Some((0, 0)));
}

#[test]
fn receiver_address_checks() {
    match openmediatransport::receive::receiver_address("") {
        Err(OmtError::InvalidArgument(m)) => assert_eq!(m, "receiver address is empty"),
        other => panic!("unexpected {other:?}"),
    }
    match openmediatransport::receive::receiver_address("omt://host") {
        Err(OmtError::InvalidArgument(m)) => assert_eq!(m, "receiver URL must include a port"),
        other => panic!("unexpected {other:?}"),
    }
    let a = openmediatransport::receive::receiver_address("omt://10.1.2.3:6400/Cam").unwrap();
    assert_eq!(a.port, 6400);
    assert_eq!(a.addresses, vec!["10.1.2.3"]);
    assert!(openmediatransport::receive::receiver_address("udp://x").is_err());
}

#[test]
fn sockets_follow_frame_types() {
    assert_eq!(wanted_sockets(FrameType::video()), (true, false));
    assert_eq!(wanted_sockets(FrameType::metadata()), (true, false));
    assert_eq!(wanted_sockets(FrameType::audio()), (false, true));
    assert_eq!(wanted_sockets(FrameType(0)), (true, false));
    assert_eq!(wanted_sockets(FrameType(7)), (true, true));
}

#[test]
fn discovery_addresses_are_tried_before_url_host() {
    let hosts = receiver_hosts(&["127.0.0.1".to_string()], &["10.0.0.5".to_string()]).unwrap();
    assert_eq!(hosts, vec!["127.0.0.1".to_string(), "10.0.0.5".to_string()]);
    let ips = vec![IpAddress::V4([127, 0, 0, 1]), IpAddress::V4([10, 0, 0, 5])];
    assert_eq!(order_endpoints(&ips), ips);
}
