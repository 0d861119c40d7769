use openmediatransport::types::{
    saturating_add_i64, saturating_mul_i64, saturating_sub_i64, Codec, ColorSpace, FrameType,
    Quality, SenderInfo, Statistics, Tally, VideoFlags,
};

#[test]
fn saturating_arithmetic_clamps() {
    assert_eq!(saturating_add_i64(i64::MAX, 1), i64::MAX);
    assert_eq!(saturating_add_i64(i64::MIN, -1), i64::MIN);
    assert_eq!(saturating_add_i64(2, 3), 5);
    assert_eq!(saturating_sub_i64(i64::MIN, 1), i64::MIN);
    assert_eq!(saturating_sub_i64(i64::MAX, -1), i64::MAX);
    assert_eq!(saturating_sub_i64(10, 4), 6);
    assert_eq!(saturating_mul_i64(i64::MAX, 2), i64::MAX);
    assert_eq!(saturating_mul_i64(i64::MAX, -2), i64::MIN);
    assert_eq!(saturating_mul_i64(-7, 6), -42);
}

#[test]
fn statistics_count_and_sample() {
    let mut s = Statistics::default();
    s.record_sent(100);
    s.record_sent(50);
    s.record_received(7);
    s.record_dropped();
    assert_eq!(s.bytes_sent, 150);
    assert_eq!(s.bytes_sent_since_last, 150);
    assert_eq!(s.bytes_received, 7);
    assert_eq!(s.frames, 3);
    assert_eq!(s.frames_dropped, 1);
    s.mark_sample();
    assert_eq!(s.bytes_sent_since_last, 0);
    assert_eq!(s.frames_since_last, 0);
    assert_eq!(s.bytes_sent, 150);
    assert_eq!(s.frames, 3);
    s.bytes_sent = i64::MAX;
    s.record_sent(10);
    assert_eq!(s.bytes_sent, i64::MAX);
}

#[test]
fn sender_info_xml_escapes_attributes() {
    let info = SenderInfo::new("Cam & Co", "A\"B", "<1>");
    assert_eq!(
        info.to_xml(),
        "<OMTInfo ProductName=\"Cam &amp; Co\" Manufacturer=\"A&quot;B\" Version=\"&lt;1&gt;\" />"
    );
}

#[test]
fn codec_fourcc_values() {
    assert_eq!(Codec::Vmx1.as_i32(), 0x3158_4D56);
    assert_eq!(Codec::from_i32(0x3141_5046), Some(Codec::Fpa1));
    assert_eq!(Codec::from_u32(0x5956_5955), Some(Codec::Uyvy));
    assert_eq!(Codec::from_i32(0), None);
}

#[test]
fn flags_and_quality_values() {
    assert!(FrameType::video().union(FrameType::audio()).contains(FrameType::audio()));
    assert!(!FrameType::metadata().contains(FrameType::video()));
    assert_eq!(VideoFlags::alpha().union(VideoFlags::preview()).0, 10);
    assert_eq!(Quality::Medium.as_i32(), 50);
    assert_eq!(Quality::High.as_str(), "High");
    assert_eq!(Tally::new(1, 0), Tally { preview: 1, program: 0 });
    assert_eq!(ColorSpace::from_i32(ColorSpace::Bt709.as_i32()), ColorSpace::Bt709);
}
