//! Public OMT types (aligned with libomtnet).
use vstd::prelude::*;
use crate::text::{owned, push_str, push_escaped_str_no_apos, escape_seq_no_apos};

verus! {

/// `true` when every bit of `other` is set in `v`.
pub open spec fn bits_contain_u8(v: u8, other: u8) -> bool {
    (v & other) == other
}

/// `true` when every bit of `other` is set in `v`.
pub open spec fn bits_contain_i32(v: i32, other: i32) -> bool {
    (v & other) == other
}

/// `true` when every bit of `other` is set in `v`.
pub open spec fn bits_contain_u32(v: u32, other: u32) -> bool {
    (v & other) == other
}

/// Frame type bit flags (wire: Metadata=1, Video=2, Audio=4).
#[derive(Debug, Clone, Copy, PartialEq, Eq, Hash, Default)]
pub struct FrameType(pub u8);

impl FrameType {
    /// No frame type.
    pub fn none() -> (r: FrameType)
        ensures
            r.0 == 0,
    {
        FrameType(0)
    }

    /// Metadata frames.
    pub fn metadata() -> (r: FrameType)
        ensures
            r.0 == 1,
    {
        FrameType(1)
    }

    /// Video frames.
    pub fn video() -> (r: FrameType)
        ensures
            r.0 == 2,
    {
        FrameType(2)
    }

    /// Audio frames.
    pub fn audio() -> (r: FrameType)
        ensures
            r.0 == 4,
    {
        FrameType(4)
    }

    /// Returns true if `other` bits are set.
    pub fn contains(self, other: FrameType) -> (r: bool)
        ensures
            r == bits_contain_u8(self.0, other.0),
    {
        (self.0 & other.0) == other.0
    }

    /// Union of the two flag sets (`|`).
    pub fn union(self, other: FrameType) -> (r: FrameType)
        ensures
            r.0 == self.0 | other.0,
    {
        FrameType(self.0 | other.0)
    }
}

/// Video frame flags (wire values).
#[derive(Debug, Clone, Copy, PartialEq, Eq, Hash, Default)]
pub struct VideoFlags(pub i32);

impl VideoFlags {
    /// No flags.
    pub fn none() -> (r: VideoFlags)
        ensures
            r.0 == 0,
    {
        VideoFlags(0)
    }

    /// Interlaced.
    pub fn interlaced() -> (r: VideoFlags)
        ensures
            r.0 == 1,
    {
        VideoFlags(1)
    }

    /// Alpha channel present.
    pub fn alpha() -> (r: VideoFlags)
        ensures
            r.0 == 2,
    {
        VideoFlags(2)
    }

    /// Premultiplied alpha.
    pub fn premultiplied() -> (r: VideoFlags)
        ensures
            r.0 == 4,
    {
        VideoFlags(4)
    }

    /// 1/8 preview frame.
    pub fn preview() -> (r: VideoFlags)
        ensures
            r.0 == 8,
    {
        VideoFlags(8)
    }

    /// High bit depth (P216/PA16).
    pub fn high_bit_depth() -> (r: VideoFlags)
        ensures
            r.0 == 16,
    {
        VideoFlags(16)
    }

    /// Returns true if `other` bits are set.
    pub fn contains(self, other: VideoFlags) -> (r: bool)
        ensures
            r == bits_contain_i32(self.0, other.0),
    {
        (self.0 & other.0) == other.0
    }

    /// Union of the two flag sets (`|`).
    pub fn union(self, other: VideoFlags) -> (r: VideoFlags)
        ensures
            r.0 == self.0 | other.0,
    {
        VideoFlags(self.0 | other.0)
    }
}

/// Codec FourCC values (signed 32-bit wire integers).
#[derive(Debug, Clone, Copy, PartialEq, Eq, Hash)]
pub enum Codec {
    /// VMX1 video codec (`VMX1`).
    Vmx1,
    /// Floating-point planar audio (`FPA1`).
    Fpa1,
    /// UYVY 4:2:2.
    Uyvy,
    /// YUY2 4:2:2.
    Yuy2,
    /// BGRA.
    Bgra,
    /// NV12.
    Nv12,
    /// YV12.
    Yv12,
    /// UYVA.
    Uyva,
    /// P216.
    P216,
    /// PA16.
    Pa16,
}

/// Wire FourCC of each codec.
pub open spec fn codec_value(c: Codec) -> i32 {
    match c {
        Codec::Vmx1 => 0x3158_4D56,
        Codec::Fpa1 => 0x3141_5046,
        Codec::Uyvy => 0x5956_5955,
        Codec::Yuy2 => 0x3259_5559,
        Codec::Bgra => 0x4152_4742,
        Codec::Nv12 => 0x3231_564E,
        Codec::Yv12 => 0x3231_5659,
        Codec::Uyva => 0x4156_5955,
        Codec::P216 => 0x3631_3250,
        Codec::Pa16 => 0x3631_4150,
    }
}

/// The codec whose FourCC is `v`, if any.
pub open spec fn codec_from_value(v: i32) -> Option<Codec> {
    if v == 0x3158_4D56 {
        Some(Codec::Vmx1)
    } else if v == 0x3141_5046 {
        Some(Codec::Fpa1)
    } else if v == 0x5956_5955 {
        Some(Codec::Uyvy)
    } else if v == 0x3259_5559 {
        Some(Codec::Yuy2)
    } else if v == 0x4152_4742 {
        Some(Codec::Bgra)
    } else if v == 0x3231_564E {
        Some(Codec::Nv12)
    } else if v == 0x3231_5659 {
        Some(Codec::Yv12)
    } else if v == 0x4156_5955 {
        Some(Codec::Uyva)
    } else if v == 0x3631_3250 {
        Some(Codec::P216)
    } else if v == 0x3631_4150 {
        Some(Codec::Pa16)
    } else {
        None
    }
}

/// Every codec is recovered from its FourCC, and a recovered codec has that FourCC.
pub proof fn lemma_codec_value_roundtrip(c: Codec, v: i32)
    ensures
        codec_from_value(codec_value(c)) == Some(c),
        codec_from_value(v) matches Some(d) ==> codec_value(d) == v,
{
}

impl Codec {
    /// Create from raw FourCC (`i32` on the wire).
    pub fn from_i32(v: i32) -> (r: Option<Codec>)
        ensures
            r == codec_from_value(v),
    {
        if v == 0x3158_4D56 {
            Some(Codec::Vmx1)
        } else if v == 0x3141_5046 {
            Some(Codec::Fpa1)
        } else if v == 0x5956_5955 {
            Some(Codec::Uyvy)
        } else if v == 0x3259_5559 {
            Some(Codec::Yuy2)
        } else if v == 0x4152_4742 {
            Some(Codec::Bgra)
        } else if v == 0x3231_564E {
            Some(Codec::Nv12)
        } else if v == 0x3231_5659 {
            Some(Codec::Yv12)
        } else if v == 0x4156_5955 {
            Some(Codec::Uyva)
        } else if v == 0x3631_3250 {
            Some(Codec::P216)
        } else if v == 0x3631_4150 {
            Some(Codec::Pa16)
        } else {
            None
        }
    }

    /// Create from unsigned FourCC bits.
    pub fn from_u32(v: u32) -> (r: Option<Codec>)
        ensures
            r == codec_from_value(v as i32),
    {
        Codec::from_i32(v as i32)
    }

    /// Wire value as `i32`.
    pub fn as_i32(self) -> (r: i32)
        ensures
            r == codec_value(self),
    {
        match self {
            Codec::Vmx1 => 0x3158_4D56,
            Codec::Fpa1 => 0x3141_5046,
            Codec::Uyvy => 0x5956_5955,
            Codec::Yuy2 => 0x3259_5559,
            Codec::Bgra => 0x4152_4742,
            Codec::Nv12 => 0x3231_564E,
            Codec::Yv12 => 0x3231_5659,
            Codec::Uyva => 0x4156_5955,
            Codec::P216 => 0x3631_3250,
            Codec::Pa16 => 0x3631_4150,
        }
    }
}

/// Color space (matches OMT / VMX).
#[derive(Debug, Clone, Copy, PartialEq, Eq, Hash, Default)]
pub enum ColorSpace {
    /// Undefined (BT601 SD / BT709 HD).
    #[default]
    Undefined,
    /// BT.601.
    Bt601,
    /// BT.709.
    Bt709,
}

/// Wire value of each color space.
pub open spec fn color_space_value(c: ColorSpace) -> i32 {
    match c {
        ColorSpace::Undefined => 0,
        ColorSpace::Bt601 => 601,
        ColorSpace::Bt709 => 709,
    }
}

/// Color space of a wire value: unknown values read as `Undefined`.
pub open spec fn color_space_from_value(v: i32) -> ColorSpace {
    if v == 601 {
        ColorSpace::Bt601
    } else if v == 709 {
        ColorSpace::Bt709
    } else {
        ColorSpace::Undefined
    }
}

impl ColorSpace {
    /// Wire value as `i32`.
    pub fn as_i32(self) -> (r: i32)
        ensures
            r == color_space_value(self),
    {
        match self {
            ColorSpace::Undefined => 0,
            ColorSpace::Bt601 => 601,
            ColorSpace::Bt709 => 709,
        }
    }

    /// Color space of a wire value (unknown values map to `Undefined`).
    pub fn from_i32(v: i32) -> (r: ColorSpace)
        ensures
            r == color_space_from_value(v),
    {
        if v == 601 {
            ColorSpace::Bt601
        } else if v == 709 {
            ColorSpace::Bt709
        } else {
            ColorSpace::Undefined
        }
    }
}

/// Preferred uncompressed video format on receive (kept for API compatibility; ignored).
#[derive(Debug, Clone, Copy, PartialEq, Eq, Hash, Default)]
pub enum PreferredVideoFormat {
    /// Always UYVY.
    #[default]
    Uyvy,
    /// UYVY, or BGRA when alpha is present.
    UyvyOrBgra,
    /// Always BGRA.
    Bgra,
    /// UYVY, or UYVA when alpha is present.
    UyvyOrUyva,
    /// Prefer high-bit-depth when available.
    UyvyOrUyvaOrP216OrPa16,
    /// Always P216.
    P216,
}

/// Receiver feature flags (kept for API compatibility; ignored).
#[derive(Debug, Clone, Copy, PartialEq, Eq, Hash, Default)]
pub struct ReceiveFlags(pub u32);

impl ReceiveFlags {
    /// Returns true if `other` bits are set.
    pub fn contains(self, other: ReceiveFlags) -> (r: bool)
        ensures
            r == bits_contain_u32(self.0, other.0),
    {
        (self.0 & other.0) == other.0
    }
}

/// Video encoding quality suggestion.
#[derive(Debug, Clone, Copy, PartialEq, Eq, Hash, Default)]
pub enum Quality {
    /// Defer to peer / default medium.
    #[default]
    Default,
    /// Low quality.
    Low,
    /// Medium quality.
    Medium,
    /// High quality.
    High,
}

/// Numeric rank of each quality (libomtnet values).
pub open spec fn quality_value(q: Quality) -> i32 {
    match q {
        Quality::Default => 0,
        Quality::Low => 1,
        Quality::Medium => 50,
        Quality::High => 100,
    }
}

/// Name of each quality as used in metadata templates.
pub open spec fn quality_name(q: Quality) -> Seq<char> {
    match q {
        Quality::Default => seq!['D', 'e', 'f', 'a', 'u', 'l', 't'],
        Quality::Low => seq!['L', 'o', 'w'],
        Quality::Medium => seq!['M', 'e', 'd', 'i', 'u', 'm'],
        Quality::High => seq!['H', 'i', 'g', 'h'],
    }
}

impl Quality {
    /// Quality name used in metadata templates.
    pub fn as_str(self) -> (r: &'static str)
        ensures
            r@ == quality_name(self),
    {
        match self {
            Quality::Default => {
                proof {
                    reveal_strlit("Default");
                }
                "Default"
            },
            Quality::Low => {
                proof {
                    reveal_strlit("Low");
                }
                "Low"
            },
            Quality::Medium => {
                proof {
                    reveal_strlit("Medium");
                }
                "Medium"
            },
            Quality::High => {
                proof {
                    reveal_strlit("High");
                }
                "High"
            },
        }
    }

    /// Numeric value (`Default`=0, `Low`=1, `Medium`=50, `High`=100).
    pub fn as_i32(self) -> (r: i32)
        ensures
            r == quality_value(self),
    {
        match self {
            Quality::Default => 0,
            Quality::Low => 1,
            Quality::Medium => 50,
            Quality::High => 100,
        }
    }
}

/// Tally lights (0 = off, 1 = on).
#[derive(Debug, Clone, Copy, PartialEq, Eq, Hash, Default)]
pub struct Tally {
    /// Preview tally.
    pub preview: i32,
    /// Program tally.
    pub program: i32,
}

impl Tally {
    /// Create a tally state.
    pub fn new(preview: i32, program: i32) -> (r: Tally)
        ensures
            r == (Tally { preview, program }),
    {
        Tally { preview, program }
    }
}

/// Sender product information published via metadata.
#[derive(Debug, Clone, PartialEq, Eq, Default)]
pub struct SenderInfo {
    /// Product name.
    pub product_name: String,
    /// Manufacturer.
    pub manufacturer: String,
    /// Version string.
    pub version: String,
}

/// The `<OMTInfo … />` document for the three attribute values (`&`, `"`,
/// `<` and `>` escaped).
pub open spec fn sender_info_xml(product_name: Seq<char>, manufacturer: Seq<char>, version: Seq<char>) -> Seq<char> {
    "<OMTInfo ProductName=\""@ + escape_seq_no_apos(product_name) + "\" Manufacturer=\""@
        + escape_seq_no_apos(manufacturer) + "\" Version=\""@ + escape_seq_no_apos(version)
        + "\" />"@
}

impl SenderInfo {
    /// Create sender info.
    pub fn new(product_name: &str, manufacturer: &str, version: &str) -> (r: SenderInfo)
        ensures
            r.product_name@ == product_name@,
            r.manufacturer@ == manufacturer@,
            r.version@ == version@,
    {
        SenderInfo {
            product_name: owned(product_name),
            manufacturer: owned(manufacturer),
            version: owned(version),
        }
    }

    /// Serialize to OMTInfo XML.
    pub fn to_xml(&self) -> (r: String)
        ensures
            r@ == sender_info_xml(self.product_name@, self.manufacturer@, self.version@),
    {
        let mut out = owned("<OMTInfo ProductName=\"");
        push_escaped_str_no_apos(&mut out, self.product_name.as_str());
        push_str(&mut out, "\" Manufacturer=\"");
        push_escaped_str_no_apos(&mut out, self.manufacturer.as_str());
        push_str(&mut out, "\" Version=\"");
        push_escaped_str_no_apos(&mut out, self.version.as_str());
        push_str(&mut out, "\" />");
        out
    }
}

/// `v` clamped to the range of `i64`.
pub open spec fn sat_i64(v: int) -> i64 {
    if v > i64::MAX {
        i64::MAX
    } else if v < i64::MIN {
        i64::MIN
    } else {
        v as i64
    }
}

/// `a + b`, saturating at the bounds of `i64` (`i64::saturating_add`).
pub fn saturating_add_i64(a: i64, b: i64) -> (r: i64)
    ensures
        r == sat_i64(a + b),
{
    match a.checked_add(b) {
        Some(v) => v,
        None => if b > 0 {
            i64::MAX
        } else {
            i64::MIN
        },
    }
}

/// `a - b`, saturating at the bounds of `i64` (`i64::saturating_sub`).
pub fn saturating_sub_i64(a: i64, b: i64) -> (r: i64)
    ensures
        r == sat_i64(a - b),
{
    match a.checked_sub(b) {
        Some(v) => v,
        None => if b < 0 {
            i64::MAX
        } else {
            i64::MIN
        },
    }
}

/// `a * b`, saturating at the bounds of `i64` (`i64::saturating_mul`).
pub fn saturating_mul_i64(a: i64, b: i64) -> (r: i64)
    ensures
        r == sat_i64(a * b),
{
    match a.checked_mul(b) {
        Some(v) => v,
        None => {
            if (a < 0) == (b < 0) {
                proof {
                    if a < 0 {
                        assert(a * b > 0) by (nonlinear_arith)
                            requires
                                a < 0,
                                b < 0,
                        ;
                    } else {
                        assert(a * b >= 0) by (nonlinear_arith)
                            requires
                                a >= 0,
                                b >= 0,
                        ;
                    }
                }
                i64::MAX
            } else {
                proof {
                    if a < 0 {
                        assert(a * b <= 0) by (nonlinear_arith)
                            requires
                                a < 0,
                                b >= 0,
                        ;
                    } else {
                        assert(a * b <= 0) by (nonlinear_arith)
                            requires
                                a >= 0,
                                b < 0,
                        ;
                    }
                }
                i64::MIN
            }
        },
    }
}

/// Cumulative and interval statistics (matches libomtnet `OMTStatistics`).
#[derive(Debug, Clone, Copy, PartialEq, Eq, Default)]
pub struct Statistics {
    /// Total bytes sent.
    pub bytes_sent: i64,
    /// Total bytes received.
    pub bytes_received: i64,
    /// Bytes sent since last sample.
    pub bytes_sent_since_last: i64,
    /// Bytes received since last sample.
    pub bytes_received_since_last: i64,
    /// Total frames.
    pub frames: i64,
    /// Frames since last sample.
    pub frames_since_last: i64,
    /// Dropped frames.
    pub frames_dropped: i64,
    /// Codec time accumulator.
    pub codec_time: i64,
    /// Codec time since last sample.
    pub codec_time_since_last: i64,
}

impl Statistics {
    /// Reset interval counters after a sample.
    pub fn mark_sample(&mut self)
        ensures
            *final(self) == (Statistics {
                bytes_sent_since_last: 0,
                bytes_received_since_last: 0,
                frames_since_last: 0,
                codec_time_since_last: 0,
                ..*old(self)
            }),
    {
        self.bytes_sent_since_last = 0;
        self.bytes_received_since_last = 0;
        self.frames_since_last = 0;
        self.codec_time_since_last = 0;
    }

    /// Record a sent frame of `nbytes`.
    pub fn record_sent(&mut self, nbytes: usize)
        ensures
            *final(self) == (Statistics {
                bytes_sent: sat_i64(old(self).bytes_sent + (nbytes as i64)),
                bytes_sent_since_last: sat_i64(old(self).bytes_sent_since_last + (nbytes as i64)),
                frames: sat_i64(old(self).frames + 1),
                frames_since_last: sat_i64(old(self).frames_since_last + 1),
                ..*old(self)
            }),
    {
        let n = nbytes as i64;
        self.bytes_sent = saturating_add_i64(self.bytes_sent, n);
        self.bytes_sent_since_last = saturating_add_i64(self.bytes_sent_since_last, n);
        self.frames = saturating_add_i64(self.frames, 1);
        self.frames_since_last = saturating_add_i64(self.frames_since_last, 1);
    }

    /// Record a received frame of `nbytes`.
    pub fn record_received(&mut self, nbytes: usize)
        ensures
            *final(self) == (Statistics {
                bytes_received: sat_i64(old(self).bytes_received + (nbytes as i64)),
                bytes_received_since_last: sat_i64(
                    old(self).bytes_received_since_last + (nbytes as i64),
                ),
                frames: sat_i64(old(self).frames + 1),
                frames_since_last: sat_i64(old(self).frames_since_last + 1),
                ..*old(self)
            }),
    {
        let n = nbytes as i64;
        self.bytes_received = saturating_add_i64(self.bytes_received, n);
        self.bytes_received_since_last = saturating_add_i64(self.bytes_received_since_last, n);
        self.frames = saturating_add_i64(self.frames, 1);
        self.frames_since_last = saturating_add_i64(self.frames_since_last, 1);
    }

    /// Record `millis` milliseconds spent encoding a frame.
    pub fn record_codec(&mut self, millis: i64)
        ensures
            *final(self) == (Statistics {
                codec_time: sat_i64(old(self).codec_time + millis),
                codec_time_since_last: sat_i64(old(self).codec_time_since_last + millis),
                ..*old(self)
            }),
    {
        self.codec_time = saturating_add_i64(self.codec_time, millis);
        self.codec_time_since_last = saturating_add_i64(self.codec_time_since_last, millis);
    }

    /// Record a frame dropped because the send queue was full.
    pub fn record_dropped(&mut self)
        ensures
            *final(self) == (Statistics {
                frames_dropped: sat_i64(old(self).frames_dropped + 1),
                ..*old(self)
            }),
    {
        self.frames_dropped = saturating_add_i64(self.frames_dropped, 1);
    }
}

/// Decoded VMX1 video frame (BGRA8, tightly packed unless `stride` > width×4).
#[derive(Debug, Clone)]
pub struct DecodedVideoFrame {
    /// Pixel width.
    pub width: u32,
    /// Pixel height.
    pub height: u32,
    /// Row stride in bytes.
    pub stride: u32,
    /// Timestamp (100 ns ticks).
    pub timestamp: i64,
    /// Frame rate numerator.
    pub frame_rate_n: i32,
    /// Frame rate denominator.
    pub frame_rate_d: i32,
    /// Color space used for YUV→RGB.
    pub color_space: ColorSpace,
    /// BGRA8 pixels.
    pub pixels: Vec<u8>,
    /// Optional per-frame metadata XML.
    pub frame_metadata: Option<String>,
}

/// Decoded FPA1 audio frame (planar f32 bytes).
#[derive(Debug, Clone)]
pub struct DecodedAudioFrame {
    /// Timestamp (100 ns ticks).
    pub timestamp: i64,
    /// Sample rate.
    pub sample_rate: i32,
    /// Channel count.
    pub channels: i32,
    /// Samples per channel.
    pub samples_per_channel: i32,
    /// Active channel bitfield from the wire.
    pub active_channels: u32,
    /// Planar f32 samples concatenated per channel.
    pub pcm_planar_f32: Vec<u8>,
    /// Optional per-frame metadata XML.
    pub frame_metadata: Option<String>,
}

/// Metadata-only frame.
#[derive(Debug, Clone)]
pub struct MetadataFrame {
    /// Timestamp (100 ns ticks).
    pub timestamp: i64,
    /// XML / text payload.
    pub xml: String,
}

/// Receiver session statistics (transport + decode).
#[derive(Debug, Clone, Copy, PartialEq, Eq, Default)]
pub struct SessionStatistics {
    /// Total bytes received on the wire.
    pub bytes_received: u64,
    /// Bytes since last sample.
    pub bytes_received_since_last: u64,
    /// Successfully decoded video frames.
    pub frames_decoded: u64,
    /// Video frames dropped at the wire queue (backpressure).
    pub frames_dropped_wire: u64,
    /// Video frames dropped at decode failure or latest-wins overwrite.
    pub frames_dropped_decode: u64,
    /// Audio frames dropped or rejected.
    pub frames_dropped_audio: u64,
    /// Accumulated VMX decode time in nanoseconds.
    pub codec_time_ns: u64,
    /// Peak single-frame decode time in nanoseconds.
    pub codec_time_ns_peak: u64,
    /// Peak wire→decode age observed (microseconds).
    pub frame_age_us_peak: u64,
    /// Current compressed-video wire queue depth.
    pub wire_queue_depth: u32,
    /// Current decoded-video slot occupancy (0 or 1).
    pub decoded_queue_depth: u32,
    /// Reconnect attempts.
    pub reconnects: u64,
}

impl SessionStatistics {
    /// Reset interval counters.
    pub fn mark_sample(&mut self)
        ensures
            *final(self) == (SessionStatistics { bytes_received_since_last: 0, ..*old(self) }),
    {
        self.bytes_received_since_last = 0;
    }
}

/// Per-frame parameters of a video frame handed over as a GPU texture.
#[derive(Debug, Clone)]
pub struct VideoTextureMeta {
    /// Pixel width; must match the texture's width.
    pub width: u32,
    /// Pixel height; must match the texture's height.
    pub height: u32,
    /// Timestamp in 100 ns ticks (`-1` = auto).
    pub timestamp: i64,
    /// Frame rate numerator.
    pub frame_rate_n: i32,
    /// Frame rate denominator.
    pub frame_rate_d: i32,
    /// Color space for RGB→YUV.
    pub color_space: ColorSpace,
    /// Video flags (alpha / preview bits as on the wire).
    pub flags: VideoFlags,
    /// Optional per-frame metadata XML.
    pub frame_metadata: Option<String>,
}

impl Default for VideoTextureMeta {
    fn default() -> (r: VideoTextureMeta)
        ensures
            r.width == 0 && r.height == 0 && r.timestamp == -1 && r.frame_rate_n == 60
                && r.frame_rate_d == 1 && r.color_space == ColorSpace::Undefined && r.flags
                == VideoFlags(0) && r.frame_metadata is None,
    {
        VideoTextureMeta {
            width: 0,
            height: 0,
            timestamp: -1,
            frame_rate_n: 60,
            frame_rate_d: 1,
            color_space: ColorSpace::Undefined,
            flags: VideoFlags(0),
            frame_metadata: None,
        }
    }
}

/// TCP port range start for senders.
pub const NETWORK_PORT_START: u16 = 6400;
/// TCP port range end for senders (inclusive).
pub const NETWORK_PORT_END: u16 = 6600;
/// Default discovery server port.
pub const DISCOVERY_SERVER_DEFAULT_PORT: u16 = 6399;
/// Socket send buffer size (libomtnet `NETWORK_SEND_BUFFER`).
pub const NETWORK_SEND_BUFFER: usize = 65_536;
/// Receive buffer used on sender-side peer sockets (libomtnet `NETWORK_SEND_RECEIVE_BUFFER`).
pub const NETWORK_SEND_RECEIVE_BUFFER: usize = 65_536;
/// Socket receive buffer size on receivers (8 MiB; libomtnet `NETWORK_RECEIVE_BUFFER`).
pub const NETWORK_RECEIVE_BUFFER: usize = 8_388_608;
/// Maximum bytes per async receive transfer.
pub const NETWORK_RECEIVE_MAX_TRANSFER: usize = 131_072;
/// Outstanding async sends per channel before frames are dropped (libomtnet `NETWORK_ASYNC_COUNT`).
pub const NETWORK_ASYNC_COUNT: usize = 4;
/// Video frame pool depth.
pub const VIDEO_FRAME_POOL_COUNT: usize = 4;
/// Audio frame pool depth.
pub const AUDIO_FRAME_POOL_COUNT: usize = 10;
/// Minimum video buffer size.
pub const VIDEO_MIN_SIZE: usize = 65_536;
/// Maximum video buffer size.
pub const VIDEO_MAX_SIZE: usize = 10_485_760;
/// Minimum audio buffer size.
pub const AUDIO_MIN_SIZE: usize = 65_536;
/// Maximum audio buffer size.
pub const AUDIO_MAX_SIZE: usize = 1_048_576;
/// Bytes per audio sample (f32).
pub const AUDIO_SAMPLE_SIZE: usize = 4;
/// Maximum metadata queue depth.
pub const METADATA_MAX_COUNT: usize = 60;
/// Metadata frame buffer size.
pub const METADATA_FRAME_SIZE: usize = 65_536;
/// OMT URL scheme prefix.
pub const URL_PREFIX: &'static str = "omt://";
/// DNS-SD service type (without `.local`).
pub const DNSSD_SERVICE_TYPE: &'static str = "_omt._tcp";
/// Full DNS-SD name including `.local`.
pub const DNSSD_SERVICE_TYPE_LOCAL: &'static str = "_omt._tcp.local";
/// Maximum DNS-SD instance name length (`MACHINE (Name)`).
pub const MAX_INSTANCE_NAME_LENGTH: usize = 63;

} // verus!
