//! Frame header structures and whole-frame encoding.
use vstd::prelude::*;

use crate::error::OmtError;
use crate::protocol::le::{
    i32_from_le, i32_le, i64_from_le, i64_le, push_i32_le, push_i64_le, push_u16_le, push_u32_le,
    read_i32_le, read_i64_le, read_u16_le, read_u32_le, u16_from_le, u16_le, u32_from_le, u32_le,
    lemma_i32_roundtrip, lemma_i64_roundtrip, lemma_u16_roundtrip, lemma_u32_roundtrip,
};
use crate::types::{
    bits_contain_u8, codec_from_value, codec_value, color_space_from_value, color_space_value,
    Codec, ColorSpace, FrameType, VideoFlags,
};

verus! {

/// Protocol version (must be 1).
pub const PROTOCOL_VERSION: u8 = 1;

/// Size of the common frame header in bytes.
pub const HEADER_SIZE: usize = 16;

/// Size of the video extended header in bytes.
pub const VIDEO_EXT_HEADER_SIZE: usize = 32;

/// Size of the audio extended header in bytes.
pub const AUDIO_EXT_HEADER_SIZE: usize = 24;

/// Common 16-byte frame header.
#[derive(Debug, Clone, Copy, PartialEq, Eq)]
pub struct FrameHeader {
    /// Protocol version (1).
    pub version: u8,
    /// Frame type.
    pub frame_type: FrameType,
    /// Timestamp (10,000,000 = 1 second).
    pub timestamp: i64,
    /// Per-frame metadata length including NUL.
    pub metadata_length: u16,
    /// Extended header + data + metadata length (excludes this header).
    pub data_length: i32,
}

/// Wire bytes of a common header.
pub open spec fn header_bytes(h: FrameHeader) -> Seq<u8> {
    seq![h.version, h.frame_type.0] + i64_le(h.timestamp) + u16_le(h.metadata_length) + i32_le(
        h.data_length,
    )
}

/// The header fields read from the first 16 bytes of `b`.
pub open spec fn header_fields(b: Seq<u8>) -> FrameHeader {
    FrameHeader {
        version: b[0],
        frame_type: FrameType(b[1]),
        timestamp: i64_from_le(b.subrange(2, 10)),
        metadata_length: u16_from_le(b.subrange(10, 12)),
        data_length: i32_from_le(b.subrange(12, 16)),
    }
}

/// Decoding of a common header: at least 16 bytes and version 1.
pub open spec fn parse_header(b: Seq<u8>) -> Option<FrameHeader> {
    if b.len() < 16 || b[0] != PROTOCOL_VERSION {
        None
    } else {
        Some(header_fields(b))
    }
}

impl FrameHeader {
    /// Encode header to little-endian bytes.
    pub fn to_bytes(self) -> (r: [u8; 16])
        ensures
            r@ == header_bytes(self),
    {
        let mut out: Vec<u8> = Vec::new();
        out.push(self.version);
        out.push(self.frame_type.0);
        push_i64_le(&mut out, self.timestamp);
        push_u16_le(&mut out, self.metadata_length);
        push_i32_le(&mut out, self.data_length);
        assert(out@ =~= header_bytes(self));
        let r = [
            out[0],
            out[1],
            out[2],
            out[3],
            out[4],
            out[5],
            out[6],
            out[7],
            out[8],
            out[9],
            out[10],
            out[11],
            out[12],
            out[13],
            out[14],
            out[15],
        ];
        assert(r@ =~= out@);
        r
    }

    /// Decode header from little-endian bytes.
    pub fn from_bytes(buf: &[u8]) -> (r: Result<FrameHeader, OmtError>)
        ensures
            r matches Ok(h) ==> parse_header(buf@) == Some(h),
            r matches Err(e) ==> parse_header(buf@) is None && e is Protocol,
    {
        if buf.len() < HEADER_SIZE {
            return Err(OmtError::Protocol("frame header too short".to_string()));
        }
        let version = buf[0];
        if version != PROTOCOL_VERSION {
            return Err(OmtError::Protocol("unsupported protocol version".to_string()));
        }
        Ok(FrameHeader {
            version,
            frame_type: FrameType(buf[1]),
            timestamp: read_i64_le(buf, 2),
            metadata_length: read_u16_le(buf, 10),
            data_length: read_i32_le(buf, 12),
        })
    }
}


/// Video extended header (32 bytes).
///
/// The display aspect ratio is carried as the IEEE-754 bit pattern of the
/// `f32` that travels on the wire.
#[derive(Debug, Clone, Copy, PartialEq, Eq)]
pub struct VideoHeader {
    /// Video codec FourCC.
    pub codec: Codec,
    /// Width in pixels.
    pub width: i32,
    /// Height in pixels.
    pub height: i32,
    /// Frame rate numerator.
    pub frame_rate_n: i32,
    /// Frame rate denominator.
    pub frame_rate_d: i32,
    /// Display aspect ratio (width/height), as `f32` bits.
    pub aspect_ratio_bits: u32,
    /// Video flags.
    pub flags: VideoFlags,
    /// Color space.
    pub color_space: ColorSpace,
}

/// Wire bytes of a video extended header.
pub open spec fn video_bytes(v: VideoHeader) -> Seq<u8> {
    i32_le(codec_value(v.codec)) + i32_le(v.width) + i32_le(v.height) + i32_le(v.frame_rate_n)
        + i32_le(v.frame_rate_d) + u32_le(v.aspect_ratio_bits) + i32_le(v.flags.0) + i32_le(
        color_space_value(v.color_space),
    )
}

/// Decoding of a video extended header: 32 bytes and a known codec.
pub open spec fn parse_video(b: Seq<u8>) -> Option<VideoHeader> {
    if b.len() < 32 {
        None
    } else {
        match codec_from_value(i32_from_le(b.subrange(0, 4))) {
            Some(codec) => Some(
                VideoHeader {
                    codec,
                    width: i32_from_le(b.subrange(4, 8)),
                    height: i32_from_le(b.subrange(8, 12)),
                    frame_rate_n: i32_from_le(b.subrange(12, 16)),
                    frame_rate_d: i32_from_le(b.subrange(16, 20)),
                    aspect_ratio_bits: u32_from_le(b.subrange(20, 24)),
                    flags: VideoFlags(i32_from_le(b.subrange(24, 28))),
                    color_space: color_space_from_value(i32_from_le(b.subrange(28, 32))),
                },
            ),
            None => None,
        }
    }
}

impl VideoHeader {
    /// Encode to little-endian bytes.
    pub fn to_bytes(self) -> (r: [u8; 32])
        ensures
            r@ == video_bytes(self),
    {
        let mut out: Vec<u8> = Vec::new();
        push_i32_le(&mut out, self.codec.as_i32());
        push_i32_le(&mut out, self.width);
        push_i32_le(&mut out, self.height);
        push_i32_le(&mut out, self.frame_rate_n);
        push_i32_le(&mut out, self.frame_rate_d);
        push_u32_le(&mut out, self.aspect_ratio_bits);
        push_i32_le(&mut out, self.flags.0);
        push_i32_le(&mut out, self.color_space.as_i32());
        assert(out@ =~= video_bytes(self));
        let r = [
            out[0], out[1], out[2], out[3], out[4], out[5], out[6], out[7],
            out[8], out[9], out[10], out[11], out[12], out[13], out[14], out[15],
            out[16], out[17], out[18], out[19], out[20], out[21], out[22], out[23],
            out[24], out[25], out[26], out[27], out[28], out[29], out[30], out[31],
        ];
        assert(r@ =~= out@);
        r
    }

    /// Decode from little-endian bytes.
    pub fn from_bytes(buf: &[u8]) -> (r: Result<VideoHeader, OmtError>)
        ensures
            r matches Ok(v) ==> parse_video(buf@) == Some(v),
            r matches Err(e) ==> parse_video(buf@) is None && e is Protocol,
    {
        if buf.len() < VIDEO_EXT_HEADER_SIZE {
            return Err(OmtError::Protocol("video header too short".to_string()));
        }
        let codec_raw = read_i32_le(buf, 0);
        let codec = match Codec::from_i32(codec_raw) {
            Some(c) => c,
            None => {
                return Err(OmtError::Protocol("unknown video codec".to_string()));
            },
        };
        let cs = read_i32_le(buf, 28);
        Ok(VideoHeader {
            codec,
            width: read_i32_le(buf, 4),
            height: read_i32_le(buf, 8),
            frame_rate_n: read_i32_le(buf, 12),
            frame_rate_d: read_i32_le(buf, 16),
            aspect_ratio_bits: read_u32_le(buf, 20),
            flags: VideoFlags(read_i32_le(buf, 24)),
            color_space: ColorSpace::from_i32(cs),
        })
    }
}

/// Audio extended header (24 bytes).
#[derive(Debug, Clone, Copy, PartialEq, Eq)]
pub struct AudioHeader {
    /// Audio codec FourCC (FPA1).
    pub codec: Codec,
    /// Sample rate.
    pub sample_rate: i32,
    /// Samples per channel in this frame.
    pub samples_per_channel: i32,
    /// Channel count.
    pub channels: i32,
    /// Active channel bitfield.
    pub active_channels: u32,
    /// Reserved.
    pub reserved1: i32,
}

/// Wire bytes of an audio extended header.
pub open spec fn audio_bytes(a: AudioHeader) -> Seq<u8> {
    i32_le(codec_value(a.codec)) + i32_le(a.sample_rate) + i32_le(a.samples_per_channel) + i32_le(
        a.channels,
    ) + u32_le(a.active_channels) + i32_le(a.reserved1)
}

/// Decoding of an audio extended header: 24 bytes and a known codec.
pub open spec fn parse_audio(b: Seq<u8>) -> Option<AudioHeader> {
    if b.len() < 24 {
        None
    } else {
        match codec_from_value(i32_from_le(b.subrange(0, 4))) {
            Some(codec) => Some(
                AudioHeader {
                    codec,
                    sample_rate: i32_from_le(b.subrange(4, 8)),
                    samples_per_channel: i32_from_le(b.subrange(8, 12)),
                    channels: i32_from_le(b.subrange(12, 16)),
                    active_channels: u32_from_le(b.subrange(16, 20)),
                    reserved1: i32_from_le(b.subrange(20, 24)),
                },
            ),
            None => None,
        }
    }
}

impl AudioHeader {
    /// Encode to little-endian bytes.
    pub fn to_bytes(self) -> (r: [u8; 24])
        ensures
            r@ == audio_bytes(self),
    {
        let mut out: Vec<u8> = Vec::new();
        push_i32_le(&mut out, self.codec.as_i32());
        push_i32_le(&mut out, self.sample_rate);
        push_i32_le(&mut out, self.samples_per_channel);
        push_i32_le(&mut out, self.channels);
        push_u32_le(&mut out, self.active_channels);
        push_i32_le(&mut out, self.reserved1);
        assert(out@ =~= audio_bytes(self));
        let r = [
            out[0], out[1], out[2], out[3], out[4], out[5], out[6], out[7],
            out[8], out[9], out[10], out[11], out[12], out[13], out[14], out[15],
            out[16], out[17], out[18], out[19], out[20], out[21], out[22], out[23],
        ];
        assert(r@ =~= out@);
        r
    }

    /// Decode from little-endian bytes.
    pub fn from_bytes(buf: &[u8]) -> (r: Result<AudioHeader, OmtError>)
        ensures
            r matches Ok(a) ==> parse_audio(buf@) == Some(a),
            r matches Err(e) ==> parse_audio(buf@) is None && e is Protocol,
    {
        if buf.len() < AUDIO_EXT_HEADER_SIZE {
            return Err(OmtError::Protocol("audio header too short".to_string()));
        }
        let codec_raw = read_i32_le(buf, 0);
        let codec = match Codec::from_i32(codec_raw) {
            Some(c) => c,
            None => {
                return Err(OmtError::Protocol("unknown audio codec".to_string()));
            },
        };
        Ok(AudioHeader {
            codec,
            sample_rate: read_i32_le(buf, 4),
            samples_per_channel: read_i32_le(buf, 8),
            channels: read_i32_le(buf, 12),
            active_channels: read_u32_le(buf, 16),
            reserved1: read_i32_le(buf, 20),
        })
    }
}


/// Header decoding reads back an encoded header, whatever follows it.
pub proof fn lemma_header_prefix(h: FrameHeader, rest: Seq<u8>)
    requires
        h.version == PROTOCOL_VERSION,
    ensures
        parse_header(header_bytes(h) + rest) == Some(h),
{
    let b = header_bytes(h) + rest;
    lemma_i64_roundtrip(h.timestamp);
    lemma_u16_roundtrip(h.metadata_length);
    lemma_i32_roundtrip(h.data_length);
    assert(b.subrange(2, 10) =~= i64_le(h.timestamp));
    assert(b.subrange(10, 12) =~= u16_le(h.metadata_length));
    assert(b.subrange(12, 16) =~= i32_le(h.data_length));
}

/// Video header decoding reads back an encoded video header, whatever follows it.
pub proof fn lemma_video_prefix(v: VideoHeader, rest: Seq<u8>)
    ensures
        parse_video(video_bytes(v) + rest) == Some(v),
{
    let b = video_bytes(v) + rest;
    lemma_i32_roundtrip(codec_value(v.codec));
    lemma_i32_roundtrip(v.width);
    lemma_i32_roundtrip(v.height);
    lemma_i32_roundtrip(v.frame_rate_n);
    lemma_i32_roundtrip(v.frame_rate_d);
    lemma_u32_roundtrip(v.aspect_ratio_bits);
    lemma_i32_roundtrip(v.flags.0);
    lemma_i32_roundtrip(color_space_value(v.color_space));
    crate::types::lemma_codec_value_roundtrip(v.codec, 0);
    assert(b.subrange(0, 4) =~= i32_le(codec_value(v.codec)));
    assert(b.subrange(4, 8) =~= i32_le(v.width));
    assert(b.subrange(8, 12) =~= i32_le(v.height));
    assert(b.subrange(12, 16) =~= i32_le(v.frame_rate_n));
    assert(b.subrange(16, 20) =~= i32_le(v.frame_rate_d));
    assert(b.subrange(20, 24) =~= u32_le(v.aspect_ratio_bits));
    assert(b.subrange(24, 28) =~= i32_le(v.flags.0));
    assert(b.subrange(28, 32) =~= i32_le(color_space_value(v.color_space)));
}

/// Audio header decoding reads back an encoded audio header, whatever follows it.
pub proof fn lemma_audio_prefix(a: AudioHeader, rest: Seq<u8>)
    ensures
        parse_audio(audio_bytes(a) + rest) == Some(a),
{
    let b = audio_bytes(a) + rest;
    lemma_i32_roundtrip(codec_value(a.codec));
    lemma_i32_roundtrip(a.sample_rate);
    lemma_i32_roundtrip(a.samples_per_channel);
    lemma_i32_roundtrip(a.channels);
    lemma_u32_roundtrip(a.active_channels);
    lemma_i32_roundtrip(a.reserved1);
    crate::types::lemma_codec_value_roundtrip(a.codec, 0);
    assert(b.subrange(0, 4) =~= i32_le(codec_value(a.codec)));
    assert(b.subrange(4, 8) =~= i32_le(a.sample_rate));
    assert(b.subrange(8, 12) =~= i32_le(a.samples_per_channel));
    assert(b.subrange(12, 16) =~= i32_le(a.channels));
    assert(b.subrange(16, 20) =~= u32_le(a.active_channels));
    assert(b.subrange(20, 24) =~= i32_le(a.reserved1));
}

/// A frame header encodes and decodes back to itself (for protocol version 1).
pub proof fn lemma_frame_header_roundtrip(h: FrameHeader)
    requires
        h.version == PROTOCOL_VERSION,
    ensures
        parse_header(header_bytes(h)) == Some(h),
{
    lemma_header_prefix(h, Seq::empty());
    assert(header_bytes(h) + Seq::<u8>::empty() =~= header_bytes(h));
}

/// A video header encodes and decodes back to itself.
pub proof fn lemma_video_header_roundtrip(v: VideoHeader)
    ensures
        parse_video(video_bytes(v)) == Some(v),
{
    lemma_video_prefix(v, Seq::empty());
    assert(video_bytes(v) + Seq::<u8>::empty() =~= video_bytes(v));
}

/// An audio header encodes and decodes back to itself.
pub proof fn lemma_audio_header_roundtrip(a: AudioHeader)
    ensures
        parse_audio(audio_bytes(a)) == Some(a),
{
    lemma_audio_prefix(a, Seq::empty());
    assert(audio_bytes(a) + Seq::<u8>::empty() =~= audio_bytes(a));
}

/// Contents of an assembled frame: header, optional video and audio
/// extended headers, codec payload and per-frame metadata.
pub type FrameModel = (FrameHeader, Option<VideoHeader>, Option<AudioHeader>, Seq<u8>, Seq<u8>);

/// A fully assembled on-wire frame (header + payload sections).
#[derive(Debug, Clone, PartialEq, Eq)]
pub struct AssembledFrame {
    /// Common header.
    pub header: FrameHeader,
    /// Optional video extended header.
    pub video: Option<VideoHeader>,
    /// Optional audio extended header.
    pub audio: Option<AudioHeader>,
    /// Codec payload (after extended header, before metadata).
    pub data: Vec<u8>,
    /// Per-frame metadata including trailing NUL when present.
    pub metadata: Vec<u8>,
}

impl View for AssembledFrame {
    type V = FrameModel;

    open spec fn view(&self) -> FrameModel {
        (self.header, self.video, self.audio, self.data@, self.metadata@)
    }
}

/// Wire bytes of the optional video extended header.
pub open spec fn opt_video_bytes(v: Option<VideoHeader>) -> Seq<u8> {
    match v {
        Some(v) => video_bytes(v),
        None => Seq::empty(),
    }
}

/// Wire bytes of the optional audio extended header.
pub open spec fn opt_audio_bytes(a: Option<AudioHeader>) -> Seq<u8> {
    match a {
        Some(a) => audio_bytes(a),
        None => Seq::empty(),
    }
}

/// Wire bytes of a whole frame: header, extended headers, payload, metadata.
pub open spec fn frame_bytes(m: FrameModel) -> Seq<u8> {
    header_bytes(m.0) + opt_video_bytes(m.1) + opt_audio_bytes(m.2) + m.3 + m.4
}

/// Decoding of a whole frame from a buffer that holds it.
///
/// The header must decode and announce a non-negative body that the buffer
/// holds and that is at least as long as the metadata.  A frame whose type
/// has the video bit carries a video extended header; otherwise one with the
/// audio bit carries an audio extended header; otherwise the payload is the
/// body before the metadata.
pub open spec fn parse_frame(b: Seq<u8>) -> Option<FrameModel> {
    match parse_header(b) {
        None => None,
        Some(h) => {
            let body_len = h.data_length as int;
            let meta_len = h.metadata_length as int;
            if body_len < 0 || b.len() < 16 + body_len || body_len < meta_len {
                None
            } else {
                let ext = b.subrange(16, 16 + body_len - meta_len);
                let meta = b.subrange(16 + body_len - meta_len, 16 + body_len);
                if bits_contain_u8(h.frame_type.0, 2) {
                    match parse_video(ext) {
                        Some(v) => Some((h, Some(v), None, ext.subrange(32, ext.len() as int), meta)),
                        None => None,
                    }
                } else if bits_contain_u8(h.frame_type.0, 4) {
                    match parse_audio(ext) {
                        Some(a) => Some((h, None, Some(a), ext.subrange(24, ext.len() as int), meta)),
                        None => None,
                    }
                } else {
                    Some((h, None, None, ext, meta))
                }
            }
        }
    }
}

/// Length of the extended headers a frame carries.
pub open spec fn ext_len(m: FrameModel) -> int {
    (opt_video_bytes(m.1).len() + opt_audio_bytes(m.2).len()) as int
}

/// A frame whose header describes its sections exactly: version 1, lengths
/// that match, and extended headers matching the type bits (video bit: video
/// header only; else audio bit: audio header only; else none).
pub open spec fn frame_well_formed(m: FrameModel) -> bool {
    &&& m.0.version == PROTOCOL_VERSION
    &&& m.0.metadata_length as int == m.4.len()
    &&& m.0.data_length as int == ext_len(m) + m.3.len() + m.4.len()
    &&& if bits_contain_u8(m.0.frame_type.0, 2) {
        m.1 is Some && m.2 is None
    } else if bits_contain_u8(m.0.frame_type.0, 4) {
        m.1 is None && m.2 is Some
    } else {
        m.1 is None && m.2 is None
    }
}

/// The body sections of an encoded frame are where the header says.
pub proof fn lemma_frame_sections(m: FrameModel)
    requires
        frame_well_formed(m),
    ensures
        ({
            let b = frame_bytes(m);
            let body_len = m.0.data_length as int;
            let meta_len = m.0.metadata_length as int;
            &&& parse_header(b) == Some(m.0)
            &&& body_len >= 0
            &&& b.len() == 16 + body_len
            &&& body_len >= meta_len
            &&& b.subrange(16, 16 + body_len - meta_len) =~= opt_video_bytes(m.1) + opt_audio_bytes(
                m.2,
            ) + m.3
            &&& b.subrange(16 + body_len - meta_len, 16 + body_len) =~= m.4
        }),
{
    let ext = opt_video_bytes(m.1) + opt_audio_bytes(m.2) + m.3;
    let rest = ext + m.4;
    let b = frame_bytes(m);
    assert(b =~= header_bytes(m.0) + rest);
    lemma_header_prefix(m.0, rest);
    let body_len = m.0.data_length as int;
    let meta_len = m.0.metadata_length as int;
    assert(b.subrange(16, 16 + body_len - meta_len) =~= ext);
    assert(b.subrange(16 + body_len - meta_len, 16 + body_len) =~= m.4);
}

/// Every well-formed frame decodes from its own encoding.
#[verifier::rlimit(50)]
pub proof fn lemma_frame_roundtrip(m: FrameModel)
    requires
        frame_well_formed(m),
    ensures
        parse_frame(frame_bytes(m)) == Some(m),
{
    lemma_frame_sections(m);
    let ext = opt_video_bytes(m.1) + opt_audio_bytes(m.2) + m.3;
    if bits_contain_u8(m.0.frame_type.0, 2) {
        let v = m.1.unwrap();
        assert(ext =~= video_bytes(v) + m.3);
        lemma_video_prefix(v, m.3);
        assert(ext.subrange(32, ext.len() as int) =~= m.3);
    } else if bits_contain_u8(m.0.frame_type.0, 4) {
        let a = m.2.unwrap();
        assert(ext =~= audio_bytes(a) + m.3);
        lemma_audio_prefix(a, m.3);
        assert(ext.subrange(24, ext.len() as int) =~= m.3);
    } else {
        assert(ext =~= m.3);
    }
}

impl AssembledFrame {
    /// Serialize the full frame (header + body).
    pub fn to_bytes(&self) -> (r: Vec<u8>)
        ensures
            r@ == frame_bytes(self@),
    {
        let mut out: Vec<u8> = Vec::new();
        let h = self.header.to_bytes();
        out.extend_from_slice(h.as_slice());
        if let Some(v) = self.video {
            let vb = v.to_bytes();
            out.extend_from_slice(vb.as_slice());
        }
        if let Some(a) = self.audio {
            let ab = a.to_bytes();
            out.extend_from_slice(ab.as_slice());
        }
        out.extend_from_slice(self.data.as_slice());
        out.extend_from_slice(self.metadata.as_slice());
        assert(out@ =~= frame_bytes(self@));
        out
    }

    /// Parse a complete frame from bytes (header + body already available).
    pub fn from_bytes(buf: &[u8]) -> (r: Result<AssembledFrame, OmtError>)
        ensures
            r matches Ok(f) ==> parse_frame(buf@) == Some(f@),
            r matches Err(e) ==> parse_frame(buf@) is None && e is Protocol,
    {
        let header = FrameHeader::from_bytes(buf)?;
        if header.data_length < 0 {
            return Err(OmtError::Protocol("negative data_length".to_string()));
        }
        let body_len = header.data_length as usize;
        if buf.len() - HEADER_SIZE < body_len {
            return Err(OmtError::Protocol("frame truncated".to_string()));
        }
        let meta_len = header.metadata_length as usize;
        if body_len < meta_len {
            return Err(OmtError::Protocol("metadata longer than body".to_string()));
        }
        let payload_end = HEADER_SIZE + (body_len - meta_len);
        let ext_and_data = &buf[HEADER_SIZE..payload_end];
        let metadata = &buf[payload_end..HEADER_SIZE + body_len];
        let ft = header.frame_type;
        if ft.contains(FrameType::video()) {
            if ext_and_data.len() < VIDEO_EXT_HEADER_SIZE {
                return Err(OmtError::Protocol("missing video extended header".to_string()));
            }
            let video = VideoHeader::from_bytes(ext_and_data)?;
            let data = vstd::slice::slice_to_vec(&ext_and_data[VIDEO_EXT_HEADER_SIZE..ext_and_data.len()]);
            Ok(AssembledFrame {
                header,
                video: Some(video),
                audio: None,
                data,
                metadata: vstd::slice::slice_to_vec(metadata),
            })
        } else if ft.contains(FrameType::audio()) {
            if ext_and_data.len() < AUDIO_EXT_HEADER_SIZE {
                return Err(OmtError::Protocol("missing audio extended header".to_string()));
            }
            let audio = AudioHeader::from_bytes(ext_and_data)?;
            let data = vstd::slice::slice_to_vec(&ext_and_data[AUDIO_EXT_HEADER_SIZE..ext_and_data.len()]);
            Ok(AssembledFrame {
                header,
                video: None,
                audio: Some(audio),
                data,
                metadata: vstd::slice::slice_to_vec(metadata),
            })
        } else {
            Ok(AssembledFrame {
                header,
                video: None,
                audio: None,
                data: vstd::slice::slice_to_vec(ext_and_data),
                metadata: vstd::slice::slice_to_vec(metadata),
            })
        }
    }
}

} // verus!
