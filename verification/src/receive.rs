//! The receiver's decisions: session configuration, the decoded-video queue,
//! statistics, the order in which endpoints are tried, the subscription
//! messages sent on connect, and what happens to each received frame.
//!
//! Sockets, threads, channels and codecs live with the caller.
use vstd::prelude::*;
use std::collections::VecDeque;
use crate::codec::fpa1::{decode_planar_into, fpa1_planes};
use crate::error::OmtError;
use crate::protocol::frame::{AssembledFrame, FrameModel, VideoHeader};
use crate::protocol::metadata::{decode_metadata_xml, before_nul};
use crate::types::MetadataFrame;
use crate::discovery::address::{OmtAddress, address_view, url_fields, limited_view};
use vstd::utf8::{valid_utf8, decode_utf8};
use crate::protocol::metadata::{
    suggested_quality_xml, PREVIEW_OFF, PREVIEW_ON, SUBSCRIBE_AUDIO, SUBSCRIBE_METADATA,
    SUBSCRIBE_VIDEO,
};
use crate::text::{owned, str_chars, trim, trim_str, eq_ignore_case, chars_eq_ignore_case, push_str};
use crate::types::{
    bits_contain_u8, bits_contain_i32, Codec, DecodedAudioFrame, DecodedVideoFrame, FrameType,
    Quality, SessionStatistics, AUDIO_MAX_SIZE, VIDEO_MAX_SIZE,
};

verus! {

broadcast use vstd::string::group_string_axioms;

/// Wire-compressed video queue depth (backpressure → drop).
pub const VIDEO_WIRE_Q: usize = 3;
/// Decoded video queue depth.
pub const VIDEO_DECODED_Q: usize = 1;
/// Decoded audio queue depth.
pub const AUDIO_Q: usize = 10;
/// Metadata queue depth.
pub const METADATA_Q: usize = 60;
/// First reconnect delay in milliseconds.
pub const RECONNECT_MIN_MS: u64 = 250;
/// Longest reconnect delay in milliseconds.
pub const RECONNECT_MAX_MS: u64 = 2000;

/// High-level receiver connection state.
#[derive(Debug, Clone, Copy, PartialEq, Eq, Default)]
pub enum SessionState {
    /// Initial TCP connect / subscribe in progress.
    #[default]
    Connecting,
    /// At least one media socket is active.
    Connected,
    /// Waiting before a reconnect attempt.
    Reconnecting,
    /// Disconnect requested.
    Stopping,
    /// All threads have exited.
    Stopped,
}

/// Configuration of a receiver session.
#[derive(Debug, Clone)]
pub struct ReceiverConfig {
    /// Frame types to subscribe to.
    pub frame_types: FrameType,
    /// Suggested encode quality sent to the peer.
    pub quality: Quality,
    /// Request 1/8 preview video.
    pub preview: bool,
    /// TCP connect timeout in milliseconds.
    pub connect_timeout_ms: u64,
    /// Automatically reconnect after socket failures (250 ms … 2 s backoff).
    pub auto_reconnect: bool,
}

impl Default for ReceiverConfig {
    fn default() -> (r: ReceiverConfig)
        ensures
            r.frame_types == FrameType(7) && r.quality == Quality::Default && !r.preview
                && r.connect_timeout_ms == 5000 && r.auto_reconnect,
    {
        ReceiverConfig {
            frame_types: FrameType(7),
            quality: Quality::Default,
            preview: false,
            connect_timeout_ms: 5000,
            auto_reconnect: true,
        }
    }
}

/// `v + n`, saturating at `u64::MAX`.
pub open spec fn sat_u64(v: int) -> u64 {
    if v > u64::MAX {
        u64::MAX
    } else {
        v as u64
    }
}

/// Count `n` received bytes.
pub fn record_bytes(stats: &mut SessionStatistics, n: usize)
    ensures
        *final(stats) == (SessionStatistics {
            bytes_received: sat_u64(old(stats).bytes_received + n),
            bytes_received_since_last: sat_u64(old(stats).bytes_received_since_last + n),
            ..*old(stats)
        }),
{
    stats.bytes_received = stats.bytes_received.saturating_add(n as u64);
    stats.bytes_received_since_last = stats.bytes_received_since_last.saturating_add(n as u64);
}

/// Count a video frame dropped at the wire queue.
pub fn record_drop_wire(stats: &mut SessionStatistics)
    ensures
        *final(stats) == (SessionStatistics {
            frames_dropped_wire: sat_u64(old(stats).frames_dropped_wire + 1),
            ..*old(stats)
        }),
{
    stats.frames_dropped_wire = stats.frames_dropped_wire.saturating_add(1);
}

/// Count a decoded video frame dropped (decode failure or overwrite).
pub fn record_drop_decode(stats: &mut SessionStatistics)
    ensures
        *final(stats) == (SessionStatistics {
            frames_dropped_decode: sat_u64(old(stats).frames_dropped_decode + 1),
            ..*old(stats)
        }),
{
    stats.frames_dropped_decode = stats.frames_dropped_decode.saturating_add(1);
}

/// Count an audio frame dropped or rejected.
pub fn record_drop_audio(stats: &mut SessionStatistics)
    ensures
        *final(stats) == (SessionStatistics {
            frames_dropped_audio: sat_u64(old(stats).frames_dropped_audio + 1),
            ..*old(stats)
        }),
{
    stats.frames_dropped_audio = stats.frames_dropped_audio.saturating_add(1);
}

/// Count a decoded video frame that took `ns` nanoseconds and waited
/// `age_us` microseconds: the peak decode time ignores the first 30 frames'
/// warm-up, the peak age is the largest seen.
pub fn record_codec_time(stats: &mut SessionStatistics, ns: u64, age_us: u64)
    ensures
        ({
            let decoded = sat_u64(old(stats).frames_decoded + 1);
            *final(stats) == (SessionStatistics {
                codec_time_ns: sat_u64(old(stats).codec_time_ns + ns),
                frames_decoded: decoded,
                codec_time_ns_peak: if decoded <= 30 || ns > old(stats).codec_time_ns_peak {
                    ns
                } else {
                    old(stats).codec_time_ns_peak
                },
                frame_age_us_peak: if age_us > old(stats).frame_age_us_peak {
                    age_us
                } else {
                    old(stats).frame_age_us_peak
                },
                ..*old(stats)
            })
        }),
{
    stats.codec_time_ns = stats.codec_time_ns.saturating_add(ns);
    stats.frames_decoded = stats.frames_decoded.saturating_add(1);
    if stats.frames_decoded <= 30 || ns > stats.codec_time_ns_peak {
        stats.codec_time_ns_peak = ns;
    }
    if age_us > stats.frame_age_us_peak {
        stats.frame_age_us_peak = age_us;
    }
}

/// Bounded first-in first-out queue of decoded video frames: publishing into
/// a full queue drops the oldest frames first.
pub struct DecodedVideoQueue {
    frames: VecDeque<DecodedVideoFrame>,
    overwrites: u64,
    cap: usize,
}

impl DecodedVideoQueue {
    /// The queued frames, oldest first.
    pub closed spec fn frames_view(&self) -> Seq<DecodedVideoFrame> {
        self.frames@
    }

    /// The capacity.
    pub closed spec fn cap_view(&self) -> nat {
        self.cap as nat
    }

    /// Number of frames dropped to make room.
    pub closed spec fn overwrites_view(&self) -> u64 {
        self.overwrites
    }

    /// At most `cap` frames, and `cap` at least 1.
    pub closed spec fn wf(&self) -> bool {
        1 <= self.cap && self.frames@.len() <= self.cap
    }

    /// An empty queue holding at most `cap` frames (at least one).
    pub fn new(cap: usize) -> (r: DecodedVideoQueue)
        ensures
            r.wf(),
            r.frames_view() == Seq::<DecodedVideoFrame>::empty(),
            r.cap_view() == if cap >= 1 {
                cap as nat
            } else {
                1
            },
            r.overwrites_view() == 0,
    {
        DecodedVideoQueue {
            frames: VecDeque::new(),
            overwrites: 0,
            cap: if cap >= 1 {
                cap
            } else {
                1
            },
        }
    }

    /// Queue a frame; when the queue is full the oldest frame is dropped,
    /// counted in the overwrites and the statistics.
    pub fn publish(&mut self, frame: DecodedVideoFrame, stats: &mut SessionStatistics)
        requires
            old(self).wf(),
        ensures
            final(self).wf(),
            final(self).cap_view() == old(self).cap_view(),
            ({
                let full = old(self).frames_view().len() == old(self).cap_view();
                &&& final(self).frames_view() == if full {
                    old(self).frames_view().drop_first().push(frame)
                } else {
                    old(self).frames_view().push(frame)
                }
                &&& final(self).overwrites_view() == if full {
                    old(self).overwrites_view().wrapping_add(1)
                } else {
                    old(self).overwrites_view()
                }
                &&& *final(stats) == if full {
                    SessionStatistics {
                        frames_dropped_decode: sat_u64(old(stats).frames_dropped_decode + 1),
                        ..*old(stats)
                    }
                } else {
                    *old(stats)
                }
            }),
    {
        if self.frames.len() >= self.cap {
            let ghost before = self.frames@;
            let _ = self.frames.pop_front();
            assert(self.frames@ =~= before.drop_first());
            self.overwrites = self.overwrites.wrapping_add(1);
            record_drop_decode(stats);
        }
        self.frames.push_back(frame);
    }

    /// Take the oldest frame, if any.
    pub fn try_take(&mut self) -> (r: Option<DecodedVideoFrame>)
        requires
            old(self).wf(),
        ensures
            final(self).wf(),
            final(self).cap_view() == old(self).cap_view(),
            final(self).overwrites_view() == old(self).overwrites_view(),
            old(self).frames_view().len() == 0 ==> r is None && final(self).frames_view()
                == old(self).frames_view(),
            old(self).frames_view().len() > 0 ==> r == Some(old(self).frames_view()[0])
                && final(self).frames_view() == old(self).frames_view().drop_first(),
    {
        if self.frames.len() == 0 {
            None
        } else {
            let ghost before = self.frames@;
            let f = self.frames.pop_front();
            assert(self.frames@ =~= before.drop_first());
            f
        }
    }

    /// Number of queued frames.
    pub fn len(&self) -> (r: usize)
        ensures
            r == self.frames_view().len(),
    {
        self.frames.len()
    }

    /// Number of frames dropped to make room (wrapping).
    pub fn overwrites(&self) -> (r: u64)
        ensures
            r == self.overwrites_view(),
    {
        self.overwrites
    }
}

/// An IP address, as its octets or 16-bit groups.
#[derive(Debug, Clone, Copy, PartialEq, Eq)]
pub enum IpAddress {
    /// IPv4 octets.
    V4([u8; 4]),
    /// IPv6 groups.
    V6([u16; 8]),
}

/// The endpoints in the order given, each once (its first occurrence kept).
pub open spec fn distinct_in_order(s: Seq<IpAddress>) -> Seq<IpAddress>
    decreases s.len(),
{
    if s.len() == 0 {
        Seq::empty()
    } else if distinct_in_order(s.drop_last()).contains(s.last()) {
        distinct_in_order(s.drop_last())
    } else {
        distinct_in_order(s.drop_last()).push(s.last())
    }
}

/// Whether two addresses are the same.
fn same_ip(a: &IpAddress, b: &IpAddress) -> (r: bool)
    ensures
        r == (*a == *b),
{
    match (a, b) {
        (IpAddress::V4(x), IpAddress::V4(y)) => {
            let eq = x[0] == y[0] && x[1] == y[1] && x[2] == y[2] && x[3] == y[3];
            proof {
                if eq {
                    assert(x@ =~= y@);
                    assert(*x =~= *y);
                }
            }
            eq
        },
        (IpAddress::V6(x), IpAddress::V6(y)) => {
            let eq = x[0] == y[0] && x[1] == y[1] && x[2] == y[2] && x[3] == y[3] && x[4] == y[4]
                && x[5] == y[5] && x[6] == y[6] && x[7] == y[7];
            proof {
                if eq {
                    assert(x@ =~= y@);
                    assert(*x =~= *y);
                }
            }
            eq
        },
        _ => false,
    }
}

/// The order in which a receiver tries its endpoints: as given (discovery
/// addresses first, then those of the URL's host), each address once.
pub fn order_endpoints(v: &Vec<IpAddress>) -> (r: Vec<IpAddress>)
    ensures
        r@ == distinct_in_order(v@),
{
    let mut out: Vec<IpAddress> = Vec::new();
    let mut i: usize = 0;
    while i < v.len()
        invariant
            i <= v@.len(),
            out@ == distinct_in_order(v@.take(i as int)),
        decreases v@.len() - i,
    {
        proof {
            assert(v@.take(i + 1).drop_last() =~= v@.take(i as int));
            assert(v@.take(i + 1).last() == v@[i as int]);
        }
        let mut seen = false;
        let mut j: usize = 0;
        while j < out.len()
            invariant
                i < v@.len(),
                j <= out@.len(),
                seen == exists|k: int| 0 <= k < j && out@[k] == v@[i as int],
            decreases out@.len() - j,
        {
            if same_ip(&out[j], &v[i]) {
                seen = true;
            }
            j = j + 1;
        }
        if !seen {
            out.push(v[i]);
        }
        i = i + 1;
    }
    assert(v@.take(v@.len() as int) =~= v@);
    out
}

/// The candidates after considering host `h`: trimmed, skipped when empty
/// or equal up to ASCII case to an earlier candidate.
pub open spec fn add_candidate(prev: Seq<Seq<char>>, h: Seq<char>) -> Seq<Seq<char>> {
    let t = trim(h);
    if t.len() == 0 || exists|j: int| 0 <= j < prev.len() && eq_ignore_case(#[trigger] prev[j], t) {
        prev
    } else {
        prev.push(t)
    }
}

/// The candidates from a sequence of hosts, in order.
pub open spec fn candidate_hosts(prev: Seq<Seq<char>>, s: Seq<Seq<char>>) -> Seq<Seq<char>>
    decreases s.len(),
{
    if s.len() == 0 {
        prev
    } else {
        add_candidate(candidate_hosts(prev, s.drop_last()), s.last())
    }
}

/// Consider host `src` as a candidate.
fn add_host(hosts: &mut Vec<String>, src: &str)
    ensures
        final(hosts).deep_view() == add_candidate(old(hosts).deep_view(), src@),
{
    let h = trim_str(src);
    let hc = str_chars(h.as_str());
    let ghost prev = hosts.deep_view();
    let mut dup = false;
    let mut j: usize = 0;
    while j < hosts.len()
        invariant
            j <= hosts@.len(),
            prev == hosts.deep_view(),
            hc@ == h@,
            dup == exists|k: int| 0 <= k < j && eq_ignore_case(#[trigger] prev[k], h@),
        decreases hosts@.len() - j,
    {
        let kc = str_chars(hosts[j].as_str());
        let same = chars_eq_ignore_case(kc.as_slice(), 0, kc.len(), h.as_str());
        proof {
            assert(kc@.subrange(0, kc@.len() as int) =~= prev[j as int]);
        }
        if same {
            dup = true;
        }
        j = j + 1;
    }
    if hc.len() != 0 && !dup {
        hosts.push(h);
        assert(hosts.deep_view() =~= prev.push(trim(src@)));
    }
}

/// Consider each of `srcs` in turn.
fn add_hosts(hosts: &mut Vec<String>, srcs: &[String])
    ensures
        final(hosts).deep_view() == candidate_hosts(old(hosts).deep_view(), srcs@.map_values(|s: String| s@)),
{
    let ghost start = hosts.deep_view();
    let ghost all = srcs@.map_values(|s: String| s@);
    let mut i: usize = 0;
    while i < srcs.len()
        invariant
            i <= srcs@.len(),
            all == srcs@.map_values(|s: String| s@),
            hosts.deep_view() == candidate_hosts(start, all.take(i as int)),
        decreases srcs@.len() - i,
    {
        proof {
            assert(all.take(i + 1).drop_last() =~= all.take(i as int));
            assert(all.take(i + 1).last() == srcs@[i as int]@);
        }
        add_host(hosts, srcs[i].as_str());
        i = i + 1;
    }
    assert(all.take(all.len() as int) =~= all);
}

/// The hosts to resolve for a receiver: the extra (discovery) addresses,
/// then the URL's, each trimmed, empty ones and repeats (ignoring ASCII case)
/// skipped; an error when none remains.
pub fn receiver_hosts(extra: &[String], url_addresses: &[String]) -> (r: Result<Vec<String>, OmtError>)
    ensures
        ({
            let c = candidate_hosts(
                candidate_hosts(Seq::empty(), extra@.map_values(|s: String| s@)),
                url_addresses@.map_values(|s: String| s@),
            );
            if c.len() == 0 {
                r matches Err(OmtError::InvalidArgument(m)) && m@ == "receiver URL has no host addresses"@
            } else {
                r matches Ok(v) && v.deep_view() == c
            }
        }),
{
    let mut hosts: Vec<String> = Vec::new();
    assert(hosts.deep_view() =~= Seq::<Seq<char>>::empty());
    add_hosts(&mut hosts, extra);
    add_hosts(&mut hosts, url_addresses);
    if hosts.len() == 0 {
        return Err(OmtError::InvalidArgument(owned("receiver URL has no host addresses")));
    }
    Ok(hosts)
}

/// The control messages sent when a receiver subscribes: on the video
/// socket (metadata subscription for video or metadata, then the preview
/// setting, video subscription and quality for video, then audio when asked
/// to carry it), and on the audio socket (audio subscription).
pub open spec fn subscription_texts(ft: FrameType, quality: Quality, preview: bool, audio_on_av: bool) -> (Seq<Seq<char>>, Seq<Seq<char>>) {
    let q = "<OMTSettings Quality=\""@ + crate::types::quality_name(quality) + "\" />"@;
    let v = bits_contain_u8(ft.0, 2);
    let m = bits_contain_u8(ft.0, 1);
    let a = bits_contain_u8(ft.0, 4);
    (
        (if v || m {
            seq![SUBSCRIBE_METADATA@]
        } else {
            Seq::empty()
        }) + (if v {
            seq![
                if preview {
                    PREVIEW_ON@
                } else {
                    PREVIEW_OFF@
                },
                SUBSCRIBE_VIDEO@,
                q,
            ]
        } else {
            Seq::empty()
        }) + (if audio_on_av && a {
            seq![SUBSCRIBE_AUDIO@]
        } else {
            Seq::empty()
        }),
        if a {
            seq![SUBSCRIBE_AUDIO@]
        } else {
            Seq::empty()
        },
    )
}

/// The control messages for the video socket and for the audio socket.
pub fn subscription_messages(frame_types: FrameType, quality: Quality, preview: bool, include_audio_on_av: bool) -> (r: (Vec<String>, Vec<String>))
    ensures
        (r.0.deep_view(), r.1.deep_view()) == subscription_texts(frame_types, quality, preview, include_audio_on_av),
{
    let quality_xml = suggested_quality_xml(quality);
    let mut av: Vec<String> = Vec::new();
    let mut audio: Vec<String> = Vec::new();
    let v = frame_types.contains(FrameType::video());
    let m = frame_types.contains(FrameType::metadata());
    let a = frame_types.contains(FrameType::audio());
    if v || m {
        av.push(owned(SUBSCRIBE_METADATA));
    }
    let ghost first = av.deep_view();
    if v {
        av.push(owned(if preview {
            PREVIEW_ON
        } else {
            PREVIEW_OFF
        }));
        av.push(owned(SUBSCRIBE_VIDEO));
        av.push(quality_xml);
    }
    let ghost second = av.deep_view();
    if include_audio_on_av && a {
        av.push(owned(SUBSCRIBE_AUDIO));
    }
    if a {
        audio.push(owned(SUBSCRIBE_AUDIO));
    }
    let ghost t = subscription_texts(frame_types, quality, preview, include_audio_on_av);
    assert(av.deep_view() =~= t.0);
    assert(audio.deep_view() =~= t.1);
    (av, audio)
}

/// `v` when positive, else 0.
pub open spec fn count_of(v: i32) -> nat {
    if v > 0 {
        v as nat
    } else {
        0
    }
}

/// The planar samples an FPA1 payload decodes to, when it decodes: 1 to 32
/// channels, the payload holding every active channel, sizes in range.
pub open spec fn fpa1_decoded(data: Seq<u8>, channels: nat, samples: nat, active: u32) -> Option<Seq<u8>> {
    let expected = crate::codec::fpa1::active_below(active, 32) * samples * 4;
    let need = channels * samples * 4;
    if 1 <= channels <= 32 && expected <= usize::MAX && data.len() >= expected && need <= usize::MAX {
        Some(fpa1_planes(data, active, channels, samples * 4))
    } else {
        None
    }
}

/// Decode an FPA1 audio frame into planar samples (`None` when it is not
/// FPA1 audio, its payload exceeds the audio maximum, or it does not decode).
pub fn decode_audio_frame(frame: AssembledFrame, pcm_scratch: &mut Vec<u8>) -> (r: Option<DecodedAudioFrame>)
    ensures
        match frame.audio {
            Some(a) => if a.codec == Codec::Fpa1 && frame.data@.len() <= AUDIO_MAX_SIZE {
                match fpa1_decoded(frame.data@, count_of(a.channels), count_of(a.samples_per_channel), a.active_channels) {
                    Some(pcm) => r matches Some(d) && d.timestamp == frame.header.timestamp
                        && d.sample_rate == a.sample_rate && d.channels == a.channels
                        && d.samples_per_channel == a.samples_per_channel && d.active_channels
                        == a.active_channels && d.pcm_planar_f32@ == pcm && d.frame_metadata is None,
                    None => r is None,
                }
            } else {
                r is None
            },
            None => r is None,
        },
{
    let a = match frame.audio {
        Some(a) => a,
        None => return None,
    };
    match a.codec {
        Codec::Fpa1 => {},
        _ => return None,
    }
    if frame.data.len() > AUDIO_MAX_SIZE {
        return None;
    }
    let channels: usize = if a.channels > 0 {
        a.channels as usize
    } else {
        0
    };
    let samples: usize = if a.samples_per_channel > 0 {
        a.samples_per_channel as usize
    } else {
        0
    };
    match decode_planar_into(frame.data.as_slice(), channels, samples, a.active_channels, pcm_scratch) {
        Ok(()) => {},
        Err(_) => return None,
    }
    let pcm = vstd::slice::slice_to_vec(pcm_scratch.as_slice());
    Some(DecodedAudioFrame {
        timestamp: frame.header.timestamp,
        sample_rate: a.sample_rate,
        channels: a.channels,
        samples_per_channel: a.samples_per_channel,
        active_channels: a.active_channels,
        pcm_planar_f32: pcm,
        frame_metadata: None,
    })
}

/// What the receiver does with a frame read from a media socket.
#[derive(Debug, Clone, Copy, PartialEq, Eq)]
pub enum AvAction {
    /// Drop a video frame that cannot be decoded here (counted).
    DropVideo,
    /// Queue compressed video for decoding.
    QueueVideo {
        /// Decode as 1/8 preview.
        preview: bool,
        /// Frame rate denominator (at least 1).
        frame_rate_d: i32,
    },
    /// Decode FPA1 audio on this socket.
    DecodeAudio,
    /// Hand over as a metadata frame.
    Metadata,
    /// Nothing to do.
    Ignore,
}

/// What happens to a frame: video that is VMX1, without alpha or high bit
/// depth and within the size limit is queued (others dropped); audio is
/// decoded when this socket decodes audio; metadata is handed over.
pub open spec fn av_action(h: crate::protocol::frame::FrameHeader, video: Option<VideoHeader>, data_len: nat, decode_audio_here: bool) -> AvAction {
    if bits_contain_u8(h.frame_type.0, 2) {
        match video {
            None => AvAction::DropVideo,
            Some(v) => if v.codec != Codec::Vmx1 || bits_contain_i32(v.flags.0, 2) || bits_contain_i32(v.flags.0, 16)
                || data_len > VIDEO_MAX_SIZE {
                AvAction::DropVideo
            } else {
                AvAction::QueueVideo {
                    preview: bits_contain_i32(v.flags.0, 8),
                    frame_rate_d: if v.frame_rate_d >= 1 {
                        v.frame_rate_d
                    } else {
                        1
                    },
                }
            },
        }
    } else if bits_contain_u8(h.frame_type.0, 4) && decode_audio_here {
        AvAction::DecodeAudio
    } else if bits_contain_u8(h.frame_type.0, 1) {
        AvAction::Metadata
    } else {
        AvAction::Ignore
    }
}

/// Whether `c` is VMX1.
fn is_vmx1(c: Codec) -> (r: bool)
    ensures
        r == (c == Codec::Vmx1),
{
    match c {
        Codec::Vmx1 => true,
        _ => false,
    }
}

/// Decide what to do with a frame read from a media socket.
pub fn classify_av_frame(frame: &AssembledFrame, decode_audio_here: bool) -> (r: AvAction)
    ensures
        r == av_action(frame.header, frame.video, frame.data@.len(), decode_audio_here),
{
    let ft = frame.header.frame_type;
    if ft.contains(FrameType::video()) {
        match frame.video {
            None => AvAction::DropVideo,
            Some(v) => {
                if !is_vmx1(v.codec) || v.flags.contains(crate::types::VideoFlags::alpha())
                    || v.flags.contains(crate::types::VideoFlags::high_bit_depth())
                    || frame.data.len() > VIDEO_MAX_SIZE {
                    AvAction::DropVideo
                } else {
                    AvAction::QueueVideo {
                        preview: v.flags.contains(crate::types::VideoFlags::preview()),
                        frame_rate_d: if v.frame_rate_d >= 1 {
                            v.frame_rate_d
                        } else {
                            1
                        },
                    }
                }
            },
        }
    } else if ft.contains(FrameType::audio()) && decode_audio_here {
        AvAction::DecodeAudio
    } else if ft.contains(FrameType::metadata()) {
        AvAction::Metadata
    } else {
        AvAction::Ignore
    }
}

/// What `String::from_utf8_lossy` makes of `bytes`.
pub uninterp spec fn utf8_lossy(bytes: Seq<u8>) -> Seq<char>;

/// `String::from_utf8_lossy`: `bytes` decoded, invalid sequences replaced by
/// U+FFFD.
/// Claimed: the result is the named result `utf8_lossy` of the bytes, and
/// valid UTF-8 is decoded as is (as the documentation states).
#[verifier::external_body]
fn lossy_utf8(bytes: &[u8]) -> (r: String)
    ensures
        r@ == utf8_lossy(bytes@),
        valid_utf8(bytes@) ==> r@ == decode_utf8(bytes@),
{
    String::from_utf8_lossy(bytes).into_owned()
}

/// The per-frame metadata text of a frame: its metadata section decoded as
/// UTF-8 up to the first NUL, when present and valid.
pub open spec fn frame_meta_text(metadata: Seq<u8>) -> Option<Seq<char>> {
    if metadata.len() == 0 || !valid_utf8(before_nul(metadata)) {
        None
    } else {
        Some(decode_utf8(before_nul(metadata)))
    }
}

/// The per-frame metadata text of a frame.
pub fn frame_metadata_text(frame: &AssembledFrame) -> (r: Option<String>)
    ensures
        match frame_meta_text(frame.metadata@) {
            Some(t) => r matches Some(s) && s@ == t,
            None => r is None,
        },
{
    if frame.metadata.len() == 0 {
        return None;
    }
    match decode_metadata_xml(frame.metadata.as_slice()) {
        Ok(s) => Some(s),
        Err(_) => None,
    }
}

/// The metadata frame handed over for a frame: the per-frame metadata text
/// when there is one, else the data read as (lossy) UTF-8.
pub fn metadata_frame_of(frame: &AssembledFrame) -> (r: MetadataFrame)
    ensures
        r.timestamp == frame.header.timestamp,
        r.xml@ == match frame_meta_text(frame.metadata@) {
            Some(t) => t,
            None => if frame.data@.len() == 0 {
                Seq::empty()
            } else {
                utf8_lossy(frame.data@)
            },
        },
{
    let xml = match frame_metadata_text(frame) {
        Some(t) => t,
        None => if frame.data.len() == 0 {
            String::new()
        } else {
            lossy_utf8(frame.data.as_slice())
        },
    };
    MetadataFrame { timestamp: frame.header.timestamp, xml }
}

/// What a socket supervisor does next to get a stream.
#[derive(Debug, Clone, Copy, PartialEq, Eq)]
pub enum SupervisorStep {
    /// Stop supervising the socket.
    Stop,
    /// Read from the stream connected and subscribed before the supervisor
    /// started.
    UsePrimed,
    /// Show `Connecting`, connect, and subscribe the new stream.
    Connect,
    /// Show `Reconnecting`, count a reconnect and wait this many
    /// milliseconds (stopping when the wait is interrupted); then as
    /// `Connect`.
    WaitThenConnect(u64),
}

/// The reconnect delay after one of `ms`: doubled, at most 2 s.
pub open spec fn next_backoff(ms: u64) -> u64 {
    if 2 * ms > RECONNECT_MAX_MS {
        RECONNECT_MAX_MS
    } else {
        (2 * ms) as u64
    }
}

/// The supervisor of one media socket: the current reconnect delay and
/// whether the stream handed over at start is still to be used.
#[derive(Debug, Clone, Copy, PartialEq, Eq)]
pub struct Reconnect {
    /// Delay before the next reconnect, in milliseconds.
    pub backoff_ms: u64,
    /// The first stream was connected before the supervisor started.
    pub primed: bool,
}

impl Reconnect {
    /// A supervisor whose first stream is `primed` (already connected and
    /// subscribed) or has to be connected.
    pub fn new(primed: bool) -> (r: Reconnect)
        ensures
            r == (Reconnect { backoff_ms: RECONNECT_MIN_MS, primed }),
    {
        Reconnect { backoff_ms: RECONNECT_MIN_MS, primed }
    }

    /// The next step, when asked to `stop` or not and with the primed
    /// stream still at hand or not. Without a primed stream, every attempt
    /// but the first after a primed start waits the current delay, which
    /// then doubles up to 2 s.
    pub fn next_step(&mut self, stop: bool, primed_available: bool) -> (r: SupervisorStep)
        requires
            RECONNECT_MIN_MS <= old(self).backoff_ms <= RECONNECT_MAX_MS,
        ensures
            RECONNECT_MIN_MS <= final(self).backoff_ms <= RECONNECT_MAX_MS,
            stop ==> r == SupervisorStep::Stop && *final(self) == *old(self),
            !stop && primed_available ==> r == SupervisorStep::UsePrimed && *final(self) == (
            Reconnect { primed: false, ..*old(self) }),
            !stop && !primed_available && old(self).primed ==> r == SupervisorStep::Connect
                && *final(self) == (Reconnect { primed: false, ..*old(self) }),
            !stop && !primed_available && !old(self).primed ==> r == SupervisorStep::WaitThenConnect(
                old(self).backoff_ms,
            ) && *final(self) == (Reconnect {
                backoff_ms: next_backoff(old(self).backoff_ms),
                primed: false,
            }),
    {
        if stop {
            return SupervisorStep::Stop;
        }
        if primed_available {
            self.primed = false;
            return SupervisorStep::UsePrimed;
        }
        if self.primed {
            self.primed = false;
            return SupervisorStep::Connect;
        }
        let wait = self.backoff_ms;
        self.backoff_ms = if wait > RECONNECT_MAX_MS / 2 {
            RECONNECT_MAX_MS
        } else {
            2 * wait
        };
        SupervisorStep::WaitThenConnect(wait)
    }

    /// A stream is connected and subscribed: the delay starts over.
    pub fn connected(&mut self)
        ensures
            *final(self) == (Reconnect { backoff_ms: RECONNECT_MIN_MS, ..*old(self) }),
    {
        self.backoff_ms = RECONNECT_MIN_MS;
    }
}

/// Whether a stream obtained by `step` must be subscribed first: every
/// stream but the primed one.
pub fn needs_subscribe(step: SupervisorStep) -> (r: bool)
    ensures
        r == !(step is UsePrimed),
{
    match step {
        SupervisorStep::UsePrimed => false,
        _ => true,
    }
}

/// Whether a cached VMX decoder set up for `cached` (width, height) can
/// decode a frame of `width` × `height`; a decoder of another size, or
/// none, is replaced.
pub fn reuse_decoder(cached: Option<(i32, i32)>, width: i32, height: i32) -> (r: bool)
    ensures
        r == (cached == Some((width, height))),
{
    match cached {
        Some((w, h)) => w == width && h == height,
        None => false,
    }
}

/// Row length and size in bytes of a BGRA image of `width` × `height`
/// pixels, when both fit in memory sizes.
pub fn bgra_layout(width: u32, height: u32) -> (r: Option<(usize, usize)>)
    ensures
        match r {
            Some((stride, len)) => stride == 4 * width && len == 4 * width * height,
            None => 4 * width > usize::MAX || 4 * width * height > usize::MAX,
        },
{
    let stride: u64 = 4 * (width as u64);
    assert((stride as int) * (height as int) < 0x1_0000_0000_0000_0000_0000_0000) by (nonlinear_arith)
        requires
            stride <= 0x4_0000_0000,
            height < 0x1_0000_0000,
    ;
    let len: u128 = (stride as u128) * (height as u128);
    assert(len == 4 * width * height) by (nonlinear_arith)
        requires
            stride == 4 * width,
            len == stride * height,
    ;
    if stride > usize::MAX as u64 || len > usize::MAX as u128 {
        None
    } else {
        Some((stride as usize, len as usize))
    }
}

/// The source a receiver connects to, from its `omt://host:port[/name]`
/// address: an empty address, a URL that does not parse or one without a
/// port is refused.
pub fn receiver_address(address: &str) -> (r: Result<OmtAddress, OmtError>)
    ensures
        address@.len() == 0 ==> (r matches Err(OmtError::InvalidArgument(m)) && m@
            == "receiver address is empty"@),
        address@.len() > 0 ==> match url_fields(address@) {
            Ok((name, port, host)) => if port == 0 {
                r matches Err(OmtError::InvalidArgument(m)) && m@
                    == "receiver URL must include a port"@
            } else {
                r matches Ok(a) && address_view(a) == limited_view(Seq::empty(), name, port,
                    seq![host], false)
            },
            Err(m) => r matches Err(OmtError::InvalidArgument(msg)) && msg@ == m,
        },
{
    if address.is_empty() {
        return Err(OmtError::InvalidArgument(owned("receiver address is empty")));
    }
    let parsed = OmtAddress::from_url(address)?;
    if parsed.port == 0 {
        return Err(OmtError::InvalidArgument(owned("receiver URL must include a port")));
    }
    Ok(parsed)
}

/// Which media sockets a receiver opens for `frame_types`: the video
/// socket for video or metadata (or when nothing is asked for), the audio
/// socket for audio.
pub fn wanted_sockets(frame_types: FrameType) -> (r: (bool, bool))
    ensures
        r.0 == (bits_contain_u8(frame_types.0, 2) || bits_contain_u8(frame_types.0, 1)
            || frame_types.0 == 0),
        r.1 == bits_contain_u8(frame_types.0, 4),
{
    (frame_types.contains(FrameType::video()) || frame_types.contains(FrameType::metadata())
        || frame_types.0 == 0, frame_types.contains(FrameType::audio()))
}

} // verus!
