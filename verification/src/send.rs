//! The sender's decisions: per-peer control state, what a peer receives, and
//! the wire frame built for each media frame.
//!
//! Sockets, threads and queues live with the caller; this module decides.
use vstd::prelude::*;
use crate::clock::{
    TimestampClock, resolve_timestamp, AUTO_TIMESTAMP, ClockState, fresh_clock, resolved,
    duration_ticks,
};
use crate::codec::fpa1::{encode_planar, fpa1_payload, active_mask, channels_view, same_lengths};
use crate::error::OmtError;
use crate::protocol::frame::{
    AssembledFrame, AudioHeader, FrameHeader, FrameModel, VideoHeader, PROTOCOL_VERSION,
    VIDEO_EXT_HEADER_SIZE, AUDIO_EXT_HEADER_SIZE, HEADER_SIZE, parse_header, parse_frame,
    frame_bytes,
};
use crate::protocol::le::{read_u32_le, u32_from_le};
use crate::protocol::metadata::{
    encode_metadata_xml, decode_metadata_xml, before_nul, PREVIEW_OFF, PREVIEW_ON, SUBSCRIBE_AUDIO, SUBSCRIBE_METADATA,
    SUBSCRIBE_VIDEO, TALLY_NONE, TALLY_PREVIEW, TALLY_PROGRAM, TALLY_PREVIEW_PROGRAM, tally_text,
    normalized_tally,
};
use crate::text::{str_chars, str_eq, find_from, find_chars, chars_eq, no_match_at, lemma_find_skip};
use crate::types::{
    bits_contain_u8, codec_from_value, quality_value, sender_info_xml, Codec, ColorSpace, FrameType,
    Quality, SenderInfo, Tally,
    VideoFlags, NETWORK_ASYNC_COUNT, NETWORK_SEND_BUFFER, NETWORK_SEND_RECEIVE_BUFFER,
};
use vstd::utf8::{encode_utf8, decode_utf8, valid_utf8};

verus! {

broadcast use vstd::string::group_string_axioms;

/// Sender transport / buffering configuration (libomtnet defaults: 64 KiB
/// socket buffers, four queued frames per media type).
#[derive(Debug, Clone, Copy, PartialEq, Eq)]
pub struct SenderConfig {
    /// TCP `SO_SNDBUF` for peer connections.
    pub send_buffer: usize,
    /// TCP `SO_RCVBUF` for peer connections.
    pub recv_buffer: usize,
    /// Frames queued for socket writes per media type (`0` = write inline);
    /// a frame that finds the queue full is dropped.
    pub send_queue_depth: usize,
}

impl Default for SenderConfig {
    fn default() -> (r: SenderConfig)
        ensures
            r == (SenderConfig {
                send_buffer: NETWORK_SEND_BUFFER,
                recv_buffer: NETWORK_SEND_RECEIVE_BUFFER,
                send_queue_depth: NETWORK_ASYNC_COUNT,
            }),
    {
        SenderConfig {
            send_buffer: NETWORK_SEND_BUFFER,
            recv_buffer: NETWORK_SEND_RECEIVE_BUFFER,
            send_queue_depth: NETWORK_ASYNC_COUNT,
        }
    }
}

/// What one peer asked for: subscriptions, preview, quality and tally.
#[derive(Debug, Clone, Copy, PartialEq, Eq)]
pub struct PeerState {
    /// Video subscribed.
    pub video: bool,
    /// Audio subscribed.
    pub audio: bool,
    /// Metadata subscribed.
    pub metadata: bool,
    /// Preview video requested.
    pub preview: bool,
    /// Suggested quality.
    pub quality: Quality,
    /// Tally reported by the peer.
    pub tally: Tally,
}

/// The state of a peer that has asked for nothing.
pub open spec fn initial_peer() -> PeerState {
    PeerState {
        video: false,
        audio: false,
        metadata: false,
        preview: false,
        quality: Quality::Default,
        tally: Tally { preview: 0, program: 0 },
    }
}

impl PeerState {
    /// A peer that has asked for nothing yet.
    pub fn new() -> (r: PeerState)
        ensures
            r == initial_peer(),
    {
        PeerState {
            video: false,
            audio: false,
            metadata: false,
            preview: false,
            quality: Quality::Default,
            tally: Tally { preview: 0, program: 0 },
        }
    }
}

/// Whether `pat` occurs in `s`.
pub open spec fn has_text(s: Seq<char>, pat: Seq<char>) -> bool {
    find_from(s, pat, 0) is Some
}

/// The quality a `<OMTSettings Quality="…` message names: the text up to
/// the next `"` (or the end), with unknown names meaning `Default`.
pub open spec fn named_quality(rest: Seq<char>) -> Quality {
    let name = match find_from(rest, seq!['"'], 0) {
        Some(k) => rest.take(k),
        None => rest,
    };
    if name == "Low"@ {
        Quality::Low
    } else if name == "Medium"@ {
        Quality::Medium
    } else if name == "High"@ {
        Quality::High
    } else {
        Quality::Default
    }
}

/// The text that starts quality suggestions.
pub open spec fn quality_prefix() -> Seq<char> {
    "<OMTSettings Quality=\""@
}

/// A peer's state after one control message: the exact subscribe and
/// preview strings, a quality suggestion by prefix, and a tally by its
/// attribute texts (accepting the libomtnet `Program==` form).
pub open spec fn applied_metadata(s: PeerState, xml: Seq<char>) -> PeerState {
    if xml == SUBSCRIBE_VIDEO@ {
        PeerState { video: true, ..s }
    } else if xml == SUBSCRIBE_AUDIO@ {
        PeerState { audio: true, ..s }
    } else if xml == SUBSCRIBE_METADATA@ {
        PeerState { metadata: true, ..s }
    } else if xml == PREVIEW_ON@ {
        PeerState { preview: true, ..s }
    } else if xml == PREVIEW_OFF@ {
        PeerState { preview: false, ..s }
    } else if xml.len() >= quality_prefix().len() && xml.take(quality_prefix().len() as int)
        == quality_prefix() {
        PeerState { quality: named_quality(xml.skip(quality_prefix().len() as int)), ..s }
    } else if has_text(xml, "OMTTally"@) {
        PeerState {
            tally: Tally {
                preview: if has_text(xml, "Preview=\"true\""@) {
                    1
                } else {
                    0
                },
                program: if has_text(xml, "Program==\"true\""@) || has_text(xml, "Program=\"true\""@) {
                    1
                } else {
                    0
                },
            },
            ..s
        }
    } else {
        s
    }
}

proof fn lemma_has_text_at(s: Seq<char>, pat: Seq<char>, from: int, k: int)
    requires
        0 <= from <= k,
        k + pat.len() <= s.len(),
        s.subrange(k, k + pat.len()) == pat,
    ensures
        find_from(s, pat, from) is Some,
    decreases k - from,
{
    if from < k && s.subrange(from, from + pat.len()) != pat {
        lemma_has_text_at(s, pat, from + 1, k);
    }
}

/// The tally texts: which attribute texts each holds.
proof fn lemma_tally_texts()
    ensures
        has_text(TALLY_PREVIEW@, "Preview=\"true\""@),
        has_text(TALLY_PREVIEW_PROGRAM@, "Preview=\"true\""@),
        !has_text(TALLY_PROGRAM@, "Preview=\"true\""@),
        !has_text(TALLY_NONE@, "Preview=\"true\""@),
        has_text(TALLY_PROGRAM@, "Program==\"true\""@),
        has_text(TALLY_PREVIEW_PROGRAM@, "Program==\"true\""@),
        !has_text(TALLY_PREVIEW@, "Program==\"true\""@),
        !has_text(TALLY_NONE@, "Program==\"true\""@),
        !has_text(TALLY_PREVIEW@, "Program=\"true\""@),
        !has_text(TALLY_PROGRAM@, "Program=\"true\""@),
        !has_text(TALLY_PREVIEW_PROGRAM@, "Program=\"true\""@),
        !has_text(TALLY_NONE@, "Program=\"true\""@),
{
    reveal_strlit("<OMTTally Preview=\"true\" Program==\"false\" />");
    reveal_strlit("<OMTTally Preview=\"false\" Program==\"true\" />");
    reveal_strlit("<OMTTally Preview=\"true\" Program==\"true\" />");
    reveal_strlit("<OMTTally Preview=\"false\" Program==\"false\" />");
    reveal_strlit("Preview=\"true\"");
    reveal_strlit("Program==\"true\"");
    reveal_strlit("Program=\"true\"");
    let pv = "Preview=\"true\""@;
    let pg2 = "Program==\"true\""@;
    let pg1 = "Program=\"true\""@;
    assert(TALLY_PREVIEW@.subrange(10, 24) =~= pv);
    lemma_has_text_at(TALLY_PREVIEW@, pv, 0, 10);
    assert(TALLY_PREVIEW_PROGRAM@.subrange(10, 24) =~= pv);
    lemma_has_text_at(TALLY_PREVIEW_PROGRAM@, pv, 0, 10);
    assert(TALLY_PROGRAM@.subrange(26, 41) =~= pg2);
    lemma_has_text_at(TALLY_PROGRAM@, pg2, 0, 26);
    assert(TALLY_PREVIEW_PROGRAM@.subrange(25, 40) =~= pg2);
    lemma_has_text_at(TALLY_PREVIEW_PROGRAM@, pg2, 0, 25);
    let ts = seq![TALLY_PREVIEW@, TALLY_PROGRAM@, TALLY_PREVIEW_PROGRAM@, TALLY_NONE@];
    assert forall|j: int| 0 <= j < TALLY_PROGRAM@.len() implies #[trigger] no_match_at(
        TALLY_PROGRAM@,
        pv,
        j,
    ) by {
        let t = TALLY_PROGRAM@;
        if j + pv.len() <= t.len() && t.subrange(j, j + pv.len()) == pv {
            assert(t[j] == pv[0] && t[j + 2] == pv[2] && t[j + 9] == pv[9]);
        }
    }
    lemma_find_skip(TALLY_PROGRAM@, pv, 0, TALLY_PROGRAM@.len() as int);
    assert forall|j: int| 0 <= j < TALLY_NONE@.len() implies #[trigger] no_match_at(
        TALLY_NONE@,
        pv,
        j,
    ) by {
        let t = TALLY_NONE@;
        if j + pv.len() <= t.len() && t.subrange(j, j + pv.len()) == pv {
            assert(t[j] == pv[0] && t[j + 2] == pv[2] && t[j + 9] == pv[9]);
        }
    }
    lemma_find_skip(TALLY_NONE@, pv, 0, TALLY_NONE@.len() as int);
    assert forall|j: int| 0 <= j < TALLY_PREVIEW@.len() implies #[trigger] no_match_at(
        TALLY_PREVIEW@,
        pg2,
        j,
    ) by {
        let t = TALLY_PREVIEW@;
        if j + pg2.len() <= t.len() && t.subrange(j, j + pg2.len()) == pg2 {
            assert(t[j] == pg2[0] && t[j + 2] == pg2[2] && t[j + 10] == pg2[10]);
        }
    }
    lemma_find_skip(TALLY_PREVIEW@, pg2, 0, TALLY_PREVIEW@.len() as int);
    assert forall|j: int| 0 <= j < TALLY_NONE@.len() implies #[trigger] no_match_at(
        TALLY_NONE@,
        pg2,
        j,
    ) by {
        let t = TALLY_NONE@;
        if j + pg2.len() <= t.len() && t.subrange(j, j + pg2.len()) == pg2 {
            assert(t[j] == pg2[0] && t[j + 2] == pg2[2] && t[j + 10] == pg2[10]);
        }
    }
    lemma_find_skip(TALLY_NONE@, pg2, 0, TALLY_NONE@.len() as int);
    assert forall|i: int, j: int| 0 <= i < 4 && 0 <= j < ts[i].len() implies #[trigger] no_match_at(
        ts[i],
        pg1,
        j,
    ) by {
        let t = ts[i];
        if j + pg1.len() <= t.len() && t.subrange(j, j + pg1.len()) == pg1 {
            assert(t[j] == pg1[0] && t[j + 2] == pg1[2] && t[j + 8] == pg1[8]);
        }
    }
    assert forall|i: int| 0 <= i < 4 implies find_from(#[trigger] ts[i], pg1, 0) is None by {
        lemma_find_skip(ts[i], pg1, 0, ts[i].len() as int);
    }
    assert(ts[0] == TALLY_PREVIEW@ && ts[1] == TALLY_PROGRAM@ && ts[2] == TALLY_PREVIEW_PROGRAM@
        && ts[3] == TALLY_NONE@);
}

/// A tally state that a receiver sends is taken by the sender as that state,
/// each light on exactly when it was non-zero; nothing else of the peer's
/// state changes.
pub proof fn lemma_tally_applied(s: PeerState, t: Tally)
    ensures
        applied_metadata(s, tally_text(t)) == (PeerState { tally: normalized_tally(t), ..s }),
{
    let x = tally_text(t);
    lemma_tally_texts();
    reveal_strlit("<OMTTally Preview=\"true\" Program==\"false\" />");
    reveal_strlit("<OMTTally Preview=\"false\" Program==\"true\" />");
    reveal_strlit("<OMTTally Preview=\"true\" Program==\"true\" />");
    reveal_strlit("<OMTTally Preview=\"false\" Program==\"false\" />");
    reveal_strlit("<OMTSubscribe Video=\"true\" />");
    reveal_strlit("<OMTSubscribe Audio=\"true\" />");
    reveal_strlit("<OMTSubscribe Metadata=\"true\" />");
    reveal_strlit("<OMTSettings Preview=\"true\" />");
    reveal_strlit("<OMTSettings Preview=\"false\" />");
    reveal_strlit("<OMTSettings Quality=\"");
    reveal_strlit("OMTTally");
    assert(x.len() >= 43);
    assert(x.take(quality_prefix().len() as int)[4] != quality_prefix()[4]);
    assert(x.subrange(1, 9) =~= "OMTTally"@);
    lemma_has_text_at(x, "OMTTally"@, 0, 1);
}

/// Whether `pat` occurs in `cs`.
fn contains_text(cs: &[char], pat: &str) -> (r: bool)
    ensures
        r == has_text(cs@, pat@),
{
    let p = str_chars(pat);
    find_chars(cs, p.as_slice(), 0).is_some()
}

/// Apply one control message from a peer to its state.
pub fn apply_metadata(state: &mut PeerState, xml: &str)
    ensures
        *final(state) == applied_metadata(*old(state), xml@),
{
    let cs = str_chars(xml);
    if str_eq(xml, SUBSCRIBE_VIDEO) {
        state.video = true;
    } else if str_eq(xml, SUBSCRIBE_AUDIO) {
        state.audio = true;
    } else if str_eq(xml, SUBSCRIBE_METADATA) {
        state.metadata = true;
    } else if str_eq(xml, PREVIEW_ON) {
        state.preview = true;
    } else if str_eq(xml, PREVIEW_OFF) {
        state.preview = false;
    } else if starts_with_quality(cs.as_slice()) {
        proof {
            reveal_strlit("<OMTSettings Quality=\"");
        }
        let pl: usize = 22;
        let rest = crate::text::string_of(cs.as_slice(), pl, cs.len());
        let rcs = str_chars(rest.as_str());
        assert(rcs@ =~= xml@.skip(22));
        let quote: Vec<char> = vec!['"'];
        assert(quote@ =~= seq!['"']);
        let end = match find_chars(rcs.as_slice(), quote.as_slice(), 0) {
            Some(k) => k,
            None => rcs.len(),
        };
        proof {
            crate::text::lemma_find_from_bounds(rcs@, seq!['"'], 0);
        }
        let q = if chars_eq(rcs.as_slice(), 0, end, "Low") {
            Quality::Low
        } else if chars_eq(rcs.as_slice(), 0, end, "Medium") {
            Quality::Medium
        } else if chars_eq(rcs.as_slice(), 0, end, "High") {
            Quality::High
        } else {
            Quality::Default
        };
        proof {
            assert(rcs@.subrange(0, end as int) =~= match find_from(rcs@, seq!['"'], 0) {
                Some(k) => rcs@.take(k),
                None => rcs@,
            });
        }
        state.quality = q;
    } else if contains_text(cs.as_slice(), "OMTTally") {
        let preview: i32 = if contains_text(cs.as_slice(), "Preview=\"true\"") {
            1
        } else {
            0
        };
        let program: i32 = if contains_text(cs.as_slice(), "Program==\"true\"") || contains_text(
            cs.as_slice(),
            "Program=\"true\"",
        ) {
            1
        } else {
            0
        };
        state.tally = Tally { preview, program };
    }
}

/// Whether `cs` starts with `<OMTSettings Quality="`.
fn starts_with_quality(cs: &[char]) -> (r: bool)
    ensures
        r == (cs@.len() >= quality_prefix().len() && cs@.take(quality_prefix().len() as int)
            == quality_prefix()),
{
    proof {
        reveal_strlit("<OMTSettings Quality=\"");
    }
    if cs.len() < 22 {
        return false;
    }
    let r = chars_eq(cs, 0, 22, "<OMTSettings Quality=\"");
    assert(cs@.subrange(0, 22) =~= cs@.take(22));
    r
}

/// Whether a peer in state `s` receives a frame of type `ft`: metadata-only
/// frames always, video and audio when subscribed.
pub open spec fn wants(s: PeerState, ft: FrameType) -> bool {
    if bits_contain_u8(ft.0, 1) && !bits_contain_u8(ft.0, 2) && !bits_contain_u8(ft.0, 4) {
        true
    } else if bits_contain_u8(ft.0, 2) {
        s.video
    } else if bits_contain_u8(ft.0, 4) {
        s.audio
    } else {
        true
    }
}

/// Whether a peer receives a frame of the given type.
pub fn peer_wants(state: &PeerState, ft: FrameType) -> (r: bool)
    ensures
        r == wants(*state, ft),
{
    if ft.contains(FrameType::metadata()) && !ft.contains(FrameType::video()) && !ft.contains(
        FrameType::audio(),
    ) {
        return true;
    }
    if ft.contains(FrameType::video()) {
        return state.video;
    }
    if ft.contains(FrameType::audio()) {
        return state.audio;
    }
    true
}

/// The better of two qualities (the first on a tie).
pub open spec fn better_quality(best: Quality, q: Quality) -> Quality {
    if quality_value(q) > quality_value(best) {
        q
    } else {
        best
    }
}

/// What all peers together asked for: each flag set when any peer set it,
/// tally lights or-ed, the highest suggested quality.
pub open spec fn combined(peers: Seq<PeerState>) -> PeerState
    decreases peers.len(),
{
    if peers.len() == 0 {
        initial_peer()
    } else {
        let a = combined(peers.drop_last());
        let s = peers.last();
        PeerState {
            video: a.video || s.video,
            audio: a.audio || s.audio,
            metadata: a.metadata || s.metadata,
            preview: a.preview || s.preview,
            quality: better_quality(a.quality, s.quality),
            tally: Tally { preview: a.tally.preview | s.tally.preview, program: a.tally.program | s.tally.program },
        }
    }
}

/// The sender's aggregate state: [`combined`] over the peers, with the
/// sender's own quality policy winning unless it is `Default`.
pub open spec fn subscriptions(peers: Seq<PeerState>, local: Quality) -> PeerState {
    PeerState {
        quality: if local == Quality::Default {
            combined(peers).quality
        } else {
            local
        },
        ..combined(peers)
    }
}

/// The peers' requests combined: the quality ranks at least as high as
/// every peer's suggestion and is one of them (`Default` when there are no
/// peers); each flag is set exactly when some peer set it.
pub proof fn lemma_combined_highest(peers: Seq<PeerState>)
    ensures
        forall|i: int|
            0 <= i < peers.len() ==> quality_value(combined(peers).quality) >= quality_value(
                #[trigger] peers[i].quality,
            ),
        combined(peers).quality == Quality::Default || exists|i: int|
            0 <= i < peers.len() && combined(peers).quality == #[trigger] peers[i].quality,
        combined(peers).video == exists|i: int| 0 <= i < peers.len() && #[trigger] peers[i].video,
        combined(peers).audio == exists|i: int| 0 <= i < peers.len() && #[trigger] peers[i].audio,
        combined(peers).metadata == exists|i: int|
            0 <= i < peers.len() && #[trigger] peers[i].metadata,
        combined(peers).preview == exists|i: int|
            0 <= i < peers.len() && #[trigger] peers[i].preview,
    decreases peers.len(),
{
    if peers.len() > 0 {
        let p = peers.drop_last();
        lemma_combined_highest(p);
        let n = peers.len() - 1;
        assert forall|i: int| 0 <= i < n implies #[trigger] peers[i] == p[i] by {}
        assert(peers[n] == peers.last());
        let a = combined(p);
        let q = combined(peers).quality;
        assert forall|i: int| 0 <= i < peers.len() implies quality_value(q) >= quality_value(
            #[trigger] peers[i].quality,
        ) by {
            if i < n {
                assert(peers[i] == p[i]);
            }
        }
        if q != Quality::Default {
            if q == peers.last().quality {
                assert(peers[n].quality == q);
            } else {
                assert(q == a.quality);
                let j = choose|j: int| 0 <= j < p.len() && a.quality == #[trigger] p[j].quality;
                assert(peers[j] == p[j]);
            }
        }
        if combined(peers).video {
            if !peers.last().video {
                let j = choose|j: int| 0 <= j < p.len() && #[trigger] p[j].video;
                assert(peers[j] == p[j]);
            } else {
                assert(peers[n].video);
            }
        }
        if combined(peers).audio {
            if !peers.last().audio {
                let j = choose|j: int| 0 <= j < p.len() && #[trigger] p[j].audio;
                assert(peers[j] == p[j]);
            } else {
                assert(peers[n].audio);
            }
        }
        if combined(peers).metadata {
            if !peers.last().metadata {
                let j = choose|j: int| 0 <= j < p.len() && #[trigger] p[j].metadata;
                assert(peers[j] == p[j]);
            } else {
                assert(peers[n].metadata);
            }
        }
        if combined(peers).preview {
            if !peers.last().preview {
                let j = choose|j: int| 0 <= j < p.len() && #[trigger] p[j].preview;
                assert(peers[j] == p[j]);
            } else {
                assert(peers[n].preview);
            }
        }
    }
}

/// What the sender asks for on behalf of all peers: with no local quality
/// policy (`Default`) the quality is the highest-ranked suggestion of any
/// peer and is one of the peers' suggestions (`Default` with no peers);
/// otherwise it is the local policy. Each subscription flag is set exactly
/// when some peer set it.
pub proof fn lemma_subscriptions_highest(peers: Seq<PeerState>, local: Quality)
    ensures
        local == Quality::Default ==> forall|i: int|
            0 <= i < peers.len() ==> quality_value(subscriptions(peers, local).quality)
                >= quality_value(#[trigger] peers[i].quality),
        local == Quality::Default ==> (subscriptions(peers, local).quality == Quality::Default
            || exists|i: int|
            0 <= i < peers.len() && subscriptions(peers, local).quality == #[trigger] peers[i].quality),
        local == Quality::Default && peers.len() == 0 ==> subscriptions(peers, local).quality
            == Quality::Default,
        local != Quality::Default ==> subscriptions(peers, local).quality == local,
        subscriptions(peers, local).video == exists|i: int|
            0 <= i < peers.len() && #[trigger] peers[i].video,
        subscriptions(peers, local).audio == exists|i: int|
            0 <= i < peers.len() && #[trigger] peers[i].audio,
        subscriptions(peers, local).metadata == exists|i: int|
            0 <= i < peers.len() && #[trigger] peers[i].metadata,
        subscriptions(peers, local).preview == exists|i: int|
            0 <= i < peers.len() && #[trigger] peers[i].preview,
{
    lemma_combined_highest(peers);
}

/// Aggregate the peers' requests.
pub fn recompute_subscriptions(peers: &[PeerState], local_quality: Quality) -> (r: PeerState)
    ensures
        r == subscriptions(peers@, local_quality),
        local_quality == Quality::Default ==> forall|i: int|
            0 <= i < peers@.len() ==> quality_value(r.quality) >= quality_value(
                #[trigger] peers@[i].quality,
            ),
        local_quality == Quality::Default ==> (r.quality == Quality::Default || exists|i: int|
            0 <= i < peers@.len() && r.quality == #[trigger] peers@[i].quality),
{
    proof {
        lemma_subscriptions_highest(peers@, local_quality);
    }
    let mut agg = PeerState::new();
    let mut i: usize = 0;
    while i < peers.len()
        invariant
            i <= peers@.len(),
            agg == combined(peers@.take(i as int)),
        decreases peers@.len() - i,
    {
        let s = peers[i];
        proof {
            assert(peers@.take(i + 1).drop_last() =~= peers@.take(i as int));
            assert(peers@.take(i + 1).last() == s);
        }
        agg.video = agg.video || s.video;
        agg.audio = agg.audio || s.audio;
        agg.metadata = agg.metadata || s.metadata;
        agg.preview = agg.preview || s.preview;
        agg.tally.preview = agg.tally.preview | s.tally.preview;
        agg.tally.program = agg.tally.program | s.tally.program;
        if s.quality.as_i32() > agg.quality.as_i32() {
            agg.quality = s.quality;
        }
        i = i + 1;
    }
    assert(peers@.take(peers@.len() as int) =~= peers@);
    if !is_default_quality(local_quality) {
        agg.quality = local_quality;
    }
    agg
}

/// Whether `q` is `Quality::Default`.
fn is_default_quality(q: Quality) -> (r: bool)
    ensures
        r == (q == Quality::Default),
{
    match q {
        Quality::Default => true,
        _ => false,
    }
}


/// Owned media frame (video, audio, or metadata) handed to the sender.
///
/// The display aspect ratio is kept as the bits of its `f32` value.
#[derive(Debug, Clone, PartialEq)]
pub struct MediaFrame {
    /// Frame type.
    pub frame_type: FrameType,
    /// Timestamp in 100 ns ticks (`-1` = auto).
    pub timestamp: i64,
    /// Codec FourCC as `i32`.
    pub codec: i32,
    /// Video width.
    pub width: i32,
    /// Video height.
    pub height: i32,
    /// Row stride in bytes.
    pub stride: i32,
    /// Video flags.
    pub flags: VideoFlags,
    /// Frame rate numerator.
    pub frame_rate_n: i32,
    /// Frame rate denominator.
    pub frame_rate_d: i32,
    /// Display aspect ratio (`f32` bits).
    pub aspect_ratio_bits: u32,
    /// Color space.
    pub color_space: ColorSpace,
    /// Audio sample rate.
    pub sample_rate: i32,
    /// Audio channel count.
    pub channels: i32,
    /// Samples per channel.
    pub samples_per_channel: i32,
    /// Active audio channel bitfield (FPA1).
    pub active_channels: u32,
    /// Payload bytes.
    pub data: Vec<u8>,
    /// Optional compressed VMX1 copy.
    pub compressed: Option<Vec<u8>>,
    /// Optional per-frame metadata XML.
    pub frame_metadata: Option<String>,
}

/// Bits of the `f32` value 16/9.
pub const ASPECT_16_9_BITS: u32 = 0x3FE3_8E39;

impl Default for MediaFrame {
    fn default() -> (r: MediaFrame)
        ensures
            r.frame_type == FrameType(0) && r.timestamp == 0 && r.codec == 0 && r.width == 0
                && r.height == 0 && r.stride == 0 && r.flags == VideoFlags(0) && r.frame_rate_n
                == 60 && r.frame_rate_d == 1 && r.aspect_ratio_bits == ASPECT_16_9_BITS
                && r.color_space == ColorSpace::Undefined && r.sample_rate == 0 && r.channels == 0
                && r.samples_per_channel == 0 && r.active_channels == 0 && r.data@.len() == 0
                && r.compressed is None && r.frame_metadata is None,
    {
        MediaFrame {
            frame_type: FrameType(0),
            timestamp: 0,
            codec: 0,
            width: 0,
            height: 0,
            stride: 0,
            flags: VideoFlags(0),
            frame_rate_n: 60,
            frame_rate_d: 1,
            aspect_ratio_bits: ASPECT_16_9_BITS,
            color_space: ColorSpace::Undefined,
            sample_rate: 0,
            channels: 0,
            samples_per_channel: 0,
            active_channels: 0,
            data: Vec::new(),
            compressed: None,
            frame_metadata: None,
        }
    }
}

/// The UTF-8 bytes of a frame's metadata text (none without metadata).
pub open spec fn meta_text_bytes(f: MediaFrame) -> Seq<u8> {
    match f.frame_metadata {
        Some(s) => encode_utf8(s@),
        None => Seq::empty(),
    }
}

/// The per-frame metadata section of a video or audio frame: the UTF-8
/// bytes of its metadata followed by a NUL (none without metadata).
pub open spec fn meta_bytes(f: MediaFrame) -> Seq<u8> {
    match f.frame_metadata {
        Some(s) => encode_utf8(s@).push(0u8),
        None => Seq::empty(),
    }
}

/// Planar 32-bit samples read from little-endian bytes: `channels` planes of
/// `samples` samples each.
pub open spec fn audio_planes(data: Seq<u8>, channels: nat, samples: nat) -> Seq<Seq<u32>> {
    Seq::new(
        channels,
        |c: int|
            Seq::new(
                samples,
                |k: int| u32_from_le(data.subrange(c * samples * 4 + k * 4, c * samples * 4 + k * 4 + 4)),
            ),
    )
}

/// `v` when positive, else 0.
pub open spec fn non_negative(v: i32) -> nat {
    if v > 0 {
        v as nat
    } else {
        0
    }
}

/// Whether building the frame re-encodes planar audio as FPA1.
pub open spec fn encodes_audio(f: MediaFrame) -> bool {
    !bits_contain_u8(f.frame_type.0, 2) && bits_contain_u8(f.frame_type.0, 4) && f.active_channels == 0
}

/// The wire frame for a media frame at timestamp `ts`, or the error: the
/// message of an argument error, or `None` for an FPA1 encoding error.
pub open spec fn assembled(f: MediaFrame, ts: i64) -> Result<FrameModel, Option<Seq<char>>> {
    let meta = meta_bytes(f);
    if bits_contain_u8(f.frame_type.0, 2) {
        Ok(
            (
                FrameHeader {
                    version: PROTOCOL_VERSION,
                    frame_type: FrameType(2),
                    timestamp: ts,
                    metadata_length: meta.len() as u16,
                    data_length: (VIDEO_EXT_HEADER_SIZE + f.data@.len() + meta.len()) as i32,
                },
                Some(
                    VideoHeader {
                        codec: match codec_from_value(f.codec) {
                            Some(c) => c,
                            None => Codec::Uyvy,
                        },
                        width: f.width,
                        height: f.height,
                        frame_rate_n: f.frame_rate_n,
                        frame_rate_d: f.frame_rate_d,
                        aspect_ratio_bits: f.aspect_ratio_bits,
                        flags: f.flags,
                        color_space: f.color_space,
                    },
                ),
                None,
                f.data@,
                meta,
            ),
        )
    } else if bits_contain_u8(f.frame_type.0, 4) {
        let c = non_negative(f.channels);
        let n = non_negative(f.samples_per_channel);
        let planes = audio_planes(f.data@, c, n);
        if f.active_channels == 0 && (c == 0 || n == 0) {
            Err(Some("audio frame missing geometry"@))
        } else if f.active_channels == 0 && f.data@.len() < c * n * 4 {
            Err(Some("audio frame data too short"@))
        } else if f.active_channels == 0 && c > 32 {
            Err(None)
        } else {
            let payload = if f.active_channels != 0 {
                f.data@
            } else {
                fpa1_payload(planes, c)
            };
            let active = if f.active_channels != 0 {
                f.active_channels
            } else {
                active_mask(planes, c)
            };
            Ok(
                (
                    FrameHeader {
                        version: PROTOCOL_VERSION,
                        frame_type: FrameType(4),
                        timestamp: ts,
                        metadata_length: meta.len() as u16,
                        data_length: (AUDIO_EXT_HEADER_SIZE + payload.len() + meta.len()) as i32,
                    },
                    None,
                    Some(
                        AudioHeader {
                            codec: Codec::Fpa1,
                            sample_rate: f.sample_rate,
                            samples_per_channel: f.samples_per_channel,
                            channels: f.channels,
                            active_channels: active,
                            reserved1: 0,
                        },
                    ),
                    payload,
                    meta,
                ),
            )
        }
    } else {
        let data = if f.data@.len() == 0 {
            meta_text_bytes(f)
        } else {
            f.data@
        };
        Ok(
            (
                FrameHeader {
                    version: PROTOCOL_VERSION,
                    frame_type: FrameType(1),
                    timestamp: ts,
                    metadata_length: 0,
                    data_length: data.len() as i32,
                },
                None,
                None,
                data,
                Seq::empty(),
            ),
        )
    }
}

/// Whether `r` is the result `spec` describes.
pub open spec fn built_as(r: Result<AssembledFrame, OmtError>, spec: Result<FrameModel, Option<Seq<char>>>) -> bool {
    match spec {
        Ok(m) => r matches Ok(a) && a@ == m,
        Err(Some(msg)) => r matches Err(OmtError::InvalidArgument(s)) && s@ == msg,
        Err(None) => r matches Err(e) && e is InvalidArgument,
    }
}

/// The sizes a frame must keep within the address space.
pub open spec fn frame_fits(f: MediaFrame) -> bool {
    &&& f.data@.len() + meta_bytes(f).len() + VIDEO_EXT_HEADER_SIZE <= usize::MAX
    &&& encodes_audio(f) ==> non_negative(f.channels) * non_negative(f.samples_per_channel) * 4
        <= usize::MAX
}

/// Read planar samples: `channels` planes of `samples` little-endian words.
fn read_planes(data: &[u8], channels: usize, samples: usize) -> (r: Vec<Vec<u32>>)
    requires
        channels * samples * 4 <= data@.len(),
    ensures
        channels_view(r@) == audio_planes(data@, channels as nat, samples as nat),
{
    let mut planes: Vec<Vec<u32>> = Vec::new();
    let dl = data.len();
    let mut c: usize = 0;
    while c < channels
        invariant
            c <= channels,
            dl == data@.len(),
            channels * samples * 4 <= data@.len(),
            planes@.len() == c,
            forall|j: int| 0 <= j < c ==> (#[trigger] planes@[j])@ == audio_planes(data@, channels as nat, samples as nat)[j],
        decreases channels - c,
    {
        proof {
            assert(c * samples * 4 + samples * 4 <= channels * samples * 4) by (nonlinear_arith)
                requires
                    c < channels,
            ;
            assert(c * samples <= c * samples * 4) by (nonlinear_arith);
        }
        let base = c * samples * 4;
        let mut plane: Vec<u32> = Vec::new();
        let mut k: usize = 0;
        while k < samples
            invariant
                k <= samples,
                c < channels,
                base == c * samples * 4,
                base + samples * 4 <= data@.len(),
                dl == data@.len(),
                plane@.len() == k,
                forall|j: int| 0 <= j < k ==> #[trigger] plane@[j] == u32_from_le(data@.subrange(base + j * 4, base + j * 4 + 4)),
            decreases samples - k,
        {
            proof {
                assert(k * 4 + 4 <= samples * 4) by (nonlinear_arith)
                    requires
                        k < samples,
                ;
            }
            plane.push(read_u32_le(data, base + k * 4));
            k = k + 1;
        }
        assert(plane@ =~= audio_planes(data@, channels as nat, samples as nat)[c as int]);
        planes.push(plane);
        c = c + 1;
    }
    assert(channels_view(planes@) =~= audio_planes(data@, channels as nat, samples as nat));
    planes
}

/// The metadata-only wire frame for `xml`.
pub fn metadata_frame(timestamp: i64, xml: &str) -> (r: AssembledFrame)
    ensures
        r@ == (FrameHeader {
            version: PROTOCOL_VERSION,
            frame_type: FrameType(1),
            timestamp,
            metadata_length: 0,
            data_length: encode_utf8(xml@).len() as i32,
        }, Option::<VideoHeader>::None, Option::<AudioHeader>::None, encode_utf8(xml@), Seq::<u8>::empty()),
{
    let data = encode_metadata_xml(xml);
    let n = data.len() as i32;
    let r = AssembledFrame {
        header: FrameHeader {
            version: PROTOCOL_VERSION,
            frame_type: FrameType::metadata(),
            timestamp,
            metadata_length: 0,
            data_length: n,
        },
        video: None,
        audio: None,
        data,
        metadata: Vec::new(),
    };
    assert(r.metadata@ =~= Seq::<u8>::empty());
    r
}

/// Build the wire frame for a media frame whose timestamp is resolved:
/// video keeps its payload, audio without an active-channel field is
/// FPA1-encoded from planar samples, other frames carry their data (or, when
/// it is empty, their metadata) as a metadata frame.
pub fn assemble_frame(frame: MediaFrame, timestamp: i64) -> (r: Result<AssembledFrame, OmtError>)
    requires
        frame_fits(frame),
    ensures
        built_as(r, assembled(frame, timestamp)),
{
    let ghost f = frame;
    let text: Vec<u8> = match &frame.frame_metadata {
        Some(s) => encode_metadata_xml(s.as_str()),
        None => Vec::new(),
    };
    assert(text@ == meta_text_bytes(f));
    let mut metadata: Vec<u8> = match &frame.frame_metadata {
        Some(s) => encode_metadata_xml(s.as_str()),
        None => Vec::new(),
    };
    if frame.frame_metadata.is_some() {
        metadata.push(0u8);
    }
    assert(metadata@ == meta_bytes(f));
    let metadata_length = metadata.len() as u16;
    if frame.frame_type.contains(FrameType::video()) {
        let codec = match Codec::from_i32(frame.codec) {
            Some(c) => c,
            None => Codec::Uyvy,
        };
        let video = VideoHeader {
            codec,
            width: frame.width,
            height: frame.height,
            frame_rate_n: frame.frame_rate_n,
            frame_rate_d: frame.frame_rate_d,
            aspect_ratio_bits: frame.aspect_ratio_bits,
            flags: frame.flags,
            color_space: frame.color_space,
        };
        let data_length = (VIDEO_EXT_HEADER_SIZE + frame.data.len() + metadata.len()) as i32;
        Ok(AssembledFrame {
            header: FrameHeader {
                version: PROTOCOL_VERSION,
                frame_type: FrameType::video(),
                timestamp,
                metadata_length,
                data_length,
            },
            video: Some(video),
            audio: None,
            data: frame.data,
            metadata,
        })
    } else if frame.frame_type.contains(FrameType::audio()) {
        let (payload, active) = if frame.active_channels != 0 {
            (frame.data, frame.active_channels)
        } else {
            let channels: usize = if frame.channels > 0 {
                frame.channels as usize
            } else {
                0
            };
            let samples: usize = if frame.samples_per_channel > 0 {
                frame.samples_per_channel as usize
            } else {
                0
            };
            if channels == 0 || samples == 0 {
                return Err(OmtError::InvalidArgument(crate::text::owned("audio frame missing geometry")));
            }
            let expected = channels * samples * 4;
            if frame.data.len() < expected {
                return Err(OmtError::InvalidArgument(crate::text::owned("audio frame data too short")));
            }
            let planes = read_planes(frame.data.as_slice(), channels, samples);
            proof {
                assert forall|j: int| 0 <= j < channels_view(planes@).len() implies #[trigger] channels_view(
                    planes@,
                )[j].len() == channels_view(planes@)[0].len() by {}
            }
            match encode_planar(&planes) {
                Ok(pa) => pa,
                Err(e) => return Err(e),
            }
        };
        proof {
            if f.active_channels == 0 {
                assert(payload@.len() <= f.data@.len()) by {
                    crate::codec::fpa1::lemma_payload_len_bound(
                        audio_planes(f.data@, non_negative(f.channels), non_negative(f.samples_per_channel)),
                        non_negative(f.channels),
                        non_negative(f.samples_per_channel),
                    );
                }
            }
        }
        let audio = AudioHeader {
            codec: Codec::Fpa1,
            sample_rate: frame.sample_rate,
            samples_per_channel: frame.samples_per_channel,
            channels: frame.channels,
            active_channels: active,
            reserved1: 0,
        };
        let data_length = (AUDIO_EXT_HEADER_SIZE + payload.len() + metadata.len()) as i32;
        Ok(AssembledFrame {
            header: FrameHeader {
                version: PROTOCOL_VERSION,
                frame_type: FrameType::audio(),
                timestamp,
                metadata_length,
                data_length,
            },
            video: None,
            audio: Some(audio),
            data: payload,
            metadata,
        })
    } else {
        let data = if frame.data.len() == 0 {
            text
        } else {
            frame.data
        };
        let n = data.len() as i32;
        let r = AssembledFrame {
            header: FrameHeader {
                version: PROTOCOL_VERSION,
                frame_type: FrameType::metadata(),
                timestamp,
                metadata_length: 0,
                data_length: n,
            },
            video: None,
            audio: None,
            data,
            metadata: Vec::new(),
        };
        assert(r.metadata@ =~= Seq::<u8>::empty());
        Ok(r)
    }
}

/// Builds wire frames, stamping automatic timestamps with a video clock and
/// an audio clock.
pub struct FrameBuilder {
    video_clock: TimestampClock,
    audio_clock: TimestampClock,
}

/// Frames of type `ft` are stamped by the audio clock: audio without video.
pub open spec fn audio_stamped(ft: FrameType) -> bool {
    bits_contain_u8(ft.0, 4) && !bits_contain_u8(ft.0, 2)
}

/// Frames of type `ft` are stamped by the video clock.
pub open spec fn video_stamped(ft: FrameType) -> bool {
    !audio_stamped(ft) && bits_contain_u8(ft.0, 2)
}

impl FrameBuilder {
    /// The states of the video clock and of the audio clock.
    pub closed spec fn clocks(&self) -> (ClockState, ClockState) {
        (self.video_clock.state(), self.audio_clock.state())
    }

    /// A builder with fresh clocks.
    pub fn new() -> (r: FrameBuilder)
        ensures
            r.clocks() == (fresh_clock(false), fresh_clock(true)),
    {
        FrameBuilder { video_clock: TimestampClock::new(false), audio_clock: TimestampClock::new(true) }
    }

    /// Whether the clock that stamps frames of type `ft` is ahead of the
    /// wall clock (the caller waits while it is); frames stamped by no
    /// clock never wait.
    pub fn clock_ahead(&self, ft: FrameType) -> (r: bool)
        ensures
            audio_stamped(ft) ==> exists|secs: u64, nanos: u32|
                nanos < 1_000_000_000 && r == (self.clocks().1.clock_ts > #[trigger] duration_ticks(
                    secs,
                    nanos,
                )),
            video_stamped(ft) ==> exists|secs: u64, nanos: u32|
                nanos < 1_000_000_000 && r == (self.clocks().0.clock_ts > #[trigger] duration_ticks(
                    secs,
                    nanos,
                )),
            !audio_stamped(ft) && !video_stamped(ft) ==> !r,
    {
        if ft.contains(FrameType::audio()) && !ft.contains(FrameType::video()) {
            self.audio_clock.is_ahead()
        } else if ft.contains(FrameType::video()) {
            self.video_clock.is_ahead()
        } else {
            false
        }
    }

    /// Build a wire frame for a media frame (FPA1 sparse encode for audio).
    ///
    /// The timestamp is resolved first: audio by the audio clock, video by
    /// the video clock, others from the wall clock when it is `-1`; a
    /// timestamp other than `-1` is kept.
    pub fn build_frame(&mut self, frame: MediaFrame) -> (r: Result<AssembledFrame, OmtError>)
        requires
            frame_fits(frame),
        ensures
            exists|t: i64|
                #[trigger] built_as(r, assembled(frame, t)) && if audio_stamped(frame.frame_type) {
                    resolved(
                        old(self).clocks().1,
                        frame.timestamp,
                        frame.frame_rate_n,
                        frame.frame_rate_d,
                        frame.sample_rate,
                        frame.samples_per_channel,
                        t,
                        final(self).clocks().1,
                    ) && final(self).clocks().0 == old(self).clocks().0
                } else if video_stamped(frame.frame_type) {
                    resolved(
                        old(self).clocks().0,
                        frame.timestamp,
                        frame.frame_rate_n,
                        frame.frame_rate_d,
                        0,
                        0,
                        t,
                        final(self).clocks().0,
                    ) && final(self).clocks().1 == old(self).clocks().1
                } else {
                    (frame.timestamp != AUTO_TIMESTAMP ==> t == frame.timestamp)
                        && final(self).clocks() == old(self).clocks()
                },
    {
        let is_audio = frame.frame_type.contains(FrameType::audio()) && !frame.frame_type.contains(
            FrameType::video(),
        );
        let ts = if is_audio {
            self.audio_clock.resolve(
                frame.timestamp,
                frame.frame_rate_n,
                frame.frame_rate_d,
                frame.sample_rate,
                frame.samples_per_channel,
            )
        } else if frame.frame_type.contains(FrameType::video()) {
            self.video_clock.resolve(frame.timestamp, frame.frame_rate_n, frame.frame_rate_d, 0, 0)
        } else {
            resolve_timestamp(frame.timestamp)
        };
        let ghost f = frame;
        let r = assemble_frame(frame, ts);
        assert(built_as(r, assembled(f, ts)));
        r
    }
}

/// The bytes of a control frame that carry its XML: the payload of a
/// metadata frame, the metadata section of any other.
pub open spec fn control_bytes(f: FrameModel) -> Seq<u8> {
    if bits_contain_u8(f.0.frame_type.0, 1) {
        f.3
    } else {
        f.4
    }
}

/// A peer's state after one frame it sent: its XML applied when it is
/// UTF-8 (up to the first NUL), unchanged otherwise.
pub open spec fn applied_frame(s: PeerState, f: FrameModel) -> PeerState {
    let b = before_nul(control_bytes(f));
    if valid_utf8(b) {
        applied_metadata(s, decode_utf8(b))
    } else {
        s
    }
}

/// A peer's state after the bytes of one read: each whole frame at the
/// front, in turn, is applied (one that does not parse is skipped); the
/// first header that is missing, unreadable, negative or announces more
/// bytes than arrived ends the read.
pub open spec fn read_peer_bytes(s: PeerState, b: Seq<u8>) -> PeerState
    decreases b.len(),
{
    match parse_header(b) {
        None => s,
        Some(h) => if h.data_length < 0 || b.len() < 16 + h.data_length {
            s
        } else {
            let total = 16 + h.data_length;
            let s2 = match parse_frame(b.take(total)) {
                Some(f) => applied_frame(s, f),
                None => s,
            };
            read_peer_bytes(s2, b.skip(total))
        },
    }
}

/// Apply to a peer the control frames of one read from its socket (see
/// [`read_peer_bytes`]).
pub fn apply_peer_bytes(state: &mut PeerState, buf: &[u8])
    ensures
        *final(state) == read_peer_bytes(*old(state), buf@),
{
    let mut pos: usize = 0;
    assert(buf@.skip(0) =~= buf@);
    while pos < buf.len()
        invariant
            pos <= buf@.len(),
            read_peer_bytes(*old(state), buf@) == read_peer_bytes(*state, buf@.skip(pos as int)),
        decreases buf@.len() - pos,
    {
        let rest = &buf[pos..buf.len()];
        assert(rest@ =~= buf@.skip(pos as int));
        let header = match FrameHeader::from_bytes(rest) {
            Ok(h) => h,
            Err(_) => {
                return;
            },
        };
        if header.data_length < 0 {
            return;
        }
        let body = header.data_length as usize;
        if rest.len() - HEADER_SIZE < body {
            return;
        }
        let total = HEADER_SIZE + body;
        let one = &rest[0..total];
        assert(one@ =~= rest@.take(total as int));
        match AssembledFrame::from_bytes(one) {
            Ok(frame) => {
                let r = if frame.header.frame_type.contains(FrameType::metadata()) {
                    decode_metadata_xml(frame.data.as_slice())
                } else {
                    decode_metadata_xml(frame.metadata.as_slice())
                };
                match r {
                    Ok(xml) => apply_metadata(state, xml.as_str()),
                    Err(_) => {},
                }
            },
            Err(_) => {},
        }
        proof {
            assert(rest@.skip(total as int) =~= buf@.skip(pos + total));
        }
        pos = pos + total;
    }
    proof {
        assert(buf@.skip(pos as int).len() == 0);
    }
}

/// The preview variant of a video frame, whose codec payload keeps its
/// first `preview_len` bytes (the length the VMX codec reports for the
/// frame's preview): the video header gains the preview flag and the
/// header's data length is recounted. None for frames without a VMX1 video
/// header, or when `preview_len` is 0 or longer than the payload.
pub open spec fn preview_bytes(f: FrameModel, preview_len: nat) -> Option<Seq<u8>> {
    match f.1 {
        Some(v) => if v.codec != Codec::Vmx1 || preview_len == 0 || preview_len > f.3.len() {
            None
        } else {
            let data = f.3.take(preview_len as int);
            Some(frame_bytes((FrameHeader {
                data_length: (32 + preview_len + f.4.len()) as i32,
                ..f.0
            }, Some(VideoHeader { flags: VideoFlags(v.flags.0 | 8), ..v }), f.2, data, f.4)))
        },
        None => None,
    }
}

/// The wire bytes sent to preview peers for a video frame (see
/// [`preview_bytes`]).
pub fn preview_video_bytes(frame: &AssembledFrame, preview_len: usize) -> (r: Option<Vec<u8>>)
    requires
        frame.data@.len() + frame.metadata@.len() + 32 <= usize::MAX,
    ensures
        match preview_bytes(frame@, preview_len as nat) {
            Some(b) => r matches Some(v) && v@ == b,
            None => r is None,
        },
{
    let video = match frame.video {
        Some(v) => v,
        None => {
            return None;
        },
    };
    match video.codec {
        Codec::Vmx1 => {},
        _ => {
            return None;
        },
    }
    if preview_len == 0 || preview_len > frame.data.len() {
        return None;
    }
    let data = vstd::slice::slice_to_vec(&frame.data.as_slice()[0..preview_len]);
    let metadata = vstd::slice::slice_to_vec(frame.metadata.as_slice());
    let n = 32 + preview_len + frame.metadata.len();
    let preview = AssembledFrame {
        header: FrameHeader { data_length: #[verifier::truncate] (n as i32), ..frame.header },
        video: Some(VideoHeader { flags: VideoFlags(video.flags.0 | 8), ..video }),
        audio: frame.audio,
        data,
        metadata,
    };
    proof {
        assert(data@ =~= frame.data@.take(preview_len as int));
    }
    Some(preview.to_bytes())
}

/// Where an outgoing frame goes: written straight to the peers, or queued
/// for the audio or the video writer.
#[derive(Debug, Clone, Copy, PartialEq, Eq)]
pub enum Route {
    /// Metadata alone: written at once.
    Direct,
    /// Audio without video.
    AudioQueue,
    /// Everything else.
    VideoQueue,
}

/// The route of a frame of type `ft`.
pub open spec fn route_of(ft: FrameType) -> Route {
    if bits_contain_u8(ft.0, 1) && !bits_contain_u8(ft.0, 2) && !bits_contain_u8(ft.0, 4) {
        Route::Direct
    } else if bits_contain_u8(ft.0, 4) && !bits_contain_u8(ft.0, 2) {
        Route::AudioQueue
    } else {
        Route::VideoQueue
    }
}

/// The route of a frame of type `ft` (see [`route_of`]).
pub fn broadcast_route(ft: FrameType) -> (r: Route)
    ensures
        r == route_of(ft),
{
    if ft.contains(FrameType::metadata()) && !ft.contains(FrameType::video()) && !ft.contains(
        FrameType::audio(),
    ) {
        Route::Direct
    } else if ft.contains(FrameType::audio()) && !ft.contains(FrameType::video()) {
        Route::AudioQueue
    } else {
        Route::VideoQueue
    }
}

/// Whether a peer gets the preview variant of a frame of type `ft`: a
/// video frame, a peer in preview mode and a preview variant at hand.
pub fn use_preview(state: &PeerState, ft: FrameType, has_preview: bool) -> (r: bool)
    ensures
        r == (bits_contain_u8(ft.0, 2) && state.preview && has_preview),
{
    ft.contains(FrameType::video()) && state.preview && has_preview
}

/// The bytes counted as sent: the preview variant's length when the
/// aggregate subscription is in preview mode and there is one, else the
/// full frame's.
pub fn sent_len(preview_subscribed: bool, preview_len: Option<usize>, full_len: usize) -> (r: usize)
    ensures
        r == (match preview_len {
            Some(p) => if preview_subscribed {
                p
            } else {
                full_len
            },
            None => full_len,
        }),
{
    match preview_len {
        Some(p) => if preview_subscribed {
            p
        } else {
            full_len
        },
        None => full_len,
    }
}

/// Number of peers of `s` subscribed to video (`video`) or audio.
pub open spec fn subscriber_count(s: Seq<PeerState>, video: bool) -> nat
    decreases s.len(),
{
    if s.len() == 0 {
        0
    } else {
        subscriber_count(s.drop_last(), video) + if (video && s.last().video) || (!video
            && s.last().audio) {
            1nat
        } else {
            0nat
        }
    }
}

proof fn lemma_subscriber_count_bound(s: Seq<PeerState>, video: bool)
    ensures
        subscriber_count(s, video) <= s.len(),
    decreases s.len(),
{
    if s.len() > 0 {
        lemma_subscriber_count_bound(s.drop_last(), video);
    }
}

/// How many peers are subscribed to video (`video`) or to audio.
pub fn count_subscribers(peers: &[PeerState], video: bool) -> (r: usize)
    ensures
        r == subscriber_count(peers@, video),
{
    let mut n: usize = 0;
    let mut i: usize = 0;
    while i < peers.len()
        invariant
            i <= peers@.len(),
            n == subscriber_count(peers@.take(i as int), video),
        decreases peers@.len() - i,
    {
        proof {
            assert(peers@.take(i + 1).drop_last() =~= peers@.take(i as int));
            lemma_subscriber_count_bound(peers@.take(i as int), video);
        }
        let p = peers[i];
        if (video && p.video) || (!video && p.audio) {
            n = n + 1;
        }
        i = i + 1;
    }
    proof {
        assert(peers@.take(peers@.len() as int) =~= peers@);
    }
    n
}

/// Mark every peer subscribed (or not) to video, audio and metadata.
pub fn force_subscribe_all(peers: &mut Vec<PeerState>, video: bool, audio: bool, metadata: bool)
    ensures
        final(peers)@.len() == old(peers)@.len(),
        forall|i: int| 0 <= i < old(peers)@.len() ==> #[trigger] final(peers)@[i] == (PeerState {
            video,
            audio,
            metadata,
            ..old(peers)@[i]
        }),
{
    let mut i: usize = 0;
    while i < peers.len()
        invariant
            i <= peers@.len(),
            peers@.len() == old(peers)@.len(),
            forall|j: int| 0 <= j < i ==> #[trigger] peers@[j] == (PeerState { video, audio, metadata, ..old(peers)@[j] }),
            forall|j: int| i <= j < peers@.len() ==> #[trigger] peers@[j] == old(peers)@[j],
        decreases peers@.len() - i,
    {
        let p = peers[i];
        peers.set(i, PeerState { video, audio, metadata, ..p });
        i = i + 1;
    }
}

/// Put every peer in preview mode, or take them out of it.
pub fn force_preview_all(peers: &mut Vec<PeerState>, preview: bool)
    ensures
        final(peers)@.len() == old(peers)@.len(),
        forall|i: int| 0 <= i < old(peers)@.len() ==> #[trigger] final(peers)@[i] == (PeerState {
            preview,
            ..old(peers)@[i]
        }),
{
    let mut i: usize = 0;
    while i < peers.len()
        invariant
            i <= peers@.len(),
            peers@.len() == old(peers)@.len(),
            forall|j: int| 0 <= j < i ==> #[trigger] peers@[j] == (PeerState { preview, ..old(peers)@[j] }),
            forall|j: int| i <= j < peers@.len() ==> #[trigger] peers@[j] == old(peers)@[j],
        decreases peers@.len() - i,
    {
        let p = peers[i];
        peers.set(i, PeerState { preview, ..p });
        i = i + 1;
    }
}

/// A sender needs a name: an empty one is refused.
pub fn check_sender_name(name: &str) -> (r: Result<(), OmtError>)
    ensures
        name@.len() > 0 <==> r is Ok,
        r matches Err(e) ==> e matches OmtError::InvalidArgument(m) && m@ == "sender name is empty"@,
{
    if name.is_empty() {
        let m = crate::text::owned("sender name is empty");
        Err(OmtError::InvalidArgument(m))
    } else {
        Ok(())
    }
}

/// Whether a peer's socket keeps the sender's own buffer sizes (the
/// configuration asks for the defaults) or gets the configured ones.
pub fn uses_default_buffers(config: &SenderConfig) -> (r: bool)
    ensures
        r == (config.send_buffer == NETWORK_SEND_BUFFER && config.recv_buffer
            == NETWORK_SEND_RECEIVE_BUFFER),
{
    config.send_buffer == NETWORK_SEND_BUFFER && config.recv_buffer == NETWORK_SEND_RECEIVE_BUFFER
}

/// The `<OMTInfo>` frame a sender writes to each new peer, when any of the
/// product name, manufacturer or version is set: a metadata frame with
/// timestamp 0 carrying the info document.
pub fn info_frame(info: &SenderInfo) -> (r: Option<AssembledFrame>)
    ensures
        (info.product_name@.len() > 0 || info.manufacturer@.len() > 0 || info.version@.len() > 0)
            <==> r is Some,
        r matches Some(f) ==> {
            let x = encode_utf8(sender_info_xml(info.product_name@, info.manufacturer@, info.version@));
            f@ == (FrameHeader {
                version: PROTOCOL_VERSION,
                frame_type: FrameType(1),
                timestamp: 0,
                metadata_length: 0,
                data_length: x.len() as i32,
            }, Option::<VideoHeader>::None, Option::<AudioHeader>::None, x, Seq::<u8>::empty())
        },
{
    if info.product_name.as_str().is_empty() && info.manufacturer.as_str().is_empty()
        && info.version.as_str().is_empty() {
        None
    } else {
        let xml = info.to_xml();
        Some(metadata_frame(0, xml.as_str()))
    }
}

/// Whether a frame's sizes stay within the address space (see
/// [`frame_fits`]), as building it assumes.
pub fn frame_fits_memory(frame: &MediaFrame) -> (r: bool)
    ensures
        r == frame_fits(*frame),
{
    let meta_len: usize = match &frame.frame_metadata {
        Some(s) => {
            let l = s.as_str().as_bytes().len();
            if l >= usize::MAX - VIDEO_EXT_HEADER_SIZE {
                return false;
            }
            l + 1
        },
        None => 0,
    };
    let total_ok = frame.data.len() <= usize::MAX - VIDEO_EXT_HEADER_SIZE
        && meta_len <= usize::MAX - VIDEO_EXT_HEADER_SIZE - frame.data.len();
    if !total_ok {
        return false;
    }
    let encodes = !frame.frame_type.contains(FrameType::video()) && frame.frame_type.contains(
        FrameType::audio(),
    ) && frame.active_channels == 0;
    if !encodes {
        return true;
    }
    let c: u128 = if frame.channels > 0 {
        frame.channels as u128
    } else {
        0
    };
    let n: u128 = if frame.samples_per_channel > 0 {
        frame.samples_per_channel as u128
    } else {
        0
    };
    assert(c * n * 4 < 0x1_0000_0000_0000_0000_0000) by (nonlinear_arith)
        requires
            c < 0x1_0000_0000,
            n < 0x1_0000_0000,
    ;
    c * n * 4 <= usize::MAX as u128
}

} // verus!
