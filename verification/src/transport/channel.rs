//! Streaming frame reassembly over a byte stream.
use vstd::prelude::*;

use crate::error::OmtError;
use crate::protocol::frame::{
    frame_bytes, frame_well_formed, header_bytes, lemma_frame_roundtrip, lemma_frame_sections,
    lemma_header_prefix, opt_audio_bytes, opt_video_bytes,
    parse_frame, parse_header, AssembledFrame, FrameHeader, FrameModel, HEADER_SIZE,
};
use crate::types::{
    bits_contain_u8, FrameType, AUDIO_MAX_SIZE, METADATA_FRAME_SIZE, VIDEO_MAX_SIZE,
};

verus! {

/// Largest body a frame of type `ft` may announce.
pub open spec fn max_payload(ft: u8) -> int {
    if bits_contain_u8(ft, 2) {
        VIDEO_MAX_SIZE as int
    } else if bits_contain_u8(ft, 4) {
        AUDIO_MAX_SIZE as int
    } else {
        METADATA_FRAME_SIZE as int
    }
}

/// A frame type made only of the metadata, video and audio bits, and not empty.
pub open spec fn valid_frame_type(ft: u8) -> bool {
    ft != 0 && (ft & !7u8) == 0
}

/// The header at the front of `b` is one the reassembler accepts: it decodes,
/// its body length is non-negative and within the limit of its type, and its
/// type is valid.
pub open spec fn header_acceptable(b: Seq<u8>) -> bool {
    match parse_header(b) {
        Some(h) => h.data_length >= 0 && h.data_length as int <= max_payload(h.frame_type.0)
            && valid_frame_type(h.frame_type.0),
        None => false,
    }
}

/// Total length (header + body) of the frame whose header starts `b`.
pub open spec fn announced_len(b: Seq<u8>) -> int {
    16 + parse_header(b).unwrap().data_length as int
}

/// Reassembly gives back what was sent: when the buffer starts with the
/// encoding of a well-formed frame of a valid type within its size limit, the
/// reassembler accepts its header, takes exactly its bytes, decodes them to
/// that frame, and leaves what followed.
#[verifier::rlimit(40)]
pub proof fn lemma_reassembly_pops_encoded_frame(m: FrameModel, rest: Seq<u8>)
    requires
        frame_well_formed(m),
        valid_frame_type(m.0.frame_type.0),
        m.0.data_length as int <= max_payload(m.0.frame_type.0),
    ensures
        ({
            let b = frame_bytes(m) + rest;
            let n = announced_len(b);
            &&& b.len() >= 16
            &&& header_acceptable(b)
            &&& n == frame_bytes(m).len()
            &&& b.len() >= n
            &&& parse_frame(b.subrange(0, n)) == Some(m)
            &&& b.subrange(n, b.len() as int) == rest
        }),
{
    let fb = frame_bytes(m);
    let b = fb + rest;
    lemma_frame_roundtrip(m);
    lemma_frame_sections(m);
    let h = m.0;
    assert(fb.len() == 16 + h.data_length as int);
    let tail = fb.subrange(16, fb.len() as int) + rest;
    assert(fb.subrange(0, 16) =~= header_bytes(h)) by {
        assert(fb =~= header_bytes(h) + (opt_video_bytes(m.1) + opt_audio_bytes(m.2) + m.3 + m.4));
    }
    assert(b =~= header_bytes(h) + tail);
    lemma_header_prefix(h, tail);
    assert(b.subrange(0, fb.len() as int) =~= fb);
    assert(b.subrange(fb.len() as int, b.len() as int) =~= rest);
}

/// Largest number of bytes held while waiting for a frame to complete.
pub const MAX_REASSEMBLY: usize = 10_567_696;

/// Bidirectional OMT channel with streaming reassembly.
#[derive(Debug)]
pub struct Channel {
    /// Primary frame type for this channel (hint).
    pub frame_type: FrameType,
    /// Incoming reassembly buffer.
    buf: Vec<u8>,
}

impl View for Channel {
    type V = Seq<u8>;

    /// Bytes buffered and not yet taken as a frame.
    closed spec fn view(&self) -> Seq<u8> {
        self.buf@
    }
}

/// Largest body a frame of type `ft` may announce.
pub fn max_payload_for(ft: FrameType) -> (r: usize)
    ensures
        r as int == max_payload(ft.0),
{
    if ft.contains(FrameType::video()) {
        VIDEO_MAX_SIZE
    } else if ft.contains(FrameType::audio()) {
        AUDIO_MAX_SIZE
    } else {
        METADATA_FRAME_SIZE
    }
}

/// Whether `ft` is a non-empty combination of the metadata, video and audio bits.
pub fn is_valid_frame_type(ft: FrameType) -> (r: bool)
    ensures
        r == valid_frame_type(ft.0),
{
    let v = ft.0;
    assert(!(2u8 | 4u8 | 1u8) == !7u8) by (bit_vector);
    v != 0 && (v & !(2u8 | 4u8 | 1u8)) == 0
}

impl Channel {
    /// The frame-type hint the channel was created with.
    pub closed spec fn hint(&self) -> FrameType {
        self.frame_type
    }

    /// Create a channel for the given frame-type hint.
    pub fn new(frame_type: FrameType) -> (r: Channel)
        ensures
            r@ == Seq::<u8>::empty(),
            r.hint() == frame_type,
    {
        Channel { frame_type, buf: Vec::new() }
    }

    /// Append bytes to the reassembly buffer.
    pub fn push_bytes(&mut self, data: &[u8])
        ensures
            final(self)@ == old(self)@ + data@,
            final(self).hint() == old(self).hint(),
    {
        self.buf.extend_from_slice(data);
    }

    /// Drop buffered bytes (protocol desync recovery).
    pub fn clear(&mut self)
        ensures
            final(self)@ == Seq::<u8>::empty(),
            final(self).hint() == old(self).hint(),
    {
        self.buf.clear();
    }

    /// Bytes currently buffered awaiting a complete frame.
    pub fn buffered_len(&self) -> (r: usize)
        ensures
            r == self@.len(),
    {
        self.buf.len()
    }

    /// Try to extract one complete frame from the buffer without reading.
    ///
    /// With fewer than 16 bytes, or an acceptable header whose body has not
    /// fully arrived, nothing happens.  A header that is not acceptable
    /// clears the buffer and is a protocol error.  Otherwise the frame's
    /// bytes leave the buffer and are decoded.
    pub fn try_pop_frame(&mut self) -> (r: Result<Option<AssembledFrame>, OmtError>)
        ensures
            final(self).hint() == old(self).hint(),
            old(self)@.len() < 16 ==> (r matches Ok(None)) && final(self)@ == old(self)@,
            old(self)@.len() >= 16 && !header_acceptable(old(self)@) ==> (r matches Err(e)
                && e is Protocol) && final(self)@ == Seq::<u8>::empty(),
            old(self)@.len() >= 16 && header_acceptable(old(self)@) && old(self)@.len()
                < announced_len(old(self)@) ==> (r matches Ok(None)) && final(self)@ == old(self)@,
            old(self)@.len() >= 16 && header_acceptable(old(self)@) && old(self)@.len()
                >= announced_len(old(self)@) ==> {
                let n = announced_len(old(self)@);
                &&& final(self)@ == old(self)@.subrange(n, old(self)@.len() as int)
                &&& r matches Ok(Some(f)) ==> parse_frame(old(self)@.subrange(0, n)) == Some(f@)
                &&& r matches Err(e) ==> parse_frame(old(self)@.subrange(0, n)) is None
                    && e is Protocol
                &&& !(r matches Ok(None))
            },
    {
        if self.buf.len() < HEADER_SIZE {
            return Ok(None);
        }
        let header = match FrameHeader::from_bytes(self.buf.as_slice()) {
            Ok(h) => h,
            Err(e) => {
                self.buf.clear();
                return Err(e);
            },
        };
        if header.data_length < 0 {
            self.buf.clear();
            return Err(OmtError::Protocol("negative data_length".to_string()));
        }
        let data_len = header.data_length as usize;
        let max = max_payload_for(header.frame_type);
        if data_len > max {
            self.buf.clear();
            return Err(OmtError::Protocol("data_length exceeds max".to_string()));
        }
        if !is_valid_frame_type(header.frame_type) {
            self.buf.clear();
            return Err(OmtError::Protocol("invalid frame type".to_string()));
        }
        let total = HEADER_SIZE + data_len;
        if self.buf.len() < total {
            return Ok(None);
        }
        let mut frame_bytes = self.buf.split_off(total);
        std::mem::swap(&mut frame_bytes, &mut self.buf);
        match AssembledFrame::from_bytes(frame_bytes.as_slice()) {
            Ok(f) => Ok(Some(f)),
            Err(e) => Err(e),
        }
    }

    /// Take one read's outcome after [`Self::try_pop_frame`] found no frame.
    ///
    /// `None` is an end of stream; `Some(chunk)` holds the bytes read (empty
    /// when the read would have blocked).  At end of stream an empty buffer
    /// yields `Ok(None)` and a partial frame is a network error.  Bytes that
    /// would take the buffer past [`MAX_REASSEMBLY`] clear it and are a
    /// protocol error.  Otherwise the bytes are appended and a frame is
    /// popped; when none is complete the result is an I/O "timed out" error.
    pub fn accept_read(&mut self, chunk: Option<&[u8]>) -> (r: Result<
        Option<AssembledFrame>,
        OmtError,
    >)
        ensures
            final(self).hint() == old(self).hint(),
            chunk is None && old(self)@.len() == 0 ==> (r matches Ok(None)) && final(self)@
                == old(self)@,
            chunk is None && old(self)@.len() > 0 ==> (r matches Err(e) && e is Network)
                && final(self)@ == old(self)@,
            chunk matches Some(c) && old(self)@.len() + c@.len() > MAX_REASSEMBLY ==> (r matches Err(
                e,
            ) && e is Protocol) && final(self)@ == Seq::<u8>::empty(),
            chunk is Some && old(self)@.len() + chunk.unwrap()@.len() <= MAX_REASSEMBLY ==> {
                let b = old(self)@ + chunk.unwrap()@;
                &&& b.len() < 16 ==> (r matches Err(e) && e is Io) && final(self)@ == b
                &&& b.len() >= 16 && !header_acceptable(b) ==> (r matches Err(e) && e is Protocol)
                    && final(self)@ == Seq::<u8>::empty()
                &&& b.len() >= 16 && header_acceptable(b) && b.len() < announced_len(b) ==> (r matches Err(
                    e,
                ) && e is Io) && final(self)@ == b
                &&& b.len() >= 16 && header_acceptable(b) && b.len() >= announced_len(b) ==> {
                    let n = announced_len(b);
                    &&& final(self)@ == b.subrange(n, b.len() as int)
                    &&& r matches Ok(Some(f)) ==> parse_frame(b.subrange(0, n)) == Some(f@)
                    &&& r matches Err(e) ==> parse_frame(b.subrange(0, n)) is None && e is Protocol
                    &&& !(r matches Ok(None))
                }
            },
    {
        match chunk {
            None => {
                if self.buf.len() == 0 {
                    Ok(None)
                } else {
                    Err(OmtError::Network("connection closed mid-frame".to_string()))
                }
            },
            Some(c) => {
                if c.len() > MAX_REASSEMBLY || self.buf.len() > MAX_REASSEMBLY - c.len() {
                    self.buf.clear();
                    return Err(OmtError::Protocol("reassembly buffer overflow".to_string()));
                }
                self.buf.extend_from_slice(c);
                match self.try_pop_frame() {
                    Ok(Some(f)) => Ok(Some(f)),
                    Ok(None) => Err(OmtError::Io("incomplete OMT frame".to_string())),
                    Err(e) => Err(e),
                }
            },
        }
    }
}

} // verus!
