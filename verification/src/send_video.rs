//! Checks and layout of uncompressed sender video before VMX1 encoding.
//!
//! The VMX1 encoder itself runs outside this module; here each frame is
//! checked and its planes are located, or the frame is refused.
use vstd::prelude::*;
use crate::error::OmtError;
use crate::send::MediaFrame;
use crate::text::{owned, push_str, push_signed_decimal, signed_decimal, push_decimal, decimal};
use crate::types::{bits_contain_i32, codec_from_value, Codec, ColorSpace, Quality, VideoFlags};

verus! {

broadcast use vstd::string::group_string_axioms;

/// Where the planes of an uncompressed frame lie, per pixel format.
#[derive(Debug, Clone, Copy, PartialEq, Eq)]
pub enum EncodePlan {
    /// Packed UYVY rows of `stride` bytes.
    Uyvy { stride: usize },
    /// Packed YUY2 rows of `stride` bytes.
    Yuy2 { stride: usize },
    /// BGRA rows of `stride` bytes; `alpha` when the alpha channel is used.
    Bgra { stride: usize, alpha: bool },
    /// NV12: a luma plane of `y_size` bytes, then interleaved chroma, both
    /// with rows of `stride` bytes.
    Nv12 { stride: usize, y_size: usize },
    /// YV12: a luma plane of `y_size` bytes, then V and U planes of
    /// `uv_size` bytes with rows of `half_stride` bytes.
    Yv12 { stride: usize, half_stride: usize, y_size: usize, uv_size: usize },
}

/// `a * b`, saturating at the bounds of `i32`.
pub open spec fn sat_i32(v: int) -> i32 {
    if v > i32::MAX {
        i32::MAX
    } else if v < i32::MIN {
        i32::MIN
    } else {
        v as i32
    }
}

/// The row stride used: the given one when positive, else the packed one.
pub open spec fn stride_of(codec: Codec, width: i32, stride: i32) -> i32 {
    let packed = match codec {
        Codec::Uyvy | Codec::Yuy2 => sat_i32(width * 2),
        Codec::Bgra => sat_i32(width * 4),
        _ => width,
    };
    if stride <= 0 {
        packed
    } else {
        stride
    }
}

/// The bytes a frame must hold, per pixel format.
pub open spec fn needed_bytes(codec: Codec, stride: nat, height: nat) -> nat {
    match codec {
        Codec::Nv12 => stride * height + stride * ((height + 1) / 2),
        Codec::Yv12 => stride * height + (stride / 2) * (height / 2) * 2,
        _ => stride * height,
    }
}

/// The name a pixel format has in messages.
pub open spec fn format_label(codec: Codec) -> Seq<char> {
    match codec {
        Codec::Yuy2 => "YUY2"@,
        Codec::Bgra => "BGRA"@,
        Codec::Nv12 => "NV12"@,
        Codec::Yv12 => "YV12"@,
        _ => "UYVY"@,
    }
}

/// The plan for a frame, or the error for it (argument errors by message;
/// `Err(None)` with the unimplemented format's name for formats that have no
/// encoder yet).
pub open spec fn encode_plan_spec(f: MediaFrame) -> Result<EncodePlan, (bool, Seq<char>)> {
    match codec_from_value(f.codec) {
        None => Err((false, "unsupported video codec "@ + crate::text::signed_decimal(f.codec as int))),
        Some(codec) => if f.width < 16 || f.height < 16 {
            Err(
                (
                    false,
                    "video frame too small: "@ + crate::text::signed_decimal(f.width as int) + "x"@
                        + crate::text::signed_decimal(f.height as int),
                ),
            )
        } else if f.data@.len() == 0 {
            Err((false, "video frame data is empty"@))
        } else if stride_of(codec, f.width, f.stride) < f.width {
            Err(
                (
                    false,
                    "stride "@ + crate::text::signed_decimal(stride_of(codec, f.width, f.stride) as int)
                        + " is smaller than width "@ + crate::text::signed_decimal(f.width as int),
                ),
            )
        } else {
            let stride = stride_of(codec, f.width, f.stride) as nat;
            let h = f.height as nat;
            match codec {
                Codec::Uyvy | Codec::Yuy2 | Codec::Bgra | Codec::Nv12 | Codec::Yv12 => if f.data@.len()
                    < needed_bytes(codec, stride, h) {
                    Err(
                        (
                            false,
                            format_label(codec) + " frame data too short: need "@ + crate::text::decimal(
                                needed_bytes(codec, stride, h),
                            ) + ", have "@ + crate::text::decimal(f.data@.len()),
                        ),
                    )
                } else {
                    Ok(
                        match codec {
                            Codec::Uyvy => EncodePlan::Uyvy { stride: stride as usize },
                            Codec::Yuy2 => EncodePlan::Yuy2 { stride: stride as usize },
                            Codec::Bgra => EncodePlan::Bgra {
                                stride: stride as usize,
                                alpha: bits_contain_i32(f.flags.0, 2),
                            },
                            Codec::Nv12 => EncodePlan::Nv12 {
                                stride: stride as usize,
                                y_size: (stride * h) as usize,
                            },
                            _ => EncodePlan::Yv12 {
                                stride: stride as usize,
                                half_stride: (stride / 2) as usize,
                                y_size: (stride * h) as usize,
                                uv_size: ((stride / 2) * (h / 2)) as usize,
                            },
                        },
                    )
                },
                Codec::Vmx1 => Err((false, "VMX1 frames are passed through without encoding"@)),
                Codec::Fpa1 => Err((false, "FPA1 is an audio codec"@)),
                Codec::Uyva => Err((true, "UYVA encode"@)),
                Codec::P216 => Err((true, "P216 encode"@)),
                _ => Err((true, "PA16 encode"@)),
            }
        },
    }
}

/// Whether the byte counts of a frame stay within the address space.
pub open spec fn plan_fits(f: MediaFrame) -> bool {
    forall|c: Codec|
        codec_from_value(f.codec) == Some(c) ==> (stride_of(c, f.width, f.stride) as int) * (f.height as int) * 2
            <= usize::MAX
}

/// An accepted plan locates planes that lie within the frame's data, with
/// rows at least as wide as the image. For YV12 the chroma rows are half
/// the luma stride (rounded down), the luma plane is `stride * height`
/// bytes and each chroma plane `half_stride * (height / 2)` bytes; for NV12
/// the luma plane is `stride * height` bytes, followed by `(height + 1) / 2`
/// chroma rows. The plan's kind is the frame's pixel format.
pub proof fn lemma_plan_planes(f: MediaFrame)
    requires
        plan_fits(f),
    ensures
        encode_plan_spec(f) is Ok ==> codec_from_value(f.codec) is Some,
        match encode_plan_spec(f) {
            Ok(EncodePlan::Yv12 { stride: s, half_stride: hs, y_size: ys, uv_size: us }) => {
                &&& codec_from_value(f.codec) == Some(Codec::Yv12)
                &&& 2 * hs <= s < 2 * hs + 2
                &&& s >= f.width
                &&& ys == s * f.height
                &&& us == hs * (f.height / 2)
                &&& ys + 2 * us <= f.data@.len()
            },
            Ok(EncodePlan::Nv12 { stride, y_size }) => {
                &&& codec_from_value(f.codec) == Some(Codec::Nv12)
                &&& stride >= f.width
                &&& y_size == stride * f.height
                &&& y_size + stride * ((f.height + 1) / 2) <= f.data@.len()
            },
            Ok(EncodePlan::Uyvy { stride }) => {
                &&& codec_from_value(f.codec) == Some(Codec::Uyvy)
                &&& stride >= f.width
                &&& stride * f.height <= f.data@.len()
            },
            Ok(EncodePlan::Yuy2 { stride }) => {
                &&& codec_from_value(f.codec) == Some(Codec::Yuy2)
                &&& stride >= f.width
                &&& stride * f.height <= f.data@.len()
            },
            Ok(EncodePlan::Bgra { stride, .. }) => {
                &&& codec_from_value(f.codec) == Some(Codec::Bgra)
                &&& stride >= f.width
                &&& stride * f.height <= f.data@.len()
            },
            Err(_) => true,
        },
{
    if let Some(codec) = codec_from_value(f.codec) {
        if f.width >= 16 && f.height >= 16 && f.data@.len() != 0 && stride_of(codec, f.width, f.stride)
            >= f.width {
            let st = stride_of(codec, f.width, f.stride) as nat;
            let h = f.height as nat;
            assert(st * h * 2 <= usize::MAX);
            assert(st * h <= st * h * 2) by (nonlinear_arith);
            assert((st / 2) * (h / 2) <= st * h) by (nonlinear_arith);
            assert(st <= st * h) by (nonlinear_arith)
                requires
                    h >= 16,
            ;
            assert((st / 2) * 2 <= st < (st / 2) * 2 + 2);
        }
    }
}

/// Whether `r` is the outcome `s` describes.
pub open spec fn planned_as(r: Result<EncodePlan, OmtError>, s: Result<EncodePlan, (bool, Seq<char>)>) -> bool {
    match s {
        Ok(p) => r == Ok::<EncodePlan, OmtError>(p),
        Err((false, m)) => r matches Err(OmtError::InvalidArgument(msg)) && msg@ == m,
        Err((true, m)) => r matches Err(OmtError::NotImplemented(name)) && name@ == m,
    }
}

/// `a * b` saturating at the bounds of `i32`.
fn saturating_mul_i32(a: i32, b: i32) -> (r: i32)
    ensures
        r == sat_i32(a * b),
{
    match a.checked_mul(b) {
        Some(v) => v,
        None => {
            if (a < 0) == (b < 0) {
                proof {
                    if a < 0 {
                        assert(a * b > 0) by (nonlinear_arith)
                            requires
                                a < 0,
                                b < 0,
                        ;
                    } else {
                        assert(a * b >= 0) by (nonlinear_arith)
                            requires
                                a >= 0,
                                b >= 0,
                        ;
                    }
                }
                i32::MAX
            } else {
                proof {
                    if a < 0 {
                        assert(a * b <= 0) by (nonlinear_arith)
                            requires
                                a < 0,
                                b >= 0,
                        ;
                    } else {
                        assert(a * b <= 0) by (nonlinear_arith)
                            requires
                                a >= 0,
                                b < 0,
                        ;
                    }
                }
                i32::MIN
            }
        },
    }
}

/// The row stride used for an uncompressed frame.
fn effective_stride(codec: Codec, width: i32, stride: i32) -> (r: i32)
    ensures
        r == stride_of(codec, width, stride),
{
    let packed = match codec {
        Codec::Uyvy | Codec::Yuy2 => saturating_mul_i32(width, 2),
        Codec::Bgra => saturating_mul_i32(width, 4),
        _ => width,
    };
    if stride <= 0 {
        packed
    } else {
        stride
    }
}

/// The error for a frame too short for its format.
fn too_short(label: &str, need: usize, have: usize) -> (r: OmtError)
    ensures
        r matches OmtError::InvalidArgument(m) && m@ == label@ + " frame data too short: need "@
            + decimal(need as nat) + ", have "@ + decimal(have as nat),
{
    let mut m = owned(label);
    push_str(&mut m, " frame data too short: need ");
    push_decimal(&mut m, need as u64);
    push_str(&mut m, ", have ");
    push_decimal(&mut m, have as u64);
    OmtError::InvalidArgument(m)
}

/// Check an uncompressed frame and locate its planes for VMX1 encoding.
pub fn encode_plan(frame: &MediaFrame) -> (r: Result<EncodePlan, OmtError>)
    requires
        plan_fits(*frame),
    ensures
        planned_as(r, encode_plan_spec(*frame)),
{
    let codec = match Codec::from_i32(frame.codec) {
        Some(c) => c,
        None => {
            let mut m = owned("unsupported video codec ");
            push_signed_decimal(&mut m, frame.codec as i64);
            return Err(OmtError::InvalidArgument(m));
        },
    };
    let width = frame.width;
    let height = frame.height;
    if width < 16 || height < 16 {
        let mut m = owned("video frame too small: ");
        push_signed_decimal(&mut m, width as i64);
        push_str(&mut m, "x");
        push_signed_decimal(&mut m, height as i64);
        return Err(OmtError::InvalidArgument(m));
    }
    if frame.data.len() == 0 {
        return Err(OmtError::InvalidArgument(owned("video frame data is empty")));
    }
    let stride_i = effective_stride(codec, width, frame.stride);
    if stride_i < width {
        let mut m = owned("stride ");
        push_signed_decimal(&mut m, stride_i as i64);
        push_str(&mut m, " is smaller than width ");
        push_signed_decimal(&mut m, width as i64);
        return Err(OmtError::InvalidArgument(m));
    }
    let stride = stride_i as usize;
    let h = height as usize;
    proof {
        assert(stride * h <= stride * h * 2) by (nonlinear_arith);
        assert(stride * ((h + 1) / 2) <= stride * h) by (nonlinear_arith)
            requires
                h >= 16,
        ;
        assert((stride / 2) * (h / 2) * 2 <= stride * h) by (nonlinear_arith);
    }
    let len = frame.data.len();
    proof {
        reveal_strlit("UYVY");
        reveal_strlit("YUY2");
        reveal_strlit("BGRA");
        reveal_strlit("NV12");
        reveal_strlit("YV12");
    }
    match codec {
        Codec::Uyvy => {
            let need = stride * h;
            if len < need {
                return Err(too_short("UYVY", need, len));
            }
            Ok(EncodePlan::Uyvy { stride })
        },
        Codec::Yuy2 => {
            let need = stride * h;
            if len < need {
                return Err(too_short("YUY2", need, len));
            }
            Ok(EncodePlan::Yuy2 { stride })
        },
        Codec::Bgra => {
            let need = stride * h;
            if len < need {
                return Err(too_short("BGRA", need, len));
            }
            Ok(EncodePlan::Bgra { stride, alpha: frame.flags.contains(VideoFlags::alpha()) })
        },
        Codec::Nv12 => {
            let y_size = stride * h;
            let need = y_size + stride * ((h + 1) / 2);
            if len < need {
                return Err(too_short("NV12", need, len));
            }
            Ok(EncodePlan::Nv12 { stride, y_size })
        },
        Codec::Yv12 => {
            let half_stride = stride / 2;
            let half_h = h / 2;
            let y_size = stride * h;
            let uv_size = half_stride * half_h;
            let need = y_size + uv_size * 2;
            if len < need {
                return Err(too_short("YV12", need, len));
            }
            Ok(EncodePlan::Yv12 { stride, half_stride, y_size, uv_size })
        },
        Codec::Vmx1 => Err(
            OmtError::InvalidArgument(owned("VMX1 frames are passed through without encoding")),
        ),
        Codec::Fpa1 => Err(OmtError::InvalidArgument(owned("FPA1 is an audio codec"))),
        Codec::Uyva => {
            proof {
                reveal_strlit("UYVA encode");
            }
            Err(OmtError::NotImplemented("UYVA encode"))
        },
        Codec::P216 => Err(OmtError::NotImplemented("P216 encode")),
        Codec::Pa16 => Err(OmtError::NotImplemented("PA16 encode")),
    }
}

/// What an encoder is set up for: frame size, quality (which picks the
/// VMX profile) and color space.
#[derive(Debug, Clone, Copy, PartialEq, Eq)]
pub struct EncoderKey {
    /// Width in pixels.
    pub width: i32,
    /// Height in pixels.
    pub height: i32,
    /// Quality, one VMX profile each.
    pub quality: Quality,
    /// Color space.
    pub color_space: ColorSpace,
}

/// Whether the encoder must be created anew for a frame needing `next`:
/// there is none yet, or it was set up for another size, profile or color
/// space.
pub fn needs_new_encoder(current: Option<EncoderKey>, next: EncoderKey) -> (r: bool)
    ensures
        r == match current {
            None => true,
            Some(c) => c != next,
        },
{
    match current {
        None => true,
        Some(c) => {
            let same_quality = match (c.quality, next.quality) {
                (Quality::Default, Quality::Default) => true,
                (Quality::Low, Quality::Low) => true,
                (Quality::Medium, Quality::Medium) => true,
                (Quality::High, Quality::High) => true,
                _ => false,
            };
            let same_space = match (c.color_space, next.color_space) {
                (ColorSpace::Undefined, ColorSpace::Undefined) => true,
                (ColorSpace::Bt601, ColorSpace::Bt601) => true,
                (ColorSpace::Bt709, ColorSpace::Bt709) => true,
                _ => false,
            };
            !(c.width == next.width && c.height == next.height && same_quality && same_space)
        },
    }
}

/// Size of the buffer a bitstream is first saved into (1 MiB).
pub const BITSTREAM_BUFFER_START: usize = 1_048_576;

/// The bitstream buffer's new size when the encoder needs `need` bytes and
/// it holds `len`: the larger of `need` and twice `len` (saturating).
pub fn grown_buffer_len(len: usize, need: usize) -> (r: usize)
    ensures
        r == if need > (if 2 * len > usize::MAX { usize::MAX as int } else { 2 * len }) {
            need as int
        } else if 2 * len > usize::MAX {
            usize::MAX as int
        } else {
            2 * len
        },
{
    let doubled = if len > usize::MAX / 2 {
        usize::MAX
    } else {
        2 * len
    };
    if need > doubled {
        need
    } else {
        doubled
    }
}

/// Whether a frame's planes can be measured in memory sizes (see
/// [`plan_fits`]), as [`encode_plan`] assumes.
pub fn plan_fits_memory(frame: &MediaFrame) -> (r: bool)
    ensures
        r == plan_fits(*frame),
{
    match Codec::from_i32(frame.codec) {
        None => true,
        Some(c) => {
            let stride = effective_stride(c, frame.width, frame.stride);
            let a: i128 = stride as i128;
            let b: i128 = frame.height as i128;
            assert(-0x1_0000_0000_0000_0000 < a * b < 0x1_0000_0000_0000_0000) by (nonlinear_arith)
                requires
                    -0x8000_0000 <= a < 0x8000_0000,
                    -0x8000_0000 <= b < 0x8000_0000,
            ;
            let prod: i128 = a * b * 2;
            let ok = prod <= usize::MAX as i128;
            assert(ok == ((stride_of(c, frame.width, frame.stride) as int) * (frame.height as int) * 2
                <= usize::MAX));
            ok
        },
    }
}

} // verus!
