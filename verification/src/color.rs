//! Packed pixel helpers for decoded / previewed OMT video.
use vstd::prelude::*;

verus! {

/// Byte `i` of the RGBA8 swizzle of BGRA8 `src` (blue and red exchanged).
pub open spec fn swizzled_byte(src: Seq<u8>, i: int) -> u8 {
    if i % 4 == 0 {
        src[i + 2]
    } else if i % 4 == 2 {
        src[i - 2]
    } else {
        src[i]
    }
}

/// Number of whole pixels both buffers hold.
pub open spec fn common_pixels(a: Seq<u8>, b: Seq<u8>) -> int {
    if a.len() < b.len() {
        a.len() as int / 4
    } else {
        b.len() as int / 4
    }
}

/// `dst` after writing the swizzle of `src` into its first `n` pixels.
pub open spec fn swizzle_into(src: Seq<u8>, dst: Seq<u8>, n: int) -> Seq<u8> {
    Seq::new(dst.len(), |i: int| if i < 4 * n { swizzled_byte(src, i) } else { dst[i] })
}

/// Scalar BGRA8 → RGBA8 over the whole pixels both buffers hold; other bytes of `rgba` stay.
pub fn bgra_to_rgba_scalar(bgra: &[u8], rgba: &mut [u8])
    ensures
        final(rgba)@ == swizzle_into(bgra@, old(rgba)@, common_pixels(bgra@, old(rgba)@)),
{
    let n = if bgra.len() < rgba.len() {
        bgra.len() / 4
    } else {
        rgba.len() / 4
    };
    let ghost orig = rgba@;
    let bl = bgra.len();
    let mut p: usize = 0;
    while p < n
        invariant
            n == common_pixels(bgra@, orig),
            bl == bgra@.len(),
            p <= n,
            rgba@.len() == orig.len(),
            rgba@ == swizzle_into(bgra@, orig, p as int),
        decreases n - p,
    {
        let o = 4 * p;
        let b = bgra[o];
        let g = bgra[o + 1];
        let r = bgra[o + 2];
        let a = bgra[o + 3];
        rgba[o] = r;
        rgba[o + 1] = g;
        rgba[o + 2] = b;
        rgba[o + 3] = a;
        p = p + 1;
        proof {
            assert(rgba@ =~= swizzle_into(bgra@, orig, p as int));
        }
    }
}

/// BGRA8 → RGBA8 into an existing buffer, over the shorter of the two
/// (whole pixels only); other bytes of `rgba` stay.
pub fn bgra_to_rgba_into(bgra: &[u8], rgba: &mut [u8])
    ensures
        final(rgba)@ == swizzle_into(bgra@, old(rgba)@, common_pixels(bgra@, old(rgba)@)),
{
    bgra_to_rgba_scalar(bgra, rgba);
}

/// Convert tightly packed BGRA8 to RGBA8 (a trailing partial pixel becomes zeros).
pub fn bgra_to_rgba(bgra: &[u8]) -> (r: Vec<u8>)
    ensures
        r@.len() == bgra@.len(),
        forall|i: int|
            0 <= i < r@.len() ==> #[trigger] r@[i] == if i < 4 * (bgra@.len() / 4) {
                swizzled_byte(bgra@, i)
            } else {
                0u8
            },
{
    let mut rgba: Vec<u8> = Vec::new();
    let mut i: usize = 0;
    while i < bgra.len()
        invariant
            i <= bgra@.len(),
            rgba@.len() == i,
            forall|j: int| 0 <= j < i ==> #[trigger] rgba@[j] == 0u8,
        decreases bgra@.len() - i,
    {
        rgba.push(0u8);
        i = i + 1;
    }
    let ghost zero = rgba@;
    bgra_to_rgba_into(bgra, rgba.as_mut_slice());
    rgba
}

/// Replace RGB with grayscale alpha visualization (A→RGB, A=255), whole pixels only.
pub fn bgra_alpha_mask(bgra: &[u8]) -> (r: Vec<u8>)
    ensures
        r@.len() == 4 * (bgra@.len() / 4),
        forall|i: int|
            0 <= i < r@.len() ==> #[trigger] r@[i] == if i % 4 == 3 {
                255u8
            } else {
                bgra@[i - i % 4 + 3]
            },
{
    let mut rgba: Vec<u8> = Vec::new();
    let bl = bgra.len();
    let n = bl / 4;
    let mut p: usize = 0;
    while p < n
        invariant
            n == bgra@.len() / 4,
            bl == bgra@.len(),
            p <= n,
            rgba@.len() == 4 * p,
            forall|i: int|
                0 <= i < rgba@.len() ==> #[trigger] rgba@[i] == if i % 4 == 3 {
                    255u8
                } else {
                    bgra@[i - i % 4 + 3]
                },
        decreases n - p,
    {
        let a = bgra[4 * p + 3];
        rgba.push(a);
        rgba.push(a);
        rgba.push(a);
        rgba.push(255u8);
        p = p + 1;
    }
    rgba
}

/// Clamp to the byte range.
pub open spec fn clamp_u8(x: int) -> u8 {
    if x < 0 {
        0
    } else if x > 255 {
        255
    } else {
        x as u8
    }
}

/// Studio-range BT.709 YUV to RGB with 8-bit fixed-point coefficients,
/// rounded down and clamped.
#[verifier::opaque]
pub open spec fn yuv_rgb(y: u8, u: u8, v: u8) -> (u8, u8, u8) {
    let yy = if y < 16 {
        0int
    } else {
        y - 16
    };
    let uu = u - 128;
    let vv = v - 128;
    (
        clamp_u8((298 * yy + 459 * vv + 128) / 256),
        clamp_u8((298 * yy - 55 * uu - 136 * vv + 128) / 256),
        clamp_u8((298 * yy + 541 * uu + 128) / 256),
    )
}

/// Clamping to the byte range keeps order.
proof fn lemma_clamp_monotone(a: int, b: int)
    requires
        a <= b,
    ensures
        clamp_u8(a) <= clamp_u8(b),
{
}

/// In the YUV to RGB conversion red depends only on luma and V (Cr), blue
/// only on luma and U (Cb); red does not fall as V rises, blue does not
/// fall as U rises, and green does not rise as either chroma value rises.
/// Full-scale U with mid-scale luma and V gives full blue.
pub proof fn lemma_yuv_rgb_channels(y: u8, u1: u8, u2: u8, v1: u8, v2: u8)
    ensures
        yuv_rgb(y, u1, v1).0 == yuv_rgb(y, u2, v1).0,
        yuv_rgb(y, u1, v1).2 == yuv_rgb(y, u1, v2).2,
        v1 <= v2 ==> yuv_rgb(y, u1, v1).0 <= yuv_rgb(y, u1, v2).0,
        u1 <= u2 ==> yuv_rgb(y, u1, v1).2 <= yuv_rgb(y, u2, v1).2,
        v1 <= v2 ==> yuv_rgb(y, u1, v1).1 >= yuv_rgb(y, u1, v2).1,
        u1 <= u2 ==> yuv_rgb(y, u1, v1).1 >= yuv_rgb(y, u2, v1).1,
        yuv_rgb(128, 255, 128) == (130u8, 103u8, 255u8),
{
    reveal(yuv_rgb);
    let yy: int = if y < 16 {
        0int
    } else {
        y - 16
    };
    if v1 <= v2 {
        let a = 298 * yy + 459 * (v1 - 128) + 128;
        let b = 298 * yy + 459 * (v2 - 128) + 128;
        vstd::arithmetic::div_mod::lemma_div_is_ordered(a, b, 256);
        lemma_clamp_monotone(a / 256, b / 256);
        let c = 298 * yy - 55 * (u1 - 128) - 136 * (v2 - 128) + 128;
        let d = 298 * yy - 55 * (u1 - 128) - 136 * (v1 - 128) + 128;
        vstd::arithmetic::div_mod::lemma_div_is_ordered(c, d, 256);
        lemma_clamp_monotone(c / 256, d / 256);
    }
    if u1 <= u2 {
        let a = 298 * yy + 541 * (u1 - 128) + 128;
        let b = 298 * yy + 541 * (u2 - 128) + 128;
        vstd::arithmetic::div_mod::lemma_div_is_ordered(a, b, 256);
        lemma_clamp_monotone(a / 256, b / 256);
        let c = 298 * yy - 55 * (u2 - 128) - 136 * (v1 - 128) + 128;
        let d = 298 * yy - 55 * (u1 - 128) - 136 * (v1 - 128) + 128;
        vstd::arithmetic::div_mod::lemma_div_is_ordered(c, d, 256);
        lemma_clamp_monotone(c / 256, d / 256);
    }
    assert(33504int / 256 == 130);
    assert(26519int / 256 == 103);
    assert(102211int / 256 == 399);
}

/// `x` divided by 256, rounded toward negative infinity (an arithmetic shift by 8).
fn floor_div_256(x: i32) -> (r: i32)
    requires
        -1_000_000 <= x <= 1_000_000,
    ensures
        r as int == x as int / 256,
{
    if x >= 0 {
        x / 256
    } else {
        let q = (255 - x) / 256;
        0 - q
    }
}

fn clamp_to_u8(x: i32) -> (r: u8)
    ensures
        r == clamp_u8(x as int),
{
    if x < 0 {
        0
    } else if x > 255 {
        255
    } else {
        x as u8
    }
}

/// Convert studio-range BT.709 YUV to RGB (clamped).
fn yuv_to_rgb(y: u8, u: u8, v: u8) -> (r: (u8, u8, u8))
    ensures
        r == yuv_rgb(y, u, v),
{
    reveal(yuv_rgb);
    let yy: i32 = if y < 16 {
        0
    } else {
        y as i32 - 16
    };
    let uu: i32 = u as i32 - 128;
    let vv: i32 = v as i32 - 128;
    let r = floor_div_256(298 * yy + 459 * vv + 128);
    let g = floor_div_256(298 * yy - 55 * uu - 136 * vv + 128);
    let b = floor_div_256(298 * yy + 541 * uu + 128);
    (clamp_to_u8(r), clamp_to_u8(g), clamp_to_u8(b))
}


/// Channel `c` (R, G, B, A) of the RGBA8 pixel at row `y`, column `x` made
/// from UYVY8 `uyvy` of width `w`: each horizontal pair of pixels shares
/// the `U Y0 V Y1` group at byte `2 * (y * w + x0)` (`x0` the pair's first
/// column); a pair whose group is not wholly in `uyvy` stays all zero.
pub open spec fn uyvy_rgba_byte(uyvy: Seq<u8>, w: int, y: int, x: int, c: int) -> u8 {
    let x0 = x - x % 2;
    let o = 2 * (y * w + x0);
    if o + 3 >= uyvy.len() {
        0u8
    } else {
        let luma = if x % 2 == 0 {
            uyvy[o + 1]
        } else {
            uyvy[o + 3]
        };
        let px = yuv_rgb(luma, uyvy[o], uyvy[o + 2]);
        if c == 0 {
            px.0
        } else if c == 1 {
            px.1
        } else if c == 2 {
            px.2
        } else {
            255u8
        }
    }
}

/// In UYVY to RGBA, each pixel of a pair takes its luma from its own `Y`
/// byte and shares the pair's `U` and `V` bytes: its red byte does not
/// change when only the `U` byte changes, its blue byte does not change
/// when only the `V` byte changes, and its alpha is opaque. A pair stored
/// as `U=255 Y=128 V=128 Y=128` gives two pixels with red 130 and blue 255.
pub proof fn lemma_uyvy_pixel_channels(uyvy: Seq<u8>, w: int, y: int, x: int, b: u8)
    requires
        0 <= x < w,
        0 <= y,
        2 * (y * w + x - x % 2) + 3 < uyvy.len(),
    ensures
        ({
            let o = 2 * (y * w + x - x % 2);
            &&& uyvy_rgba_byte(uyvy.update(o, b), w, y, x, 0) == uyvy_rgba_byte(uyvy, w, y, x, 0)
            &&& uyvy_rgba_byte(uyvy.update(o + 2, b), w, y, x, 2) == uyvy_rgba_byte(uyvy, w, y, x, 2)
            &&& uyvy_rgba_byte(uyvy, w, y, x, 3) == 255u8
            &&& uyvy_rgba_byte(uyvy, w, y, x, 0) == yuv_rgb(
                if x % 2 == 0 { uyvy[o + 1] } else { uyvy[o + 3] },
                uyvy[o],
                uyvy[o + 2],
            ).0
        }),
        uyvy == seq![255u8, 128u8, 128u8, 128u8] && w == 2 && y == 0 ==> uyvy_rgba_byte(uyvy, w, y, x, 0)
            == 130u8 && uyvy_rgba_byte(uyvy, w, y, x, 2) == 255u8,
{
    let o = 2 * (y * w + x - x % 2);
    let s1 = uyvy.update(o, b);
    let s2 = uyvy.update(o + 2, b);
    let luma = if x % 2 == 0 { uyvy[o + 1] } else { uyvy[o + 3] };
    lemma_yuv_rgb_channels(luma, uyvy[o], b, uyvy[o + 2], b);
    assert(s1[o + 1] == uyvy[o + 1] && s1[o + 2] == uyvy[o + 2] && s1[o + 3] == uyvy[o + 3]);
    assert(s2[o] == uyvy[o] && s2[o + 1] == uyvy[o + 1] && s2[o + 3] == uyvy[o + 3]);
}

proof fn lemma_pixel_bound(w: int, h: int, y: int, x: int, c: int)
    requires
        0 <= x < w,
        0 <= y < h,
        0 <= c < 4,
    ensures
        0 <= (y * w + x) * 4 + c < w * h * 4,
{
    assert(0 <= y * w + x < w * h) by (nonlinear_arith)
        requires
            0 <= x < w,
            0 <= y < h,
    ;
    assert((y * w + x) * 4 + c < w * h * 4) by (nonlinear_arith)
        requires
            0 <= y * w + x < w * h,
            0 <= c < 4,
    ;
}

proof fn lemma_pixel_index(w: int, y1: int, x1: int, c1: int, y2: int, x2: int, c2: int)
    requires
        0 <= x1 < w,
        0 <= x2 < w,
        0 <= y1,
        0 <= y2,
        0 <= c1 < 4,
        0 <= c2 < 4,
        (y1 * w + x1) * 4 + c1 == (y2 * w + x2) * 4 + c2,
    ensures
        y1 == y2 && x1 == x2 && c1 == c2,
{
    assert(c1 == c2 && y1 * w + x1 == y2 * w + x2);
    if y1 < y2 {
        assert(y1 * w + x1 < y2 * w + x2) by (nonlinear_arith)
            requires
                y1 < y2,
                0 <= x1 < w,
                0 <= x2,
        ;
    } else if y2 < y1 {
        assert(y2 * w + x2 < y1 * w + x1) by (nonlinear_arith)
            requires
                y2 < y1,
                0 <= x2 < w,
                0 <= x1,
        ;
    }
}

/// Writes one opaque RGBA pixel at byte `i0`.
fn write_pixel(rgba: &mut Vec<u8>, i0: usize, px: (u8, u8, u8))
    requires
        i0 + 4 <= old(rgba)@.len(),
    ensures
        final(rgba)@.len() == old(rgba)@.len(),
        forall|k: int|
            0 <= k < old(rgba)@.len() ==> #[trigger] final(rgba)@[k] == if k == i0 {
                px.0
            } else if k == i0 + 1 {
                px.1
            } else if k == i0 + 2 {
                px.2
            } else if k == i0 + 3 {
                255u8
            } else {
                old(rgba)@[k]
            },
{
    let _n = rgba.len();
    rgba.set(i0, px.0);
    rgba.set(i0 + 1, px.1);
    rgba.set(i0 + 2, px.2);
    rgba.set(i0 + 3, 255u8);
}

/// Writes the RGBA pixels of the UYVY pair at row `y`, columns `x`, `x + 1`
/// (the second only when it is inside the row).
#[verifier::rlimit(60)]
fn write_uyvy_pair(rgba: &mut Vec<u8>, uyvy: &[u8], w: usize, h: usize, y: usize, x: usize)
    requires
        old(rgba)@.len() == w * h * 4,
        y < h,
        x < w,
        x % 2 == 0,
        2 * (y * w + x) + 3 < uyvy@.len(),
    ensures
        final(rgba)@.len() == old(rgba)@.len(),
        forall|yy: int, xx: int, c: int|
            0 <= yy < h && 0 <= xx < w && 0 <= c < 4 ==> #[trigger] final(rgba)@[(yy * w + xx) * 4
                + c] == if yy == y && (xx == x || xx == x + 1) {
                uyvy_rgba_byte(uyvy@, w as int, yy, xx, c)
            } else {
                old(rgba)@[(yy * w + xx) * 4 + c]
            },
{
    proof {
        lemma_pixel_bound(w as int, h as int, y as int, x as int, 3);
    }
    let total = rgba.len();
    let o = 2 * (y * w + x);
    let u = uyvy[o];
    let y0 = uyvy[o + 1];
    let v = uyvy[o + 2];
    let y1 = uyvy[o + 3];
    let p0 = yuv_to_rgb(y0, u, v);
    let p1 = yuv_to_rgb(y1, u, v);
    let i0 = (y * w + x) * 4;
    let ghost before = rgba@;
    write_pixel(rgba, i0, p0);
    let ghost mid = rgba@;
    if x + 1 < w {
        proof {
            assert((y * w + x + 1) * 4 + 4 <= total) by (nonlinear_arith)
                requires
                    y < h,
                    x + 1 < w,
                    total == w * h * 4,
            ;
        }
        write_pixel(rgba, i0 + 4, p1);
    }
    proof {
        let wi = w as int;
        let hi = h as int;
        let xg = x as int;
        assert forall|yy: int, xx: int, c: int|
            0 <= yy < hi && 0 <= xx < wi && 0 <= c < 4 implies #[trigger] rgba@[(yy * wi + xx) * 4
            + c] == if yy == y && (xx == xg || xx == xg + 1) {
            uyvy_rgba_byte(uyvy@, wi, yy, xx, c)
        } else {
            before[(yy * wi + xx) * 4 + c]
        } by {
            let k = (yy * wi + xx) * 4 + c;
            lemma_pixel_bound(wi, hi, yy, xx, c);
            if yy == y && (xx == xg || xx == xg + 1) {
                assert(xx % 2 == if xx == xg {
                    0int
                } else {
                    1int
                });
                assert(xx - xx % 2 == xg);
                if xx == xg + 1 {
                    assert((y * w + x + 1) * 4 == i0 + 4) by (nonlinear_arith)
                        requires
                            i0 == (y * w + x) * 4,
                    ;
                }
            } else {
                if k == i0 + 0 || k == i0 + 1 || k == i0 + 2 || k == i0 + 3 {
                    lemma_pixel_index(wi, yy, xx, c, y as int, xg, k - i0);
                }
                if xg + 1 < wi && (k == i0 + 4 || k == i0 + 5 || k == i0 + 6 || k == i0 + 7) {
                    assert((y * w + x + 1) * 4 == i0 + 4) by (nonlinear_arith)
                        requires
                            i0 == (y * w + x) * 4,
                    ;
                    lemma_pixel_index(wi, yy, xx, c, y as int, xg + 1, k - i0 - 4);
                }
            }
        }
    }
}

/// Convert a UYVY frame to tightly packed RGBA8 for display / preview.
///
/// The result has `width * height` pixels; see [`uyvy_rgba_byte`] for each
/// byte.
pub fn uyvy_to_rgba(uyvy: &[u8], width: u32, height: u32) -> (r: Vec<u8>)
    requires
        width as int * height as int * 4 <= usize::MAX,
    ensures
        r@.len() == width as int * height as int * 4,
        forall|y: int, x: int, c: int|
            0 <= y < height && 0 <= x < width && 0 <= c < 4 ==> #[trigger] r@[(y * width + x) * 4
                + c] == uyvy_rgba_byte(uyvy@, width as int, y, x, c),
{
    let w = width as usize;
    let h = height as usize;
    let ghost wi = w as int;
    let ghost hi = h as int;
    proof {
        assert(w * h * 4 >= 0) by (nonlinear_arith);
    }
    let total = w * h * 4;
    let len = uyvy.len();
    let mut rgba: Vec<u8> = Vec::new();
    let mut i: usize = 0;
    while i < total
        invariant
            i <= total,
            rgba@.len() == i,
            forall|j: int| 0 <= j < i ==> #[trigger] rgba@[j] == 0u8,
        decreases total - i,
    {
        rgba.push(0u8);
        i = i + 1;
    }
    proof {
        assert forall|yy: int, xx: int, c: int|
            0 <= yy < hi && 0 <= xx < wi && 0 <= c < 4 implies #[trigger] rgba@[(yy * wi + xx) * 4
            + c] == 0u8 by {
            lemma_pixel_bound(wi, hi, yy, xx, c);
        }
    }
    let mut y: usize = 0;
    while y < h
        invariant
            total == wi * hi * 4,
            w == wi,
            h == hi,
            len == uyvy@.len(),
            y <= h,
            rgba@.len() == total,
            forall|yy: int, xx: int, c: int|
                0 <= yy < hi && 0 <= xx < wi && 0 <= c < 4 ==> #[trigger] rgba@[(yy * wi + xx) * 4
                    + c] == if yy < y {
                    uyvy_rgba_byte(uyvy@, wi, yy, xx, c)
                } else {
                    0u8
                },
        decreases h - y,
    {
        let mut x: usize = 0;
        while x < w
            invariant
                total == wi * hi * 4,
                w == wi,
                h == hi,
                len == uyvy@.len(),
                y < h,
                x <= w + 1,
                x % 2 == 0,
                rgba@.len() == total,
                forall|yy: int, xx: int, c: int|
                    0 <= yy < hi && 0 <= xx < wi && 0 <= c < 4 ==> #[trigger] rgba@[(yy * wi + xx)
                        * 4 + c] == if yy < y || (yy == y && xx < x) {
                        uyvy_rgba_byte(uyvy@, wi, yy, xx, c)
                    } else {
                        0u8
                    },
            ensures
                rgba@.len() == total,
                forall|yy: int, xx: int, c: int|
                    0 <= yy < hi && 0 <= xx < wi && 0 <= c < 4 ==> #[trigger] rgba@[(yy * wi + xx)
                        * 4 + c] == if yy <= y {
                        uyvy_rgba_byte(uyvy@, wi, yy, xx, c)
                    } else {
                        0u8
                    },
            decreases w + 1 - x,
        {
            proof {
                assert(y * w + x < w * h) by (nonlinear_arith)
                    requires
                        y < h,
                        x < w,
                ;
                assert((y * w + x) * 4 + 8 <= total + 4) by (nonlinear_arith)
                    requires
                        y * w + x < w * h,
                        total == w * h * 4,
                ;
            }
            let o = 2 * (y * w + x);
            if o + 3 >= len {
                proof {
                    assert forall|yy: int, xx: int, c: int|
                        0 <= yy < hi && 0 <= xx < wi && 0 <= c < 4 implies #[trigger] rgba@[(yy
                        * wi + xx) * 4 + c] == if yy <= y {
                        uyvy_rgba_byte(uyvy@, wi, yy, xx, c)
                    } else {
                        0u8
                    } by {
                        if yy == y && xx >= x {
                            let xx0 = xx - xx % 2;
                            assert(2 * (yy * wi + xx0) + 3 >= len);
                        }
                    }
                }
                break;
            }
            let ghost before = rgba@;
            write_uyvy_pair(&mut rgba, uyvy, w, h, y, x);
            proof {
                assert forall|yy: int, xx: int, c: int|
                    0 <= yy < hi && 0 <= xx < wi && 0 <= c < 4 implies #[trigger] rgba@[(yy * wi
                    + xx) * 4 + c] == if yy < y || (yy == y && xx < x + 2) {
                    uyvy_rgba_byte(uyvy@, wi, yy, xx, c)
                } else {
                    0u8
                } by {
                    assert(before[(yy * wi + xx) * 4 + c] == if yy < y || (yy == y && xx < x) {
                        uyvy_rgba_byte(uyvy@, wi, yy, xx, c)
                    } else {
                        0u8
                    });
                }
            }
            x = x + 2;
        }
        y = y + 1;
    }
    rgba
}

} // verus!
