use openmediatransport::color::{bgra_alpha_mask, bgra_to_rgba, bgra_to_rgba_scalar, uyvy_to_rgba};

#[test]
fn bgra_to_rgba_swaps_channels() {
    let bgra = [10u8, 20, 30, 255];
    assert_eq!(bgra_to_rgba(&bgra), vec![30, 20, 10, 255]);
}

#[test]
fn bgra_to_rgba_handles_multi_pixel() {
    let mut bgra = Vec::new();
    for i in 0..8u8 {
        bgra.extend_from_slice(&[i, i + 1, i + 2, 255]);
    }
    let rgba = bgra_to_rgba(&bgra);
    assert_eq!(rgba.len(), bgra.len());
    for i in 0..8usize {
        let s = i * 4;
        assert_eq!(rgba[s], bgra[s + 2]);
        assert_eq!(rgba[s + 1], bgra[s + 1]);
        assert_eq!(rgba[s + 2], bgra[s]);
        assert_eq!(rgba[s + 3], 255);
    }
}

#[test]
fn bgra_to_rgba_scalar_matches_dispatch() {
    let mut bgra = vec![0u8; 64];
    for (i, b) in bgra.iter_mut().enumerate() {
        *b = (i % 251) as u8;
    }
    let via_dispatch = bgra_to_rgba(&bgra);
    let mut via_scalar = vec![0u8; bgra.len()];
    bgra_to_rgba_scalar(&bgra, &mut via_scalar);
    assert_eq!(via_dispatch, via_scalar);
}

#[test]
fn alpha_mask_uses_alpha() {
    let bgra = [1u8, 2, 3, 128];
    assert_eq!(bgra_alpha_mask(&bgra), vec![128, 128, 128, 255]);
}

#[test]
fn uyvy_to_rgba_emits_opaque_pixels() {
    let uyvy = [128u8, 16, 128, 16]; // black pair
    let rgba = uyvy_to_rgba(&uyvy, 2, 1);
    assert_eq!(rgba.len(), 8);
    assert_eq!(rgba[3], 255);
    assert_eq!(rgba[7], 255);
}

#[test]
fn bgra_to_rgba_keeps_trailing_partial_pixel() {
    let bgra = [1u8, 2, 3, 4, 9, 9];
    let rgba = bgra_to_rgba(&bgra);
    assert_eq!(rgba.len(), 6);
    assert_eq!(&rgba[..4], &[3, 2, 1, 4]);
    assert_eq!(&rgba[4..], &[0, 0]);
}

#[test]
fn uyvy_white_pair_is_white() {
    let uyvy = [128u8, 235, 128, 235];
    let rgba = uyvy_to_rgba(&uyvy, 2, 1);
    assert_eq!(rgba, vec![255, 255, 255, 255, 255, 255, 255, 255]);
}

#[test]
fn uyvy_black_pair_is_black() {
    let uyvy = [128u8, 16, 128, 16];
    let rgba = uyvy_to_rgba(&uyvy, 2, 1);
    assert_eq!(rgba, vec![0, 0, 0, 255, 0, 0, 0, 255]);
}
