use openmediatransport::codec::fpa1::{decode_planar, decode_planar_into, encode_planar};

fn bits(v: &[f32]) -> Vec<u32> {
    v.iter().map(|x| x.to_bits()).collect()
}

#[test]
fn fpa1_roundtrip() {
    let left = vec![0.0f32, 0.5, -0.5, 1.0];
    let right = vec![1.0f32, 0.25, -0.25, 0.0];
    let (encoded, active) = encode_planar(&[bits(&left), bits(&right)]).unwrap();
    assert_eq!(active, 0b11);
    let decoded = decode_planar(&encoded, 2, 4, active).unwrap();
    assert_eq!(decoded[0], bits(&left));
    assert_eq!(decoded[1], bits(&right));
}

#[test]
fn fpa1_skips_silent_channel() {
    let left = vec![0.5f32, 0.25];
    let silent = vec![0.0f32, 0.0];
    let right = vec![-0.5f32, 1.0];
    let (encoded, active) = encode_planar(&[bits(&left), bits(&silent), bits(&right)]).unwrap();
    assert_eq!(active, 0b101);
    assert_eq!(encoded.len(), 2 * 2 * 4);
    let decoded = decode_planar(&encoded, 3, 2, active).unwrap();
    assert_eq!(decoded[0], bits(&left));
    assert_eq!(decoded[1], bits(&silent));
    assert_eq!(decoded[2], bits(&right));
}

#[test]
fn fpa1_rejects_mismatched_lengths() {
    let a = vec![0u32; 4];
    let b = vec![0u32; 3];
    assert!(encode_planar(&[a, b]).is_err());
}

#[test]
fn fpa1_negative_zero_is_not_silent() {
    let z = vec![(-0.0f32).to_bits()];
    let (encoded, active) = encode_planar(&[z]).unwrap();
    assert_eq!(active, 1);
    assert_eq!(encoded, vec![0, 0, 0, 0x80]);
}

#[test]
fn fpa1_rejects_bad_channel_counts() {
    assert!(encode_planar(&[]).is_err());
    let many: Vec<Vec<u32>> = (0..33).map(|_| vec![1u32]).collect();
    assert!(encode_planar(&many).is_err());
    let mut out = Vec::new();
    assert!(decode_planar_into(&[], 0, 1, 0, &mut out).is_err());
    assert!(decode_planar_into(&[0u8; 3], 1, 1, 1, &mut out).is_err());
}
