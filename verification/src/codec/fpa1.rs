//! FPA1 floating-point planar audio codec.
//!
//! Samples are handled as the IEEE-754 bit patterns of their `f32` values:
//! FPA1 never interprets a sample, it only moves its four little-endian
//! bytes.  Encode skips silent channels (every sample's bits zero) and
//! returns an active-channel bitfield; decode expands missing channels to
//! zeros.
use vstd::prelude::*;

use crate::error::OmtError;
use crate::protocol::le::{u32_from_le, u32_le};
use crate::types::AUDIO_SAMPLE_SIZE;

verus! {

/// Bit `i` of `a` is set.
pub open spec fn bit_set(a: u32, i: int) -> bool {
    ((a >> (i as u32)) & 1u32) == 1u32
}

/// Number of set bits of `a` among bits `0..k`.
pub open spec fn active_below(a: u32, k: nat) -> nat
    decreases k,
{
    if k == 0 {
        0
    } else {
        active_below(a, (k - 1) as nat) + if bit_set(a, k - 1) {
            1nat
        } else {
            0nat
        }
    }
}

/// `n` zero bytes.
pub open spec fn zeros(n: nat) -> Seq<u8> {
    Seq::new(n, |_i: int| 0u8)
}

/// Decoded FPA1 layout for the first `k` channels: channel `i` is the next
/// `plane` bytes of `data` when bit `i` of `a` is set, else `plane` zeros.
/// Active channels are read from `data` in order.
pub open spec fn fpa1_planes(data: Seq<u8>, a: u32, k: nat, plane: nat) -> Seq<u8>
    decreases k,
{
    if k == 0 {
        Seq::empty()
    } else {
        let i = (k - 1) as nat;
        fpa1_planes(data, a, i, plane) + if bit_set(a, i as int) {
            data.subrange((active_below(a, i) * plane) as int, (active_below(a, i) * plane + plane) as int)
        } else {
            zeros(plane)
        }
    }
}

/// Little-endian bytes of a sequence of 32-bit words.
pub open spec fn words_le(w: Seq<u32>) -> Seq<u8>
    decreases w.len(),
{
    if w.len() == 0 {
        Seq::empty()
    } else {
        words_le(w.drop_last()) + u32_le(w.last())
    }
}

/// A channel whose every sample has all bits zero.
pub open spec fn silent(ch: Seq<u32>) -> bool {
    forall|j: int| 0 <= j < ch.len() ==> ch[j] == 0
}

/// FPA1 payload of the first `k` channels: each non-silent channel's samples, in order.
pub open spec fn fpa1_payload(chs: Seq<Seq<u32>>, k: nat) -> Seq<u8>
    decreases k,
{
    if k == 0 {
        Seq::empty()
    } else {
        fpa1_payload(chs, (k - 1) as nat) + if silent(chs[k - 1]) {
            Seq::empty()
        } else {
            words_le(chs[k - 1])
        }
    }
}

/// The 32-bit word of `s` at word index `j`.
pub open spec fn word_at(s: Seq<u8>, j: int) -> u32 {
    u32_from_le(s.subrange(4 * j, 4 * j + 4))
}

proof fn lemma_bit_test(a: u32, i: u32)
    requires
        i < 32,
    ensures
        ((a & (1u32 << i)) == (1u32 << i)) == bit_set(a, i as int),
{
    assert(((a & (1u32 << i)) == (1u32 << i)) == (((a >> i) & 1u32) == 1u32)) by (bit_vector)
        requires
            i < 32,
    ;
}

proof fn lemma_active_below_mono(a: u32, j: nat, k: nat)
    requires
        j <= k,
    ensures
        active_below(a, j) <= active_below(a, k),
        active_below(a, k) <= active_below(a, j) + (k - j),
    decreases k,
{
    if j < k {
        lemma_active_below_mono(a, j, (k - 1) as nat);
    }
}

/// Count of set bits of `a` (its population count).
fn count_active(a: u32) -> (r: usize)
    ensures
        r == active_below(a, 32),
{
    let mut n: usize = 0;
    let mut i: u32 = 0;
    while i < 32
        invariant
            i <= 32,
            n == active_below(a, i as nat),
            n <= i,
        decreases 32 - i,
    {
        proof {
            lemma_bit_test(a, i);
        }
        if (a & (1u32 << i)) == (1u32 << i) {
            n = n + 1;
        }
        i = i + 1;
    }
    n
}

/// Unpack an FPA1 payload into one planar buffer (channel-major).
///
/// Layout: `[ch0 samples, ch1 samples, …]`, each sample four little-endian
/// bytes.  Channels whose bit is clear in `active_channels` are zero.
pub fn decode_planar_into(
    data: &[u8],
    channels: usize,
    samples_per_channel: usize,
    active_channels: u32,
    out: &mut Vec<u8>,
) -> (r: Result<(), OmtError>)
    ensures
        ({
            let active = active_below(active_channels, 32);
            let expected = active * samples_per_channel * 4;
            let need = channels * samples_per_channel * 4;
            let plane = samples_per_channel * 4;
            &&& channels == 0 || channels > 32 ==> (r matches Err(e) && e is InvalidArgument)
                && final(out)@ == old(out)@
            &&& 1 <= channels <= 32 && expected > usize::MAX ==> (r matches Err(e)
                && e is InvalidArgument) && final(out)@ == old(out)@
            &&& 1 <= channels <= 32 && expected <= usize::MAX && data@.len() < expected ==> (r matches Err(
                e,
            ) && e is Protocol) && final(out)@ == old(out)@
            &&& 1 <= channels <= 32 && expected <= usize::MAX && data@.len() >= expected && need
                > usize::MAX ==> (r matches Err(e) && e is InvalidArgument) && final(out)@ == old(
                out,
            )@
            &&& 1 <= channels <= 32 && expected <= usize::MAX && data@.len() >= expected && need
                <= usize::MAX ==> r is Ok && final(out)@ == fpa1_planes(
                data@,
                active_channels,
                channels as nat,
                plane as nat,
            )
        }),
{
    if channels == 0 || channels > 32 {
        return Err(OmtError::InvalidArgument("FPA1 channel count must be 1..=32".to_string()));
    }
    let active_count = count_active(active_channels);
    let expected = match active_count.checked_mul(samples_per_channel) {
        Some(n) => match n.checked_mul(AUDIO_SAMPLE_SIZE) {
            Some(m) => m,
            None => {
                proof {
                    assert(n * 4 > usize::MAX);
                }
                return Err(OmtError::InvalidArgument("FPA1 size overflow".to_string()));
            },
        },
        None => {
            proof {
                assert(active_count * samples_per_channel * 4 >= active_count * samples_per_channel)
                    by (nonlinear_arith);
            }
            return Err(OmtError::InvalidArgument("FPA1 size overflow".to_string()));
        },
    };
    if data.len() < expected {
        return Err(OmtError::Protocol("FPA1 payload too short".to_string()));
    }
    let _need = match channels.checked_mul(samples_per_channel) {
        Some(n) => match n.checked_mul(AUDIO_SAMPLE_SIZE) {
            Some(m) => m,
            None => {
                return Err(OmtError::InvalidArgument("FPA1 size overflow".to_string()));
            },
        },
        None => {
            proof {
                assert(channels * samples_per_channel * 4 >= channels * samples_per_channel)
                    by (nonlinear_arith);
            }
            return Err(OmtError::InvalidArgument("FPA1 size overflow".to_string()));
        },
    };
    proof {
        assert(channels * samples_per_channel * 4 >= samples_per_channel * 4) by (nonlinear_arith)
            requires
                channels >= 1,
        ;
    }
    let bytes = samples_per_channel * AUDIO_SAMPLE_SIZE;
    let dlen = data.len();
    proof {
        assert(active_count * samples_per_channel * 4 == active_count * (samples_per_channel * 4))
            by (nonlinear_arith);
    }
    out.clear();
    proof {
        assert(active_below(active_channels, 0) == 0);
        assert(0 * bytes == 0) by (nonlinear_arith);
        assert(out@ =~= fpa1_planes(data@, active_channels, 0, bytes as nat));
    }
    let mut offset: usize = 0;
    let mut i: usize = 0;
    while i < channels
        invariant
            1 <= channels <= 32,
            i <= channels,
            bytes == samples_per_channel * 4,
            offset == active_below(active_channels, i as nat) * bytes,
            active_count == active_below(active_channels, 32),
            active_count * bytes <= data@.len(),
            dlen == data@.len(),
            out@ == fpa1_planes(data@, active_channels, i as nat, bytes as nat),
        decreases channels - i,
    {
        proof {
            lemma_bit_test(active_channels, i as u32);
            lemma_active_below_mono(active_channels, (i + 1) as nat, 32);
        }
        let flag = 1u32 << (i as u32);
        let ghost k = active_below(active_channels, i as nat);
        if (active_channels & flag) == flag {
            proof {
                assert(k + 1 <= active_count);
                assert((k + 1) * bytes <= active_count * bytes) by (nonlinear_arith)
                    requires
                        k + 1 <= active_count,
                ;
                assert((k + 1) * bytes == k * bytes + bytes) by (nonlinear_arith);
            }
            out.extend_from_slice(&data[offset..offset + bytes]);
            offset = offset + bytes;
            proof {
                assert(offset == (k + 1) * bytes);
            }
        } else {
            let mut z: usize = 0;
            let ghost before = out@;
            while z < bytes
                invariant
                    z <= bytes,
                    out@ == before + zeros(z as nat),
                decreases bytes - z,
            {
                out.push(0u8);
                z = z + 1;
                proof {
                    assert(out@ =~= before + zeros(z as nat));
                }
            }
        }
        i = i + 1;
        proof {
            assert(out@ =~= fpa1_planes(data@, active_channels, i as nat, bytes as nat));
        }
    }
    Ok(())
}


/// Channel bit patterns seen as sequences.
pub open spec fn channels_view(c: Seq<Vec<u32>>) -> Seq<Seq<u32>> {
    c.map_values(|v: Vec<u32>| v@)
}

/// Active-channel bitfield of the first `k` channels: bit `i` set for each non-silent channel.
pub open spec fn active_mask(chs: Seq<Seq<u32>>, k: nat) -> u32
    decreases k,
{
    if k == 0 {
        0u32
    } else {
        active_mask(chs, (k - 1) as nat) | if silent(chs[k - 1]) {
            0u32
        } else {
            1u32 << ((k - 1) as u32)
        }
    }
}

/// All channels have the length of the first.
pub open spec fn same_lengths(chs: Seq<Seq<u32>>) -> bool {
    forall|j: int| 0 <= j < chs.len() ==> #[trigger] chs[j].len() == chs[0].len()
}

/// Every channel's samples in order, silent ones included.
pub open spec fn flat_words(chs: Seq<Seq<u32>>, k: nat) -> Seq<u8>
    decreases k,
{
    if k == 0 {
        Seq::empty()
    } else {
        flat_words(chs, (k - 1) as nat) + words_le(chs[k - 1])
    }
}

/// Bit `i` of the active mask of `k` channels says whether channel `i` is non-silent.
pub proof fn lemma_active_mask_bits(chs: Seq<Seq<u32>>, k: nat, i: int)
    requires
        k <= 32,
        k <= chs.len(),
        0 <= i < 32,
    ensures
        bit_set(active_mask(chs, k), i) == (i < k && !silent(chs[i])),
    decreases k,
{
    let ii = i as u32;
    if k == 0 {
        assert(((0u32 >> ii) & 1u32) != 1u32) by (bit_vector);
    } else {
        lemma_active_mask_bits(chs, (k - 1) as nat, i);
        let m = active_mask(chs, (k - 1) as nat);
        let j = (k - 1) as u32;
        if silent(chs[k - 1]) {
            assert((m | 0u32) == m) by (bit_vector);
        } else {
            assert((((m | (1u32 << j)) >> ii) & 1u32 == 1u32) == (((m >> ii) & 1u32 == 1u32) || ii
                == j)) by (bit_vector)
                requires
                    j < 32,
                    ii < 32,
            ;
        }
    }
}

proof fn lemma_words_le(w: Seq<u32>)
    ensures
        words_le(w).len() == 4 * w.len(),
        forall|j: int| 0 <= j < w.len() ==> #[trigger] word_at(words_le(w), j) == w[j],
    decreases w.len(),
{
    if w.len() > 0 {
        lemma_words_le(w.drop_last());
        let p = words_le(w.drop_last());
        crate::protocol::le::lemma_u32_roundtrip(w.last());
        assert forall|j: int| 0 <= j < w.len() implies #[trigger] word_at(words_le(w), j) == w[j] by {
            if j < w.len() - 1 {
                assert(words_le(w).subrange(4 * j, 4 * j + 4) =~= p.subrange(4 * j, 4 * j + 4));
                assert(word_at(p, j) == w.drop_last()[j]);
            } else {
                assert(words_le(w).subrange(4 * j, 4 * j + 4) =~= u32_le(w.last()));
            }
        }
    }
}

proof fn lemma_words_le_silent(w: Seq<u32>)
    requires
        silent(w),
    ensures
        words_le(w) =~= zeros(4 * w.len()),
    decreases w.len(),
{
    if w.len() > 0 {
        lemma_words_le_silent(w.drop_last());
        let z = w.last();
        assert(z == 0);
        assert((z as u8) == 0 && ((z >> 8u32) as u8) == 0 && ((z >> 16u32) as u8) == 0 && ((z
            >> 24u32) as u8) == 0) by (bit_vector)
            requires
                z == 0,
        ;
    }
}

/// The payload of the first `k` channels holds at most `k * n * 4` bytes
/// when every channel has `n` samples.
pub proof fn lemma_payload_len_bound(chs: Seq<Seq<u32>>, k: nat, n: nat)
    requires
        k <= chs.len(),
        forall|j: int| 0 <= j < chs.len() ==> #[trigger] chs[j].len() == n,
    ensures
        fpa1_payload(chs, k).len() <= k * n * 4,
    decreases k,
{
    if k > 0 {
        lemma_payload_len_bound(chs, (k - 1) as nat, n);
        lemma_words_le(chs[k - 1]);
        assert(chs[k - 1].len() == n);
        assert(((k - 1) as nat) * n * 4 + n * 4 == k * n * 4) by (nonlinear_arith)
            requires
                k > 0,
        ;
    } else {
        assert(0 * n * 4 == 0) by (nonlinear_arith);
    }
}

proof fn lemma_payload_len(chs: Seq<Seq<u32>>, n: nat, k: nat)
    requires
        1 <= n <= 32,
        n <= chs.len(),
        k <= n,
        same_lengths(chs),
    ensures
        fpa1_payload(chs, k).len() == active_below(active_mask(chs, n), k) * (4 * chs[0].len()),
    decreases k,
{
    if k > 0 {
        lemma_payload_len(chs, n, (k - 1) as nat);
        lemma_active_mask_bits(chs, n, k - 1);
        lemma_words_le(chs[k - 1]);
        assert(chs[k - 1].len() == chs[0].len());
        let b = 4 * chs[0].len();
        let a = active_mask(chs, n);
        let c = active_below(a, (k - 1) as nat);
        assert((c + 1) * b == c * b + b) by (nonlinear_arith);
        if silent(chs[k - 1]) {
            assert(!bit_set(a, k - 1));
            assert(active_below(a, k) == c);
            assert(fpa1_payload(chs, k) == fpa1_payload(chs, (k - 1) as nat));
        } else {
            assert(bit_set(a, k - 1));
            assert(active_below(a, k) == c + 1);
            assert(fpa1_payload(chs, k) == fpa1_payload(chs, (k - 1) as nat) + words_le(chs[k - 1]));
        }
    } else {
        assert(0 * (4 * chs[0].len()) == 0) by (nonlinear_arith);
    }
}

proof fn lemma_payload_prefix(chs: Seq<Seq<u32>>, k: nat, n: nat)
    requires
        k <= n,
    ensures
        fpa1_payload(chs, k).len() <= fpa1_payload(chs, n).len(),
        fpa1_payload(chs, n).subrange(0, fpa1_payload(chs, k).len() as int) =~= fpa1_payload(chs, k),
    decreases n,
{
    if k < n {
        lemma_payload_prefix(chs, k, (n - 1) as nat);
        let p = fpa1_payload(chs, (n - 1) as nat);
        let q = fpa1_payload(chs, k);
        assert(fpa1_payload(chs, n).subrange(0, p.len() as int) =~= p);
        assert(fpa1_payload(chs, n).subrange(0, q.len() as int) =~= p.subrange(0, q.len() as int));
    }
}

proof fn lemma_planes_of_payload(chs: Seq<Seq<u32>>, n: nat, k: nat)
    requires
        1 <= n <= 32,
        n <= chs.len(),
        k <= n,
        same_lengths(chs),
    ensures
        fpa1_planes(fpa1_payload(chs, n), active_mask(chs, n), k, 4 * chs[0].len()) =~= flat_words(
            chs,
            k,
        ),
    decreases k,
{
    if k > 0 {
        let i = (k - 1) as nat;
        let a = active_mask(chs, n);
        let b = 4 * chs[0].len();
        let p = fpa1_payload(chs, n);
        lemma_planes_of_payload(chs, n, i);
        lemma_active_mask_bits(chs, n, i as int);
        lemma_words_le(chs[i as int]);
        if silent(chs[i as int]) {
            lemma_words_le_silent(chs[i as int]);
        } else {
            lemma_payload_len(chs, n, i);
            lemma_payload_prefix(chs, k, n);
            let start = fpa1_payload(chs, i).len();
            assert(fpa1_payload(chs, k) =~= fpa1_payload(chs, i) + words_le(chs[i as int]));
            assert(p.subrange(start as int, (start + b) as int) =~= fpa1_payload(chs, k).subrange(
                start as int,
                (start + b) as int,
            ));
        }
    }
}

proof fn lemma_flat_words(chs: Seq<Seq<u32>>, k: nat)
    requires
        k <= chs.len(),
        same_lengths(chs),
        chs.len() > 0,
    ensures
        flat_words(chs, k).len() == k * (4 * chs[0].len()),
        forall|i: int, s: int|
            0 <= i < k && 0 <= s < chs[0].len() ==> word_at(flat_words(chs, k), i * chs[0].len() + s)
                == #[trigger] chs[i][s],
    decreases k,
{
    let spc = chs[0].len();
    if k > 0 {
        let i0 = (k - 1) as nat;
        lemma_flat_words(chs, i0);
        lemma_words_le(chs[i0 as int]);
        let f = flat_words(chs, i0);
        assert(flat_words(chs, k) == f + words_le(chs[i0 as int]));
        assert(chs[i0 as int].len() == spc);
        assert((i0 + 1) * (4 * spc) == i0 * (4 * spc) + 4 * spc) by (nonlinear_arith);
        assert forall|i: int, s: int|
            0 <= i < k && 0 <= s < spc implies word_at(flat_words(chs, k), i * spc + s)
            == #[trigger] chs[i][s] by {
            let w = i * spc + s;
            if i < i0 {
                assert(4 * w + 4 <= f.len()) by (nonlinear_arith)
                    requires
                        w == i * spc + s,
                        s < spc,
                        i < i0,
                        f.len() == i0 * (4 * spc),
                ;
                assert(flat_words(chs, k).subrange(4 * w, 4 * w + 4) =~= f.subrange(4 * w, 4 * w + 4));
                assert(word_at(f, w) == chs[i][s]);
            } else {
                assert(4 * w == f.len() + 4 * s) by (nonlinear_arith)
                    requires
                        w == i * spc + s,
                        i == i0,
                        f.len() == i0 * (4 * spc),
                ;
                assert(flat_words(chs, k).subrange(4 * w, 4 * w + 4) =~= words_le(chs[i]).subrange(
                    4 * s,
                    4 * s + 4,
                ));
                assert(word_at(words_le(chs[i]), s) == chs[i][s]);
            }
        }
    }
}

/// FPA1 gives back what it was given: decoding the payload and bitfield
/// produced from `n` equally long channels (1 to 32 of them) restores every
/// sample of every channel, silent channels included, and the payload holds
/// exactly the bytes that the bitfield announces.
pub proof fn lemma_fpa1_roundtrip(chs: Seq<Seq<u32>>)
    requires
        1 <= chs.len() <= 32,
        same_lengths(chs),
    ensures
        ({
            let n = chs.len();
            let spc = chs[0].len();
            let a = active_mask(chs, n);
            let p = fpa1_payload(chs, n);
            let flat = fpa1_planes(p, a, n, 4 * spc);
            &&& p.len() == active_below(a, 32) * spc * 4
            &&& flat.len() == n * spc * 4
            &&& forall|i: int, s: int|
                0 <= i < n && 0 <= s < spc ==> word_at(flat, i * spc + s) == #[trigger] chs[i][s]
        }),
{
    let n = chs.len();
    let spc = chs[0].len();
    let a = active_mask(chs, n);
    lemma_payload_len(chs, n, n);
    assert(active_below(a, 32) == active_below(a, n)) by {
        lemma_active_below_tail(chs, n, 32);
    }
    assert(active_below(a, 32) * (4 * spc) == active_below(a, 32) * spc * 4) by (nonlinear_arith);
    lemma_planes_of_payload(chs, n, n);
    lemma_flat_words(chs, n);
    assert(n * (4 * spc) == n * spc * 4) by (nonlinear_arith);
}

proof fn lemma_active_below_tail(chs: Seq<Seq<u32>>, n: nat, k: nat)
    requires
        1 <= n <= 32,
        n <= chs.len(),
        n <= k <= 32,
    ensures
        active_below(active_mask(chs, n), k) == active_below(active_mask(chs, n), n),
    decreases k,
{
    if k > n {
        lemma_active_below_tail(chs, n, (k - 1) as nat);
        lemma_active_mask_bits(chs, n, k - 1);
    }
}

fn channel_is_silent(samples: &Vec<u32>) -> (r: bool)
    ensures
        r == silent(samples@),
{
    let mut j: usize = 0;
    while j < samples.len()
        invariant
            j <= samples@.len(),
            forall|t: int| 0 <= t < j ==> samples@[t] == 0,
        decreases samples@.len() - j,
    {
        if samples[j] != 0 {
            return false;
        }
        j = j + 1;
    }
    true
}

/// Pack planar channels (sample bit patterns) into an FPA1 payload,
/// omitting silent channels.
///
/// Returns `(payload, active_channels_bitfield)`.  At least one and at most
/// 32 channels of equal length are accepted.
pub fn encode_planar(channels: &[Vec<u32>]) -> (r: Result<(Vec<u8>, u32), OmtError>)
    ensures
        channels@.len() == 0 ==> (r matches Err(e) && e is InvalidArgument),
        channels@.len() > 32 ==> (r matches Err(e) && e is InvalidArgument),
        1 <= channels@.len() <= 32 && !same_lengths(channels_view(channels@)) ==> (r matches Err(e)
            && e is InvalidArgument),
        1 <= channels@.len() <= 32 && same_lengths(channels_view(channels@)) ==> (r matches Ok(
            (p, a),
        ) && p@ == fpa1_payload(channels_view(channels@), channels@.len())
            && a == active_mask(channels_view(channels@), channels@.len())),
{
    let ghost chs = channels_view(channels@);
    if channels.len() == 0 {
        return Err(OmtError::InvalidArgument("FPA1 requires at least one channel".to_string()));
    }
    if channels.len() > 32 {
        return Err(OmtError::InvalidArgument("FPA1 supports at most 32 channels".to_string()));
    }
    let samples = channels[0].len();
    let mut c: usize = 0;
    while c < channels.len()
        invariant
            c <= channels@.len(),
            chs == channels_view(channels@),
            samples == chs[0].len(),
            1 <= channels@.len(),
            forall|j: int| 0 <= j < c ==> #[trigger] chs[j].len() == samples,
        decreases channels@.len() - c,
    {
        if channels[c].len() != samples {
            proof {
                assert(chs[c as int].len() != chs[0].len());
            }
            return Err(
                OmtError::InvalidArgument(
                    "all FPA1 channels must have the same sample count".to_string(),
                ),
            );
        }
        c = c + 1;
    }
    let mut active: u32 = 0;
    let mut out: Vec<u8> = Vec::new();
    let mut i: usize = 0;
    while i < channels.len()
        invariant
            i <= channels@.len() <= 32,
            chs == channels_view(channels@),
            out@ == fpa1_payload(chs, i as nat),
            active == active_mask(chs, i as nat),
        decreases channels@.len() - i,
    {
        let ch = &channels[i];
        if channel_is_silent(ch) {
            i = i + 1;
            proof {
                assert(active | 0u32 == active) by (bit_vector);
            }
            continue;
        }
        active = active | (1u32 << (i as u32));
        let ghost before = out@;
        let mut j: usize = 0;
        while j < ch.len()
            invariant
                j <= ch@.len(),
                out@ == before + words_le(ch@.take(j as int)),
            decreases ch@.len() - j,
        {
            crate::protocol::le::push_u32_le(&mut out, ch[j]);
            proof {
                assert(ch@.take(j + 1).drop_last() =~= ch@.take(j as int));
            }
            j = j + 1;
            proof {
                assert(out@ =~= before + words_le(ch@.take(j as int)));
            }
        }
        proof {
            assert(ch@.take(ch@.len() as int) =~= ch@);
        }
        i = i + 1;
    }
    Ok((out, active))
}

/// Plane `i` of a decoded buffer: its `spc` words, in order.
pub open spec fn plane_matches(p: Seq<u32>, flat: Seq<u8>, i: int, spc: int) -> bool {
    &&& p.len() == spc
    &&& forall|s: int| 0 <= s < spc ==> #[trigger] p[s] == word_at(flat, i * spc + s)
}

/// Unpack an FPA1 payload into planar channels (sample bit patterns),
/// expanding inactive channels to zeros.
pub fn decode_planar(
    data: &[u8],
    channels: usize,
    samples_per_channel: usize,
    active_channels: u32,
) -> (r: Result<Vec<Vec<u32>>, OmtError>)
    ensures
        ({
            let active = active_below(active_channels, 32);
            let expected = active * samples_per_channel * 4;
            let need = channels * samples_per_channel * 4;
            let flat = fpa1_planes(
                data@,
                active_channels,
                channels as nat,
                (samples_per_channel * 4) as nat,
            );
            &&& channels == 0 || channels > 32 ==> (r matches Err(e) && e is InvalidArgument)
            &&& 1 <= channels <= 32 && expected > usize::MAX ==> (r matches Err(e)
                && e is InvalidArgument)
            &&& 1 <= channels <= 32 && expected <= usize::MAX && data@.len() < expected ==> (r matches Err(
                e,
            ) && e is Protocol)
            &&& 1 <= channels <= 32 && expected <= usize::MAX && data@.len() >= expected && need
                > usize::MAX ==> (r matches Err(e) && e is InvalidArgument)
            &&& 1 <= channels <= 32 && expected <= usize::MAX && data@.len() >= expected && need
                <= usize::MAX ==> (r matches Ok(planes) && planes@.len() == channels && forall|
                i: int,
            |
                0 <= i < channels ==> plane_matches(
                    #[trigger] planes@[i]@,
                    flat,
                    i,
                    samples_per_channel as int,
                ))
        }),
{
    let mut flat: Vec<u8> = Vec::new();
    decode_planar_into(data, channels, samples_per_channel, active_channels, &mut flat)?;
    let ghost f = flat@;
    proof {
        lemma_active_below_mono(active_channels, channels as nat, 32);
        let c = active_below(active_channels, channels as nat);
        let t = active_below(active_channels, 32);
        assert(c * (samples_per_channel * 4) <= t * samples_per_channel * 4) by (nonlinear_arith)
            requires
                c <= t,
        ;
        lemma_planes_len(data@, active_channels, channels as nat, (samples_per_channel * 4) as nat);
        assert(channels * (samples_per_channel * 4) == channels * samples_per_channel * 4)
            by (nonlinear_arith);
    }
    let mut planes: Vec<Vec<u32>> = Vec::new();
    let mut i: usize = 0;
    while i < channels
        invariant
            i <= channels <= 32,
            flat@ == f,
            f.len() == channels * samples_per_channel * 4,
            channels * samples_per_channel * 4 <= usize::MAX,
            planes@.len() == i,
            forall|ii: int|
                0 <= ii < i ==> plane_matches(
                    #[trigger] planes@[ii]@,
                    f,
                    ii,
                    samples_per_channel as int,
                ),
        decreases channels - i,
    {
        let mut plane: Vec<u32> = Vec::new();
        let mut s: usize = 0;
        while s < samples_per_channel
            invariant
                i < channels <= 32,
                flat@ == f,
                f.len() == channels * samples_per_channel * 4,
                channels * samples_per_channel * 4 <= usize::MAX,
                s <= samples_per_channel,
                plane@.len() == s,
                forall|t: int| 0 <= t < s ==> #[trigger] plane@[t] == word_at(f, i * samples_per_channel + t),
            decreases samples_per_channel - s,
        {
            proof {
                assert(4 * (i * samples_per_channel + s) + 4 <= channels * samples_per_channel * 4)
                    by (nonlinear_arith)
                    requires
                        i < channels,
                        s < samples_per_channel,
                ;
            }
            let o = 4 * (i * samples_per_channel + s);
            plane.push(crate::protocol::le::read_u32_le(flat.as_slice(), o));
            s = s + 1;
        }
        proof {
            assert(plane_matches(plane@, f, i as int, samples_per_channel as int));
        }
        let ghost old_planes = planes@;
        planes.push(plane);
        proof {
            assert forall|ii: int| 0 <= ii < i + 1 implies plane_matches(
                #[trigger] planes@[ii]@,
                f,
                ii,
                samples_per_channel as int,
            ) by {
                if ii < i {
                    assert(planes@[ii] == old_planes[ii]);
                }
            }
        }
        i = i + 1;
    }
    Ok(planes)
}

proof fn lemma_planes_len(data: Seq<u8>, a: u32, k: nat, plane: nat)
    requires
        active_below(a, k) * plane <= data.len(),
    ensures
        fpa1_planes(data, a, k, plane).len() == k * plane,
    decreases k,
{
    if k > 0 {
        let c = active_below(a, (k - 1) as nat);
        lemma_active_below_mono(a, (k - 1) as nat, k);
        assert(c * plane <= active_below(a, k) * plane) by (nonlinear_arith)
            requires
                c <= active_below(a, k),
        ;
        if bit_set(a, k - 1) {
            assert((c + 1) * plane == c * plane + plane) by (nonlinear_arith);
        }
        lemma_planes_len(data, a, (k - 1) as nat, plane);
        assert(((k - 1) as nat) * plane + plane == k * plane) by (nonlinear_arith)
            requires
                k >= 1,
        ;
    } else {
        assert(0 * plane == 0) by (nonlinear_arith);
    }
}

} // verus!
