use player5::defaults::{default_bars, default_block_size, default_sample_rate};
use player5::fnv::{fnv1a_pcm16, FNV_OFFSET};

/// 16-bit PCM the way the WAV writer quantises float samples.
fn to_pcm16(samples: &[f32]) -> Vec<i16> {
    samples
        .iter()
        .map(|&s| (s.clamp(-1.0, 1.0) * 32_767.0).round() as i16)
        .collect()
}

fn hash_pcm16(samples: &[f32]) -> u64 {
    fnv1a_pcm16(&to_pcm16(samples))
}

#[test]
fn hash_is_stable_and_sensitive() {
    let a = vec![0.0, 0.5, -0.5, 0.25];
    let mut b = a.clone();
    assert_eq!(hash_pcm16(&a), hash_pcm16(&a));
    b[3] += 1.0 / 32_767.0;
    assert_ne!(hash_pcm16(&a), hash_pcm16(&b));
    assert_eq!(hash_pcm16(&[]), 0xcbf2_9ce4_8422_2325);
}

#[test]
fn hash_matches_reference_fnv1a_over_le_bytes() {
    // Reference FNV-1a over the byte string, written out independently.
    let pcm: Vec<i16> = vec![0, 1, -1, 0x1234, i16::MIN, i16::MAX];
    let mut h: u64 = 0xcbf2_9ce4_8422_2325;
    for s in &pcm {
        for b in s.to_le_bytes() {
            h ^= u64::from(b);
            h = h.wrapping_mul(0x0000_0100_0000_01b3);
        }
    }
    assert_eq!(fnv1a_pcm16(&pcm), h);
    assert_eq!(fnv1a_pcm16(&[]), FNV_OFFSET);
}

#[test]
fn hash_of_one_zero_sample() {
    // Two zero bytes: each round multiplies by the prime.
    let expect = 0xcbf2_9ce4_8422_2325u64
        .wrapping_mul(0x0000_0100_0000_01b3)
        .wrapping_mul(0x0000_0100_0000_01b3);
    assert_eq!(fnv1a_pcm16(&[0]), expect);
    assert_ne!(fnv1a_pcm16(&[0]), fnv1a_pcm16(&[0, 0]));
}

#[test]
fn render_defaults() {
    assert_eq!(default_bars(), 2);
    assert_eq!(default_sample_rate(), 48_000);
    assert_eq!(default_block_size(), 256);
}
