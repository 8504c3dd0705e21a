use vstd::prelude::*;

verus! {

/// FNV-1a 64-bit offset basis: the hash of no bytes.
pub const FNV_OFFSET: u64 = 0xcbf2_9ce4_8422_2325;

/// FNV-1a 64-bit prime.
pub const FNV_PRIME: u64 = 0x0000_0100_0000_01b3;

/// One FNV-1a round: xor in the byte, then multiply by the prime modulo 2^64.
pub open spec fn fnv_byte(h: u64, b: u8) -> u64 {
    vstd::wrapping::u64_specs::wrapping_mul(h ^ (b as u64), FNV_PRIME)
}

/// Low byte of a 16-bit sample's two's-complement encoding.
pub open spec fn low_byte(w: i16) -> u8 {
    ((w as u16) & 0xff) as u8
}

/// High byte of a 16-bit sample's two's-complement encoding.
pub open spec fn high_byte(w: i16) -> u8 {
    ((w as u16) >> 8) as u8
}

/// The hash after feeding one sample as two little-endian bytes.
pub open spec fn fnv_sample(h: u64, w: i16) -> u64 {
    fnv_byte(fnv_byte(h, low_byte(w)), high_byte(w))
}

/// FNV-1a over the little-endian bytes of the 16-bit samples `s`.
pub open spec fn spec_fnv1a_pcm16(s: Seq<i16>) -> u64
    decreases s.len(),
{
    if s.len() == 0 {
        FNV_OFFSET
    } else {
        fnv_sample(spec_fnv1a_pcm16(s.drop_last()), s.last())
    }
}

/// FNV-1a 64 over a byte string: start from the offset basis and fold in
/// every byte in order.
pub open spec fn fnv1a_bytes(b: Seq<u8>) -> u64
    decreases b.len(),
{
    if b.len() == 0 {
        FNV_OFFSET
    } else {
        fnv_byte(fnv1a_bytes(b.drop_last()), b.last())
    }
}

/// The little-endian byte string of 16-bit samples: sample `i` gives bytes
/// `2 * i` (low) and `2 * i + 1` (high).
pub open spec fn le_bytes(s: Seq<i16>) -> Seq<u8> {
    Seq::new(
        2 * s.len(),
        |i: int| if i % 2 == 0 { low_byte(s[i / 2]) } else { high_byte(s[i / 2]) },
    )
}

/// The two bytes of a sample are its 16-bit two's-complement value, low
/// byte first.
pub proof fn lemma_sample_bytes(w: i16)
    ensures
        low_byte(w) as int + 256 * high_byte(w) as int == (w as u16) as int,
{
    let u = w as u16;
    assert(((u & 0xff) as u8) as int + 256 * ((u >> 8) as u8) as int == u as int) by (bit_vector);
}

/// The PCM hash is FNV-1a over the little-endian bytes of every sample, for
/// inputs of any length; feeding one more sample folds in its low byte and
/// then its high byte.
pub proof fn lemma_pcm_hash_is_fnv_of_bytes(s: Seq<i16>, w: i16)
    ensures
        spec_fnv1a_pcm16(s) == fnv1a_bytes(le_bytes(s)),
        spec_fnv1a_pcm16(Seq::empty()) == FNV_OFFSET,
        spec_fnv1a_pcm16(s.push(w)) == fnv_byte(
            fnv_byte(spec_fnv1a_pcm16(s), low_byte(w)),
            high_byte(w),
        ),
{
    lemma_pcm_hash_bytes(s);
    assert(s.push(w).drop_last() =~= s);
    assert(s.push(w).last() == w);
}

proof fn lemma_le_bytes_push(s: Seq<i16>, w: i16)
    ensures
        le_bytes(s.push(w)) =~= le_bytes(s) + seq![low_byte(w), high_byte(w)],
{
    let t = s.push(w);
    let l = le_bytes(s) + seq![low_byte(w), high_byte(w)];
    assert forall|i: int| 0 <= i < 2 * t.len() implies #[trigger] le_bytes(t)[i] == l[i] by {
        if i < 2 * s.len() {
            assert(t[i / 2] == s[i / 2]);
        } else {
            assert(i / 2 == s.len());
        }
    }
}

/// Folding two more bytes into a byte string's hash.
proof fn lemma_fnv1a_bytes_two_more(b: Seq<u8>, x: u8, y: u8)
    ensures
        fnv1a_bytes(b + seq![x, y]) == fnv_byte(fnv_byte(fnv1a_bytes(b), x), y),
{
    let c = b + seq![x, y];
    assert(c.drop_last() =~= b.push(x));
    assert(b.push(x).drop_last() =~= b);
    assert(c.last() == y);
    assert(b.push(x).last() == x);
    assert(fnv1a_bytes(b.push(x)) == fnv_byte(fnv1a_bytes(b), x));
    assert(fnv1a_bytes(c) == fnv_byte(fnv1a_bytes(b.push(x)), y));
}

proof fn lemma_pcm_hash_bytes(s: Seq<i16>)
    ensures
        spec_fnv1a_pcm16(s) == fnv1a_bytes(le_bytes(s)),
    decreases s.len(),
{
    if s.len() == 0 {
        assert(le_bytes(s) =~= Seq::<u8>::empty());
    } else {
        let d = s.drop_last();
        let w = s.last();
        lemma_pcm_hash_bytes(d);
        assert(d.push(w) =~= s);
        lemma_le_bytes_push(d, w);
        lemma_fnv1a_bytes_two_more(le_bytes(d), low_byte(w), high_byte(w));
    }
}

/// FNV-1a (64-bit) over little-endian 16-bit PCM. Stable and plenty for
/// change detection.
pub fn fnv1a_pcm16(pcm: &[i16]) -> (h: u64)
    ensures
        h == spec_fnv1a_pcm16(pcm@),
        h == fnv1a_bytes(le_bytes(pcm@)),
{
    let mut h: u64 = FNV_OFFSET;
    let mut i: usize = 0;
    while i < pcm.len()
        invariant
            i <= pcm@.len(),
            h == spec_fnv1a_pcm16(pcm@.take(i as int)),
        decreases pcm@.len() - i,
    {
        let w = pcm[i];
        let u = w as u16;
        let lo = (u & 0xff) as u8;
        let hi = (u >> 8) as u8;
        h = h ^ (lo as u64);
        h = h.wrapping_mul(FNV_PRIME);
        h = h ^ (hi as u64);
        h = h.wrapping_mul(FNV_PRIME);
        proof {
            assert(pcm@.take(i + 1).drop_last() =~= pcm@.take(i as int));
        }
        i += 1;
    }
    proof {
        assert(pcm@.take(pcm@.len() as int) =~= pcm@);
        lemma_pcm_hash_bytes(pcm@);
    }
    h
}

} // verus!
