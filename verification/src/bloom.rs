//! A fixed 256-bit Bloom filter with 3 probes, used as a negative-answer
//! fast path when planning text queries.
//!
//! The probe hash, the exact effect of `insert` on the bit words, and the
//! meaning of `contains` are all pinned down, so the one guarantee that
//! matters — a term that was inserted is always reported present — is a
//! proved consequence.

use vstd::prelude::*;
use vstd::string::StringSliceAdditionalSpecFns;

verus! {

/// One multiply-and-add hash step (wrapping, base 31).
pub open spec fn bloom_step(h: u64, b: u8) -> u64 {
    vstd::wrapping::u64_specs::wrapping_add(
        vstd::wrapping::u64_specs::wrapping_mul(h, 31),
        b as u64,
    )
}

/// Hash state after folding `bytes` into `h`, left to right.
pub open spec fn bloom_hash_from(h: u64, bytes: Seq<u8>) -> u64
    decreases bytes.len(),
{
    if bytes.len() == 0 {
        h
    } else {
        bloom_hash_from(bloom_step(h, bytes[0]), bytes.drop_first())
    }
}

/// The 8-bit probe for `bytes` under `seed`: the low byte of the hash.
pub open spec fn bloom_probe(bytes: Seq<u8>, seed: u64) -> u8 {
    (bloom_hash_from(seed, bytes) & 0xFF) as u8
}

/// Which of the four 64-bit words a probe falls into.
pub open spec fn probe_word(p: u8) -> int {
    ((p >> 6) & 3) as int
}

/// Which bit of that word a probe selects.
pub open spec fn probe_bit(p: u8) -> u64 {
    (p & 63) as u64
}

/// Whether bit `bit` of word `w` is set.
pub open spec fn bit_set(w: u64, bit: u64) -> bool {
    w & (1u64 << bit) != 0
}

/// Probes stay inside the four words of 64 bits.
pub proof fn lemma_probe_in_range(p: u8)
    ensures
        0 <= probe_word(p) < 4,
        probe_bit(p) < 64,
{
    assert(((p >> 6) & 3) < 4 && (p & 63) < 64) by (bit_vector);
}

/// How or-ing one bit into a word changes `bit_set`.
proof fn lemma_or_bit(x: u64, b: u64, c: u64)
    requires
        b < 64,
    ensures
        bit_set(x | (1u64 << b), b),
        c != b ==> bit_set(x | (1u64 << b), c) == bit_set(x, c),
        bit_set(x, c) ==> bit_set(x | (1u64 << b), c),
{
    assert((x | (1u64 << b)) & (1u64 << b) != 0) by (bit_vector)
        requires
            b < 64,
    ;
    assert(c != b ==> (((x | (1u64 << b)) & (1u64 << c) != 0) == (x & (1u64 << c) != 0)))
        by (bit_vector);
}

/// 256-bit Bloom filter: 4 words of 64 bits, 3 hash probes per term.
#[derive(Debug, Clone)]
pub struct BloomFilter {
    pub bits: Vec<u64>,
    pub hash_count: usize,
}

impl BloomFilter {
    /// Structural well-formedness: four words, three probes.
    pub open spec fn wf(&self) -> bool {
        &&& self.bits@.len() == 4
        &&& self.hash_count == 3
    }

    /// Whether every probe of `bytes` hits a set bit.
    pub open spec fn spec_contains_bytes(&self, bytes: Seq<u8>) -> bool {
        forall|s: u64|
            0 <= s < 3 ==> #[trigger] bit_set(
                self.bits@[probe_word(bloom_probe(bytes, s))],
                probe_bit(bloom_probe(bytes, s)),
            )
    }

    /// Whether every probe of the UTF-8 bytes of `term` hits a set bit.
    pub open spec fn spec_contains(&self, term: &str) -> bool {
        self.spec_contains_bytes(term.spec_bytes())
    }

    /// An empty filter.
    pub fn new() -> (r: BloomFilter)
        ensures
            r.wf(),
            forall|w: int, b: u64| 0 <= w < 4 ==> !#[trigger] bit_set(r.bits@[w], b),
    {
        let mut bits: Vec<u64> = Vec::new();
        bits.push(0);
        bits.push(0);
        bits.push(0);
        bits.push(0);
        proof {
            assert(forall|b: u64| 0u64 & (1u64 << b) == 0) by (bit_vector);
        }
        BloomFilter { bits, hash_count: 3 }
    }

    /// The probe for `term` under `seed`.
    fn hash(&self, term: &str, seed: usize) -> (p: u8)
        requires
            seed <= 2,
        ensures
            p == bloom_probe(term.spec_bytes(), seed as u64),
    {
        let bytes = term.as_bytes();
        let mut h: u64 = seed as u64;
        let mut i: usize = 0;
        proof {
            assert(bytes@.skip(0) =~= bytes@);
        }
        while i < bytes.len()
            invariant
                0 <= i <= bytes@.len(),
                bloom_hash_from(seed as u64, bytes@) == bloom_hash_from(h, bytes@.skip(i as int)),
            decreases bytes@.len() - i,
        {
            proof {
                assert(bytes@.skip(i as int)[0] == bytes@[i as int]);
                assert(bytes@.skip(i as int).drop_first() =~= bytes@.skip(i as int + 1));
            }
            h = h.wrapping_mul(31).wrapping_add(bytes[i] as u64);
            i = i + 1;
        }
        proof {
            assert(bytes@.skip(i as int) =~= Seq::<u8>::empty());
        }
        (h & 0xFF) as u8
    }

    /// Set the three probe bits of `term`.  No other bit changes.
    pub fn insert(&mut self, term: &str)
        requires
            old(self).wf(),
        ensures
            final(self).wf(),
            // the term's probes are set
            final(self).spec_contains(term),
            // no bit is cleared
            forall|w: int, b: u64|
                0 <= w < 4 && #[trigger] bit_set(old(self).bits@[w], b) ==> bit_set(
                    final(self).bits@[w],
                    b,
                ),
            // no bit beyond the term's probes is newly set
            forall|w: int, b: u64|
                0 <= w < 4 && b < 64 && !bit_set(old(self).bits@[w], b) && #[trigger] bit_set(
                    final(self).bits@[w],
                    b,
                ) ==> exists|s: u64|
                    0 <= s < 3 && probe_word(#[trigger] bloom_probe(term.spec_bytes(), s)) == w
                        && probe_bit(bloom_probe(term.spec_bytes(), s)) == b,
    {
        let ghost orig = self.bits@;
        let ghost bytes = term.spec_bytes();
        let mut i: usize = 0;
        while i < self.hash_count
            invariant
                self.wf(),
                i <= 3,
                bytes == term.spec_bytes(),
                // probes with seed < i are set
                forall|s: u64|
                    0 <= s < i ==> #[trigger] bit_set(
                        self.bits@[probe_word(bloom_probe(bytes, s))],
                        probe_bit(bloom_probe(bytes, s)),
                    ),
                // monotone
                forall|w: int, b: u64|
                    0 <= w < 4 && #[trigger] bit_set(orig[w], b) ==> bit_set(self.bits@[w], b),
                // no spurious bits
                forall|w: int, b: u64|
                    0 <= w < 4 && b < 64 && !bit_set(orig[w], b) && #[trigger] bit_set(
                        self.bits@[w],
                        b,
                    ) ==> exists|s: u64|
                        0 <= s < i && probe_word(#[trigger] bloom_probe(bytes, s)) == w
                            && probe_bit(bloom_probe(bytes, s)) == b,
            decreases 3 - i,
        {
            let p = self.hash(term, i);
            proof {
                lemma_probe_in_range(p);
            }
            let word_idx = ((p >> 6) & 3) as usize;
            let bit_idx = (p & 63) as u64;
            let ghost before = self.bits@;
            let updated = self.bits[word_idx] | (1u64 << bit_idx);
            self.bits.set(word_idx, updated);
            proof {
                let w0 = before[word_idx as int];
                assert(word_idx as int == probe_word(p));
                assert(bit_idx == probe_bit(p));
                lemma_or_bit(w0, bit_idx, bit_idx);
                // seeds up to and including i are set
                assert forall|s: u64| 0 <= s < i + 1 implies #[trigger] bit_set(
                    self.bits@[probe_word(bloom_probe(bytes, s))],
                    probe_bit(bloom_probe(bytes, s)),
                ) by {
                    lemma_probe_in_range(bloom_probe(bytes, s));
                    if s < i {
                        let pw = probe_word(bloom_probe(bytes, s));
                        let pb = probe_bit(bloom_probe(bytes, s));
                        if pw == word_idx as int {
                            lemma_or_bit(w0, bit_idx, pb);
                        }
                    }
                }
                // monotone against orig
                assert forall|w: int, b: u64|
                    0 <= w < 4 && #[trigger] bit_set(orig[w], b) implies bit_set(
                    self.bits@[w],
                    b,
                ) by {
                    if w == word_idx as int {
                        lemma_or_bit(w0, bit_idx, b);
                    }
                }
                // no spurious bits against orig
                assert forall|w: int, b: u64|
                    0 <= w < 4 && b < 64 && !bit_set(orig[w], b) && #[trigger] bit_set(
                        self.bits@[w],
                        b,
                    ) implies exists|s: u64|
                    0 <= s < i + 1 && probe_word(#[trigger] bloom_probe(bytes, s)) == w
                        && probe_bit(bloom_probe(bytes, s)) == b by {
                    if w == word_idx as int && b == bit_idx {
                        assert(bloom_probe(bytes, i as u64) == p);
                        assert((i as u64) < i + 1 && probe_word(bloom_probe(bytes, i as u64))
                            == w && probe_bit(bloom_probe(bytes, i as u64)) == b);
                    } else {
                        if w == word_idx as int {
                            lemma_or_bit(w0, bit_idx, b);
                        }
                        assert(bit_set(before[w], b));
                    }
                }
            }
            i = i + 1;
        }
    }

    /// Whether every probe bit of `term` is set: `false` means the term was
    /// certainly never inserted; `true` means it probably was.
    pub fn contains(&self, term: &str) -> (r: bool)
        requires
            self.wf(),
        ensures
            r == self.spec_contains(term),
    {
        let ghost bytes = term.spec_bytes();
        let mut i: usize = 0;
        while i < self.hash_count
            invariant
                self.wf(),
                i <= 3,
                bytes == term.spec_bytes(),
                forall|s: u64|
                    0 <= s < i ==> #[trigger] bit_set(
                        self.bits@[probe_word(bloom_probe(bytes, s))],
                        probe_bit(bloom_probe(bytes, s)),
                    ),
            decreases 3 - i,
        {
            let p = self.hash(term, i);
            proof {
                lemma_probe_in_range(p);
            }
            let word_idx = ((p >> 6) & 3) as usize;
            let bit_idx = (p & 63) as u64;
            if (self.bits[word_idx] & (1u64 << bit_idx)) == 0 {
                proof {
                    assert(!bit_set(
                        self.bits@[probe_word(bloom_probe(bytes, i as u64))],
                        probe_bit(bloom_probe(bytes, i as u64)),
                    ));
                }
                return false;
            }
            i = i + 1;
        }
        true
    }
}

/// Inserting a term never hides another: whatever was reported present
/// before an insert is still reported present after it.
pub proof fn lemma_probe_set_preserved(pre: &BloomFilter, post: &BloomFilter, bytes: Seq<u8>)
    requires
        pre.wf(),
        post.wf(),
        forall|w: int, b: u64|
            0 <= w < 4 && #[trigger] bit_set(pre.bits@[w], b) ==> bit_set(post.bits@[w], b),
        pre.spec_contains_bytes(bytes),
    ensures
        post.spec_contains_bytes(bytes),
{
    assert forall|s: u64| 0 <= s < 3 implies #[trigger] bit_set(
        post.bits@[probe_word(bloom_probe(bytes, s))],
        probe_bit(bloom_probe(bytes, s)),
    ) by {
        lemma_probe_in_range(bloom_probe(bytes, s));
        assert(bit_set(
            pre.bits@[probe_word(bloom_probe(bytes, s))],
            probe_bit(bloom_probe(bytes, s)),
        ));
    }
}

} // verus!
