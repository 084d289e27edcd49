//! A light multiplicative hash for integer keys, in the spirit of FxHash:
//! it gives up resistance to hash flooding for speed.

use vstd::prelude::*;
use crate::sums::wrap64;

verus! {

/// The multiplier applied after each byte is mixed in.
pub const BYTE_PRIME: u64 = 0x100_0000_01b3;

/// The multiplier applied after a whole 64-bit word is mixed in.
pub const WORD_MIX: u64 = 0x9E37_79B9_7F4A_7C15;

/// The state after mixing in byte `b`.
pub open spec fn absorb_byte(h: u64, b: u8) -> u64 {
    wrap64((h ^ (b as u64)) * BYTE_PRIME)
}

/// The state after mixing in the bytes of `s`, in order.
pub open spec fn absorb_bytes(h: u64, s: Seq<u8>) -> u64
    decreases s.len(),
{
    if s.len() == 0 {
        h
    } else {
        absorb_byte(absorb_bytes(h, s.drop_last()), s.last())
    }
}

/// The state after mixing in the word `x`.
pub open spec fn absorb_word(h: u64, x: u64) -> u64 {
    wrap64((h ^ x) * WORD_MIX)
}

/// The hasher's state: the hash so far.
pub struct FastHasher(pub u64);

impl Default for FastHasher {
    /// A hasher that starts from state 0.
    fn default() -> (h: Self)
        ensures
            h.0 == 0,
    {
        FastHasher(0)
    }
}

impl FastHasher {
    /// Mixes the bytes in, one at a time.
    pub fn write(&mut self, bytes: &[u8])
        ensures
            final(self).0 == absorb_bytes(old(self).0, bytes@),
    {
        let ghost h0 = self.0;
        let mut i: usize = 0;
        while i < bytes.len()
            invariant
                i <= bytes@.len(),
                self.0 == absorb_bytes(h0, bytes@.take(i as int)),
            decreases bytes@.len() - i,
        {
            assert(bytes@.take(i as int + 1).drop_last() =~= bytes@.take(i as int));
            self.0 = (self.0 ^ bytes[i] as u64).wrapping_mul(BYTE_PRIME);
            i += 1;
        }
        assert(bytes@.take(bytes@.len() as int) =~= bytes@);
    }

    /// Mixes a whole 64-bit word in with one multiplication.
    pub fn write_u64(&mut self, x: u64)
        ensures
            final(self).0 == absorb_word(old(self).0, x),
    {
        self.0 = (self.0 ^ x).wrapping_mul(WORD_MIX);
    }

    /// The hash of what was written so far.
    pub fn finish(&self) -> (h: u64)
        ensures
            h == self.0,
    {
        self.0
    }
}

/// Writing bytes in two pieces gives the same state as writing them at once.
pub proof fn lemma_absorb_concat(h: u64, a: Seq<u8>, b: Seq<u8>)
    ensures
        absorb_bytes(h, a + b) == absorb_bytes(absorb_bytes(h, a), b),
    decreases b.len(),
{
    if b.len() == 0 {
        assert(a + b =~= a);
    } else {
        lemma_absorb_concat(h, a, b.drop_last());
        assert((a + b).drop_last() =~= a + b.drop_last());
        assert((a + b).last() == b.last());
    }
}

/// Mixing a word into state `h` is the same as mixing `h ^ x` into the
/// zero state: the word is combined with the state by exclusive or.
pub proof fn lemma_absorb_word_xor(h: u64, x: u64)
    ensures
        absorb_word(h, x) == absorb_word(0, h ^ x),
        absorb_word(x, x) == 0,
{
    assert(0u64 ^ (h ^ x) == h ^ x) by (bit_vector);
    assert(x ^ x == 0u64) by (bit_vector);
}

/// Mixing a byte into state `h` is the same as mixing the zero byte into
/// the state `h ^ b`; mixing a byte into a state equal to it gives 0.
pub proof fn lemma_absorb_byte_xor(h: u64, b: u8)
    ensures
        absorb_byte(h, b) == absorb_byte(h ^ (b as u64), 0),
        absorb_byte(b as u64, b) == 0,
{
    let bb = b as u64;
    assert((h ^ bb) ^ 0u64 == h ^ bb) by (bit_vector);
    assert(bb ^ bb == 0u64) by (bit_vector);
}

} // verus!
