//! The xorshift64 pseudo-random generator (shifts 13, 7, 17).

use vstd::prelude::*;

verus! {

/// One step of the generator, as a function on 64-bit states.
pub open spec fn xorshift_next(s: u64) -> u64 {
    let a = s ^ (s << 13u64);
    let b = a ^ (a >> 7u64);
    b ^ (b << 17u64)
}

/// The state after `k` steps from `s`.
pub open spec fn xorshift_iter(s: u64, k: nat) -> u64
    decreases k,
{
    if k == 0 {
        s
    } else {
        xorshift_next(xorshift_iter(s, (k - 1) as nat))
    }
}

/// Advances the state by one step and returns the new state.
pub fn xorshift(state: &mut u64) -> (r: u64)
    ensures
        r == xorshift_next(*old(state)),
        *final(state) == r,
{
    *state ^= *state << 13;
    *state ^= *state >> 7;
    *state ^= *state << 17;
    *state
}

/// The all-zero state is a fixed point of the generator.
pub proof fn lemma_xorshift_zero()
    ensures
        xorshift_next(0) == 0,
{
    assert(xorshift_next(0) == 0) by (bit_vector);
}

/// A nonzero state never steps to zero, so a nonzero seed never
/// collapses into the fixed point.
pub proof fn lemma_xorshift_nonzero(s: u64)
    requires
        s != 0,
    ensures
        xorshift_next(s) != 0,
{
    let a = s ^ (s << 13u64);
    assert(a != 0) by (bit_vector)
        requires
            s != 0,
            a == s ^ (s << 13u64),
    ;
    let b = a ^ (a >> 7u64);
    assert(b != 0) by (bit_vector)
        requires
            a != 0,
            b == a ^ (a >> 7u64),
    ;
    let c = b ^ (b << 17u64);
    assert(c != 0) by (bit_vector)
        requires
            b != 0,
            c == b ^ (b << 17u64),
    ;
}

/// From a nonzero seed, no number of steps reaches the zero state.
pub proof fn lemma_xorshift_iter_nonzero(s: u64, k: nat)
    requires
        s != 0,
    ensures
        xorshift_iter(s, k) != 0,
    decreases k,
{
    if k > 0 {
        lemma_xorshift_iter_nonzero(s, (k - 1) as nat);
        lemma_xorshift_nonzero(xorshift_iter(s, (k - 1) as nat));
    }
}

/// The generator step is linear over bits: stepping the exclusive or of two
/// states gives the exclusive or of their steps.
pub proof fn lemma_xorshift_linear(a: u64, b: u64)
    ensures
        xorshift_next(a ^ b) == xorshift_next(a) ^ xorshift_next(b),
{
    let c = a ^ b;
    let a1 = a ^ (a << 13u64);
    let b1 = b ^ (b << 13u64);
    let c1 = c ^ (c << 13u64);
    assert(c1 == a1 ^ b1) by (bit_vector)
        requires
            c == a ^ b,
            a1 == a ^ (a << 13u64),
            b1 == b ^ (b << 13u64),
            c1 == c ^ (c << 13u64),
    ;
    let a2 = a1 ^ (a1 >> 7u64);
    let b2 = b1 ^ (b1 >> 7u64);
    let c2 = c1 ^ (c1 >> 7u64);
    assert(c2 == a2 ^ b2) by (bit_vector)
        requires
            c1 == a1 ^ b1,
            a2 == a1 ^ (a1 >> 7u64),
            b2 == b1 ^ (b1 >> 7u64),
            c2 == c1 ^ (c1 >> 7u64),
    ;
    let a3 = a2 ^ (a2 << 17u64);
    let b3 = b2 ^ (b2 << 17u64);
    let c3 = c2 ^ (c2 << 17u64);
    assert(c3 == a3 ^ b3) by (bit_vector)
        requires
            c2 == a2 ^ b2,
            a3 == a2 ^ (a2 << 17u64),
            b3 == b2 ^ (b2 << 17u64),
            c3 == c2 ^ (c2 << 17u64),
    ;
}

/// Distinct states step to distinct states: the generator is a
/// permutation of the 64-bit states.
pub proof fn lemma_xorshift_injective(s: u64, t: u64)
    requires
        xorshift_next(s) == xorshift_next(t),
    ensures
        s == t,
{
    let a1 = s ^ (s << 13u64);
    let a2 = t ^ (t << 13u64);
    let b1 = a1 ^ (a1 >> 7u64);
    let b2 = a2 ^ (a2 >> 7u64);
    assert(b1 == b2) by (bit_vector)
        requires
            b1 ^ (b1 << 17u64) == b2 ^ (b2 << 17u64),
    ;
    assert(a1 == a2) by (bit_vector)
        requires
            b1 == a1 ^ (a1 >> 7u64),
            b2 == a2 ^ (a2 >> 7u64),
            b1 == b2,
    ;
    assert(s == t) by (bit_vector)
        requires
            a1 == s ^ (s << 13u64),
            a2 == t ^ (t << 13u64),
            a1 == a2,
    ;
}

} // verus!
