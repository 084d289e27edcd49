//! Summing the bytes that are at least 128, with a branch and without one,
//! over random data as drawn and sorted.

use vstd::prelude::*;
use vstd::multiset::Multiset;
use crate::rng::{xorshift, xorshift_iter};

verus! {

broadcast use vstd::seq_lib::group_to_multiset_ensures;

/// `u64::from(b)` is 1 for `true` and 0 for `false`.
pub assume_specification[ <u64 as core::convert::From<bool>>::from ](b: bool) -> (r: u64)
    ensures
        r == (if b {
            1u64
        } else {
            0u64
        }),
;

/// `slice::sort_unstable` leaves the bytes in ascending order, and the same
/// bytes as before, each as often as before.
#[verifier::external_body]
fn sort_unstable_bytes(v: &mut Vec<u8>)
    ensures
        is_sorted(final(v)@),
        final(v)@.to_multiset() == old(v)@.to_multiset(),
{
    v.sort_unstable();
}

/// The bytes of `s` are in ascending order.
pub open spec fn is_sorted(s: Seq<u8>) -> bool {
    forall|i: int, j: int| 0 <= i <= j < s.len() ==> s[i] <= s[j]
}

/// The part of byte `v` that counts towards the sum: `v` itself when it is
/// at least 128, else 0.
pub open spec fn high_part(v: u8) -> int {
    if v >= 128 {
        v as int
    } else {
        0
    }
}

/// The sum of the bytes of `s` that are at least 128.
pub open spec fn high_sum(s: Seq<u8>) -> int
    decreases s.len(),
{
    if s.len() == 0 {
        0
    } else {
        high_sum(s.drop_last()) + high_part(s.last())
    }
}

/// The sum grows by the high part of the next byte.
proof fn lemma_high_sum_take(s: Seq<u8>, k: int)
    requires
        0 <= k < s.len(),
    ensures
        high_sum(s.take(k + 1)) == high_sum(s.take(k)) + high_part(s[k]),
        high_sum(s.take(k + 1)) <= 255 * (k + 1),
{
    assert(s.take(k + 1).drop_last() =~= s.take(k));
    lemma_high_sum_bound(s.take(k + 1));
}

/// The sum is at most 255 per byte.
proof fn lemma_high_sum_bound(s: Seq<u8>)
    ensures
        0 <= high_sum(s) <= 255 * s.len(),
    decreases s.len(),
{
    if s.len() > 0 {
        lemma_high_sum_bound(s.drop_last());
    }
}

/// The sum over two pieces is the sum of the sums.
pub proof fn lemma_high_sum_concat(a: Seq<u8>, b: Seq<u8>)
    ensures
        high_sum(a + b) == high_sum(a) + high_sum(b),
    decreases b.len(),
{
    if b.len() == 0 {
        assert(a + b =~= a);
    } else {
        lemma_high_sum_concat(a, b.drop_last());
        assert((a + b).drop_last() =~= a + b.drop_last());
        assert((a + b).last() == b.last());
    }
}

/// The sum does not depend on the order of the bytes: any two arrangements
/// of the same bytes, sorted or not, give the same sum.
pub proof fn lemma_high_sum_permutation(s: Seq<u8>, t: Seq<u8>)
    requires
        s.to_multiset() == t.to_multiset(),
    ensures
        high_sum(s) == high_sum(t),
    decreases s.len(),
{
    broadcast use vstd::multiset::group_multiset_axioms;

    if s.len() == 0 {
        assert(s.to_multiset().len() == 0);
        assert(t.to_multiset().len() == 0);
        assert(t.len() == 0);
    } else {
        let x = s.last();
        let s1 = s.drop_last();
        assert(s1.push(x) =~= s);
        assert(s.to_multiset() =~= s1.to_multiset().insert(x));
        assert(t.to_multiset().count(x) > 0);
        assert(t.contains(x));
        let i = choose|i: int| 0 <= i < t.len() && t[i] == x;
        let t1 = t.remove(i);
        assert(t1.to_multiset() =~= t.to_multiset().remove(x));
        assert(t1.to_multiset() =~= s1.to_multiset());
        lemma_high_sum_permutation(s1, t1);
        let front = t.take(i);
        let back = t.skip(i + 1);
        assert(t1 =~= front + back);
        assert(t =~= front + seq![x] + back);
        lemma_high_sum_concat(front, back);
        lemma_high_sum_concat(front + seq![x], back);
        lemma_high_sum_concat(front, seq![x]);
        assert(seq![x].drop_last() =~= Seq::<u8>::empty());
        assert(high_sum(Seq::<u8>::empty()) == 0);
        assert(seq![x].last() == x);
        assert(high_sum(seq![x]) == high_part(x));
    }
}

/// `n` bytes drawn from the generator `state`: the `i`-th is the low byte
/// of the `(i + 1)`-th state.
pub fn random_bytes(state: &mut u64, n: usize) -> (v: Vec<u8>)
    ensures
        v@.len() == n,
        forall|i: int|
            0 <= i < n ==> #[trigger] v@[i] == (xorshift_iter(*old(state), (i + 1) as nat) & 0xFF) as u8,
        *final(state) == xorshift_iter(*old(state), n as nat),
{
    let ghost s0 = *state;
    let mut v: Vec<u8> = Vec::new();
    let mut i: usize = 0;
    while i < n
        invariant
            i <= n,
            v@.len() == i,
            *state == xorshift_iter(s0, i as nat),
            forall|j: int|
                0 <= j < i ==> #[trigger] v@[j] == (xorshift_iter(s0, (j + 1) as nat) & 0xFF) as u8,
        decreases n - i,
    {
        let r = xorshift(state);
        v.push((r & 0xFF) as u8);
        i += 1;
    }
    v
}

/// A copy of `data` sorted in ascending order.
pub fn sorted_copy(data: &Vec<u8>) -> (sorted: Vec<u8>)
    ensures
        is_sorted(sorted@),
        sorted@.to_multiset() == data@.to_multiset(),
{
    let mut sorted = data.clone();
    assert(sorted@ =~= data@);
    sort_unstable_bytes(&mut sorted);
    sorted
}

/// Sums the bytes that are at least 128, testing each with a branch.
pub fn high_sum_branchy(data: &[u8]) -> (sum: u64)
    requires
        255 * data@.len() <= u64::MAX,
    ensures
        sum == high_sum(data@),
{
    let mut sum: u64 = 0;
    let mut i: usize = 0;
    while i < data.len()
        invariant
            i <= data@.len(),
            255 * data@.len() <= u64::MAX,
            sum == high_sum(data@.take(i as int)),
        decreases data@.len() - i,
    {
        proof {
            lemma_high_sum_take(data@, i as int);
        }
        let v = data[i];
        if v >= 128 {
            sum += v as u64;
        }
        i += 1;
    }
    assert(data@.take(data@.len() as int) =~= data@);
    sum
}

/// Sums the bytes that are at least 128 without a branch: each byte is
/// multiplied by 1 or 0 according to the test.
pub fn high_sum_branchless(data: &[u8]) -> (sum: u64)
    requires
        255 * data@.len() <= u64::MAX,
    ensures
        sum == high_sum(data@),
{
    let mut sum: u64 = 0;
    let mut i: usize = 0;
    while i < data.len()
        invariant
            i <= data@.len(),
            255 * data@.len() <= u64::MAX,
            sum == high_sum(data@.take(i as int)),
        decreases data@.len() - i,
    {
        proof {
            lemma_high_sum_take(data@, i as int);
        }
        let v = data[i];
        sum += u64::from(v >= 128) * v as u64;
        i += 1;
    }
    assert(data@.take(data@.len() as int) =~= data@);
    sum
}

} // verus!
