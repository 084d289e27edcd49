//! Input arrays for the measurements, and the ways of filling an output
//! vector whose allocation costs the book compares.

use vstd::prelude::*;
use crate::sums::{wrap_i32, sum_i32, wrapping_sum_i32, wrapping_sum_i32_iter, wrapping_sum_i32_prefix};

verus! {

/// The values `0, 1, ..., n - 1` as `u64`.
pub fn iota_u64(n: usize) -> (v: Vec<u64>)
    ensures
        v@.len() == n,
        forall|i: int| 0 <= i < n ==> #[trigger] v@[i] == i,
{
    let mut v: Vec<u64> = Vec::new();
    let mut i: usize = 0;
    while i < n
        invariant
            i <= n,
            v@.len() == i,
            forall|j: int| 0 <= j < i ==> #[trigger] v@[j] == j,
        decreases n - i,
    {
        v.push(i as u64);
        i += 1;
    }
    v
}

/// The values `0, 1, ..., n - 1` as `u32`.
pub fn iota_u32(n: u32) -> (v: Vec<u32>)
    ensures
        v@.len() == n,
        forall|i: int| 0 <= i < n ==> #[trigger] v@[i] == i,
{
    let mut v: Vec<u32> = Vec::new();
    let mut i: u32 = 0;
    while i < n
        invariant
            i <= n,
            v@.len() == i,
            forall|j: int| 0 <= j < i ==> #[trigger] v@[j] == j,
        decreases n - i,
    {
        v.push(i);
        i += 1;
    }
    v
}

/// The values `0, 1, ..., n - 1` as `i32`.
pub fn iota_i32(n: i32) -> (v: Vec<i32>)
    ensures
        v@.len() == (if n > 0 {
            n as int
        } else {
            0
        }),
        forall|i: int| 0 <= i < v@.len() ==> #[trigger] v@[i] == i,
{
    let mut v: Vec<i32> = Vec::new();
    let mut i: i32 = 0;
    while i < n
        invariant
            0 <= i,
            n > 0 ==> i <= n,
            n <= 0 ==> i == 0,
            v@.len() == i,
            forall|j: int| 0 <= j < i ==> #[trigger] v@[j] == j,
        decreases n - i,
    {
        v.push(i);
        i += 1;
    }
    v
}

/// The bytes `i % 251` for `i` in `0..size`: a pattern with no short period
/// of a power of two.
pub fn pattern_bytes(size: usize) -> (v: Vec<u8>)
    ensures
        v@.len() == size,
        forall|i: int| 0 <= i < size ==> #[trigger] v@[i] == i % 251,
{
    let mut v: Vec<u8> = Vec::new();
    let mut i: usize = 0;
    while i < size
        invariant
            i <= size,
            v@.len() == i,
            forall|j: int| 0 <= j < i ==> #[trigger] v@[j] == j % 251,
        decreases size - i,
    {
        v.push((i % 251) as u8);
        i += 1;
    }
    v
}

/// Each value of `src` doubled, as a `u64`.
pub open spec fn doubled_spec(src: Seq<u32>) -> Seq<u64> {
    Seq::new(src.len(), |i: int| (2 * src[i]) as u64)
}

/// Doubles each value into a vector that starts empty and grows as needed.
pub fn doubled(src: &[u32]) -> (out: Vec<u64>)
    ensures
        out@ == doubled_spec(src@),
{
    let mut out: Vec<u64> = Vec::new();
    let mut i: usize = 0;
    while i < src.len()
        invariant
            i <= src@.len(),
            out@ == doubled_spec(src@).take(i as int),
        decreases src@.len() - i,
    {
        out.push(src[i] as u64 * 2);
        i += 1;
        assert(out@ =~= doubled_spec(src@).take(i as int));
    }
    assert(out@ =~= doubled_spec(src@));
    out
}

/// Doubles each value into a vector whose whole capacity is reserved up front.
pub fn doubled_preallocated(src: &[u32]) -> (out: Vec<u64>)
    ensures
        out@ == doubled_spec(src@),
{
    let mut out: Vec<u64> = Vec::with_capacity(src.len());
    let mut i: usize = 0;
    while i < src.len()
        invariant
            i <= src@.len(),
            out@ == doubled_spec(src@).take(i as int),
        decreases src@.len() - i,
    {
        out.push(src[i] as u64 * 2);
        i += 1;
        assert(out@ =~= doubled_spec(src@).take(i as int));
    }
    assert(out@ =~= doubled_spec(src@));
    out
}

/// Adding one more pass result `s` to `p` earlier ones stays within `i64`
/// and gives `p + 1` of them.
proof fn lemma_pass_step(p: u32, s: i32)
    requires
        p < u32::MAX,
    ensures
        i64::MIN <= p * s + s <= i64::MAX,
        p * s + s == (p + 1) * s,
{
    assert(-0x8000_0000 * (p + 1) <= (p + 1) * s <= 0x7fff_ffff * (p + 1)) by (nonlinear_arith)
        requires
            -0x8000_0000 <= s <= 0x7fff_ffff,
            p + 1 >= 0,
    ;
    assert((p + 1) * s == p * s + s) by (nonlinear_arith);
}

/// Runs `passes` passes of the wrapping `i32` sum over `v`, reading by
/// index up to `v.len()`, and adds the pass results up as `i64`.
pub fn passes_total(v: &[i32], passes: u32) -> (total: i64)
    ensures
        total == passes * wrap_i32(sum_i32(v@)),
{
    let mut total: i64 = 0;
    let mut p: u32 = 0;
    while p < passes
        invariant
            p <= passes,
            total == p * wrap_i32(sum_i32(v@)),
        decreases passes - p,
    {
        let s = wrapping_sum_i32(v);
        proof {
            lemma_pass_step(p, s);
        }
        total += s as i64;
        p += 1;
    }
    total
}

/// Runs `passes` passes of the wrapping `i32` sum over `v`, reading through
/// the slice iterator, and adds the pass results up as `i64`.
pub fn passes_total_iter(v: &[i32], passes: u32) -> (total: i64)
    ensures
        total == passes * wrap_i32(sum_i32(v@)),
{
    let mut total: i64 = 0;
    let mut p: u32 = 0;
    while p < passes
        invariant
            p <= passes,
            total == p * wrap_i32(sum_i32(v@)),
        decreases passes - p,
    {
        let s = wrapping_sum_i32_iter(v);
        proof {
            lemma_pass_step(p, s);
        }
        total += s as i64;
        p += 1;
    }
    total
}

/// Runs `passes` passes of the wrapping `i32` sum over the first `m` values
/// of `v`, reading by index up to a bound known only at run time, and adds
/// the pass results up as `i64`.
pub fn passes_total_prefix(v: &[i32], m: usize, passes: u32) -> (total: i64)
    requires
        m <= v@.len(),
    ensures
        total == passes * wrap_i32(sum_i32(v@.take(m as int))),
{
    let mut total: i64 = 0;
    let mut p: u32 = 0;
    while p < passes
        invariant
            p <= passes,
            m <= v@.len(),
            total == p * wrap_i32(sum_i32(v@.take(m as int))),
        decreases passes - p,
    {
        let s = wrapping_sum_i32_prefix(v, m);
        proof {
            lemma_pass_step(p, s);
        }
        total += s as i64;
        p += 1;
    }
    total
}

/// Runs `passes` passes of the wrapping `i32` sum over the first `m` values
/// of `v`, cutting the slice `&v[0..m]` first and reading it through its
/// iterator, and adds the pass results up as `i64`.
pub fn passes_total_slice(v: &[i32], m: usize, passes: u32) -> (total: i64)
    requires
        m <= v@.len(),
    ensures
        total == passes * wrap_i32(sum_i32(v@.take(m as int))),
{
    let head = &v[0..m];
    assert(head@ =~= v@.take(m as int));
    let mut total: i64 = 0;
    let mut p: u32 = 0;
    while p < passes
        invariant
            p <= passes,
            head@ == v@.take(m as int),
            total == p * wrap_i32(sum_i32(head@)),
        decreases passes - p,
    {
        let s = wrapping_sum_i32_iter(head);
        proof {
            lemma_pass_step(p, s);
        }
        total += s as i64;
        p += 1;
    }
    total
}

} // verus!
