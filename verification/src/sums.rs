//! Sums over arrays and ranges: wrapping 64-bit and 32-bit accumulations,
//! strided reads, and byte sums.

use vstd::prelude::*;
use vstd::arithmetic::div_mod::{lemma_add_mod_noop, lemma_mod_twice, lemma_small_mod, lemma_mod_bound};

verus! {

/// 2^64, the modulus of `u64` arithmetic.
pub open spec fn modulus64() -> int {
    0x1_0000_0000_0000_0000
}

/// `x` reduced into the `u64` range, as wrapping arithmetic does.
pub open spec fn wrap64(x: int) -> u64 {
    (x % modulus64()) as u64
}

/// 2^32, the modulus of 32-bit arithmetic.
pub open spec fn modulus32() -> int {
    0x1_0000_0000
}

/// `x` reduced into the `i32` range, as wrapping arithmetic does.
pub open spec fn wrap_i32(x: int) -> i32 {
    let r = x % modulus32();
    if r > i32::MAX {
        (r - modulus32()) as i32
    } else {
        r as i32
    }
}

/// The exact sum of a sequence of `u64`.
pub open spec fn sum_u64(s: Seq<u64>) -> int
    decreases s.len(),
{
    if s.len() == 0 {
        0
    } else {
        sum_u64(s.drop_last()) + s.last()
    }
}

/// The exact sum of a sequence of `i32`.
pub open spec fn sum_i32(s: Seq<i32>) -> int
    decreases s.len(),
{
    if s.len() == 0 {
        0
    } else {
        sum_i32(s.drop_last()) + s.last()
    }
}

/// The exact sum of a sequence of bytes.
pub open spec fn sum_u8(s: Seq<u8>) -> int
    decreases s.len(),
{
    if s.len() == 0 {
        0
    } else {
        sum_u8(s.drop_last()) + s.last()
    }
}

/// The sum `0 + 1 + ... + (n - 1)`.
pub open spec fn triangle(n: nat) -> nat
    decreases n,
{
    if n == 0 {
        0
    } else {
        triangle((n - 1) as nat) + (n - 1) as nat
    }
}

/// Adding `v` to the wrapped value of `x` wraps `x + v`.
pub proof fn lemma_wrapping_add(acc: u64, v: u64, x: int)
    requires
        acc == wrap64(x),
    ensures
        acc.wrapping_add(v) == wrap64(x + v),
{
    let m = modulus64();
    lemma_mod_bound(x, m);
    lemma_add_mod_noop(x, v as int, m);
    lemma_small_mod(v as nat, m as nat);
    if acc + v > u64::MAX {
        assert((acc + v - m) % m == (acc + v) % m) by {
            vstd::arithmetic::div_mod::lemma_mod_sub_multiples_vanish((acc + v) as int, m);
        }
        lemma_small_mod((acc + v - m) as nat, m as nat);
    } else {
        lemma_small_mod((acc + v) as nat, m as nat);
    }
}

/// Adding `v` to the wrapped value of `x` wraps `x + v`, for `i32`.
pub proof fn lemma_wrapping_add_i32(acc: i32, v: i32, x: int)
    requires
        acc == wrap_i32(x),
    ensures
        acc.wrapping_add(v) == wrap_i32(x + v),
{
    let m = modulus32();
    lemma_mod_bound(x, m);
    lemma_mod_bound(x + v, m);
    let r = x % m;
    // `acc` and `x` agree modulo 2^32.
    assert((acc as int) % m == r) by {
        if r > i32::MAX {
            vstd::arithmetic::div_mod::lemma_mod_sub_multiples_vanish(r, m);
            lemma_small_mod(r as nat, m as nat);
        } else {
            lemma_small_mod(r as nat, m as nat);
        }
    }
    lemma_add_mod_noop(acc as int, v as int, m);
    lemma_add_mod_noop(x, v as int, m);
    let s = acc + v;
    // The wrapped sum is the representative of `s` in the `i32` range.
    let w = acc.wrapping_add(v);
    assert(w as int % m == s % m) by {
        if s > i32::MAX {
            vstd::arithmetic::div_mod::lemma_mod_sub_multiples_vanish(s, m);
        } else if s < i32::MIN {
            vstd::arithmetic::div_mod::lemma_mod_add_multiples_vanish(s, m);
        }
    }
    let r2 = (x + v) % m;
    assert(r2 == s % m);
    if w >= 0 {
        lemma_small_mod(w as nat, m as nat);
        assert(r2 == w);
    } else {
        vstd::arithmetic::div_mod::lemma_mod_add_multiples_vanish(w as int, m);
        lemma_small_mod((w + m) as nat, m as nat);
        assert(r2 == w + m);
    }
}

/// The sum of a prefix grows by the next element.
pub proof fn lemma_sum_u64_take(s: Seq<u64>, k: int)
    requires
        0 <= k < s.len(),
    ensures
        sum_u64(s.take(k + 1)) == sum_u64(s.take(k)) + s[k],
{
    assert(s.take(k + 1).drop_last() =~= s.take(k));
}

/// The sum of a prefix of an `i32` sequence grows by the next element.
pub proof fn lemma_sum_i32_take(s: Seq<i32>, k: int)
    requires
        0 <= k < s.len(),
    ensures
        sum_i32(s.take(k + 1)) == sum_i32(s.take(k)) + s[k],
{
    assert(s.take(k + 1).drop_last() =~= s.take(k));
}

/// The sum of a prefix of a byte sequence grows by the next element.
pub proof fn lemma_sum_u8_take(s: Seq<u8>, k: int)
    requires
        0 <= k < s.len(),
    ensures
        sum_u8(s.take(k + 1)) == sum_u8(s.take(k)) + s[k],
{
    assert(s.take(k + 1).drop_last() =~= s.take(k));
}

/// A byte sum is at most 255 per byte.
pub proof fn lemma_sum_u8_bound(s: Seq<u8>)
    ensures
        0 <= sum_u8(s) <= 255 * s.len(),
    decreases s.len(),
{
    if s.len() > 0 {
        lemma_sum_u8_bound(s.drop_last());
    }
}

/// Sums every element of `data`, wrapping around at 2^64.
pub fn wrapping_sum(data: &[u64]) -> (sum: u64)
    ensures
        sum == wrap64(sum_u64(data@)),
{
    let mut sum: u64 = 0;
    let mut i: usize = 0;
    while i < data.len()
        invariant
            i <= data@.len(),
            sum == wrap64(sum_u64(data@.take(i as int))),
        decreases data@.len() - i,
    {
        proof {
            lemma_sum_u64_take(data@, i as int);
            lemma_wrapping_add(sum, data@[i as int], sum_u64(data@.take(i as int)));
        }
        sum = sum.wrapping_add(data[i]);
        i += 1;
    }
    assert(data@.take(data@.len() as int) =~= data@);
    sum
}

/// The elements of `s` at positions `0, stride, 2 * stride, ...`.
pub open spec fn every_nth(s: Seq<u64>, stride: nat) -> Seq<u64>
    recommends
        stride > 0,
{
    Seq::new(
        ((s.len() + stride - 1) / (stride as int)) as nat,
        |k: int| s[k * stride],
    )
}

/// With stride 1 every element is picked: the strided sum is the full sum.
pub proof fn lemma_every_first(s: Seq<u64>)
    ensures
        every_nth(s, 1) == s,
{
    assert(every_nth(s, 1) =~= s);
}

/// Sums the elements of `data` at positions `0, stride, 2 * stride, ...`,
/// wrapping around at 2^64.
pub fn strided_wrapping_sum(data: &[u64], stride: usize) -> (sum: u64)
    requires
        stride > 0,
        data@.len() + stride <= usize::MAX,
    ensures
        sum == wrap64(sum_u64(every_nth(data@, stride as nat))),
{
    let ghost picked = every_nth(data@, stride as nat);
    let ghost len = data@.len() as int;
    let ghost st = stride as int;
    let mut sum: u64 = 0;
    let mut i: usize = 0;
    let ghost mut k: int = 0;
    proof {
        assert(picked.len() * st >= len && (picked.len() - 1) * st < len) by (nonlinear_arith)
            requires
                picked.len() == (len + st - 1) / st,
                st > 0,
                len >= 0,
        ;
    }
    while i < data.len()
        invariant
            stride == st,
            st > 0,
            len == data@.len(),
            data@.len() + stride <= usize::MAX,
            picked == every_nth(data@, stride as nat),
            picked.len() * st >= len,
            (picked.len() - 1) * st < len,
            0 <= k <= picked.len(),
            i == k * st,
            k < picked.len() ==> i < len,
            k == picked.len() ==> i >= len,
            sum == wrap64(sum_u64(picked.take(k))),
        decreases picked.len() - k,
    {
        proof {
            assert(k < picked.len());
            assert(picked[k] == data@[k * st]);
            lemma_sum_u64_take(picked, k);
            lemma_wrapping_add(sum, data@[i as int], sum_u64(picked.take(k)));
        }
        sum = sum.wrapping_add(data[i]);
        i += stride;
        proof {
            k = k + 1;
            assert(i == k * st) by (nonlinear_arith)
                requires
                    i == (k - 1) * st + st,
            ;
            if k < picked.len() {
                assert(k * st < len) by (nonlinear_arith)
                    requires
                        k <= picked.len() - 1,
                        (picked.len() - 1) * st < len,
                        st > 0,
                ;
            } else {
                assert(k * st >= len);
            }
        }
    }
    assert(picked.take(picked.len() as int) =~= picked);
    sum
}

/// Sums the bytes of `data` exactly.
pub fn byte_sum(data: &[u8]) -> (sum: u64)
    requires
        255 * data@.len() <= u64::MAX,
    ensures
        sum == sum_u8(data@),
{
    let mut sum: u64 = 0;
    let mut i: usize = 0;
    while i < data.len()
        invariant
            i <= data@.len(),
            255 * data@.len() <= u64::MAX,
            sum == sum_u8(data@.take(i as int)),
        decreases data@.len() - i,
    {
        proof {
            lemma_sum_u8_take(data@, i as int);
            lemma_sum_u8_bound(data@.take(i as int + 1));
            assert(data@.take(i as int + 1).len() == i + 1);
            assert(sum_u8(data@.take(i as int + 1)) <= 255 * data@.len());
        }
        sum = sum + data[i] as u64;
        i += 1;
    }
    assert(data@.take(data@.len() as int) =~= data@);
    sum
}

/// Sums the `i32` values of `v`, wrapping around at 2^32.
pub fn wrapping_sum_i32(v: &[i32]) -> (s: i32)
    ensures
        s == wrap_i32(sum_i32(v@)),
{
    let mut s: i32 = 0;
    let mut i: usize = 0;
    proof {
        lemma_small_mod(0, modulus32() as nat);
    }
    while i < v.len()
        invariant
            i <= v@.len(),
            s == wrap_i32(sum_i32(v@.take(i as int))),
        decreases v@.len() - i,
    {
        proof {
            lemma_sum_i32_take(v@, i as int);
            lemma_wrapping_add_i32(s, v@[i as int], sum_i32(v@.take(i as int)));
        }
        s = s.wrapping_add(v[i]);
        i += 1;
    }
    assert(v@.take(v@.len() as int) =~= v@);
    s
}

/// Sums the `i32` values of `v` through its iterator, wrapping around at 2^32.
pub fn wrapping_sum_i32_iter(v: &[i32]) -> (s: i32)
    ensures
        s == wrap_i32(sum_i32(v@)),
{
    let mut s: i32 = 0;
    proof {
        lemma_small_mod(0, modulus32() as nat);
    }
    for x in it: v.iter()
        invariant
            it.seq().len() == v@.len(),
            forall|k: int| 0 <= k < v@.len() ==> *it.seq()[k] == v@[k],
            s == wrap_i32(sum_i32(v@.take(it.index() as int))),
    {
        proof {
            let k = it.index() as int;
            lemma_sum_i32_take(v@, k);
            lemma_wrapping_add_i32(s, v@[k], sum_i32(v@.take(k)));
        }
        s = s.wrapping_add(*x);
    }
    assert(v@.take(v@.len() as int) =~= v@);
    s
}

/// Sums the first `m` values of `v` by index, wrapping around at 2^32.
pub fn wrapping_sum_i32_prefix(v: &[i32], m: usize) -> (s: i32)
    requires
        m <= v@.len(),
    ensures
        s == wrap_i32(sum_i32(v@.take(m as int))),
{
    let mut s: i32 = 0;
    let mut i: usize = 0;
    proof {
        lemma_small_mod(0, modulus32() as nat);
    }
    while i < m
        invariant
            i <= m <= v@.len(),
            s == wrap_i32(sum_i32(v@.take(i as int))),
        decreases m - i,
    {
        proof {
            lemma_sum_i32_take(v@, i as int);
            lemma_wrapping_add_i32(s, v@[i as int], sum_i32(v@.take(i as int)));
        }
        s = s.wrapping_add(v[i]);
        i += 1;
    }
    s
}

/// Sums `0 + 1 + ... + (n - 1)`, wrapping around at 2^64.
pub fn wrapping_range_sum(n: u64) -> (sum: u64)
    ensures
        sum == wrap64(triangle(n as nat) as int),
{
    let mut sum: u64 = 0;
    let mut i: u64 = 0;
    proof {
        lemma_small_mod(0, modulus64() as nat);
    }
    while i < n
        invariant
            i <= n,
            sum == wrap64(triangle(i as nat) as int),
        decreases n - i,
    {
        proof {
            lemma_wrapping_add(sum, i, triangle(i as nat) as int);
        }
        sum = sum.wrapping_add(i);
        i += 1;
    }
    sum
}

/// The closed form of the triangle numbers.
pub proof fn lemma_triangle_closed(n: nat)
    ensures
        2 * triangle(n) == n * (n - 1),
    decreases n,
{
    if n > 0 {
        lemma_triangle_closed((n - 1) as nat);
        let m = (n - 1) as nat;
        assert(triangle(n) == triangle(m) + m);
        assert(2 * triangle(m) == m * (m - 1));
        assert(2 * (triangle(m) + m) == n * (n - 1)) by (nonlinear_arith)
            requires
                2 * triangle(m) == m * (m - 1),
                n == m + 1,
        ;
    } else {
        assert(triangle(0) == 0);
    }
}

} // verus!
