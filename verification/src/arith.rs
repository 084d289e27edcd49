//! Small arithmetic functions whose call overhead the book measures, and the
//! loops that call them.

use vstd::prelude::*;
use crate::sums::{wrap64, triangle, lemma_wrapping_add, modulus64};

verus! {

/// `std::hint::black_box` hands its argument back unchanged; it only keeps
/// the optimizer from looking through the value.
pub assume_specification<T>[ core::hint::black_box::<T> ](dummy: T) -> (r: T)
    ensures
        r == dummy,
;

/// `i64::abs` gives the absolute value of its argument; `i64::MIN` has none
/// in `i64`, so it is excluded.
pub assume_specification[ <i64>::abs ](x: i64) -> (r: i64)
    requires
        x != i64::MIN,
    ensures
        r == (if x < 0 {
            -x
        } else {
            x as int
        }),
;

/// Adds with wraparound; kept out of line so that each call pays the cost
/// of a real function call.
#[inline(never)]
pub fn add_never(a: u64, b: u64) -> (r: u64)
    ensures
        r == wrap64(a + b),
{
    proof {
        vstd::arithmetic::div_mod::lemma_small_mod(a as nat, modulus64() as nat);
        lemma_wrapping_add(a, b, a as int);
    }
    a.wrapping_add(b)
}

/// Adds with wraparound; the compiler decides whether to inline it.
pub fn add_auto(a: u64, b: u64) -> (r: u64)
    ensures
        r == wrap64(a + b),
{
    proof {
        vstd::arithmetic::div_mod::lemma_small_mod(a as nat, modulus64() as nat);
        lemma_wrapping_add(a, b, a as int);
    }
    a.wrapping_add(b)
}

/// Sums `0 + 1 + ... + (n - 1)` with one out-of-line call of `add_never`
/// per term, wrapping around at 2^64.
pub fn sum_with_add_never(n: u64) -> (sum: u64)
    ensures
        sum == wrap64(triangle(n as nat) as int),
{
    let mut sum: u64 = 0;
    let mut i: u64 = 0;
    proof {
        vstd::arithmetic::div_mod::lemma_small_mod(0, modulus64() as nat);
    }
    while i < n
        invariant
            i <= n,
            sum == wrap64(triangle(i as nat) as int),
        decreases n - i,
    {
        proof {
            lemma_wrap_step(sum, i);
        }
        sum = add_never(sum, i);
        i += 1;
    }
    sum
}

/// Sums `0 + 1 + ... + (n - 1)` with one call of `add_auto` per term,
/// wrapping around at 2^64.
pub fn sum_with_add_auto(n: u64) -> (sum: u64)
    ensures
        sum == wrap64(triangle(n as nat) as int),
{
    let mut sum: u64 = 0;
    let mut i: u64 = 0;
    proof {
        vstd::arithmetic::div_mod::lemma_small_mod(0, modulus64() as nat);
    }
    while i < n
        invariant
            i <= n,
            sum == wrap64(triangle(i as nat) as int),
        decreases n - i,
    {
        proof {
            lemma_wrap_step(sum, i);
        }
        sum = add_auto(sum, i);
        i += 1;
    }
    sum
}

/// A wrapped partial triangle sum plus the next term wraps the next
/// triangle number.
proof fn lemma_wrap_step(sum: u64, i: u64)
    requires
        sum == wrap64(triangle(i as nat) as int),
    ensures
        wrap64(sum + i) == wrap64(triangle((i + 1) as nat) as int),
{
    vstd::arithmetic::div_mod::lemma_add_mod_noop(triangle(i as nat) as int, i as int, modulus64());
    vstd::arithmetic::div_mod::lemma_small_mod(i as nat, modulus64() as nat);
    vstd::arithmetic::div_mod::lemma_mod_twice(triangle(i as nat) as int, modulus64());
    vstd::arithmetic::div_mod::lemma_add_mod_noop(sum as int, i as int, modulus64());
    vstd::arithmetic::div_mod::lemma_small_mod(sum as nat, modulus64() as nat);
}

/// The value after `k` rounds of squaring with wraparound and mixing `x` back in.
pub open spec fn slow_square_rounds(x: u64, k: nat) -> u64
    decreases k,
{
    if k == 0 {
        x
    } else {
        let acc = slow_square_rounds(x, (k - 1) as nat);
        wrap64(acc * acc) ^ x
    }
}

/// Each round squares the previous value with wraparound and then mixes the
/// whole input back in: undoing the mix with `x` leaves the square.
pub proof fn lemma_slow_square_round(x: u64, k: nat)
    ensures
        slow_square_rounds(x, k + 1) ^ x == wrap64(
            slow_square_rounds(x, k) * slow_square_rounds(x, k),
        ),
        slow_square_rounds(x, 0) == x,
{
    let r = slow_square_rounds(x, k);
    let q = wrap64(r * r);
    assert(slow_square_rounds(x, k + 1) == q ^ x);
    assert((q ^ x) ^ x == q) by (bit_vector);
}

/// A deliberately heavy computation: 100 rounds of squaring with
/// wraparound, each followed by xor with the input.
pub fn slow_square(x: u64) -> (r: u64)
    ensures
        r == slow_square_rounds(x, 100),
{
    let mut acc = x;
    let mut k: u64 = 0;
    while k < 100
        invariant
            k <= 100,
            acc == slow_square_rounds(x, k as nat),
        decreases 100 - k,
    {
        acc = acc.wrapping_mul(acc) ^ x;
        k += 1;
    }
    acc
}

/// The wrapping sum of `slow_square` over the first `k` values of `v`.
pub open spec fn slow_square_sum(v: Seq<u64>, k: nat) -> int
    decreases k,
{
    if k == 0 {
        0
    } else {
        slow_square_sum(v, (k - 1) as nat) + slow_square_rounds(v[k - 1], 100)
    }
}

/// Sums `slow_square` over `v`, wrapping around at 2^64.
pub fn slow_square_total(v: &[u64]) -> (total: u64)
    ensures
        total == wrap64(slow_square_sum(v@, v@.len())),
{
    let mut total: u64 = 0;
    let mut i: usize = 0;
    proof {
        vstd::arithmetic::div_mod::lemma_small_mod(0, modulus64() as nat);
    }
    while i < v.len()
        invariant
            i <= v@.len(),
            total == wrap64(slow_square_sum(v@, i as nat)),
        decreases v@.len() - i,
    {
        let s = slow_square(v[i]);
        proof {
            lemma_wrapping_add(total, s, slow_square_sum(v@, i as nat));
        }
        total = total.wrapping_add(s);
        i += 1;
    }
    total
}

/// Adds one, behind an optimization barrier; kept out of line so that each
/// call pays the cost of a real function call.
#[inline(never)]
pub fn plain_function(x: i32) -> (r: i32)
    requires
        x < i32::MAX,
    ensures
        r == x + 1,
{
    core::hint::black_box(x + 1)
}

/// Sums `plain_function(i)` over `0..n`: `1 + 2 + ... + n`.
pub fn plain_call_total(n: i32) -> (acc: i64)
    ensures
        acc == (if n > 0 {
            triangle((n + 1) as nat)
        } else {
            0
        }),
{
    let mut acc: i64 = 0;
    let mut i: i32 = 0;
    assert(triangle(0) == 0);
    assert(triangle(1) == 0);
    while i < n
        invariant
            0 <= i,
            n > 0 ==> i <= n,
            n <= 0 ==> i == 0,
            acc == triangle((i + 1) as nat),
        decreases n - i,
    {
        proof {
            let k = (i + 2) as nat;
            crate::sums::lemma_triangle_closed(k);
            assert(triangle(k) == triangle((i + 1) as nat) + i + 1);
            assert(2 * triangle(k) <= 0x8000_0000_0000_0000) by (nonlinear_arith)
                requires
                    2 * triangle(k) == k * (k - 1),
                    k <= 0x8000_0001,
            ;
        }
        acc += plain_function(i) as i64;
        i += 1;
    }
    acc
}

/// The sum of `|i|` over `lo..hi`.
pub open spec fn abs_sum(lo: int, hi: int) -> int
    decreases hi - lo,
{
    if lo >= hi {
        0
    } else {
        abs_sum(lo, hi - 1) + (if hi - 1 < 0 {
            -(hi - 1)
        } else {
            hi - 1
        })
    }
}

/// `x` reduced into the `i64` range, as wrapping arithmetic does.
pub open spec fn wrap_i64(x: int) -> i64 {
    let r = x % modulus64();
    if r > i64::MAX {
        (r - modulus64()) as i64
    } else {
        r as i64
    }
}

/// Adding `v` to the wrapped value of `x` wraps `x + v`, for `i64`.
proof fn lemma_wrapping_add_i64(acc: i64, v: i64, x: int)
    requires
        acc == wrap_i64(x),
    ensures
        acc.wrapping_add(v) == wrap_i64(x + v),
{
    let m = modulus64();
    vstd::arithmetic::div_mod::lemma_mod_bound(x, m);
    vstd::arithmetic::div_mod::lemma_mod_bound(x + v, m);
    let r = x % m;
    assert((acc as int) % m == r) by {
        if r > i64::MAX {
            vstd::arithmetic::div_mod::lemma_mod_sub_multiples_vanish(r, m);
        }
        vstd::arithmetic::div_mod::lemma_small_mod(r as nat, m as nat);
    }
    vstd::arithmetic::div_mod::lemma_add_mod_noop(acc as int, v as int, m);
    vstd::arithmetic::div_mod::lemma_add_mod_noop(x, v as int, m);
    let s = acc + v;
    let w = acc.wrapping_add(v);
    assert(w as int % m == s % m) by {
        if s > i64::MAX {
            vstd::arithmetic::div_mod::lemma_mod_sub_multiples_vanish(s, m);
        } else if s < i64::MIN {
            vstd::arithmetic::div_mod::lemma_mod_add_multiples_vanish(s, m);
        }
    }
    let r2 = (x + v) % m;
    if w >= 0 {
        vstd::arithmetic::div_mod::lemma_small_mod(w as nat, m as nat);
        assert(r2 == w);
    } else {
        vstd::arithmetic::div_mod::lemma_mod_add_multiples_vanish(w as int, m);
        vstd::arithmetic::div_mod::lemma_small_mod((w + m) as nat, m as nat);
        assert(r2 == w + m);
    }
}

/// Sums `|i|` over `lo..hi` with Rust's own `abs`, wrapping around at 2^64.
pub fn abs_sum_range(lo: i64, hi: i64) -> (sum: i64)
    requires
        lo > i64::MIN,
    ensures
        sum == wrap_i64(abs_sum(lo as int, hi as int)),
{
    let mut sum: i64 = 0;
    let mut i: i64 = lo;
    proof {
        vstd::arithmetic::div_mod::lemma_small_mod(0, modulus64() as nat);
    }
    while i < hi
        invariant
            lo > i64::MIN,
            lo <= i,
            i <= hi || i == lo,
            sum == wrap_i64(abs_sum(lo as int, i as int)),
        decreases hi - i,
    {
        let a = core::hint::black_box(i).abs();
        proof {
            lemma_wrapping_add_i64(sum, a, abs_sum(lo as int, i as int));
            assert(abs_sum(lo as int, i + 1) == abs_sum(lo as int, i as int) + a);
        }
        sum = sum.wrapping_add(a);
        i += 1;
    }
    proof {
        if hi < lo {
            assert(abs_sum(lo as int, hi as int) == 0);
            assert(abs_sum(lo as int, lo as int) == 0);
        }
    }
    sum
}

/// The value an `async` task that adds `1 + 1` resolves to.
pub fn tiny() -> (r: u64)
    ensures
        r == 2,
{
    1 + 1
}

} // verus!
