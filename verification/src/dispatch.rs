//! Sixteen nearly identical functions reached through a dispatch on an
//! index, to compare predictable and unpredictable indirect calls.

use vstd::prelude::*;
use crate::rng::{xorshift, xorshift_iter};
use crate::sums::wrap64;

verus! {

/// What the function with index `k` computes: `2x + k` with wraparound.
pub open spec fn op_spec(k: int, x: u64) -> u64 {
    wrap64(2 * x + k)
}

/// Doubles `x` and adds 0, with wraparound; kept out of line.
#[inline(never)]
pub fn f0(x: u64) -> (r: u64)
    ensures
        r == op_spec(0, x),
{
    x.wrapping_mul(2).wrapping_add(0)
}

/// Doubles `x` and adds 1, with wraparound; kept out of line.
#[inline(never)]
pub fn f1(x: u64) -> (r: u64)
    ensures
        r == op_spec(1, x),
{
    x.wrapping_mul(2).wrapping_add(1)
}

/// Doubles `x` and adds 2, with wraparound; kept out of line.
#[inline(never)]
pub fn f2(x: u64) -> (r: u64)
    ensures
        r == op_spec(2, x),
{
    x.wrapping_mul(2).wrapping_add(2)
}

/// Doubles `x` and adds 3, with wraparound; kept out of line.
#[inline(never)]
pub fn f3(x: u64) -> (r: u64)
    ensures
        r == op_spec(3, x),
{
    x.wrapping_mul(2).wrapping_add(3)
}

/// Doubles `x` and adds 4, with wraparound; kept out of line.
#[inline(never)]
pub fn f4(x: u64) -> (r: u64)
    ensures
        r == op_spec(4, x),
{
    x.wrapping_mul(2).wrapping_add(4)
}

/// Doubles `x` and adds 5, with wraparound; kept out of line.
#[inline(never)]
pub fn f5(x: u64) -> (r: u64)
    ensures
        r == op_spec(5, x),
{
    x.wrapping_mul(2).wrapping_add(5)
}

/// Doubles `x` and adds 6, with wraparound; kept out of line.
#[inline(never)]
pub fn f6(x: u64) -> (r: u64)
    ensures
        r == op_spec(6, x),
{
    x.wrapping_mul(2).wrapping_add(6)
}

/// Doubles `x` and adds 7, with wraparound; kept out of line.
#[inline(never)]
pub fn f7(x: u64) -> (r: u64)
    ensures
        r == op_spec(7, x),
{
    x.wrapping_mul(2).wrapping_add(7)
}

/// Doubles `x` and adds 8, with wraparound; kept out of line.
#[inline(never)]
pub fn f8(x: u64) -> (r: u64)
    ensures
        r == op_spec(8, x),
{
    x.wrapping_mul(2).wrapping_add(8)
}

/// Doubles `x` and adds 9, with wraparound; kept out of line.
#[inline(never)]
pub fn f9(x: u64) -> (r: u64)
    ensures
        r == op_spec(9, x),
{
    x.wrapping_mul(2).wrapping_add(9)
}

/// Doubles `x` and adds 10, with wraparound; kept out of line.
#[inline(never)]
pub fn f10(x: u64) -> (r: u64)
    ensures
        r == op_spec(10, x),
{
    x.wrapping_mul(2).wrapping_add(10)
}

/// Doubles `x` and adds 11, with wraparound; kept out of line.
#[inline(never)]
pub fn f11(x: u64) -> (r: u64)
    ensures
        r == op_spec(11, x),
{
    x.wrapping_mul(2).wrapping_add(11)
}

/// Doubles `x` and adds 12, with wraparound; kept out of line.
#[inline(never)]
pub fn f12(x: u64) -> (r: u64)
    ensures
        r == op_spec(12, x),
{
    x.wrapping_mul(2).wrapping_add(12)
}

/// Doubles `x` and adds 13, with wraparound; kept out of line.
#[inline(never)]
pub fn f13(x: u64) -> (r: u64)
    ensures
        r == op_spec(13, x),
{
    x.wrapping_mul(2).wrapping_add(13)
}

/// Doubles `x` and adds 14, with wraparound; kept out of line.
#[inline(never)]
pub fn f14(x: u64) -> (r: u64)
    ensures
        r == op_spec(14, x),
{
    x.wrapping_mul(2).wrapping_add(14)
}

/// Doubles `x` and adds 15, with wraparound; kept out of line.
#[inline(never)]
pub fn f15(x: u64) -> (r: u64)
    ensures
        r == op_spec(15, x),
{
    x.wrapping_mul(2).wrapping_add(15)
}

/// The function with index `k` adds `k` to what the function with index 0
/// gives, and that one adds its input to itself, with wraparound.
pub proof fn lemma_op_shifts(k: int, x: u64)
    requires
        0 <= k < 16,
    ensures
        op_spec(k, x) == wrap64(op_spec(0, x) + k),
        op_spec(0, x) == x.wrapping_add(x),
{
    let m = crate::sums::modulus64();
    vstd::arithmetic::div_mod::lemma_add_mod_noop(2 * x, k, m);
    vstd::arithmetic::div_mod::lemma_mod_twice(2 * x, m);
    vstd::arithmetic::div_mod::lemma_small_mod(k as nat, m as nat);
    vstd::arithmetic::div_mod::lemma_small_mod(x as nat, m as nat);
    crate::sums::lemma_wrapping_add(x, x, x as int);
    vstd::arithmetic::div_mod::lemma_mod_bound(2 * x, m);
    vstd::arithmetic::div_mod::lemma_add_mod_noop((2 * x) % m, k, m);
}

/// Calls the function with index `k`.
pub fn apply_op(k: u8, x: u64) -> (r: u64)
    requires
        k < 16,
    ensures
        r == op_spec(k as int, x),
{
    match k {
        0 => f0(x),
        1 => f1(x),
        2 => f2(x),
        3 => f3(x),
        4 => f4(x),
        5 => f5(x),
        6 => f6(x),
        7 => f7(x),
        8 => f8(x),
        9 => f9(x),
        10 => f10(x),
        11 => f11(x),
        12 => f12(x),
        13 => f13(x),
        14 => f14(x),
        _ => f15(x),
    }
}

/// The value after applying the functions with the indices `idx`, in order,
/// starting from `x`.
pub open spec fn ops_fold(idx: Seq<u8>, x: u64) -> u64
    decreases idx.len(),
{
    if idx.len() == 0 {
        x
    } else {
        op_spec(idx.last() as int, ops_fold(idx.drop_last(), x))
    }
}

/// Applies the functions with the indices `idx`, in order, starting from 0.
pub fn run_ops(idx: &[u8]) -> (x: u64)
    requires
        forall|i: int| 0 <= i < idx@.len() ==> #[trigger] idx@[i] < 16,
    ensures
        x == ops_fold(idx@, 0),
{
    let mut x: u64 = 0;
    let mut i: usize = 0;
    while i < idx.len()
        invariant
            i <= idx@.len(),
            forall|j: int| 0 <= j < idx@.len() ==> #[trigger] idx@[j] < 16,
            x == ops_fold(idx@.take(i as int), 0),
        decreases idx@.len() - i,
    {
        assert(idx@.take(i as int + 1).drop_last() =~= idx@.take(i as int));
        x = apply_op(idx[i], x);
        i += 1;
    }
    assert(idx@.take(idx@.len() as int) =~= idx@);
    x
}

/// The indices `0, 1, ..., 15, 0, 1, ...`, `n` of them.
pub fn cyclic_indices(n: usize) -> (v: Vec<u8>)
    ensures
        v@.len() == n,
        forall|i: int| 0 <= i < n ==> #[trigger] v@[i] == i % 16,
{
    let mut v: Vec<u8> = Vec::new();
    let mut i: usize = 0;
    while i < n
        invariant
            i <= n,
            v@.len() == i,
            forall|j: int| 0 <= j < i ==> #[trigger] v@[j] == j % 16,
        decreases n - i,
    {
        v.push((i % 16) as u8);
        i += 1;
    }
    v
}

/// `n` indices below 16 drawn from the generator `state`: the `i`-th is the
/// `(i + 1)`-th state modulo 16.
pub fn random_indices(state: &mut u64, n: usize) -> (v: Vec<u8>)
    ensures
        v@.len() == n,
        forall|i: int| 0 <= i < n ==> #[trigger] v@[i] == xorshift_iter(*old(state), (i + 1) as nat) % 16,
        *final(state) == xorshift_iter(*old(state), n as nat),
{
    let ghost s0 = *state;
    let mut v: Vec<u8> = Vec::new();
    let mut i: usize = 0;
    while i < n
        invariant
            i <= n,
            v@.len() == i,
            *state == xorshift_iter(s0, i as nat),
            forall|j: int| 0 <= j < i ==> #[trigger] v@[j] == xorshift_iter(s0, (j + 1) as nat) % 16,
        decreases n - i,
    {
        let r = xorshift(state);
        v.push((r % 16) as u8);
        i += 1;
    }
    v
}

} // verus!
