//! Looking integer keys up in a hash map, in a B-tree map and in a sorted
//! vector by binary search; each lookup that finds key `k` collects `k + 1`.

use vstd::prelude::*;
use std::collections::HashMap;
use crate::rng::{xorshift, xorshift_iter};
use crate::sums::{wrap64, lemma_wrapping_add, modulus64};

verus! {

broadcast use vstd::std_specs::hash::group_hash_axioms;

/// The keys `0, 2, 4, ..., 2 * (n - 1)`.
pub fn even_keys(n: usize) -> (keys: Vec<u64>)
    requires
        2 * n <= u64::MAX,
    ensures
        keys@.len() == n,
        forall|i: int| 0 <= i < n ==> #[trigger] keys@[i] == 2 * i,
{
    let mut keys: Vec<u64> = Vec::new();
    let mut i: usize = 0;
    while i < n
        invariant
            i <= n,
            2 * n <= u64::MAX,
            keys@.len() == i,
            forall|j: int| 0 <= j < i ==> #[trigger] keys@[j] == 2 * j,
        decreases n - i,
    {
        keys.push(i as u64 * 2);
        i += 1;
    }
    keys
}

/// `n` query keys below `bound` drawn from the generator `state`: the
/// `i`-th is the `(i + 1)`-th state modulo `bound`.
pub fn random_queries(state: &mut u64, n: usize, bound: u64) -> (queries: Vec<u64>)
    requires
        bound > 0,
    ensures
        queries@.len() == n,
        forall|i: int|
            0 <= i < n ==> #[trigger] queries@[i] == xorshift_iter(*old(state), (i + 1) as nat)
                % bound,
        *final(state) == xorshift_iter(*old(state), n as nat),
{
    let ghost s0 = *state;
    let mut queries: Vec<u64> = Vec::new();
    let mut i: usize = 0;
    while i < n
        invariant
            i <= n,
            bound > 0,
            queries@.len() == i,
            *state == xorshift_iter(s0, i as nat),
            forall|j: int|
                0 <= j < i ==> #[trigger] queries@[j] == xorshift_iter(s0, (j + 1) as nat) % bound,
        decreases n - i,
    {
        let r = xorshift(state);
        queries.push(r % bound);
        i += 1;
    }
    queries
}

/// What one query collects: `q + 1` when `q` is among the keys, else 0.
pub open spec fn hit_value(keys: Seq<u64>, q: u64) -> int {
    if keys.contains(q) {
        q + 1
    } else {
        0
    }
}

/// The total that the queries collect.
pub open spec fn found_total(keys: Seq<u64>, queries: Seq<u64>) -> int
    decreases queries.len(),
{
    if queries.len() == 0 {
        0
    } else {
        found_total(keys, queries.drop_last()) + hit_value(keys, queries.last())
    }
}

/// The total over a prefix grows by what the next query collects.
pub proof fn lemma_found_total_take(keys: Seq<u64>, queries: Seq<u64>, k: int)
    requires
        0 <= k < queries.len(),
    ensures
        found_total(keys, queries.take(k + 1)) == found_total(keys, queries.take(k)) + hit_value(
            keys,
            queries[k],
        ),
{
    assert(queries.take(k + 1).drop_last() =~= queries.take(k));
}

/// Every key is below `u64::MAX`, so that `k + 1` fits.
pub open spec fn keys_below_max(keys: Seq<u64>) -> bool {
    forall|i: int| 0 <= i < keys.len() ==> #[trigger] keys[i] < u64::MAX
}

/// Builds a hash map from each key `k` to `k + 1`, then sums what the
/// queries find in it, wrapping around at 2^64.
pub fn lookup_total_hash(keys: &[u64], queries: &[u64]) -> (found: u64)
    requires
        keys_below_max(keys@),
    ensures
        found == wrap64(found_total(keys@, queries@)),
{
    let mut map: HashMap<u64, u64> = HashMap::new();
    let mut i: usize = 0;
    while i < keys.len()
        invariant
            i <= keys@.len(),
            keys_below_max(keys@),
            forall|k: u64| #[trigger] map@.contains_key(k) <==> keys@.take(i as int).contains(k),
            forall|k: u64| #[trigger] map@.contains_key(k) ==> map@[k] == k + 1,
        decreases keys@.len() - i,
    {
        let k = keys[i];
        map.insert(k, k + 1);
        proof {
            let before = keys@.take(i as int);
            let after = keys@.take(i + 1);
            assert(after =~= before.push(k));
            assert forall|x: u64| #[trigger] map@.contains_key(x) <==> after.contains(x) by {
                if after.contains(x) {
                    let j = choose|j: int| 0 <= j < after.len() && after[j] == x;
                    if j < i {
                        assert(before[j] == x);
                    }
                }
                if before.contains(x) {
                    let j = choose|j: int| 0 <= j < before.len() && before[j] == x;
                    assert(after[j] == x);
                }
                if x == k {
                    assert(after[i as int] == x);
                }
            }
        }
        i += 1;
    }
    assert(keys@.take(keys@.len() as int) =~= keys@);
    let mut found: u64 = 0;
    let mut j: usize = 0;
    proof {
        vstd::arithmetic::div_mod::lemma_small_mod(0, modulus64() as nat);
    }
    while j < queries.len()
        invariant
            j <= queries@.len(),
            forall|k: u64| #[trigger] map@.contains_key(k) <==> keys@.contains(k),
            forall|k: u64| #[trigger] map@.contains_key(k) ==> map@[k] == k + 1,
            found == wrap64(found_total(keys@, queries@.take(j as int))),
        decreases queries@.len() - j,
    {
        let q = queries[j];
        proof {
            lemma_found_total_take(keys@, queries@, j as int);
        }
        match map.get(&q) {
            Some(v) => {
                proof {
                    lemma_wrapping_add(found, *v, found_total(keys@, queries@.take(j as int)));
                }
                found = found.wrapping_add(*v);
            },
            None => {
                proof {
                    vstd::arithmetic::div_mod::lemma_small_mod(found as nat, modulus64() as nat);
                    lemma_wrapping_add(found, 0, found_total(keys@, queries@.take(j as int)));
                }
            },
        }
        j += 1;
    }
    assert(queries@.take(queries@.len() as int) =~= queries@);
    found
}

/// The keys are in ascending order; equal keys may repeat.
pub open spec fn ascending(keys: Seq<u64>) -> bool {
    forall|i: int, j: int| 0 <= i <= j < keys.len() ==> keys[i] <= keys[j]
}

/// `slice::binary_search` on an ascending slice finds the index of an
/// element equal to `x` when there is one, and reports otherwise that there
/// is none.
#[verifier::external_body]
fn binary_search_u64(s: &[u64], x: u64) -> (r: Result<usize, usize>)
    requires
        forall|i: int, j: int| 0 <= i <= j < s@.len() ==> s@[i] <= s@[j],
    ensures
        match r {
            Ok(i) => i < s@.len() && s@[i as int] == x,
            Err(i) => i <= s@.len() && !s@.contains(x),
        },
{
    s.binary_search(&x)
}

/// Sums what the queries find in the ascending keys by binary search, each
/// hit collecting its key plus one, wrapping around at 2^64.
pub fn lookup_total_sorted(sorted: &[u64], queries: &[u64]) -> (found: u64)
    requires
        ascending(sorted@),
        keys_below_max(sorted@),
    ensures
        found == wrap64(found_total(sorted@, queries@)),
{
    let mut found: u64 = 0;
    let mut j: usize = 0;
    proof {
        vstd::arithmetic::div_mod::lemma_small_mod(0, modulus64() as nat);
    }
    while j < queries.len()
        invariant
            j <= queries@.len(),
            ascending(sorted@),
            keys_below_max(sorted@),
            found == wrap64(found_total(sorted@, queries@.take(j as int))),
        decreases queries@.len() - j,
    {
        let q = queries[j];
        proof {
            lemma_found_total_take(sorted@, queries@, j as int);
        }
        match binary_search_u64(sorted, q) {
            Ok(i) => {
                let v = sorted[i] + 1;
                proof {
                    assert(sorted@.contains(q));
                    lemma_wrapping_add(found, v, found_total(sorted@, queries@.take(j as int)));
                }
                found = found.wrapping_add(v);
            },
            Err(_) => {
                proof {
                    vstd::arithmetic::div_mod::lemma_small_mod(found as nat, modulus64() as nat);
                    lemma_wrapping_add(found, 0, found_total(sorted@, queries@.take(j as int)));
                }
            },
        }
        j += 1;
    }
    assert(queries@.take(queries@.len() as int) =~= queries@);
    found
}

} // verus!
