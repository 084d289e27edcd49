//! Looking integer keys up in a B-tree map.

use vstd::prelude::*;
use std::collections::BTreeMap;
use crate::lookup::{found_total, hit_value, keys_below_max, lemma_found_total_take};
use crate::sums::{wrap64, lemma_wrapping_add};

verus! {

broadcast use {vstd::std_specs::btree::group_btree_axioms, vstd::laws_cmp::group_laws_cmp};

/// Builds a B-tree map from each key `k` to `k + 1`, then sums what the
/// queries find in it, wrapping around at 2^64.
pub fn lookup_total_btree(keys: &[u64], queries: &[u64]) -> (found: u64)
    requires
        keys_below_max(keys@),
    ensures
        found == wrap64(found_total(keys@, queries@)),
{
    let mut map: BTreeMap<u64, u64> = BTreeMap::new();
    let mut i: usize = 0;
    let ghost mut ii: int = 0;
    while i < keys.len()
        invariant
            ii == i,
            i <= keys@.len(),
            keys_below_max(keys@),
            forall|k: u64| #[trigger] map@.contains_key(k) <==> keys@.take(ii).contains(k),
            forall|k: u64| #[trigger] map@.contains_key(k) ==> map@[k] == k + 1,
        decreases keys@.len() - i,
    {
        let k = keys[i];
        map.insert(k, k + 1);
        proof {
            let before = keys@.take(ii);
            let after = keys@.take(ii + 1);
            assert(after =~= before.push(k));
            assert forall|x: u64| #[trigger] map@.contains_key(x) <==> after.contains(x) by {
                if after.contains(x) {
                    let j = choose|j: int| 0 <= j < after.len() && after[j] == x;
                    if j < ii {
                        assert(before[j] == x);
                    }
                }
                if before.contains(x) {
                    let j = choose|j: int| 0 <= j < before.len() && before[j] == x;
                    assert(after[j] == x);
                }
                if x == k {
                    assert(after[ii] == x);
                }
            }
            ii = ii + 1;
        }
        i += 1;
    }
    assert(keys@.take(ii) =~= keys@);
    let mut found: u64 = 0;
    let mut j: usize = 0;
    let ghost mut jj: int = 0;
    assert(found_total(keys@, queries@.take(0)) == 0);
    assert(wrap64(0) == 0);
    while j < queries.len()
        invariant
            jj == j,
            j <= queries@.len(),
            forall|k: u64| #[trigger] map@.contains_key(k) <==> keys@.contains(k),
            forall|k: u64| #[trigger] map@.contains_key(k) ==> map@[k] == k + 1,
            found == wrap64(found_total(keys@, queries@.take(jj))),
        decreases queries@.len() - j,
    {
        let q = queries[j];
        proof {
            lemma_found_total_take(keys@, queries@, jj);
        }
        match map.get(&q) {
            Some(v) => {
                proof {
                    lemma_wrapping_add(found, *v, found_total(keys@, queries@.take(jj)));
                }
                found = found.wrapping_add(*v);
            },
            None => {
                assert(hit_value(keys@, q) == 0);
            },
        }
        j += 1;
        proof {
            jj = jj + 1;
        }
    }
    assert(queries@.take(jj) =~= queries@);
    found
}

} // verus!
