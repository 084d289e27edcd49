use perfbook::data::{passes_total_iter, passes_total_prefix, passes_total_slice};
use perfbook::branch::{high_sum_branchless, high_sum_branchy, random_bytes, sorted_copy};
use perfbook::data::{doubled, doubled_preallocated, iota_i32, iota_u32, iota_u64, passes_total, pattern_bytes};
use perfbook::dispatch::{apply_op, cyclic_indices, f3, f15, random_indices, run_ops};
use perfbook::hashing::FastHasher;
use perfbook::lookup::{even_keys, lookup_total_hash, lookup_total_sorted, random_queries};
use perfbook::tree_lookup::lookup_total_btree;

const SEED: u64 = 0x2545_F491_4F6C_DD1D;

#[test]
fn fast_hasher_values() {
    let mut h = FastHasher::default();
    assert_eq!(h.finish(), 0);
    h.write(&[1, 2, 3]);
    assert_eq!(h.finish(), 622248814612460352);
    let mut w = FastHasher::default();
    w.write_u64(42);
    assert_eq!(w.finish(), 17661420568835545970);
}

#[test]
fn fast_hasher_writes_concatenate() {
    let mut whole = FastHasher(7);
    whole.write(&[9, 8, 7, 6]);
    let mut parts = FastHasher(7);
    parts.write(&[9, 8]);
    parts.write(&[]);
    parts.write(&[7, 6]);
    assert_eq!(whole.finish(), parts.finish());
}

#[test]
fn dispatch_ops() {
    assert_eq!(f3(10), 23);
    assert_eq!(f15(u64::MAX), 13);
    assert_eq!(apply_op(0, 5), 10);
    assert_eq!(apply_op(7, 5), 17);
    let idx = cyclic_indices(16);
    assert_eq!(idx, (0..16u8).collect::<Vec<_>>());
    assert_eq!(run_ops(&idx), 65519);
    assert_eq!(run_ops(&cyclic_indices(100)), 18374685380143218427);
    assert_eq!(run_ops(&[]), 0);
}

#[test]
fn random_indices_below_sixteen() {
    let mut state = SEED;
    let idx = random_indices(&mut state, 3);
    assert_eq!(idx, vec![(0x7f6c_280b_eaa8_e3e7u64 % 16) as u8, (0xe471_1987_1cf9_abe0u64 % 16) as u8, (0x3517_4a41_58b8_a0b7u64 % 16) as u8]);
    assert_eq!(state, 0x3517_4a41_58b8_a0b7);
}

#[test]
fn random_bytes_from_book_seed() {
    let mut state = SEED;
    let bytes = random_bytes(&mut state, 5);
    assert_eq!(bytes, vec![231, 224, 183, 54, 142]);
    assert_eq!(high_sum_branchy(&bytes), 780);
}

#[test]
fn high_sums_agree_sorted_and_unsorted() {
    let mut state = SEED;
    let unsorted = random_bytes(&mut state, 10_000);
    let sorted = sorted_copy(&unsorted);
    assert!(sorted.windows(2).all(|w| w[0] <= w[1]));
    assert_ne!(sorted, unsorted);
    let a = high_sum_branchy(&unsorted);
    assert_eq!(a, high_sum_branchy(&sorted));
    assert_eq!(a, high_sum_branchless(&unsorted));
    assert_eq!(a, high_sum_branchless(&sorted));
    let expected: u64 = unsorted.iter().filter(|&&v| v >= 128).map(|&v| v as u64).sum();
    assert_eq!(a, expected);
}

#[test]
fn high_sum_threshold() {
    assert_eq!(high_sum_branchy(&[0, 127, 128, 255]), 383);
    assert_eq!(high_sum_branchless(&[0, 127, 128, 255]), 383);
    assert_eq!(high_sum_branchy(&[]), 0);
}

#[test]
fn lookups_agree() {
    let keys = even_keys(10);
    assert_eq!(keys, vec![0, 2, 4, 6, 8, 10, 12, 14, 16, 18]);
    let queries = vec![0, 1, 2, 19, 18, 5, 2];
    assert_eq!(lookup_total_hash(&keys, &queries), 1 + 3 + 19 + 3);
    assert_eq!(lookup_total_btree(&keys, &queries), 26);
    assert_eq!(lookup_total_sorted(&keys, &queries), 26);
}

#[test]
fn lookups_agree_on_random_queries() {
    let n = 5000;
    let keys = even_keys(n);
    let mut state = SEED;
    let queries = random_queries(&mut state, n, 2 * n as u64);
    assert!(queries.iter().all(|&q| q < 2 * n as u64));
    let h = lookup_total_hash(&keys, &queries);
    assert_eq!(h, lookup_total_btree(&keys, &queries));
    assert_eq!(h, lookup_total_sorted(&keys, &queries));
    let expected: u64 = queries.iter().filter(|&&q| q % 2 == 0).map(|&q| q + 1).sum();
    assert_eq!(h, expected);
}

#[test]
fn data_builders() {
    assert_eq!(iota_u64(4), vec![0, 1, 2, 3]);
    assert_eq!(iota_u32(3), vec![0, 1, 2]);
    assert_eq!(iota_i32(3), vec![0, 1, 2]);
    assert!(iota_i32(-2).is_empty());
    let p = pattern_bytes(300);
    assert_eq!(p[250], 250);
    assert_eq!(p[251], 0);
    assert_eq!(p[299], 48);
    let src = vec![0u32, 1, u32::MAX];
    assert_eq!(doubled(&src), vec![0, 2, 2 * u32::MAX as u64]);
    assert_eq!(doubled(&src), doubled_preallocated(&src));
}

#[test]
fn passes_total_values() {
    let v = iota_i32(10);
    assert_eq!(passes_total(&v, 20), 900);
    assert_eq!(passes_total(&[i32::MAX, 1], 2), 2 * i32::MIN as i64);
    assert_eq!(passes_total(&v, 0), 0);
}

#[test]
fn sorted_lookup_with_repeated_keys() {
    let keys = vec![2u64, 2, 4, 4, 4, 9];
    let queries = vec![2, 3, 4, 9, 10];
    assert_eq!(lookup_total_sorted(&keys, &queries), 3 + 5 + 10);
    assert_eq!(lookup_total_hash(&keys, &queries), 18);
    assert_eq!(lookup_total_btree(&keys, &queries), 18);
}

#[test]
fn bounds_pass_forms_agree() {
    let v = iota_i32(1000);
    let whole = passes_total(&v, 20);
    assert_eq!(whole, 20 * 499_500);
    assert_eq!(passes_total_iter(&v, 20), whole);
    assert_eq!(passes_total_prefix(&v, 999, 20), 20 * (499_500 - 999));
    assert_eq!(passes_total_slice(&v, 999, 20), passes_total_prefix(&v, 999, 20));
    assert_eq!(passes_total_slice(&v, 0, 5), 0);
    assert_eq!(passes_total_prefix(&v, 1000, 3), passes_total_iter(&v, 3));
}
