use perfbook::cycles::{chase, sattolo_cycle, successor_cycle};
use perfbook::transpose::{transpose_blocked, transpose_naive};

const SEED: u64 = 0x2545_F491_4F6C_DD1D;

fn visits_all_once(p: &[u32]) -> bool {
    let n = p.len();
    let mut seen = vec![false; n];
    let mut pos = 0usize;
    for _ in 0..n {
        if seen[pos] {
            return false;
        }
        seen[pos] = true;
        pos = p[pos] as usize;
    }
    pos == 0 && seen.iter().all(|&s| s)
}

#[test]
fn successor_cycle_small() {
    assert_eq!(successor_cycle(5), vec![1, 2, 3, 4, 0]);
    assert_eq!(successor_cycle(1), vec![0]);
    assert!(successor_cycle(0).is_empty());
}

#[test]
fn sattolo_cycle_from_book_seed() {
    let mut state = SEED;
    let p = sattolo_cycle(10, &mut state);
    assert_eq!(p, vec![3, 5, 7, 9, 1, 8, 2, 4, 0, 6]);
    assert_eq!(state, 9769517514429500175);
    assert!(visits_all_once(&p));
}

#[test]
fn sattolo_cycle_is_one_ring_for_many_sizes() {
    let mut state = SEED;
    for n in 1..200usize {
        let p = sattolo_cycle(n, &mut state);
        assert!(visits_all_once(&p), "n = {}", n);
    }
}

#[test]
fn sattolo_cycle_edge_sizes() {
    let mut state = SEED;
    assert!(sattolo_cycle(0, &mut state).is_empty());
    assert_eq!(state, SEED);
    assert_eq!(sattolo_cycle(1, &mut state), vec![0]);
    assert_eq!(state, SEED);
    assert_eq!(sattolo_cycle(2, &mut state), vec![1, 0]);
}

#[test]
fn chase_returns_to_start_after_n_links() {
    let mut state = 42;
    let n = 1000;
    let rand = sattolo_cycle(n, &mut state);
    let seq = successor_cycle(n);
    assert_eq!(chase(&rand, n), 0);
    assert_eq!(chase(&seq, n), 0);
    assert_eq!(chase(&seq, 7), 7);
    assert_eq!(chase(&seq, 0), 0);
}

#[test]
fn transpose_small_exact() {
    let src: Vec<u32> = (0..9).collect();
    let mut dst = vec![0u32; 9];
    transpose_naive(&src, &mut dst, 3);
    assert_eq!(dst, vec![0, 3, 6, 1, 4, 7, 2, 5, 8]);
}

#[test]
fn transpose_blocked_equals_naive() {
    let n = 12;
    let src: Vec<f32> = (0..n * n).map(|i| i as f32).collect();
    let mut a = vec![0.0f32; n * n];
    let mut b = vec![0.0f32; n * n];
    transpose_naive(&src, &mut a, n);
    transpose_blocked(&src, &mut b, n, 4);
    assert_eq!(a, b);
    assert_eq!(a[5 * n + 7], src[7 * n + 5]);
    let mut c = vec![1.0f32; n * n];
    transpose_blocked(&src, &mut c, n, 3);
    assert_eq!(a, c);
}

#[test]
fn transpose_empty_and_single() {
    let src: Vec<u8> = vec![];
    let mut dst: Vec<u8> = vec![];
    transpose_blocked(&src, &mut dst, 0, 32);
    assert!(dst.is_empty());
    let src = vec![9u8];
    let mut dst = vec![0u8];
    transpose_naive(&src, &mut dst, 1);
    assert_eq!(dst, vec![9]);
}
