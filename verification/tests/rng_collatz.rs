use perfbook::collatz::{collatz_steps_checked, collatz_total_checked};
use perfbook::collatz::{collatz_steps, collatz_total};
use perfbook::rng::xorshift;

const SEED: u64 = 0x2545_F491_4F6C_DD1D;

#[test]
fn xorshift_first_states_from_book_seed() {
    let mut state = SEED;
    assert_eq!(xorshift(&mut state), 0x7f6c_280b_eaa8_e3e7);
    assert_eq!(state, 0x7f6c_280b_eaa8_e3e7);
    assert_eq!(xorshift(&mut state), 0xe471_1987_1cf9_abe0);
    assert_eq!(xorshift(&mut state), 0x3517_4a41_58b8_a0b7);
}

#[test]
fn xorshift_zero_is_fixed() {
    let mut state = 0u64;
    for _ in 0..10 {
        assert_eq!(xorshift(&mut state), 0);
    }
}

#[test]
fn xorshift_nonzero_stays_nonzero() {
    let mut state = 1u64;
    for _ in 0..10_000 {
        assert_ne!(xorshift(&mut state), 0);
    }
}

#[test]
fn xorshift_distinct_states_step_apart() {
    let mut a = 1u64;
    let mut b = 2u64;
    assert_ne!(xorshift(&mut a), xorshift(&mut b));
    let mut c = u64::MAX;
    let mut d = u64::MAX - 1;
    assert_ne!(xorshift(&mut c), xorshift(&mut d));
}

#[test]
fn collatz_known_stopping_times() {
    assert_eq!(collatz_steps(1), 0);
    assert_eq!(collatz_steps(2), 1);
    assert_eq!(collatz_steps(6), 8);
    assert_eq!(collatz_steps(27), 111);
    assert_eq!(collatz_steps(97), 118);
}

#[test]
fn collatz_doubling_adds_one_step() {
    assert_eq!(collatz_steps(54), collatz_steps(27) + 1);
    for n in 1..200u64 {
        assert_eq!(collatz_steps(2 * n), collatz_steps(n) + 1);
    }
}

#[test]
fn collatz_total_small_ranges() {
    assert_eq!(collatz_total(1, 10), 61);
    assert_eq!(collatz_total(1, 1000), 59431);
    assert_eq!(collatz_total(5, 5), 0);
    assert_eq!(collatz_total(7, 3), 0);
}

#[test]
fn collatz_total_matches_one_by_one() {
    let mut expected = 0u64;
    for n in 1..500u64 {
        expected += collatz_steps(n);
    }
    assert_eq!(collatz_total(1, 500), expected);
}

#[test]
fn collatz_step_adds_one() {
    for n in 2..300u64 {
        let next = if n % 2 == 0 { n / 2 } else { 3 * n + 1 };
        assert_eq!(collatz_steps(n), 1 + collatz_steps(next));
    }
}

#[test]
fn collatz_checked_agrees_and_refuses_overflow() {
    assert_eq!(collatz_steps_checked(27), Some(111));
    assert_eq!(collatz_steps_checked(1), Some(0));
    assert_eq!(collatz_steps_checked(u64::MAX), None);
    let big_odd = 0x6000_0000_0000_0001u64;
    assert_eq!(collatz_steps_checked(big_odd), None);
    assert_eq!(collatz_total_checked(1, 10), Some(61));
    assert_eq!(collatz_total_checked(1, 1000), Some(collatz_total(1, 1000)));
    assert_eq!(collatz_total_checked(9, 3), Some(0));
    assert_eq!(collatz_total_checked(big_odd, big_odd + 1), None);
}
