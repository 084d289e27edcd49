//! Collatz stopping times: the number of steps a starting value needs to
//! reach 1, where an even value is halved and an odd one becomes `3n + 1`.

use vstd::prelude::*;

verus! {

/// One step of the Collatz map.
pub open spec fn collatz_next(n: nat) -> nat {
    if n % 2 == 0 {
        n / 2
    } else {
        3 * n + 1
    }
}

/// The value after `k` steps from `n`.
pub open spec fn collatz_iter(n: nat, k: nat) -> nat
    decreases k,
{
    if k == 0 {
        n
    } else {
        collatz_next(collatz_iter(n, (k - 1) as nat))
    }
}

/// `k` is the first step at which the trajectory of `n` is at 1.
pub open spec fn is_stopping_time(n: nat, k: nat) -> bool {
    &&& collatz_iter(n, k) == 1
    &&& forall|j: nat| j < k ==> #[trigger] collatz_iter(n, j) != 1
}

/// The trajectory of `n` reaches 1 after `k` steps, `k` fits in a `u64`, and
/// every value on the way there fits in a `u64`: the step count and the
/// values can then be computed with 64-bit integers.
pub open spec fn reaches_one_in_u64(n: nat, k: nat) -> bool {
    &&& collatz_iter(n, k) == 1
    &&& k <= u64::MAX
    &&& forall|j: nat| j <= k ==> #[trigger] collatz_iter(n, j) <= u64::MAX
}

/// The trajectory of `n` reaches 1 within 64-bit bounds.
pub open spec fn computable_in_u64(n: nat) -> bool {
    exists|k: nat| reaches_one_in_u64(n, k)
}

/// The stopping time of `n`, where the trajectory reaches 1.
pub open spec fn stopping_time(n: nat) -> nat {
    choose|k: nat| is_stopping_time(n, k)
}

/// A trajectory has at most one first arrival at 1.
pub proof fn lemma_stopping_time_unique(n: nat, k1: nat, k2: nat)
    requires
        is_stopping_time(n, k1),
        is_stopping_time(n, k2),
    ensures
        k1 == k2,
{
    if k1 < k2 {
        assert(collatz_iter(n, k1) != 1);
    } else if k2 < k1 {
        assert(collatz_iter(n, k2) != 1);
    }
}

/// Where `k` is the stopping time of `n`, `stopping_time(n)` is `k`.
pub proof fn lemma_stopping_time_is(n: nat, k: nat)
    requires
        is_stopping_time(n, k),
    ensures
        stopping_time(n) == k,
{
    lemma_stopping_time_unique(n, k, stopping_time(n));
}

/// Counts the Collatz steps from `n` down to 1.
pub fn collatz_steps(mut n: u64) -> (steps: u64)
    requires
        computable_in_u64(n as nat),
    ensures
        is_stopping_time(n as nat, steps as nat),
        steps == stopping_time(n as nat),
{
    let ghost n0 = n as nat;
    let ghost k = choose|k: nat| reaches_one_in_u64(n0, k);
    let mut steps: u64 = 0;
    while n != 1
        invariant
            reaches_one_in_u64(n0, k),
            steps <= k,
            n == collatz_iter(n0, steps as nat),
            forall|j: nat| j < steps ==> #[trigger] collatz_iter(n0, j) != 1,
        decreases k - steps,
    {
        assert(steps < k);
        assert(collatz_iter(n0, (steps + 1) as nat) <= u64::MAX);
        n = if n % 2 == 0 {
            n / 2
        } else {
            3 * n + 1
        };
        steps += 1;
    }
    proof {
        lemma_stopping_time_is(n0, steps as nat);
    }
    steps
}

/// Doubling takes one step back to the value it came from.
proof fn lemma_iter_double(n: nat, j: nat)
    ensures
        collatz_iter(2 * n, j + 1) == collatz_iter(n, j),
    decreases j,
{
    assert((2 * n) % 2 == 0 && (2 * n) / 2 == n);
    assert(collatz_iter(2 * n, 0) == 2 * n);
    assert(collatz_iter(2 * n, 1) == collatz_next(2 * n));
    if j > 0 {
        lemma_iter_double(n, (j - 1) as nat);
        assert(collatz_iter(2 * n, j + 1) == collatz_next(collatz_iter(2 * n, j)));
    }
}

/// The stopping time of `2n` is one more than that of `n`, for `n >= 1`.
pub proof fn lemma_stopping_time_double(n: nat, k: nat)
    requires
        n >= 1,
        is_stopping_time(n, k),
    ensures
        is_stopping_time(2 * n, k + 1),
        stopping_time(2 * n) == stopping_time(n) + 1,
{
    lemma_iter_double(n, k);
    assert forall|j: nat| j < k + 1 implies #[trigger] collatz_iter(2 * n, j) != 1 by {
        if j > 0 {
            lemma_iter_double(n, (j - 1) as nat);
        }
    }
    lemma_stopping_time_is(n, k);
    lemma_stopping_time_is(2 * n, k + 1);
}

/// Starting one step later gives the same values one step earlier.
proof fn lemma_iter_shift(n: nat, j: nat)
    ensures
        collatz_iter(collatz_next(n), j) == collatz_iter(n, j + 1),
    decreases j,
{
    assert(collatz_iter(n, 0) == n);
    if j > 0 {
        lemma_iter_shift(n, (j - 1) as nat);
        assert(collatz_iter(n, j + 1) == collatz_next(collatz_iter(n, j)));
    } else {
        assert(collatz_iter(n, 1) == collatz_next(collatz_iter(n, 0)));
    }
}

/// Away from 1, the stopping time of `n` is one more than that of the
/// value one step later.
pub proof fn lemma_stopping_time_step(n: nat, k: nat)
    requires
        n != 1,
        is_stopping_time(n, k),
    ensures
        k >= 1,
        is_stopping_time(collatz_next(n), (k - 1) as nat),
        stopping_time(n) == stopping_time(collatz_next(n)) + 1,
{
    assert(collatz_iter(n, 0) == n);
    let m = collatz_next(n);
    lemma_iter_shift(n, (k - 1) as nat);
    assert forall|j: nat| j < k - 1 implies #[trigger] collatz_iter(m, j) != 1 by {
        lemma_iter_shift(n, j);
        assert(collatz_iter(n, j + 1) != 1);
    }
    lemma_stopping_time_is(n, k);
    lemma_stopping_time_is(m, (k - 1) as nat);
}

/// One step from an odd value `n` leads to `3n + 1`, and one from an even
/// value to `n / 2`.
pub proof fn lemma_collatz_one_step(n: nat)
    ensures
        n % 2 == 1 ==> collatz_iter(n, 1) == 3 * n + 1,
        n % 2 == 0 ==> collatz_iter(n, 1) == n / 2,
{
    assert(collatz_iter(n, 0) == n);
    assert(collatz_iter(n, 1) == collatz_next(collatz_iter(n, 0)));
}

/// An odd start value other than 1 takes one step more than `3n + 1`.
pub proof fn lemma_stopping_time_odd(n: nat, k: nat)
    requires
        n % 2 == 1,
        n != 1,
        is_stopping_time(n, k),
    ensures
        k >= 1,
        is_stopping_time(3 * n + 1, (k - 1) as nat),
        stopping_time(n) == stopping_time(3 * n + 1) + 1,
{
    lemma_stopping_time_step(n, k);
    assert(collatz_next(n) == 3 * n + 1);
}

/// An even start value takes one step more than `n / 2`.
pub proof fn lemma_stopping_time_even(n: nat, k: nat)
    requires
        n % 2 == 0,
        n != 0,
        is_stopping_time(n, k),
    ensures
        k >= 1,
        is_stopping_time(n / 2, (k - 1) as nat),
        stopping_time(n) == stopping_time(n / 2) + 1,
{
    lemma_stopping_time_step(n, k);
    assert(collatz_next(n) == n / 2);
}

/// Counts the Collatz steps from `n` down to 1 where that is possible in
/// 64-bit arithmetic, and returns `None` where a value on the way, or the
/// count, would not fit.
pub fn collatz_steps_checked(n: u64) -> (r: Option<u64>)
    ensures
        r is Some <==> computable_in_u64(n as nat),
        r matches Some(k) ==> is_stopping_time(n as nat, k as nat) && k == stopping_time(n as nat),
{
    let ghost n0 = n as nat;
    let mut x: u64 = n;
    let mut steps: u64 = 0;
    while x != 1
        invariant
            n0 == n,
            x == collatz_iter(n0, steps as nat),
            forall|j: nat| j <= steps ==> #[trigger] collatz_iter(n0, j) <= u64::MAX,
            forall|j: nat| j < steps ==> #[trigger] collatz_iter(n0, j) != 1,
        decreases u64::MAX - steps,
    {
        if steps == u64::MAX {
            proof {
                assert(!computable_in_u64(n0)) by {
                    if computable_in_u64(n0) {
                        let k = choose|k: nat| reaches_one_in_u64(n0, k);
                        if k < steps {
                            assert(collatz_iter(n0, k) != 1);
                        } else {
                            assert(k == steps);
                            assert(collatz_iter(n0, steps as nat) != 1);
                        }
                    }
                }
            }
            return None;
        }
        let next = if x % 2 == 0 {
            Some(x / 2)
        } else {
            match x.checked_mul(3) {
                Some(t) => t.checked_add(1),
                None => None,
            }
        };
        match next {
            Some(v) => {
                x = v;
                steps += 1;
            },
            None => {
                proof {
                    assert(x % 2 != 0);
                    assert(collatz_iter(n0, (steps + 1) as nat) == collatz_next(
                        collatz_iter(n0, steps as nat),
                    ));
                    assert(collatz_iter(n0, (steps + 1) as nat) == 3 * x + 1);
                    assert(collatz_iter(n0, (steps + 1) as nat) > u64::MAX);
                    assert(!computable_in_u64(n0)) by {
                        if computable_in_u64(n0) {
                            let k = choose|k: nat| reaches_one_in_u64(n0, k);
                            if k < steps {
                                assert(collatz_iter(n0, k) != 1);
                            } else if k == steps {
                                assert(collatz_iter(n0, steps as nat) != 1);
                            } else {
                                assert(collatz_iter(n0, (steps + 1) as nat) <= u64::MAX);
                            }
                        }
                    }
                }
                return None;
            },
        }
    }
    proof {
        assert(reaches_one_in_u64(n0, steps as nat));
        lemma_stopping_time_is(n0, steps as nat);
    }
    Some(steps)
}

/// The sum of the stopping times of `lo..hi`.
pub open spec fn stopping_time_sum(lo: nat, hi: nat) -> nat
    decreases hi - lo,
{
    if lo >= hi {
        0
    } else {
        stopping_time(lo) + stopping_time_sum(lo + 1, hi)
    }
}

/// Adding the stopping time of `hi` extends the sum over `lo..hi` to `lo..hi+1`.
proof fn lemma_sum_extend(lo: nat, hi: nat)
    requires
        lo <= hi,
    ensures
        stopping_time_sum(lo, hi + 1) == stopping_time_sum(lo, hi) + stopping_time(hi),
    decreases hi - lo,
{
    if lo < hi {
        lemma_sum_extend(lo + 1, hi);
        assert(stopping_time_sum(lo, hi + 1) == stopping_time(lo) + stopping_time_sum(lo + 1, hi + 1));
        assert(stopping_time_sum(lo, hi) == stopping_time(lo) + stopping_time_sum(lo + 1, hi));
    } else {
        assert(stopping_time_sum(lo, hi + 1) == stopping_time(lo) + stopping_time_sum(lo + 1, hi + 1));
        assert(stopping_time_sum(lo + 1, hi + 1) == 0);
    }
}

/// The sum of the stopping times is monotone in the upper bound.
proof fn lemma_sum_monotone(lo: nat, mid: nat, hi: nat)
    requires
        lo <= mid <= hi,
    ensures
        stopping_time_sum(lo, mid) <= stopping_time_sum(lo, hi),
    decreases hi - mid,
{
    if mid < hi {
        lemma_sum_extend(lo, (hi - 1) as nat);
        lemma_sum_monotone(lo, mid, (hi - 1) as nat);
    }
}

/// The total number of Collatz steps over the starting values `lo..hi`.
pub fn collatz_total(lo: u64, hi: u64) -> (total: u64)
    requires
        forall|n: nat| lo <= n < hi ==> #[trigger] computable_in_u64(n),
        stopping_time_sum(lo as nat, hi as nat) <= u64::MAX,
    ensures
        total == stopping_time_sum(lo as nat, hi as nat),
{
    let mut total: u64 = 0;
    let mut i: u64 = lo;
    while i < hi
        invariant
            lo <= i <= hi || (hi < lo && i == lo),
            forall|n: nat| lo <= n < hi ==> #[trigger] computable_in_u64(n),
            stopping_time_sum(lo as nat, hi as nat) <= u64::MAX,
            i <= hi ==> total == stopping_time_sum(lo as nat, i as nat),
            hi < lo ==> total == 0,
        decreases hi - i,
    {
        assert(computable_in_u64(i as nat));
        let s = collatz_steps(i);
        proof {
            lemma_sum_extend(lo as nat, i as nat);
            lemma_sum_monotone(lo as nat, (i + 1) as nat, hi as nat);
        }
        total = total + s;
        i = i + 1;
    }
    total
}

/// The total number of Collatz steps over `lo..hi` where every start value
/// there reaches 1 within 64-bit arithmetic and the total fits in a `u64`,
/// and `None` otherwise.
pub fn collatz_total_checked(lo: u64, hi: u64) -> (r: Option<u64>)
    ensures
        r is Some <==> (forall|n: nat| lo <= n < hi ==> #[trigger] computable_in_u64(n))
            && stopping_time_sum(lo as nat, hi as nat) <= u64::MAX,
        r matches Some(t) ==> t == stopping_time_sum(lo as nat, hi as nat),
{
    if hi <= lo {
        assert(stopping_time_sum(lo as nat, hi as nat) == 0);
        return Some(0);
    }
    let mut total: u64 = 0;
    let mut i: u64 = lo;
    while i < hi
        invariant
            lo <= i <= hi,
            forall|n: nat| lo <= n < i ==> #[trigger] computable_in_u64(n),
            total == stopping_time_sum(lo as nat, i as nat),
        decreases hi - i,
    {
        match collatz_steps_checked(i) {
            Some(s) => {
                proof {
                    lemma_sum_extend(lo as nat, i as nat);
                }
                match total.checked_add(s) {
                    Some(t) => {
                        total = t;
                    },
                    None => {
                        proof {
                            lemma_sum_monotone(lo as nat, (i + 1) as nat, hi as nat);
                        }
                        return None;
                    },
                }
            },
            None => {
                return None;
            },
        }
        i += 1;
    }
    Some(total)
}

} // verus!
