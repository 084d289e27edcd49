//! Arrays of "next index" links for pointer chasing: a sequential ring and a
//! random ring built with Sattolo's algorithm, and the walk that follows them.

use vstd::prelude::*;
use vstd::set_lib::*;
use vstd::arithmetic::div_mod::{lemma_add_mod_noop, lemma_mod_self_0, lemma_small_mod};
use crate::rng::{xorshift, xorshift_next, xorshift_iter};

verus! {

/// The index reached from `x` after following `k` links of `p`.
pub open spec fn follow(p: Seq<u32>, x: int, k: nat) -> int
    decreases k,
{
    if k == 0 {
        x
    } else {
        p[follow(p, x, (k - 1) as nat)] as int
    }
}

/// Following the links of `p` from index 0 passes every index exactly once
/// and is back at 0 after `p.len()` links: `p` is one cycle through all indices.
pub open spec fn is_single_cycle(p: Seq<u32>) -> bool {
    &&& forall|x: int| 0 <= x < p.len() ==> #[trigger] p[x] < p.len()
    &&& follow(p, 0, p.len()) == 0
    &&& forall|k1: nat, k2: nat|
        k1 < k2 < p.len() ==> #[trigger] follow(p, 0, k1) != #[trigger] follow(p, 0, k2)
    &&& forall|y: int| 0 <= y < p.len() ==> #[trigger] visited_within(p, y, p.len())
}

/// Index `y` is reached from index 0 within fewer than `steps` links.
pub open spec fn visited_within(p: Seq<u32>, y: int, steps: nat) -> bool {
    exists|k: nat| k < steps && #[trigger] follow(p, 0, k) == y
}

/// The identity arrangement `0, 1, ..., n - 1`.
pub open spec fn identity_perm(n: nat) -> Seq<u32> {
    Seq::new(n, |i: int| i as u32)
}

/// `p` with the entries at `i` and `j` exchanged.
pub open spec fn swap_at(p: Seq<u32>, i: int, j: int) -> Seq<u32> {
    p.update(i, p[j]).update(j, p[i])
}

/// Sattolo's shuffle of `p` at the positions `i, i - 1, ..., 1`, in that
/// order: each draws the next generator state `s'` and exchanges position
/// `i` with position `s' % i`.
pub open spec fn sattolo_steps(p: Seq<u32>, i: nat, s: u64) -> Seq<u32>
    decreases i,
{
    if i == 0 {
        p
    } else {
        let s2 = xorshift_next(s);
        let j = (s2 % (i as u64)) as int;
        sattolo_steps(swap_at(p, i as int, j), (i - 1) as nat, s2)
    }
}

/// The arrangement of `0..n` that Sattolo's algorithm produces from the
/// generator state `s`.
pub open spec fn sattolo_perm(n: nat, s: u64) -> Seq<u32> {
    if n == 0 {
        Seq::empty()
    } else {
        sattolo_steps(identity_perm(n), (n - 1) as nat, s)
    }
}

/// The arrangement of `0..n` after the first `t` exchanges of Sattolo's
/// algorithm from the generator state `s`: the `k`-th exchange (`k = 1..t`)
/// swaps position `n - k` with position `x % (n - k)`, where `x` is the
/// `k`-th generator state after `s`.
pub open spec fn sattolo_prefix(n: nat, s: u64, t: nat) -> Seq<u32>
    recommends
        t < n,
    decreases t,
{
    if t == 0 {
        identity_perm(n)
    } else {
        let i = (n - t) as nat;
        swap_at(sattolo_prefix(n, s, (t - 1) as nat), i as int, (xorshift_iter(s, t) % (i as u64)) as int)
    }
}

/// Running the remaining exchanges from the arrangement after `t` of them
/// ends at the arrangement after all `n - 1`.
proof fn lemma_sattolo_steps_from(n: nat, s: u64, t: nat)
    requires
        1 <= n <= u32::MAX,
        t <= n - 1,
    ensures
        sattolo_steps(sattolo_prefix(n, s, t), (n - 1 - t) as nat, xorshift_iter(s, t))
            == sattolo_prefix(n, s, (n - 1) as nat),
    decreases n - 1 - t,
{
    if t < n - 1 {
        let i = (n - 1 - t) as nat;
        let st = xorshift_iter(s, t);
        assert(xorshift_iter(s, t + 1) == xorshift_next(st));
        assert(sattolo_prefix(n, s, t + 1) == swap_at(
            sattolo_prefix(n, s, t),
            i as int,
            (xorshift_next(st) % (i as u64)) as int,
        ));
        lemma_sattolo_steps_from(n, s, t + 1);
    }
}

/// Sattolo's ring draws each exchange from the generator: the ring on
/// `0..n` is the identity with, for `k = 1 .. n - 1` in turn, position
/// `n - k` exchanged with position `(k-th state after s) % (n - k)`.
pub proof fn lemma_sattolo_draws(n: nat, s: u64)
    requires
        1 <= n <= u32::MAX,
    ensures
        sattolo_perm(n, s) == sattolo_prefix(n, s, (n - 1) as nat),
{
    lemma_sattolo_steps_from(n, s, 0);
    assert(xorshift_iter(s, 0) == s);
    assert(sattolo_prefix(n, s, 0) == identity_perm(n));
}

/// The number of generator steps that Sattolo's algorithm takes for `n`.
pub open spec fn sattolo_draws(n: nat) -> nat {
    if n == 0 {
        0
    } else {
        (n - 1) as nat
    }
}

/// The position after `t` in a cycle of length `len`.
pub open spec fn succ_pos(t: int, len: int) -> int {
    if t + 1 < len {
        t + 1
    } else {
        0
    }
}

/// `cycles` lists the cycles of `p`: `m` of them, the `r`-th starting at
/// index `r`; `cid` and `pos` give, for each index, its cycle and place.
spec fn cycle_cover(p: Seq<u32>, cycles: Seq<Seq<int>>, cid: Seq<int>, pos: Seq<int>, m: nat) -> bool {
    let n = p.len();
    &&& cycles.len() == m
    &&& cid.len() == n
    &&& pos.len() == n
    &&& forall|r: int| 0 <= r < m ==> (#[trigger] cycles[r]).len() > 0 && cycles[r][0] == r
    &&& forall|r: int, t: int|
        0 <= r < m && 0 <= t < cycles[r].len() ==> {
            let x = #[trigger] cycles[r][t];
            &&& 0 <= x < n
            &&& cid[x] == r
            &&& pos[x] == t
            &&& p[x] == cycles[r][succ_pos(t, cycles[r].len() as int)]
        }
    &&& forall|x: int|
        0 <= x < n ==> {
            &&& 0 <= #[trigger] cid[x] < m
            &&& 0 <= pos[x] < cycles[cid[x]].len()
            &&& cycles[cid[x]][pos[x]] == x
        }
}

/// The identity arrangement has each index as a cycle of its own.
proof fn lemma_identity_cover(n: nat)
    requires
        n <= u32::MAX,
    ensures
        cycle_cover(
            identity_perm(n),
            Seq::new(n, |r: int| seq![r]),
            Seq::new(n, |x: int| x),
            Seq::new(n, |x: int| 0int),
            n,
        ),
{
    let p = identity_perm(n);
    let cycles = Seq::new(n, |r: int| seq![r]);
    let cid = Seq::new(n, |x: int| x);
    let pos = Seq::new(n, |x: int| 0int);
    assert forall|r: int, t: int| 0 <= r < n && 0 <= t < cycles[r].len() implies {
        let x = #[trigger] cycles[r][t];
        &&& 0 <= x < n
        &&& cid[x] == r
        &&& pos[x] == t
        &&& p[x] == cycles[r][succ_pos(t, cycles[r].len() as int)]
    } by {
        assert(t == 0);
        assert(cycles[r][0] == r);
    }
    assert forall|x: int| 0 <= x < n implies {
        &&& 0 <= #[trigger] cid[x] < n
        &&& 0 <= pos[x] < cycles[cid[x]].len()
        &&& cycles[cid[x]][pos[x]] == x
    } by {
        assert(cycles[x][0] == x);
    }
}

/// The cycle that exchanging positions `i` and `j` makes from the cycle `a`
/// starting at `i` and the cycle `b` starting at `j`.
spec fn merged_cycle(a: Seq<int>, b: Seq<int>, i: int, j: int) -> Seq<int> {
    Seq::new(
        a.len() + b.len(),
        |t: int|
            if t == 0 {
                j
            } else if t < a.len() {
                a[t]
            } else if t == a.len() {
                i
            } else {
                b[t - a.len()]
            },
    )
}

/// The cycle list after merging the last cycle (index `i`) into cycle `j`.
spec fn merged_cycles(cycles: Seq<Seq<int>>, i: int, j: int) -> Seq<Seq<int>> {
    Seq::new(
        i as nat,
        |r: int|
            if r == j {
                merged_cycle(cycles[i], cycles[j], i, j)
            } else {
                cycles[r]
            },
    )
}

/// The cycle of each index after the merge.
spec fn merged_cid(cid: Seq<int>, i: int, j: int) -> Seq<int> {
    Seq::new(cid.len(), |x: int| if cid[x] == i { j } else { cid[x] })
}

/// The place of each index in its cycle after the merge, where `la` is the
/// length of the cycle that starts at `i`.
spec fn merged_pos(cid: Seq<int>, pos: Seq<int>, i: int, j: int, la: int) -> Seq<int> {
    Seq::new(
        cid.len(),
        |x: int|
            if cid[x] == i {
                if pos[x] == 0 {
                    la
                } else {
                    pos[x]
                }
            } else if cid[x] == j {
                if pos[x] == 0 {
                    0
                } else {
                    la + pos[x]
                }
            } else {
                pos[x]
            },
    )
}

/// Facts about the two cycles that a merge joins.
proof fn lemma_merge_ends(
    p: Seq<u32>,
    cycles: Seq<Seq<int>>,
    cid: Seq<int>,
    pos: Seq<int>,
    i: int,
    j: int,
)
    requires
        0 <= j < i,
        cycle_cover(p, cycles, cid, pos, (i + 1) as nat),
    ensures
        cycles[i].len() > 0 && cycles[i][0] == i,
        cycles[j].len() > 0 && cycles[j][0] == j,
        0 <= i < p.len() && 0 <= j < p.len(),
        cid[i] == i && pos[i] == 0,
        cid[j] == j && pos[j] == 0,
        p[i] == cycles[i][succ_pos(0, cycles[i].len() as int)],
        p[j] == cycles[j][succ_pos(0, cycles[j].len() as int)],
{
    assert(cycles[i][0] == i);
    assert(cycles[j][0] == j);
}

/// Each entry of the merged cycle has the right cycle, place and link.
proof fn lemma_merge_entry(
    p: Seq<u32>,
    cycles: Seq<Seq<int>>,
    cid: Seq<int>,
    pos: Seq<int>,
    i: int,
    j: int,
    t: int,
)
    requires
        0 <= j < i,
        cycle_cover(p, cycles, cid, pos, (i + 1) as nat),
        0 <= t < cycles[i].len() + cycles[j].len(),
    ensures
        ({
            let a = cycles[i];
            let b = cycles[j];
            let c = merged_cycle(a, b, i, j);
            let x = c[t];
            &&& 0 <= x < p.len()
            &&& merged_cid(cid, i, j)[x] == j
            &&& merged_pos(cid, pos, i, j, a.len() as int)[x] == t
            &&& swap_at(p, i, j)[x] == c[succ_pos(t, c.len() as int)]
        }),
{
    lemma_merge_ends(p, cycles, cid, pos, i, j);
    let a = cycles[i];
    let b = cycles[j];
    let la = a.len() as int;
    let lb = b.len() as int;
    let c = merged_cycle(a, b, i, j);
    let q = swap_at(p, i, j);
    let x = c[t];
    let cid2 = merged_cid(cid, i, j);
    let pos2 = merged_pos(cid, pos, i, j, la);
    assert(q[i] == p[j] && q[j] == p[i]);
    if t == 0 {
        assert(x == j);
        if la > 1 {
            assert(c[1] == a[1]);
        } else {
            assert(c[1] == i);
        }
    } else if t < la {
        assert(x == a[t]);
        assert(0 <= x < p.len() && cid[x] == i && pos[x] == t);
        assert(p[x] == a[succ_pos(t, la)]);
        assert(x != i && x != j);
        assert(q[x] == p[x]);
        if t + 1 < la {
            assert(c[t + 1] == a[t + 1]);
        } else {
            assert(c[t + 1] == i);
        }
    } else if t == la {
        assert(x == i);
        if lb > 1 {
            assert(c[la + 1] == b[1]);
        } else {
            assert(succ_pos(t, la + lb) == 0);
        }
    } else {
        let s = t - la;
        assert(x == b[s]);
        assert(0 <= x < p.len() && cid[x] == j && pos[x] == s);
        assert(p[x] == b[succ_pos(s, lb)]);
        assert(x != i && x != j);
        assert(q[x] == p[x]);
        if s + 1 < lb {
            assert(c[t + 1] == b[s + 1]);
        } else {
            assert(succ_pos(t, la + lb) == 0);
        }
    }
}

/// Each entry of a cycle that the merge leaves alone keeps its cycle,
/// place and link.
proof fn lemma_merge_other_entry(
    p: Seq<u32>,
    cycles: Seq<Seq<int>>,
    cid: Seq<int>,
    pos: Seq<int>,
    i: int,
    j: int,
    r: int,
    t: int,
)
    requires
        0 <= j < i,
        cycle_cover(p, cycles, cid, pos, (i + 1) as nat),
        0 <= r < i,
        r != j,
        0 <= t < cycles[r].len(),
    ensures
        ({
            let x = cycles[r][t];
            &&& 0 <= x < p.len()
            &&& merged_cid(cid, i, j)[x] == r
            &&& merged_pos(cid, pos, i, j, cycles[i].len() as int)[x] == t
            &&& swap_at(p, i, j)[x] == cycles[r][succ_pos(t, cycles[r].len() as int)]
        }),
{
    lemma_merge_ends(p, cycles, cid, pos, i, j);
    let x = cycles[r][t];
    assert(0 <= x < p.len() && cid[x] == r && pos[x] == t);
    assert(x != i && x != j);
}

/// Each index is found again at its new cycle and place.
proof fn lemma_merge_index(
    p: Seq<u32>,
    cycles: Seq<Seq<int>>,
    cid: Seq<int>,
    pos: Seq<int>,
    i: int,
    j: int,
    x: int,
)
    requires
        0 <= j < i,
        cycle_cover(p, cycles, cid, pos, (i + 1) as nat),
        0 <= x < p.len(),
    ensures
        ({
            let cycles2 = merged_cycles(cycles, i, j);
            let cid2 = merged_cid(cid, i, j);
            let pos2 = merged_pos(cid, pos, i, j, cycles[i].len() as int);
            &&& 0 <= cid2[x] < i
            &&& 0 <= pos2[x] < cycles2[cid2[x]].len()
            &&& cycles2[cid2[x]][pos2[x]] == x
        }),
{
    lemma_merge_ends(p, cycles, cid, pos, i, j);
    let a = cycles[i];
    let b = cycles[j];
    let la = a.len() as int;
    let c = merged_cycle(a, b, i, j);
    let cycles2 = merged_cycles(cycles, i, j);
    let r = cid[x];
    let t = pos[x];
    assert(0 <= r <= i && 0 <= t < cycles[r].len() && cycles[r][t] == x);
    assert(cycles2[j] == c);
    if r == i {
        if t == 0 {
            assert(x == i);
            assert(c[la] == i);
        } else {
            assert(c[t] == a[t]);
        }
    } else if r == j {
        if t != 0 {
            assert(c[la + t] == b[t]);
        }
    } else {
        assert(cycles2[r] == cycles[r]);
    }
}

/// Exchanging positions `i` and `j` (with `j < i`, `i` the last cycle's
/// start) merges the cycles that start at `i` and `j` into one, which
/// starts at `j`.
proof fn lemma_merge(
    p: Seq<u32>,
    cycles: Seq<Seq<int>>,
    cid: Seq<int>,
    pos: Seq<int>,
    i: int,
    j: int,
)
    requires
        0 <= j < i,
        cycle_cover(p, cycles, cid, pos, (i + 1) as nat),
    ensures
        cycle_cover(
            swap_at(p, i, j),
            merged_cycles(cycles, i, j),
            merged_cid(cid, i, j),
            merged_pos(cid, pos, i, j, cycles[i].len() as int),
            i as nat,
        ),
{
    lemma_merge_ends(p, cycles, cid, pos, i, j);
    let q = swap_at(p, i, j);
    let c = merged_cycle(cycles[i], cycles[j], i, j);
    let cycles2 = merged_cycles(cycles, i, j);
    let cid2 = merged_cid(cid, i, j);
    let pos2 = merged_pos(cid, pos, i, j, cycles[i].len() as int);
    assert forall|r: int| 0 <= r < i implies (#[trigger] cycles2[r]).len() > 0 && cycles2[r][0] == r by {
        if r != j {
            assert(cycles[r].len() > 0 && cycles[r][0] == r);
        }
    }
    assert forall|r: int, t: int| 0 <= r < i && 0 <= t < cycles2[r].len() implies {
        let x = #[trigger] cycles2[r][t];
        &&& 0 <= x < q.len()
        &&& cid2[x] == r
        &&& pos2[x] == t
        &&& q[x] == cycles2[r][succ_pos(t, cycles2[r].len() as int)]
    } by {
        if r == j {
            lemma_merge_entry(p, cycles, cid, pos, i, j, t);
        } else {
            lemma_merge_other_entry(p, cycles, cid, pos, i, j, r, t);
        }
    }
    assert forall|x: int| 0 <= x < q.len() implies {
        &&& 0 <= #[trigger] cid2[x] < i
        &&& 0 <= pos2[x] < cycles2[cid2[x]].len()
        &&& cycles2[cid2[x]][pos2[x]] == x
    } by {
        lemma_merge_index(p, cycles, cid, pos, i, j, x);
    }
}

/// One more step around a cycle of length `m` moves from place `k % m` to
/// the next place.
proof fn lemma_mod_step(k: int, m: int)
    requires
        k >= 0,
        m > 0,
    ensures
        (k + 1) % m == succ_pos(k % m, m),
        0 <= k % m < m,
{
    lemma_add_mod_noop(k, 1, m);
    if m == 1 {
        lemma_mod_self_0(1);
        assert((k + 1) % 1 == 0);
    } else {
        lemma_small_mod(1, m as nat);
        if k % m + 1 < m {
            lemma_small_mod((k % m + 1) as nat, m as nat);
        } else {
            lemma_mod_self_0(m);
        }
    }
}

/// Following the links from index 0 walks along the single cycle `c`.
proof fn lemma_follow_single(p: Seq<u32>, c: Seq<int>, k: nat)
    requires
        c.len() > 0,
        c[0] == 0,
        forall|t: int|
            0 <= t < c.len() ==> 0 <= #[trigger] c[t] < p.len() && p[c[t]] == c[succ_pos(
                t,
                c.len() as int,
            )],
    ensures
        follow(p, 0, k) == c[(k % c.len()) as int],
    decreases k,
{
    if k == 0 {
        lemma_small_mod(0, c.len());
    } else {
        lemma_follow_single(p, c, (k - 1) as nat);
        lemma_mod_step(k - 1, c.len() as int);
        let t = ((k - 1) as int) % (c.len() as int);
        assert(follow(p, 0, k) == p[follow(p, 0, (k - 1) as nat)] as int);
        assert(p[c[t]] == c[succ_pos(t, c.len() as int)]);
    }
}

/// When the cover has one cycle, `p` is a single cycle through all indices.
proof fn lemma_cover_single(p: Seq<u32>, cycles: Seq<Seq<int>>, cid: Seq<int>, pos: Seq<int>)
    requires
        p.len() > 0,
        cycle_cover(p, cycles, cid, pos, 1),
    ensures
        is_single_cycle(p),
{
    let n = p.len() as int;
    let c = cycles[0];
    assert(c.len() > 0 && c[0] == 0);
    assert forall|t: int| 0 <= t < c.len() implies 0 <= #[trigger] c[t] < p.len() && p[c[t]]
        == c[succ_pos(t, c.len() as int)] by {
        assert(c[t] == cycles[0][t]);
    }
    // `c` holds each index of `p` exactly once, so its length is `p.len()`.
    assert(c.no_duplicates()) by {
        assert forall|t1: int, t2: int| 0 <= t1 < c.len() && 0 <= t2 < c.len() && t1 != t2 implies c[t1]
            != c[t2] by {
            assert(pos[c[t1]] == t1);
            assert(pos[c[t2]] == t2);
        }
    }
    c.unique_seq_to_set();
    assert(c.to_set() =~= set_int_range(0, n)) by {
        assert forall|x: int| #[trigger] c.to_set().contains(x) implies 0 <= x < n by {
            let t = choose|t: int| 0 <= t < c.len() && c[t] == x;
        }
        assert forall|x: int| 0 <= x < n implies #[trigger] c.to_set().contains(x) by {
            assert(cid[x] == 0);
            assert(c[pos[x]] == x);
        }
    }
    lemma_int_range(0, n);
    assert(c.len() == n);
    assert forall|x: int| 0 <= x < p.len() implies #[trigger] p[x] < p.len() by {
        assert(cid[x] == 0);
        let t = pos[x];
        assert(c[t] == x);
        assert(0 <= c[succ_pos(t, n)] < n);
    }
    lemma_follow_single(p, c, n as nat);
    assert((n as nat % c.len()) == 0) by (nonlinear_arith)
        requires
            c.len() == n,
            n > 0,
    ;
    assert forall|k1: nat, k2: nat| k1 < k2 < p.len() implies #[trigger] follow(p, 0, k1) != #[trigger] follow(
        p,
        0,
        k2,
    ) by {
        lemma_follow_single(p, c, k1);
        lemma_follow_single(p, c, k2);
        assert(k1 % c.len() == k1) by (nonlinear_arith)
            requires
                k1 < c.len(),
        ;
        assert(k2 % c.len() == k2) by (nonlinear_arith)
            requires
                k2 < c.len(),
        ;
    }
    assert forall|y: int| 0 <= y < p.len() implies #[trigger] visited_within(p, y, p.len()) by {
        let k = pos[y] as nat;
        assert(cid[y] == 0);
        lemma_follow_single(p, c, k);
        assert(k % c.len() == k) by (nonlinear_arith)
            requires
                k < c.len(),
        ;
        assert(follow(p, 0, k) == y);
    }
}

/// Builds Sattolo's random cyclic arrangement of `0..n`, drawing from the
/// generator `state`: following the links visits every index once before
/// coming back to 0.
pub fn sattolo_cycle(n: usize, state: &mut u64) -> (p: Vec<u32>)
    requires
        n <= u32::MAX,
    ensures
        p@ == sattolo_perm(n as nat, *old(state)),
        n >= 1 ==> p@ == sattolo_prefix(n as nat, *old(state), (n - 1) as nat),
        *final(state) == xorshift_iter(*old(state), sattolo_draws(n as nat)),
        is_single_cycle(p@),
{
    let mut p: Vec<u32> = Vec::new();
    let mut k: usize = 0;
    while k < n
        invariant
            k <= n <= u32::MAX,
            p@ == identity_perm(k as nat),
        decreases n - k,
    {
        p.push(k as u32);
        k += 1;
        assert(p@ =~= identity_perm(k as nat));
    }
    if n == 0 {
        assert(p@ =~= Seq::<u32>::empty());
        return p;
    }
    let ghost s0 = *state;
    let ghost mut cycles: Seq<Seq<int>> = Seq::new(n as nat, |r: int| seq![r]);
    let ghost mut cid: Seq<int> = Seq::new(n as nat, |x: int| x);
    let ghost mut pos: Seq<int> = Seq::new(n as nat, |x: int| 0int);
    proof {
        lemma_identity_cover(n as nat);
    }
    let mut i: usize = n - 1;
    while i >= 1
        invariant
            i < n,
            p@.len() == n,
            sattolo_steps(p@, i as nat, *state) == sattolo_perm(n as nat, s0),
            *state == xorshift_iter(s0, (n - 1 - i) as nat),
            cycle_cover(p@, cycles, cid, pos, (i + 1) as nat),
        decreases i,
    {
        let ghost before = p@;
        let ghost s_before = *state;
        let r = xorshift(state);
        let j = (r % (i as u64)) as usize;
        let t = p[i];
        let u = p[j];
        p[i] = u;
        p[j] = t;
        proof {
            assert(p@ =~= swap_at(before, i as int, j as int));
            lemma_merge(before, cycles, cid, pos, i as int, j as int);
            let la = cycles[i as int].len() as int;
            cycles = merged_cycles(cycles, i as int, j as int);
            pos = merged_pos(cid, pos, i as int, j as int, la);
            cid = merged_cid(cid, i as int, j as int);
            assert(xorshift_iter(s0, (n - 1 - (i - 1)) as nat) == xorshift_next(
                xorshift_iter(s0, (n - 1 - i) as nat),
            ));
        }
        i -= 1;
    }
    proof {
        lemma_cover_single(p@, cycles, cid, pos);
        lemma_sattolo_draws(n as nat, s0);
    }
    p
}

/// The sequential ring on `0..n`: the link of `i` is `(i + 1) % n`.
pub open spec fn successor_links(n: nat) -> Seq<u32> {
    Seq::new(n, |i: int| ((i + 1) % (n as int)) as u32)
}

/// Builds the sequential ring on `0..n`, in which index `i` links to `(i + 1) % n`.
pub fn successor_cycle(n: usize) -> (p: Vec<u32>)
    requires
        n <= u32::MAX,
    ensures
        p@ == successor_links(n as nat),
        is_single_cycle(p@),
{
    let mut p: Vec<u32> = Vec::new();
    let n32 = n as u32;
    let mut i: u32 = 0;
    while i < n32
        invariant
            n32 == n,
            i <= n32,
            p@ == successor_links(n as nat).take(i as int),
        decreases n32 - i,
    {
        p.push((i + 1) % n32);
        i += 1;
        assert(p@ =~= successor_links(n as nat).take(i as int));
    }
    assert(p@ =~= successor_links(n as nat));
    proof {
        lemma_successor_single(n as nat);
    }
    p
}

/// The sequential ring is a single cycle.
proof fn lemma_successor_single(n: nat)
    requires
        n <= u32::MAX,
    ensures
        is_single_cycle(successor_links(n)),
{
    let p = successor_links(n);
    if n > 0 {
        let c = Seq::new(n, |t: int| t);
        assert forall|t: int| 0 <= t < c.len() implies 0 <= #[trigger] c[t] < p.len() && p[c[t]]
            == c[succ_pos(t, c.len() as int)] by {
            if t + 1 < n {
                assert((t + 1) % (n as int) == t + 1) by (nonlinear_arith)
                    requires
                        0 <= t + 1 < n,
                ;
            } else {
                lemma_mod_self_0(n as int);
            }
        }
        assert forall|x: int| 0 <= x < p.len() implies #[trigger] p[x] < p.len() by {
            assert(0 <= (x + 1) % (n as int) < n) by (nonlinear_arith)
                requires
                    n > 0,
            ;
        }
        lemma_follow_single(p, c, n);
        assert(n % c.len() == 0) by (nonlinear_arith)
            requires
                c.len() == n,
                n > 0,
        ;
        assert forall|k1: nat, k2: nat| k1 < k2 < p.len() implies #[trigger] follow(p, 0, k1)
            != #[trigger] follow(p, 0, k2) by {
            lemma_follow_single(p, c, k1);
            lemma_follow_single(p, c, k2);
            assert(k1 % c.len() == k1) by (nonlinear_arith)
                requires
                    k1 < c.len(),
            ;
            assert(k2 % c.len() == k2) by (nonlinear_arith)
                requires
                    k2 < c.len(),
            ;
        }
        assert forall|y: int| 0 <= y < p.len() implies #[trigger] visited_within(p, y, p.len()) by {
            let k = y as nat;
            lemma_follow_single(p, c, k);
            assert(k % c.len() == k) by (nonlinear_arith)
                requires
                    k < c.len(),
            ;
        }
    }
}

/// Follows `steps` links of `next`, starting at index 0, and returns the
/// index reached.
pub fn chase(next: &[u32], steps: usize) -> (r: u32)
    requires
        next@.len() > 0,
        forall|x: int| 0 <= x < next@.len() ==> #[trigger] next@[x] < next@.len(),
    ensures
        r as int == follow(next@, 0, steps as nat),
{
    let mut pos: u32 = 0;
    let mut k: usize = 0;
    while k < steps
        invariant
            k <= steps,
            next@.len() > 0,
            forall|x: int| 0 <= x < next@.len() ==> #[trigger] next@[x] < next@.len(),
            pos < next@.len(),
            pos as int == follow(next@, 0, k as nat),
        decreases steps - k,
    {
        pos = next[pos as usize];
        k += 1;
    }
    pos
}

} // verus!
