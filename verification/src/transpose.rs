//! Transposing an `n x n` row-major matrix, straight and in square blocks.

use vstd::prelude::*;
use vstd::arithmetic::div_mod::{lemma_fundamental_div_mod, lemma_mod_bound};

verus! {

/// The row-major position of `(row, col)` in an `n x n` matrix.
pub open spec fn at(n: nat, row: int, col: int) -> int {
    row * n + col
}

/// `dst` is the transpose of the `n x n` row-major matrix `src`.
pub open spec fn is_transpose<T>(src: Seq<T>, dst: Seq<T>, n: nat) -> bool {
    &&& src.len() == n * n
    &&& dst.len() == n * n
    &&& forall|r: int, c: int|
        0 <= r < n && 0 <= c < n ==> #[trigger] dst[at(n, c, r)] == src[at(n, r, c)]
}

/// A cell of the matrix has a position inside it.
proof fn lemma_at_bounds(n: nat, r: int, c: int)
    requires
        0 <= r < n,
        0 <= c < n,
    ensures
        0 <= at(n, r, c) < n * n,
{
    assert(0 <= r * n + c < n * n) by (nonlinear_arith)
        requires
            0 <= r < n,
            0 <= c < n,
    ;
}

/// Distinct cells have distinct positions.
proof fn lemma_at_injective(n: nat, r1: int, c1: int, r2: int, c2: int)
    requires
        0 <= r1 < n,
        0 <= c1 < n,
        0 <= r2 < n,
        0 <= c2 < n,
        at(n, r1, c1) == at(n, r2, c2),
    ensures
        r1 == r2,
        c1 == c2,
{
    assert(r1 == r2) by (nonlinear_arith)
        requires
            0 <= c1 < n,
            0 <= c2 < n,
            r1 * n + c1 == r2 * n + c2,
    ;
}

/// Every position of the matrix belongs to a cell.
proof fn lemma_at_onto(n: nat, k: int)
    requires
        0 <= k < n * n,
    ensures
        0 <= k / (n as int) < n,
        0 <= k % (n as int) < n,
        at(n, k / (n as int), k % (n as int)) == k,
{
    assert(n > 0) by (nonlinear_arith)
        requires
            0 <= k < n * n,
    ;
    lemma_fundamental_div_mod(k, n as int);
    lemma_mod_bound(k, n as int);
    let q = k / (n as int);
    assert(0 <= q < n) by (nonlinear_arith)
        requires
            k == n * q + k % (n as int),
            0 <= k % (n as int) < n,
            0 <= k < n * n,
    ;
    assert(q * n == n * q) by (nonlinear_arith);
}

/// A matrix has exactly one transpose: any two results of transposing the
/// same matrix are equal.
pub proof fn lemma_transpose_unique<T>(src: Seq<T>, d1: Seq<T>, d2: Seq<T>, n: nat)
    requires
        is_transpose(src, d1, n),
        is_transpose(src, d2, n),
    ensures
        d1 == d2,
{
    assert forall|k: int| 0 <= k < d1.len() implies d1[k] == d2[k] by {
        lemma_at_onto(n, k);
        let c = k / (n as int);
        let r = k % (n as int);
        assert(d1[at(n, c, r)] == src[at(n, r, c)]);
        assert(d2[at(n, c, r)] == src[at(n, r, c)]);
    }
    assert(d1 =~= d2);
}

/// Writes the transpose of the `n x n` matrix `src` into `dst`, row by row
/// of `src`.
pub fn transpose_naive<T: Copy>(src: &[T], dst: &mut Vec<T>, n: usize)
    requires
        n * n <= usize::MAX,
        src@.len() == n * n,
        old(dst)@.len() == n * n,
    ensures
        is_transpose(src@, final(dst)@, n as nat),
{
    let ghost nn = n as nat;
    let mut i: usize = 0;
    while i < n
        invariant
            nn == n,
            n * n <= usize::MAX,
            src@.len() == n * n,
            dst@.len() == n * n,
            i <= n,
            forall|r: int, c: int|
                0 <= r < i && 0 <= c < n ==> #[trigger] dst@[at(nn, c, r)] == src@[at(nn, r, c)],
        decreases n - i,
    {
        let mut j: usize = 0;
        while j < n
            invariant
                nn == n,
            n * n <= usize::MAX,
                src@.len() == n * n,
                dst@.len() == n * n,
                i < n,
                j <= n,
                forall|r: int, c: int|
                    (0 <= r < i && 0 <= c < n) || (r == i && 0 <= c < j) ==> #[trigger] dst@[at(
                        nn,
                        c,
                        r,
                    )] == src@[at(nn, r, c)],
            decreases n - j,
        {
            proof {
                lemma_at_bounds(nn, i as int, j as int);
                lemma_at_bounds(nn, j as int, i as int);
            }
            let ghost before = dst@;
            dst[j * n + i] = src[i * n + j];
            proof {
                assert forall|r: int, c: int|
                    (0 <= r < i && 0 <= c < n) || (r == i && 0 <= c < j + 1) implies #[trigger] dst@[at(
                    nn,
                    c,
                    r,
                )] == src@[at(nn, r, c)] by {
                    lemma_at_bounds(nn, c, r);
                            lemma_at_bounds(nn, c, r);
                    if r != i || c != j {
                        if at(nn, c, r) == at(nn, j as int, i as int) {
                            lemma_at_injective(nn, c, r, j as int, i as int);
                        }
                        assert(dst@[at(nn, c, r)] == before[at(nn, c, r)]);
                    }
                }
            }
            j += 1;
        }
        i += 1;
    }
}

/// Cell `(r, c)` of the source lies in a row band above `bi`, or in the band
/// `bi .. bi + b` left of column `bj`: the blocked transpose has copied it.
pub open spec fn band_done(bi: int, bj: int, b: int, r: int, c: int) -> bool {
    r < bi || (r < bi + b && c < bj)
}

/// Multiples of the block size below `n` leave room for a whole block.
proof fn lemma_block_fits(x: int, b: int, n: int)
    requires
        b > 0,
        0 <= x < n,
        x % b == 0,
        n % b == 0,
    ensures
        x + b <= n,
{
    lemma_fundamental_div_mod(x, b);
    lemma_fundamental_div_mod(n, b);
    let qx = x / b;
    let qn = n / b;
    assert(qx < qn) by (nonlinear_arith)
        requires
            x == b * qx,
            n == b * qn,
            x < n,
            b > 0,
    ;
    assert(x + b <= n) by (nonlinear_arith)
        requires
            x == b * qx,
            n == b * qn,
            qx + 1 <= qn,
            b > 0,
    ;
}

/// Writes the transpose of the `n x n` matrix `src` into `dst`, one `b x b`
/// block at a time, so that reads and writes stay within a few cache lines.
pub fn transpose_blocked<T: Copy>(src: &[T], dst: &mut Vec<T>, n: usize, b: usize)
    requires
        n * n <= usize::MAX,
        b > 0,
        n % b == 0,
        src@.len() == n * n,
        old(dst)@.len() == n * n,
    ensures
        is_transpose(src@, final(dst)@, n as nat),
{
    let ghost nn = n as nat;
    let mut bi: usize = 0;
    while bi < n
        invariant
            nn == n,
            n * n <= usize::MAX,
            b > 0,
            n % b == 0,
            src@.len() == n * n,
            dst@.len() == n * n,
            bi <= n,
            bi % b == 0,
            forall|r: int, c: int|
                0 <= r < n && 0 <= c < n && r < bi ==> #[trigger] dst@[at(nn, c, r)] == src@[at(
                    nn,
                    r,
                    c,
                )],
        decreases n - bi,
    {
        proof {
            lemma_block_fits(bi as int, b as int, n as int);
        }
        let mut bj: usize = 0;
        while bj < n
            invariant
                nn == n,
            n * n <= usize::MAX,
                b > 0,
                n % b == 0,
                src@.len() == n * n,
                dst@.len() == n * n,
                bi + b <= n,
                bi % b == 0,
                bj <= n,
                bj % b == 0,
                forall|r: int, c: int|
                    0 <= r < n && 0 <= c < n && band_done(bi as int, bj as int, b as int, r, c)
                        ==> #[trigger] dst@[at(nn, c, r)] == src@[at(nn, r, c)],
            decreases n - bj,
        {
            proof {
                lemma_block_fits(bj as int, b as int, n as int);
            }
            let mut i: usize = bi;
            while i < bi + b
                invariant
                    nn == n,
            n * n <= usize::MAX,
                    src@.len() == n * n,
                    dst@.len() == n * n,
                    bi + b <= n,
                    bj + b <= n,
                    bi <= i <= bi + b,
                    forall|r: int, c: int|
                        0 <= r < n && 0 <= c < n && (band_done(bi as int, bj as int, b as int, r, c)
                            || (bi <= r < i && bj <= c < bj + b)) ==> #[trigger] dst@[at(nn, c, r)]
                            == src@[at(nn, r, c)],
                decreases bi + b - i,
            {
                let mut j: usize = bj;
                while j < bj + b
                    invariant
                        nn == n,
            n * n <= usize::MAX,
                        src@.len() == n * n,
                        dst@.len() == n * n,
                        bi + b <= n,
                        bj + b <= n,
                        bi <= i < bi + b,
                        bj <= j <= bj + b,
                        forall|r: int, c: int|
                            0 <= r < n && 0 <= c < n && (band_done(
                                bi as int,
                                bj as int,
                                b as int,
                                r,
                                c,
                            ) || (bi <= r < i && bj <= c < bj + b) || (r == i && bj <= c < j))
                                ==> #[trigger] dst@[at(nn, c, r)] == src@[at(nn, r, c)],
                    decreases bj + b - j,
                {
                    proof {
                        lemma_at_bounds(nn, i as int, j as int);
                        lemma_at_bounds(nn, j as int, i as int);
                    }
                    let ghost before = dst@;
                    dst[j * n + i] = src[i * n + j];
                    proof {
                        assert forall|r: int, c: int|
                            0 <= r < n && 0 <= c < n && (band_done(
                                bi as int,
                                bj as int,
                                b as int,
                                r,
                                c,
                            ) || (bi <= r < i && bj <= c < bj + b) || (r == i && bj <= c < j + 1))
                            implies #[trigger] dst@[at(nn, c, r)] == src@[at(nn, r, c)] by {
                            lemma_at_bounds(nn, c, r);
                            if r != i || c != j {
                                if at(nn, c, r) == at(nn, j as int, i as int) {
                                    lemma_at_injective(nn, c, r, j as int, i as int);
                                }
                                assert(dst@[at(nn, c, r)] == before[at(nn, c, r)]);
                            }
                        }
                    }
                    j += 1;
                }
                i += 1;
            }
            bj += b;
            proof {
                assert((bj as int) % (b as int) == 0) by {
                    vstd::arithmetic::div_mod::lemma_mod_add_multiples_vanish(
                        (bj - b) as int,
                        b as int,
                    );
                }
            }
        }
        bi += b;
        proof {
            assert((bi as int) % (b as int) == 0) by {
                vstd::arithmetic::div_mod::lemma_mod_add_multiples_vanish(
                    (bi - b) as int,
                    b as int,
                );
            }
        }
    }
}

} // verus!
