//! Reading 64-bit words at a fixed stride from a byte buffer, over and
//! over: with a stride that is a large power of two every read falls into
//! the same cache set.

use vstd::prelude::*;
use crate::sums::{wrap64, sum_u64, lemma_wrapping_add};

verus! {

/// The 8 bytes at `p` read as a little-endian `u64`.
pub open spec fn le_word(s: Seq<u8>, p: int) -> int {
    s[p] + 0x100 * s[p + 1] + 0x1_0000 * s[p + 2] + 0x100_0000 * s[p + 3] + 0x1_0000_0000 * s[p
        + 4] + 0x100_0000_0000 * s[p + 5] + 0x1_0000_0000_0000 * s[p + 6] + 0x100_0000_0000_0000
        * s[p + 7]
}

/// The 8 bytes at `p` read as a big-endian `u64`.
pub open spec fn be_word(s: Seq<u8>, p: int) -> int {
    s[p + 7] + 0x100 * s[p + 6] + 0x1_0000 * s[p + 5] + 0x100_0000 * s[p + 4] + 0x1_0000_0000 * s[p
        + 3] + 0x100_0000_0000 * s[p + 2] + 0x1_0000_0000_0000 * s[p + 1] + 0x100_0000_0000_0000
        * s[p]
}

/// `u64::from_ne_bytes` reads the 8 bytes in the machine's own byte order,
/// which is little-endian or big-endian; which one is not stated.
#[verifier::external_body]
fn read_ne_word(buf: &[u8], p: usize) -> (r: u64)
    requires
        p + 8 <= buf@.len(),
    ensures
        r == le_word(buf@, p as int) || r == be_word(buf@, p as int),
{
    u64::from_ne_bytes(buf[p..p + 8].try_into().unwrap())
}

/// Every byte of `s` is `b`.
pub open spec fn uniform(s: Seq<u8>, b: u8) -> bool {
    forall|i: int| 0 <= i < s.len() ==> #[trigger] s[i] == b
}

/// The word that 8 copies of the byte `b` make, in either byte order.
pub open spec fn repeated_byte_word(b: u8) -> int {
    b * 0x0101_0101_0101_0101
}

/// `w` is what the 8 bytes of slot `i` read as, in one byte order or the other.
pub open spec fn readable_at(buf: Seq<u8>, stride: nat, i: int, w: u64) -> bool {
    w == le_word(buf, i * stride) || w == be_word(buf, i * stride)
}

/// `reads` holds, round after round, one word for each of the `slots`
/// slots, each a reading of that slot's bytes in one byte order or the other.
pub open spec fn valid_reads(buf: Seq<u8>, slots: nat, stride: nat, reads: Seq<Seq<u64>>) -> bool {
    forall|r: int|
        0 <= r < reads.len() ==> (#[trigger] reads[r]).len() == slots && forall|i: int|
            0 <= i < slots ==> readable_at(buf, stride, i, #[trigger] reads[r][i])
}

/// The exact sum of all the words read, over all rounds.
pub open spec fn total_reads(reads: Seq<Seq<u64>>) -> int
    decreases reads.len(),
{
    if reads.len() == 0 {
        0
    } else {
        total_reads(reads.drop_last()) + sum_u64(reads.last())
    }
}

/// The sum of the little-endian words of the first `k` slots.
pub open spec fn le_slot_sum(buf: Seq<u8>, stride: nat, k: nat) -> int
    decreases k,
{
    if k == 0 {
        0
    } else {
        le_slot_sum(buf, stride, (k - 1) as nat) + le_word(buf, (k - 1) * stride)
    }
}

/// Each of the first `slots` slots reads the same in both byte orders.
pub open spec fn byte_order_free(buf: Seq<u8>, slots: nat, stride: nat) -> bool {
    forall|i: int| 0 <= i < slots ==> #[trigger] le_word(buf, i * stride) == be_word(buf, i * stride)
}

/// On a buffer of equal bytes, every slot reads the same word, in either order.
proof fn lemma_uniform_slots(buf: Seq<u8>, b: u8, slots: nat, stride: nat, k: nat)
    requires
        uniform(buf, b),
        slots * stride + 8 <= buf.len(),
        k <= slots,
    ensures
        byte_order_free(buf, slots, stride),
        le_slot_sum(buf, stride, k) == k * repeated_byte_word(b),
    decreases k,
{
    assert forall|i: int| 0 <= i < slots implies #[trigger] le_word(buf, i * stride) == be_word(
        buf,
        i * stride,
    ) && le_word(buf, i * stride) == repeated_byte_word(b) by {
        let p = i * stride;
        assert(0 <= p && p + 8 <= buf.len()) by (nonlinear_arith)
            requires
                p == i * stride,
                0 <= i < slots,
                stride >= 0,
                slots * stride + 8 <= buf.len(),
        ;
        assert(buf[p] == b && buf[p + 1] == b && buf[p + 2] == b && buf[p + 3] == b);
        assert(buf[p + 4] == b && buf[p + 5] == b && buf[p + 6] == b && buf[p + 7] == b);
    }
    if k > 0 {
        lemma_uniform_slots(buf, b, slots, stride, (k - 1) as nat);
        assert(le_word(buf, (k - 1) * stride) == repeated_byte_word(b));
        assert((k - 1) * repeated_byte_word(b) + repeated_byte_word(b) == k * repeated_byte_word(b))
            by (nonlinear_arith);
    }
}

/// The 8 bytes at `p` read in one byte order: little-endian when `little`,
/// else big-endian.
pub open spec fn word_in(s: Seq<u8>, p: int, little: bool) -> int {
    if little {
        le_word(s, p)
    } else {
        be_word(s, p)
    }
}

/// The sum of the words of the first `k` slots, all read in one byte order.
pub open spec fn slot_sum(buf: Seq<u8>, stride: nat, k: nat, little: bool) -> int
    decreases k,
{
    if k == 0 {
        0
    } else {
        slot_sum(buf, stride, (k - 1) as nat, little) + word_in(buf, (k - 1) * stride, little)
    }
}

/// Where every slot reads the same in both orders, the slots' sum in either
/// order is their little-endian sum.
proof fn lemma_slot_sum_order_free(buf: Seq<u8>, slots: nat, stride: nat, k: nat, little: bool)
    requires
        byte_order_free(buf, slots, stride),
        k <= slots,
    ensures
        slot_sum(buf, stride, k, little) == le_slot_sum(buf, stride, k),
    decreases k,
{
    if k > 0 {
        lemma_slot_sum_order_free(buf, slots, stride, (k - 1) as nat, little);
        let i = k - 1;
        assert(le_word(buf, i * stride) == be_word(buf, i * stride));
    }
}

/// Reads the 8 bytes at `p` as a word in the byte order `little` selects.
fn word_at(buf: &[u8], p: usize, little: bool) -> (w: u64)
    requires
        p + 8 <= buf@.len(),
    ensures
        w == word_in(buf@, p as int, little),
{
    let b0 = buf[p] as u64;
    let b1 = buf[p + 1] as u64;
    let b2 = buf[p + 2] as u64;
    let b3 = buf[p + 3] as u64;
    let b4 = buf[p + 4] as u64;
    let b5 = buf[p + 5] as u64;
    let b6 = buf[p + 6] as u64;
    let b7 = buf[p + 7] as u64;
    if little {
        b0 + 0x100 * b1 + 0x1_0000 * b2 + 0x100_0000 * b3 + 0x1_0000_0000 * b4 + 0x100_0000_0000
            * b5 + 0x1_0000_0000_0000 * b6 + 0x100_0000_0000_0000 * b7
    } else {
        b7 + 0x100 * b6 + 0x1_0000 * b5 + 0x100_0000 * b4 + 0x1_0000_0000 * b3 + 0x100_0000_0000
            * b2 + 0x1_0000_0000_0000 * b1 + 0x100_0000_0000_0000 * b0
    }
}

/// Reads the words at `0, stride, 2 * stride, ...` (`slots` of them),
/// `rounds` times over, and sums them wrapping around at 2^64. Every word
/// is read in the machine's byte order, one and the same for all of them:
/// the order is found once with `u64::from_ne_bytes`, and the sum is
/// `rounds` times the slots' sum in that order.
pub fn strided_word_sum(buf: &[u8], slots: usize, stride: usize, rounds: u64) -> (sum: u64)
    requires
        slots * stride + 8 <= buf@.len(),
    ensures
        exists|little: bool|
            sum == wrap64(rounds * #[trigger] slot_sum(buf@, stride as nat, slots as nat, little)),
        exists|reads: Seq<Seq<u64>>|
            {
                &&& reads.len() == rounds
                &&& valid_reads(buf@, slots as nat, stride as nat, reads)
                &&& sum == wrap64(#[trigger] total_reads(reads))
            },
        byte_order_free(buf@, slots as nat, stride as nat) ==> sum == wrap64(
            rounds * le_slot_sum(buf@, stride as nat, slots as nat),
        ),
        forall|b: u8|
            uniform(buf@, b) ==> sum == wrap64(rounds * slots * #[trigger] repeated_byte_word(b)),
{
    let probe: [u8; 8] = [1, 0, 0, 0, 0, 0, 0, 0];
    assert(probe@.len() == 8);
    let one = read_ne_word(&probe, 0);
    let little = one == 1;
    proof {
        assert(le_word(probe@, 0) == 1);
        assert(be_word(probe@, 0) == 0x100_0000_0000_0000);
    }
    let len = buf.len();
    let mut sum: u64 = 0;
    let mut r: u64 = 0;
    let ghost st = stride as nat;
    let ghost sl = slots as nat;
    let ghost tot = slot_sum(buf@, st, sl, little);
    let ghost mut done: Seq<Seq<u64>> = Seq::empty();
    assert(wrap64(0) == 0);
    while r < rounds
        invariant
            r <= rounds,
            slots * stride + 8 <= buf@.len(),
            len == buf@.len(),
            st == stride,
            sl == slots,
            tot == slot_sum(buf@, st, sl, little),
            done.len() == r,
            valid_reads(buf@, sl, st, done),
            sum == wrap64(total_reads(done)),
            total_reads(done) == r * tot,
        decreases rounds - r,
    {
        let mut i: usize = 0;
        let ghost mut cur: Seq<u64> = Seq::empty();
        proof {
            assert(sum_u64(cur) == 0);
        }
        while i < slots
            invariant
                r < rounds,
                i <= slots,
                slots * stride + 8 <= buf@.len(),
                len == buf@.len(),
                st == stride,
                sl == slots,
                cur.len() == i,
                forall|j: int| 0 <= j < i ==> readable_at(buf@, st, j, #[trigger] cur[j]),
                sum == wrap64(total_reads(done) + sum_u64(cur)),
                sum_u64(cur) == slot_sum(buf@, st, i as nat, little),
            decreases slots - i,
        {
            proof {
                assert(i * stride + 8 <= slots * stride + 8) by (nonlinear_arith)
                    requires
                        i < slots,
                ;
                assert(i * stride <= len);
            }
            let p = i * stride;
            let v = word_at(buf, p, little);
            proof {
                lemma_wrapping_add(sum, v, total_reads(done) + sum_u64(cur));
                let next = cur.push(v);
                assert(next.drop_last() =~= cur);
                assert forall|j: int| 0 <= j < i + 1 implies readable_at(buf@, st, j, #[trigger] next[j]) by {
                    if j < i {
                        assert(next[j] == cur[j]);
                    }
                }
                cur = next;
            }
            sum = sum.wrapping_add(v);
            i += 1;
        }
        proof {
            let next = done.push(cur);
            assert(next.drop_last() =~= done);
            assert forall|q: int| 0 <= q < next.len() implies (#[trigger] next[q]).len() == sl && forall|j: int|
                0 <= j < sl ==> readable_at(buf@, st, j, #[trigger] next[q][j]) by {
                if q < r {
                    assert(next[q] == done[q]);
                }
            }
            assert(r * tot + tot == (r + 1) * tot) by (nonlinear_arith);
            done = next;
        }
        r += 1;
    }
    proof {
        assert(valid_reads(buf@, sl, st, done) && sum == wrap64(total_reads(done)));
        if byte_order_free(buf@, sl, st) {
            lemma_slot_sum_order_free(buf@, sl, st, sl, little);
        }
        assert forall|c: u8| uniform(buf@, c) implies sum == wrap64(
            rounds * slots * #[trigger] repeated_byte_word(c),
        ) by {
            lemma_uniform_slots(buf@, c, sl, st, sl);
            lemma_slot_sum_order_free(buf@, sl, st, sl, little);
            assert(rounds * (slots * repeated_byte_word(c)) == rounds * slots * repeated_byte_word(c))
                by (nonlinear_arith);
        }
    }
    sum
}

} // verus!
