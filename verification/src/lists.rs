//! Linked lists of `u64` values: one whose nodes each sit in their own heap
//! box, and one whose nodes sit side by side in a single arena vector and
//! link to each other by index.

use vstd::prelude::*;
use crate::sums::{sum_u64, wrap64, triangle, lemma_wrapping_add};

verus! {

/// A node of a list whose nodes are boxed one by one.
pub struct BoxNode {
    pub value: u64,
    pub next: Option<Box<BoxNode>>,
}

/// The values of a boxed list, from its head on.
pub open spec fn box_values(list: Option<Box<BoxNode>>) -> Seq<u64>
    decreases list,
{
    match list {
        None => Seq::empty(),
        Some(node) => seq![node.value] + box_values(node.next),
    }
}

/// The values `n - 1, n - 2, ..., 0`.
pub open spec fn descending(n: nat) -> Seq<u64> {
    Seq::new(n, |k: int| (n - 1 - k) as u64)
}

/// Builds a boxed list by pushing `0, 1, ..., n - 1` in turn at its head,
/// so that the list holds `n - 1, ..., 1, 0`.
pub fn build_box_list(n: u32) -> (head: Option<Box<BoxNode>>)
    ensures
        box_values(head) == descending(n as nat),
{
    let mut head: Option<Box<BoxNode>> = None;
    let mut i: u32 = 0;
    assert(box_values(head) =~= descending(0));
    while i < n
        invariant
            i <= n,
            box_values(head) == descending(i as nat),
        decreases n - i,
    {
        let rest = head.take();
        head = Some(Box::new(BoxNode { value: i as u64, next: rest }));
        i += 1;
        assert(box_values(head) =~= descending(i as nat));
    }
    head
}

/// Sums the values of a boxed list from its head on, wrapping around at 2^64.
pub fn box_list_sum(head: &Option<Box<BoxNode>>) -> (sum: u64)
    ensures
        sum == wrap64(sum_u64(box_values(*head))),
{
    let mut sum: u64 = 0;
    let mut cur: &Option<Box<BoxNode>> = head;
    let ghost mut seen: Seq<u64> = Seq::empty();
    proof {
        vstd::arithmetic::div_mod::lemma_small_mod(0, crate::sums::modulus64() as nat);
        assert(seen + box_values(*cur) =~= box_values(*head));
    }
    loop
        invariant
            seen + box_values(*cur) == box_values(*head),
            sum == wrap64(sum_u64(seen)),
        ensures
            sum == wrap64(sum_u64(box_values(*head))),
        decreases box_values(*cur).len(),
    {
        match cur {
            Some(node) => {
                proof {
                    lemma_wrapping_add(sum, node.value, sum_u64(seen));
                    assert(seen.push(node.value).drop_last() =~= seen);
                    assert(seen.push(node.value) + box_values(node.next) =~= seen + box_values(
                        *cur,
                    ));
                    seen = seen.push(node.value);
                }
                sum = sum.wrapping_add(node.value);
                cur = &node.next;
            },
            None => {
                assert(seen =~= box_values(*head));
                break ;
            },
        }
    }
    sum
}

/// The link that marks the end of an arena list.
pub const END: u32 = 0xFFFF_FFFF;

/// A node of a list kept in an arena vector; `next` is the index of the
/// following node, or `END`.
#[derive(Clone, Copy)]
pub struct ArenaNode {
    pub value: u64,
    pub next: u32,
}

/// The arena index reached from `head` after `k` links.
pub open spec fn arena_walk(arena: Seq<ArenaNode>, head: u32, k: nat) -> u32
    decreases k,
{
    if k == 0 {
        head
    } else {
        arena[arena_walk(arena, head, (k - 1) as nat) as int].next
    }
}

/// The list from `head` has `k` nodes, all inside the arena, and then ends.
pub open spec fn arena_list_len(arena: Seq<ArenaNode>, head: u32, k: nat) -> bool {
    &&& arena_walk(arena, head, k) == END
    &&& forall|j: nat|
        j < k ==> #[trigger] arena_walk(arena, head, j) != END && arena_walk(arena, head, j)
            < arena.len()
}

/// The values of the first `k` nodes of the list from `head`.
pub open spec fn arena_values(arena: Seq<ArenaNode>, head: u32, k: nat) -> Seq<u64> {
    Seq::new(k, |j: int| arena[arena_walk(arena, head, j as nat) as int].value)
}

/// A list has one length.
pub proof fn lemma_arena_len_unique(arena: Seq<ArenaNode>, head: u32, k1: nat, k2: nat)
    requires
        arena_list_len(arena, head, k1),
        arena_list_len(arena, head, k2),
    ensures
        k1 == k2,
{
    if k1 < k2 {
        assert(arena_walk(arena, head, k1) != END);
    } else if k2 < k1 {
        assert(arena_walk(arena, head, k2) != END);
    }
}

/// Builds an arena list by pushing the nodes `0, 1, ..., n - 1` in turn,
/// each linking to the node before it, so that the list from the returned
/// head holds `n - 1, ..., 1, 0`.
pub fn build_arena_list(n: u32) -> (res: (Vec<ArenaNode>, u32))
    ensures
        res.0@.len() == n,
        forall|i: int|
            0 <= i < n ==> (#[trigger] res.0@[i]).value == i && res.0@[i].next == (if i == 0 {
                END
            } else {
                (i - 1) as u32
            }),
        res.1 == (if n == 0 {
            END
        } else {
            (n - 1) as u32
        }),
        arena_list_len(res.0@, res.1, n as nat),
        arena_values(res.0@, res.1, n as nat) == descending(n as nat),
{
    let mut arena: Vec<ArenaNode> = Vec::with_capacity(n as usize);
    let mut head: u32 = END;
    let mut i: u32 = 0;
    while i < n
        invariant
            i <= n,
            arena@.len() == i,
            forall|k: int|
                0 <= k < i ==> (#[trigger] arena@[k]).value == k && arena@[k].next == (if k == 0 {
                    END
                } else {
                    (k - 1) as u32
                }),
            head == (if i == 0 {
                END
            } else {
                (i - 1) as u32
            }),
        decreases n - i,
    {
        arena.push(ArenaNode { value: i as u64, next: head });
        head = i;
        i += 1;
    }
    proof {
        lemma_built_walk(arena@, head, n as nat);
    }
    (arena, head)
}

/// In the arena that `build_arena_list` makes, the walk steps down one
/// index at a time from the last node.
proof fn lemma_built_walk(arena: Seq<ArenaNode>, head: u32, n: nat)
    requires
        n <= u32::MAX,
        arena.len() == n,
        forall|k: int|
            0 <= k < n ==> (#[trigger] arena[k]).value == k && arena[k].next == (if k == 0 {
                END
            } else {
                (k - 1) as u32
            }),
        head == (if n == 0 {
            END
        } else {
            (n - 1) as u32
        }),
    ensures
        arena_list_len(arena, head, n),
        arena_values(arena, head, n) == descending(n),
{
    assert forall|j: nat| j < n implies #[trigger] arena_walk(arena, head, j) == n - 1 - j by {
        lemma_built_walk_step(arena, head, n, j);
    }
    if n > 0 {
        lemma_built_walk_step(arena, head, n, (n - 1) as nat);
        assert(arena_walk(arena, head, n) == arena[0].next);
    }
    assert(arena_values(arena, head, n) =~= descending(n));
}

/// One step of `lemma_built_walk`, by induction on the number of links.
proof fn lemma_built_walk_step(arena: Seq<ArenaNode>, head: u32, n: nat, j: nat)
    requires
        n <= u32::MAX,
        arena.len() == n,
        forall|k: int|
            0 <= k < n ==> (#[trigger] arena[k]).value == k && arena[k].next == (if k == 0 {
                END
            } else {
                (k - 1) as u32
            }),
        head == (if n == 0 {
            END
        } else {
            (n - 1) as u32
        }),
        j < n,
    ensures
        arena_walk(arena, head, j) == n - 1 - j,
    decreases j,
{
    if j > 0 {
        lemma_built_walk_step(arena, head, n, (j - 1) as nat);
        let prev = (n - j) as int;
        assert(arena[prev].next == (prev - 1) as u32);
    }
}

/// Sums the values of the arena list from `head`, wrapping around at 2^64.
pub fn arena_list_sum(arena: &[ArenaNode], head: u32) -> (sum: u64)
    requires
        exists|k: nat| arena_list_len(arena@, head, k),
    ensures
        forall|k: nat|
            arena_list_len(arena@, head, k) ==> sum == wrap64(
                sum_u64(#[trigger] arena_values(arena@, head, k)),
            ),
{
    let ghost len = choose|k: nat| arena_list_len(arena@, head, k);
    let mut sum: u64 = 0;
    let mut cur: u32 = head;
    let ghost mut j: nat = 0;
    proof {
        vstd::arithmetic::div_mod::lemma_small_mod(0, crate::sums::modulus64() as nat);
        assert(arena_values(arena@, head, 0) =~= Seq::<u64>::empty());
    }
    while cur != END
        invariant
            arena_list_len(arena@, head, len),
            j <= len,
            cur == arena_walk(arena@, head, j),
            sum == wrap64(sum_u64(arena_values(arena@, head, j))),
        decreases len - j,
    {
        proof {
            assert(j < len);
            assert(arena_walk(arena@, head, j) < arena@.len());
        }
        let node = arena[cur as usize];
        proof {
            let vs = arena_values(arena@, head, j + 1);
            assert(vs.drop_last() =~= arena_values(arena@, head, j));
            assert(vs.last() == node.value);
            lemma_wrapping_add(sum, node.value, sum_u64(arena_values(arena@, head, j)));
        }
        sum = sum.wrapping_add(node.value);
        cur = node.next;
        proof {
            j = j + 1;
        }
    }
    proof {
        assert forall|k: nat| arena_list_len(arena@, head, k) implies sum == wrap64(
            sum_u64(#[trigger] arena_values(arena@, head, k)),
        ) by {
            lemma_arena_len_unique(arena@, head, k, len);
            if j < len {
                assert(arena_walk(arena@, head, j) != END);
            }
        }
    }
    sum
}

/// The values `n - 1, ..., 0` add up to `0 + 1 + ... + (n - 1)`: both lists
/// that the builders make sum to the same total.
pub proof fn lemma_descending_sum(n: nat)
    requires
        n <= u32::MAX,
    ensures
        sum_u64(descending(n)) == triangle(n),
    decreases n,
{
    if n > 0 {
        let m = (n - 1) as nat;
        // Dropping the last value, 0, leaves `n - 1, ..., 1`, which is
        // `descending(m)` shifted up by one.
        lemma_shifted_sum(m);
        assert(descending(n).drop_last() =~= Seq::new(m, |k: int| (m - k) as u64));
        assert(descending(n).last() == 0);
    }
}

/// The values `m, m - 1, ..., 1` add up to `1 + 2 + ... + m`.
proof fn lemma_shifted_sum(m: nat)
    requires
        m <= u32::MAX,
    ensures
        sum_u64(Seq::new(m, |k: int| (m - k) as u64)) == triangle(m) + m,
    decreases m,
{
    let s = Seq::new(m, |k: int| (m - k) as u64);
    if m > 0 {
        let m1 = (m - 1) as nat;
        lemma_shifted_sum(m1);
        let t = Seq::new(m1, |k: int| (m1 - k) as u64);
        // `s` without its last value is `t` with each value one larger.
        lemma_sum_plus_one(t);
        assert(s.drop_last() =~= Seq::new(m1, |k: int| (t[k] + 1) as u64));
        assert(s.last() == 1);
        assert(triangle(m) == triangle(m1) + m1);
    }
}

/// Adding one to each of `t.len()` values adds `t.len()` to their sum.
proof fn lemma_sum_plus_one(t: Seq<u64>)
    requires
        forall|k: int| 0 <= k < t.len() ==> #[trigger] t[k] < u64::MAX,
    ensures
        sum_u64(Seq::new(t.len(), |k: int| (t[k] + 1) as u64)) == sum_u64(t) + t.len(),
    decreases t.len(),
{
    let u = Seq::new(t.len(), |k: int| (t[k] + 1) as u64);
    if t.len() > 0 {
        let t1 = t.drop_last();
        lemma_sum_plus_one(t1);
        assert(u.drop_last() =~= Seq::new(t1.len(), |k: int| (t1[k] + 1) as u64));
    }
}

} // verus!
