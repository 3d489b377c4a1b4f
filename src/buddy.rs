//! The buddy allocator of the general region. Block states live in a heap
//! numbered tree (see `tree`); the free blocks of each order are also kept in
//! an order-indexed free list, which allocation searches from the requested
//! order upward. Freeing merges a block with its buddy for as long as the
//! buddy is free.

use vstd::prelude::*;
use crate::pow::{exp2, lemma_exp2_pos, lemma_exp2_mono};
use crate::tree::{
    depth, index_of, is_ancestor, is_node, lemma_halves, lemma_node_depth,
    lemma_depth_bounds, lemma_unrelated_apart, lemma_within_root, lo, order_of,
    span,
};

verus! {

#[derive(Clone, Copy, Debug, PartialEq, Eq, Structural)]
pub enum BlockState {
    /// On the free list of its order.
    Free,
    /// Handed out.
    Allocated,
    /// Divided into its two halves.
    Split,
    /// Inside a larger block that is not split.
    Absent,
}

/// The parent of node `h`.
pub open spec fn up(h: int) -> int {
    h / 2
}

/// The lower half of node `h`.
pub open spec fn low(h: int) -> int {
    2 * h
}

/// The upper half of node `h`.
pub open spec fn high(h: int) -> int {
    2 * h + 1
}

/// The shape of the tree: the root is present, a node is present exactly
/// when its parent is split, leaves are never split, and no split block has
/// two free halves.
pub open spec fn tree_ok(s: Seq<BlockState>, max: nat) -> bool {
    &&& s.len() == exp2(max + 1)
    &&& s.len() <= usize::MAX
    &&& s[1] != BlockState::Absent
    &&& forall|h: int|
        #![trigger s[h], s[up(h)]]
        2 <= h < s.len() ==> (s[h] != BlockState::Absent <==> s[up(h)] == BlockState::Split)
    &&& forall|h: int| exp2(max) <= h < s.len() ==> #[trigger] s[h] != BlockState::Split
    &&& forall|h: int|
        #![trigger s[low(h)], s[high(h)]]
        1 <= h < exp2(max) && s[h] == BlockState::Split ==> !(s[low(h)] == BlockState::Free
            && s[high(h)] == BlockState::Free)
}

/// The free lists hold, once each, exactly the free nodes of their order.
pub open spec fn lists_ok(s: Seq<BlockState>, lists: Seq<Seq<usize>>, max: nat) -> bool {
    &&& lists.len() == max + 1
    &&& forall|k: int| 0 <= k <= max ==> #[trigger] lists[k].no_duplicates()
    &&& forall|k: int, j: int|
        0 <= k <= max && 0 <= j < lists[k].len() ==> is_node(max, #[trigger] lists[k][j] as nat)
            && s[lists[k][j] as int] == BlockState::Free && order_of(max, lists[k][j] as nat) == k
    &&& forall|h: int|
        1 <= h < s.len() && #[trigger] s[h] == BlockState::Free ==> lists[order_of(
            max,
            h as nat,
        ) as int].contains(h as usize)
}

pub open spec fn buddy_of(h: nat) -> nat {
    if h % 2 == 0 {
        h + 1
    } else {
        (h - 1) as nat
    }
}

/// A present node of a well-shaped tree has only split blocks above it.
proof fn lemma_above_present(s: Seq<BlockState>, max: nat, a: nat, x: nat)
    requires
        tree_ok(s, max),
        is_node(max, x),
        s[x as int] != BlockState::Absent,
        is_ancestor(a, x),
        a != x,
    ensures
        s[a as int] == BlockState::Split,
    decreases x,
{
    let p = x / 2;
    assert(up(x as int) == p);
    assert(s[x as int] != BlockState::Absent <==> s[up(x as int)] == BlockState::Split);
    lemma_exp2_pos(max + 1);
    if p != a {
        lemma_above_present(s, max, a, p);
    }
}

/// In a well-shaped tree with nothing handed out, every present node is
/// free: the halves of a split block would both be free.
proof fn lemma_idle_present_free(s: Seq<BlockState>, max: nat, h: nat)
    requires
        tree_ok(s, max),
        is_node(max, h),
        forall|x: int| 1 <= x < s.len() ==> #[trigger] s[x] != BlockState::Allocated,
        s[h as int] != BlockState::Absent,
    ensures
        s[h as int] == BlockState::Free,
    decreases exp2(max + 1) - h,
{
    if s[h as int] == BlockState::Split {
        lemma_node_depth(max, h);
        assert(depth(h) < max);
        lemma_halves(max, h);
        let (hi, l, r) = (h as int, low(h as int), high(h as int));
        assert(up(l) == hi && up(r) == hi);
        assert(s[l] != BlockState::Absent <==> s[up(l)] == BlockState::Split);
        assert(s[r] != BlockState::Absent <==> s[up(r)] == BlockState::Split);
        lemma_idle_present_free(s, max, l as nat);
        lemma_idle_present_free(s, max, r as nat);
        assert(!(s[low(hi)] == BlockState::Free && s[high(hi)] == BlockState::Free));
    }
}

/// Taking the last node off the free list of order `j` and marking it
/// handed out keeps the tree and the lists well formed.
proof fn lemma_take(s: Seq<BlockState>, lists: Seq<Seq<usize>>, max: nat, j: int)
    requires
        tree_ok(s, max),
        lists_ok(s, lists, max),
        0 <= j <= max,
        lists[j].len() > 0,
    ensures
        ({
            let g = lists[j].last() as int;
            let s2 = s.update(g, BlockState::Allocated);
            let l2 = lists.update(j, lists[j].drop_last());
            &&& is_node(max, g as nat)
            &&& s[g] == BlockState::Free
            &&& order_of(max, g as nat) == j
            &&& tree_ok(s2, max)
            &&& lists_ok(s2, l2, max)
        }),
{
    let last = lists[j].len() - 1;
    let g = lists[j][last] as int;
    let s2 = s.update(g, BlockState::Allocated);
    let l2 = lists.update(j, lists[j].drop_last());
    assert(is_node(max, lists[j][last] as nat));
    assert forall|x: int|
        #![trigger s2[x], s2[up(x)]]
        2 <= x < s2.len() implies (s2[x] != BlockState::Absent <==> s2[up(x)]
        == BlockState::Split) by {
        assert(s[x] != BlockState::Absent <==> s[up(x)] == BlockState::Split);
    }
    assert forall|x: int| exp2(max) <= x < s2.len() implies #[trigger] s2[x]
        != BlockState::Split by {
        assert(s[x] != BlockState::Split);
    }
    assert forall|x: int|
        #![trigger s2[low(x)], s2[high(x)]]
        1 <= x < exp2(max) && s2[x] == BlockState::Split implies !(s2[low(x)]
        == BlockState::Free && s2[high(x)] == BlockState::Free) by {
        assert(!(s[low(x)] == BlockState::Free && s[high(x)] == BlockState::Free));
    }
    assert forall|k: int| 0 <= k <= max implies #[trigger] l2[k].no_duplicates() by {
        assert(lists[k].no_duplicates());
    }
    assert forall|k: int, i: int| 0 <= k <= max && 0 <= i < l2[k].len() implies is_node(
        max,
        #[trigger] l2[k][i] as nat,
    ) && s2[l2[k][i] as int] == BlockState::Free && order_of(max, l2[k][i] as nat) == k by {
        assert(lists[k][i] == l2[k][i]);
        assert(is_node(max, lists[k][i] as nat));
        if k == j {
            assert(lists[j].no_duplicates());
        }
    }
    assert forall|x: int| 1 <= x < s2.len() && #[trigger] s2[x] == BlockState::Free implies l2[order_of(
        max,
        x as nat,
    ) as int].contains(x as usize) by {
        assert(s[x] == BlockState::Free);
        let k = order_of(max, x as nat) as int;
        assert(lists[k].contains(x as usize));
        let i = choose|i: int| 0 <= i < lists[k].len() && lists[k][i] == x as usize;
        assert(is_node(max, lists[k][i] as nat));
        if k == j {
            assert(i != last);
            assert(l2[k] == lists[j].drop_last());
            assert(lists[j].drop_last()[i] == lists[j][i]);
            assert(l2[k][i] == x as usize);
        } else {
            crate::tree::lemma_order_le(max, x as nat);
            assert(0 <= k <= max);
            assert(l2[k] == lists[k]);
            assert(l2[k][i] == x as usize);
        }
        assert(l2[k].contains(x as usize));
    }
}

/// Splitting the handed-out node `h`, which is not a leaf: `h` becomes
/// split, its lower half is handed out and its upper half goes on the free
/// list of the order below.
proof fn lemma_split(s: Seq<BlockState>, lists: Seq<Seq<usize>>, max: nat, h: int)
    requires
        tree_ok(s, max),
        lists_ok(s, lists, max),
        1 <= h,
        is_node(max, h as nat),
        s[h] == BlockState::Allocated,
        depth(h as nat) < max,
    ensures
        ({
            let k = order_of(max, h as nat) as int;
            let s2 = s.update(h, BlockState::Split).update(low(h), BlockState::Allocated).update(
                high(h),
                BlockState::Free,
            );
            let l2 = lists.update(k - 1, lists[k - 1].push(high(h) as usize));
            &&& s[low(h)] == BlockState::Absent
            &&& s[high(h)] == BlockState::Absent
            &&& tree_ok(s2, max)
            &&& lists_ok(s2, l2, max)
        }),
{
    let k = order_of(max, h as nat) as int;
    lemma_halves(max, h as nat);
    let c0 = low(h);
    let c1 = high(h);
    let s2 = s.update(h, BlockState::Split).update(c0, BlockState::Allocated).update(
        c1,
        BlockState::Free,
    );
    let l2 = lists.update(k - 1, lists[k - 1].push(c1 as usize));
    assert(up(c0) == h && up(c1) == h);
    assert(h as nat == h);
    assert(is_node(max, 2 * (h as nat)));
    assert(c0 == 2 * h);
    assert(2 <= c0);
    assert(c0 < s.len());
    assert(2 <= c1 < s.len());
    assert(s[c0] != BlockState::Absent <==> s[up(c0)] == BlockState::Split);
    assert(s[c1] != BlockState::Absent <==> s[up(c1)] == BlockState::Split);
    lemma_exp2_pos(max);
    assert forall|x: int|
        #![trigger s2[x], s2[up(x)]]
        2 <= x < s2.len() implies (s2[x] != BlockState::Absent <==> s2[up(x)]
        == BlockState::Split) by {
        assert(s[x] != BlockState::Absent <==> s[up(x)] == BlockState::Split);
        if up(x) == c0 || up(x) == c1 {
            assert(s[up(x)] == BlockState::Absent);
            assert(x != h);
        }
        if x == h && x >= 2 {
            assert(up(x) < h);
        }
    }
    assert forall|x: int| exp2(max) <= x < s2.len() implies #[trigger] s2[x]
        != BlockState::Split by {
        assert(s[x] != BlockState::Split);
    }
    assert forall|x: int|
        #![trigger s2[low(x)], s2[high(x)]]
        1 <= x < exp2(max) && s2[x] == BlockState::Split implies !(s2[low(x)]
        == BlockState::Free && s2[high(x)] == BlockState::Free) by {
        if x != h {
            assert(!(s[low(x)] == BlockState::Free && s[high(x)] == BlockState::Free));
            if low(x) == c1 || high(x) == c1 {
                assert(x == h);
            }
            if low(x) == c0 || high(x) == c0 {
                assert(x == h);
            }
        }
    }
    assert(!lists[k - 1].contains(c1 as usize)) by {
        if lists[k - 1].contains(c1 as usize) {
            let t = lists[k - 1];
            let i = choose|i: int| 0 <= i < t.len() && t[i] == c1 as usize;
            assert(s[lists[k - 1][i] as int] == BlockState::Free);
        }
    }
    assert forall|q: int| 0 <= q <= max implies #[trigger] l2[q].no_duplicates() by {
        assert(lists[q].no_duplicates());
        if q == k - 1 {
            let t = lists[q].push(c1 as usize);
            assert forall|a: int, b: int| 0 <= a < b < t.len() implies t[a] != t[b] by {
                if b == t.len() - 1 {
                    assert(lists[q][a] == t[a]);
                    assert(lists[q].contains(t[a]));
                } else {
                    assert(lists[q][a] == t[a] && lists[q][b] == t[b]);
                }
            }
        }
    }
    assert forall|q: int, i: int| 0 <= q <= max && 0 <= i < l2[q].len() implies is_node(
        max,
        #[trigger] l2[q][i] as nat,
    ) && s2[l2[q][i] as int] == BlockState::Free && order_of(max, l2[q][i] as nat) == q by {
        if q == k - 1 && i == lists[q].len() {
            assert(l2[q][i] == c1 as usize);
        } else {
            assert(l2[q][i] == lists[q][i]);
            assert(is_node(max, lists[q][i] as nat));
            assert(s[lists[q][i] as int] == BlockState::Free);
        }
    }
    assert forall|x: int| 1 <= x < s2.len() && #[trigger] s2[x] == BlockState::Free implies l2[order_of(
        max,
        x as nat,
    ) as int].contains(x as usize) by {
        if x == c1 {
            assert(l2[k - 1][lists[k - 1].len() as int] == c1 as usize);
        } else {
            assert(s[x] == BlockState::Free);
            let q = order_of(max, x as nat) as int;
            assert(lists[q].contains(x as usize));
            let i = choose|i: int| 0 <= i < lists[q].len() && lists[q][i] == x as usize;
            assert(is_node(max, lists[q][i] as nat));
            crate::tree::lemma_order_le(max, x as nat);
            assert(0 <= q <= max);
            if q == k - 1 {
                assert(l2[q] == lists[q].push(c1 as usize));
            } else {
                assert(l2[q] == lists[q]);
            }
            assert(l2[q][i] == x as usize);
        }
    }
}

/// Merging the handed-out node `h` with its free buddy `b`: both leave the
/// tree, `b` leaves its free list (`rest` is that list without it), and the
/// parent, which was split, is handed out whole.
proof fn lemma_merge(
    s: Seq<BlockState>,
    lists: Seq<Seq<usize>>,
    max: nat,
    h: int,
    rest: Seq<usize>,
)
    requires
        tree_ok(s, max),
        lists_ok(s, lists, max),
        2 <= h < s.len(),
        s[h] == BlockState::Allocated,
        s[buddy_of(h as nat) as int] == BlockState::Free,
        rest.no_duplicates(),
        forall|y: usize|
            rest.contains(y) <==> (lists[order_of(max, h as nat) as int].contains(y) && y
                != buddy_of(h as nat) as usize),
    ensures
        ({
            let k = order_of(max, h as nat) as int;
            let b = buddy_of(h as nat) as int;
            let p = up(h);
            let s2 = s.update(b, BlockState::Absent).update(h, BlockState::Absent).update(
                p,
                BlockState::Allocated,
            );
            let l2 = lists.update(k, rest);
            &&& 1 <= p && is_node(max, p as nat)
            &&& s[p] == BlockState::Split
            &&& order_of(max, p as nat) == k + 1
            &&& tree_ok(s2, max)
            &&& lists_ok(s2, l2, max)
        }),
{
    let k = order_of(max, h as nat) as int;
    let b = buddy_of(h as nat) as int;
    let p = up(h);
    let s2 = s.update(b, BlockState::Absent).update(h, BlockState::Absent).update(
        p,
        BlockState::Allocated,
    );
    let l2 = lists.update(k, rest);
    lemma_exp2_pos(max);
    assert(s[h] != BlockState::Absent <==> s[up(h)] == BlockState::Split);
    lemma_node_depth(max, h as nat);
    assert(depth(h as nat) == 1 + depth(p as nat));
    lemma_node_depth(max, p as nat);
    lemma_halves(max, p as nat);
    assert(low(p) == h || high(p) == h);
    assert(low(p) == b || high(p) == b);
    assert(up(b) == p);
    assert(order_of(max, b as nat) == k);
    crate::tree::lemma_order_le(max, h as nat);
    assert forall|x: int|
        #![trigger s2[x], s2[up(x)]]
        2 <= x < s2.len() implies (s2[x] != BlockState::Absent <==> s2[up(x)]
        == BlockState::Split) by {
        assert(s[x] != BlockState::Absent <==> s[up(x)] == BlockState::Split);
        if x == p {
            assert(up(p) < p);
        }
        if up(x) == h || up(x) == b {
            assert(x != h && x != b && x != p);
        }
        if up(x) == p {
            assert(x == h || x == b);
        }
    }
    assert forall|x: int| exp2(max) <= x < s2.len() implies #[trigger] s2[x]
        != BlockState::Split by {
        assert(s[x] != BlockState::Split);
    }
    assert forall|x: int|
        #![trigger s2[low(x)], s2[high(x)]]
        1 <= x < exp2(max) && s2[x] == BlockState::Split implies !(s2[low(x)]
        == BlockState::Free && s2[high(x)] == BlockState::Free) by {
        assert(!(s[low(x)] == BlockState::Free && s[high(x)] == BlockState::Free));
        if low(x) == h || low(x) == b || high(x) == h || high(x) == b {
            assert(x == p);
        }
        if low(x) == p || high(x) == p {
            assert(s2[p] == BlockState::Allocated);
        }
    }
    assert forall|q: int| 0 <= q <= max implies #[trigger] l2[q].no_duplicates() by {
        assert(lists[q].no_duplicates());
    }
    assert forall|q: int, i: int| 0 <= q <= max && 0 <= i < l2[q].len() implies is_node(
        max,
        #[trigger] l2[q][i] as nat,
    ) && s2[l2[q][i] as int] == BlockState::Free && order_of(max, l2[q][i] as nat) == q by {
        let e = l2[q][i];
        if q == k {
            assert(rest.contains(e));
            assert(lists[k].contains(e));
            let t = lists[k];
            let m = choose|m: int| 0 <= m < t.len() && t[m] == e;
            assert(is_node(max, lists[k][m] as nat));
            assert(e != b as usize);
        } else {
            assert(l2[q] == lists[q]);
            assert(is_node(max, lists[q][i] as nat));
        }
    }
    assert forall|x: int| 1 <= x < s2.len() && #[trigger] s2[x] == BlockState::Free implies l2[order_of(
        max,
        x as nat,
    ) as int].contains(x as usize) by {
        assert(x != h && x != b && x != p);
        assert(s[x] == BlockState::Free);
        let q = order_of(max, x as nat) as int;
        crate::tree::lemma_order_le(max, x as nat);
        assert(lists[q].contains(x as usize));
        if q == k {
            assert(x as usize != b as usize);
            assert(rest.contains(x as usize));
        } else {
            assert(l2[q] == lists[q]);
        }
    }
}

/// Marking the handed-out node `h` free and putting it on its list, where
/// its buddy is not free.
proof fn lemma_release(s: Seq<BlockState>, lists: Seq<Seq<usize>>, max: nat, h: int)
    requires
        tree_ok(s, max),
        lists_ok(s, lists, max),
        1 <= h < s.len(),
        s[h] == BlockState::Allocated,
        h == 1 || s[buddy_of(h as nat) as int] != BlockState::Free,
    ensures
        ({
            let k = order_of(max, h as nat) as int;
            let s2 = s.update(h, BlockState::Free);
            let l2 = lists.update(k, lists[k].push(h as usize));
            &&& tree_ok(s2, max)
            &&& lists_ok(s2, l2, max)
        }),
{
    let k = order_of(max, h as nat) as int;
    let s2 = s.update(h, BlockState::Free);
    let l2 = lists.update(k, lists[k].push(h as usize));
    crate::tree::lemma_order_le(max, h as nat);
    assert forall|x: int|
        #![trigger s2[x], s2[up(x)]]
        2 <= x < s2.len() implies (s2[x] != BlockState::Absent <==> s2[up(x)]
        == BlockState::Split) by {
        assert(s[x] != BlockState::Absent <==> s[up(x)] == BlockState::Split);
    }
    assert forall|x: int| exp2(max) <= x < s2.len() implies #[trigger] s2[x]
        != BlockState::Split by {
        assert(s[x] != BlockState::Split);
    }
    assert forall|x: int|
        #![trigger s2[low(x)], s2[high(x)]]
        1 <= x < exp2(max) && s2[x] == BlockState::Split implies !(s2[low(x)]
        == BlockState::Free && s2[high(x)] == BlockState::Free) by {
        assert(!(s[low(x)] == BlockState::Free && s[high(x)] == BlockState::Free));
        if low(x) == h {
            assert(buddy_of(h as nat) == high(x));
        }
        if high(x) == h {
            assert(buddy_of(h as nat) == low(x));
        }
    }
    assert(!lists[k].contains(h as usize)) by {
        if lists[k].contains(h as usize) {
            let t = lists[k];
            let i = choose|i: int| 0 <= i < t.len() && t[i] == h as usize;
            assert(s[lists[k][i] as int] == BlockState::Free);
        }
    }
    assert forall|q: int| 0 <= q <= max implies #[trigger] l2[q].no_duplicates() by {
        assert(lists[q].no_duplicates());
        if q == k {
            let t = lists[q].push(h as usize);
            assert forall|a: int, c: int| 0 <= a < c < t.len() implies t[a] != t[c] by {
                if c == t.len() - 1 {
                    assert(lists[q][a] == t[a]);
                    assert(lists[q].contains(t[a]));
                } else {
                    assert(lists[q][a] == t[a] && lists[q][c] == t[c]);
                }
            }
        }
    }
    assert forall|q: int, i: int| 0 <= q <= max && 0 <= i < l2[q].len() implies is_node(
        max,
        #[trigger] l2[q][i] as nat,
    ) && s2[l2[q][i] as int] == BlockState::Free && order_of(max, l2[q][i] as nat) == q by {
        if q == k && i == lists[q].len() {
            assert(l2[q][i] == h as usize);
        } else {
            if q == k {
                assert(l2[q] == lists[q].push(h as usize));
            } else {
                assert(l2[q] == lists[q]);
            }
            assert(l2[q][i] == lists[q][i]);
            assert(is_node(max, lists[q][i] as nat));
        }
    }
    assert forall|x: int| 1 <= x < s2.len() && #[trigger] s2[x] == BlockState::Free implies l2[order_of(
        max,
        x as nat,
    ) as int].contains(x as usize) by {
        let q = order_of(max, x as nat) as int;
        crate::tree::lemma_order_le(max, x as nat);
        if x == h {
            assert(l2[k][lists[k].len() as int] == h as usize);
        } else {
            assert(s[x] == BlockState::Free);
            assert(lists[q].contains(x as usize));
            let t = lists[q];
            let i = choose|i: int| 0 <= i < t.len() && t[i] == x as usize;
            if q == k {
                assert(l2[q] == lists[q].push(h as usize));
            } else {
                assert(l2[q] == lists[q]);
            }
            assert(l2[q][i] == x as usize);
        }
    }
}

/// `rest` is `s` without the element at `i`, which occurs once.
proof fn lemma_remove_at(s: Seq<usize>, i: int)
    requires
        s.no_duplicates(),
        0 <= i < s.len(),
    ensures
        s.remove(i).no_duplicates(),
        forall|y: usize| s.remove(i).contains(y) <==> (s.contains(y) && y != s[i]),
{
    let t = s.remove(i);
    assert forall|a: int, c: int| 0 <= a < c < t.len() implies t[a] != t[c] by {
        let a2 = if a < i { a } else { a + 1 };
        let c2 = if c < i { c } else { c + 1 };
        assert(t[a] == s[a2] && t[c] == s[c2]);
    }
    assert forall|y: usize| t.contains(y) <==> (s.contains(y) && y != s[i]) by {
        if t.contains(y) {
            let m = choose|m: int| 0 <= m < t.len() && t[m] == y;
            let m2 = if m < i { m } else { m + 1 };
            assert(s[m2] == y);
        }
        if s.contains(y) && y != s[i] {
            let m = choose|m: int| 0 <= m < s.len() && s[m] == y;
            if m < i {
                assert(t[m] == y);
            } else {
                assert(m != i);
                assert(t[m - 1] == y);
            }
        }
    }
}

proof fn lemma_bytes_mono(leaf: nat, a: nat, b: nat)
    requires
        a <= b,
    ensures
        leaf * exp2(a) <= leaf * exp2(b),
{
    lemma_exp2_mono(a, b);
    assert(leaf * exp2(a) <= leaf * exp2(b)) by (nonlinear_arith)
        requires exp2(a) <= exp2(b);
}

pub struct BuddyAllocator {
    base: usize,
    leaf_size: usize,
    max_order: usize,
    /// State of each node; index 0 is unused.
    states: Vec<BlockState>,
    /// `free_lists[k]`: the free nodes of order `k`.
    free_lists: Vec<Vec<usize>>,
    /// `level_start[k]`: the first node of order `k`, `2^(max_order - k)`.
    level_start: Vec<usize>,
    /// `block_size[k]`: bytes in a block of order `k`.
    block_size: Vec<usize>,
}

impl BuddyAllocator {
    /// First byte of the region.
    pub closed spec fn region_base(&self) -> nat {
        self.base as nat
    }

    /// Bytes in a block of order 0.
    pub closed spec fn leaf_len(&self) -> nat {
        self.leaf_size as nat
    }

    /// Order of the whole region.
    pub closed spec fn top(&self) -> nat {
        self.max_order as nat
    }

    pub closed spec fn states(&self) -> Seq<BlockState> {
        self.states@
    }

    pub closed spec fn lists(&self) -> Seq<Seq<usize>> {
        Seq::new(self.free_lists@.len(), |k: int| self.free_lists@[k]@)
    }

    pub closed spec fn wf(&self) -> bool {
        let max = self.max_order as nat;
        &&& self.leaf_size > 0
        &&& exp2(max + 1) <= usize::MAX
        &&& self.base + self.leaf_size * exp2(max) <= usize::MAX
        &&& tree_ok(self.states@, max)
        &&& lists_ok(self.states@, self.lists(), max)
        &&& self.level_start@.len() == max + 1
        &&& forall|k: int| 0 <= k <= max ==> #[trigger] self.level_start@[k] == exp2((max - k) as nat)
        &&& self.block_size@.len() == max + 1
        &&& forall|k: int| 0 <= k <= max ==> #[trigger] self.block_size@[k] == self.leaf_size * exp2(k as nat)
    }

    /// Bytes in the whole region.
    pub open spec fn region_size(&self) -> nat {
        self.leaf_len() * exp2(self.top())
    }

    /// Node `h` is handed out.
    pub open spec fn is_allocated(&self, h: nat) -> bool {
        is_node(self.top(), h) && self.states()[h as int] == BlockState::Allocated
    }

    /// Node `h` is a free block.
    pub open spec fn is_free(&self, h: nat) -> bool {
        is_node(self.top(), h) && self.states()[h as int] == BlockState::Free
    }

    /// Address of the first byte of node `h`.
    pub open spec fn block_addr(&self, h: nat) -> int {
        (self.region_base() + self.leaf_len() * lo(self.top(), h)) as int
    }

    /// Bytes in node `h`.
    pub open spec fn block_bytes(&self, h: nat) -> nat {
        self.leaf_len() * span(self.top(), h)
    }

    /// `k` is the smallest order whose blocks hold `n` bytes.
    pub open spec fn is_order_for(&self, n: nat, k: nat) -> bool {
        &&& n <= self.leaf_len() * exp2(k)
        &&& (k == 0 || self.leaf_len() * exp2((k - 1) as nat) < n)
    }

    /// Some free block holds `n` bytes.
    pub open spec fn can_serve(&self, n: nat) -> bool {
        exists|h: nat| #[trigger] self.is_free(h) && n <= self.block_bytes(h)
    }

    /// Nothing is handed out.
    pub open spec fn is_idle(&self) -> bool {
        forall|h: nat| !#[trigger] self.is_allocated(h)
    }

    /// Both describe the same region.
    pub open spec fn same_region(&self, other: &Self) -> bool {
        &&& self.region_base() == other.region_base()
        &&& self.leaf_len() == other.leaf_len()
        &&& self.top() == other.top()
    }

    /// `after` is `self` with node `h`, of the order for `n` bytes, handed
    /// out at `addr`, carved from a smallest free block that holds `n`.
    pub open spec fn places(&self, after: &Self, n: nat, h: nat, addr: int) -> bool {
        &&& is_node(self.top(), h)
        &&& self.is_order_for(n, order_of(self.top(), h))
        &&& !self.is_allocated(h)
        &&& addr == self.block_addr(h)
        &&& forall|x: nat| #[trigger] after.is_allocated(x) <==> (self.is_allocated(x) || x == h)
        &&& exists|g: nat|
            #[trigger] self.is_free(g) && is_ancestor(g, h) && forall|f: nat|
                #[trigger] self.is_free(f) && n <= self.block_bytes(f) ==> self.block_bytes(g)
                    <= self.block_bytes(f)
    }

    /// `after` is `self` with some node handed out at `addr` for `n` bytes,
    /// as `places` describes.
    pub open spec fn serves(&self, after: &Self, n: nat, addr: int) -> bool {
        exists|h: nat| self.places(after, n, h, addr)
    }

    /// Node `h` is handed out at `addr` and is of the order for `n` bytes.
    pub open spec fn holds(&self, addr: int, n: nat, h: nat) -> bool {
        &&& self.is_allocated(h)
        &&& self.is_order_for(n, order_of(self.top(), h))
        &&& addr == self.block_addr(h)
    }

    /// A block handed out for `n` bytes starts at `addr`.
    pub open spec fn is_block_of(&self, addr: int, n: nat) -> bool {
        exists|h: nat| self.holds(addr, n, h)
    }

    /// `after` is `self` with the node at `addr`, of the order for `n`
    /// bytes, no longer handed out.
    pub open spec fn releases(&self, after: &Self, addr: int, n: nat) -> bool {
        exists|h: nat|
            self.holds(addr, n, h) && forall|x: nat| #[trigger] after.is_allocated(x) <==> (
            self.is_allocated(x) && x != h)
    }

    /// A region of `2^max_order` leaves of `leaf_size` bytes from `base`, free
    /// as one block.
    pub fn new(base: usize, leaf_size: usize, max_order: usize) -> (r: BuddyAllocator)
        requires
            leaf_size > 0,
            exp2(max_order as nat + 1) <= usize::MAX,
            base + leaf_size * exp2(max_order as nat) <= usize::MAX,
        ensures
            r.wf(),
            r.region_base() == base,
            r.leaf_len() == leaf_size,
            r.top() == max_order,
            r.is_idle(),
            r.is_free(1),
    {
        let ghost max = max_order as nat;
        proof {
            crate::pow::lemma_exp2_exceeds(max + 1);
        }
        let nodes_opt = crate::layout::checked_exp2(max_order + 1);
        let nodes = nodes_opt.unwrap();
        let mut states: Vec<BlockState> = Vec::new();
        while states.len() < nodes
            invariant
                max == max_order as nat,
                nodes == exp2(max + 1),
                states@.len() <= nodes,
                forall|h: int| 0 <= h < states@.len() ==> #[trigger] states@[h] == BlockState::Absent,
            decreases nodes - states@.len(),
        {
            states.push(BlockState::Absent);
        }
        proof {
            lemma_exp2_pos(max);
            assert(exp2(max + 1) == 2 * exp2(max));
        }
        states.set(1, BlockState::Free);
        let mut free_lists: Vec<Vec<usize>> = Vec::new();
        let mut level_start: Vec<usize> = Vec::new();
        let mut block_size: Vec<usize> = Vec::new();
        let mut k: usize = 0;
        let mut size: usize = leaf_size;
        assert(exp2(0) == 1);
        while k <= max_order
            invariant
                max == max_order as nat,
                max_order < usize::MAX,
                k <= max_order + 1,
                nodes == exp2(max + 1),
                exp2(max + 1) <= usize::MAX,
                base + leaf_size * exp2(max) <= usize::MAX,
                k <= max_order ==> size == leaf_size * exp2(k as nat),
                free_lists@.len() == k,
                forall|q: int| 0 <= q < k ==> (#[trigger] free_lists@[q])@ == if q == max_order {
                    seq![1usize]
                } else {
                    Seq::<usize>::empty()
                },
                level_start@.len() == k,
                forall|q: int| 0 <= q < k ==> #[trigger] level_start@[q] == exp2((max - q) as nat),
                block_size@.len() == k,
                forall|q: int| 0 <= q < k ==> #[trigger] block_size@[q] == leaf_size * exp2(q as nat),
            decreases max_order + 1 - k,
        {
            let mut list: Vec<usize> = Vec::new();
            if k == max_order {
                list.push(1);
            }
            free_lists.push(list);
            proof {
                lemma_exp2_mono((max - k) as nat, max + 1);
            }
            let start_opt = crate::layout::checked_exp2(max_order - k);
            let start = start_opt.unwrap();
            level_start.push(start);
            block_size.push(size);
            if k < max_order {
                proof {
                    lemma_bytes_mono(leaf_size as nat, (k + 1) as nat, max);
                    assert(leaf_size * exp2((k + 1) as nat) == 2 * (leaf_size * exp2(k as nat)))
                        by (nonlinear_arith)
                        requires exp2((k + 1) as nat) == 2 * exp2(k as nat);
                }
                size = size * 2;
            }
            k = k + 1;
        }
        let r = BuddyAllocator { base, leaf_size, max_order, states, free_lists, level_start, block_size };
        proof {
            let s = r.states@;
            let lists = r.lists();
            assert(s[1] == BlockState::Free);
            assert forall|x: int|
                #![trigger s[x], s[up(x)]]
                2 <= x < s.len() implies (s[x] != BlockState::Absent <==> s[up(x)]
                == BlockState::Split) by {
                assert(s[x] == BlockState::Absent);
                if up(x) != 1 {
                    assert(s[up(x)] == BlockState::Absent);
                }
            }
            assert forall|x: int| exp2(max) <= x < s.len() implies #[trigger] s[x]
                != BlockState::Split by {
                if x != 1 {
                    assert(s[x] == BlockState::Absent);
                }
            }
            assert forall|x: int|
                #![trigger s[low(x)], s[high(x)]]
                1 <= x < exp2(max) && s[x] == BlockState::Split implies !(s[low(x)]
                == BlockState::Free && s[high(x)] == BlockState::Free) by {
                if x != 1 {
                    assert(s[x] == BlockState::Absent);
                }
            }
            assert(depth(1) == 0);
            assert forall|q: int| 0 <= q <= max implies #[trigger] lists[q].no_duplicates() by {
                assert(lists[q] == r.free_lists@[q]@);
            }
            assert forall|q: int, i: int| 0 <= q <= max && 0 <= i < lists[q].len() implies is_node(
                max,
                #[trigger] lists[q][i] as nat,
            ) && s[lists[q][i] as int] == BlockState::Free && order_of(max, lists[q][i] as nat)
                == q by {
                assert(lists[q] == r.free_lists@[q]@);
            }
            assert forall|x: int| 1 <= x < s.len() && #[trigger] s[x] == BlockState::Free implies lists[order_of(
                max,
                x as nat,
            ) as int].contains(x as usize) by {
                if x != 1 {
                    assert(s[x] == BlockState::Absent);
                }
                assert(lists[max as int] == seq![1usize]);
                assert(lists[max as int][0] == 1usize);
            }
            assert forall|h: nat| !#[trigger] r.is_allocated(h) by {
                if is_node(max, h) && h != 1 {
                    assert(s[h as int] == BlockState::Absent);
                }
            }
        }
        r
    }

    /// The smallest order whose blocks hold `n` bytes; `None` when even the
    /// whole region is smaller.
    pub fn order_for(&self, n: usize) -> (r: Option<usize>)
        requires
            self.wf(),
        ensures
            match r {
                Some(k) => k <= self.top() && self.is_order_for(n as nat, k as nat),
                None => n > self.region_size(),
            },
    {
        let mut k: usize = 0;
        while k < self.max_order && self.block_size[k] < n
            invariant
                self.wf(),
                k <= self.max_order,
                k == 0 || self.leaf_len() * exp2((k - 1) as nat) < n,
            decreases self.max_order - k,
        {
            k = k + 1;
        }
        if self.block_size[k] < n {
            None
        } else {
            Some(k)
        }
    }

    /// Hands out a block of the smallest order that holds `n` bytes. The
    /// free lists are searched from that order upward; a larger block found
    /// there is halved until a block of that order is isolated, each unused
    /// upper half going on the free list of its order. `None` when no free
    /// block holds `n` bytes.
    pub fn allocate(&mut self, n: usize) -> (r: Option<usize>)
        requires
            old(self).wf(),
        ensures
            final(self).wf(),
            final(self).same_region(old(self)),
            r.is_some() <==> old(self).can_serve(n as nat),
            r.is_none() ==> *final(self) == *old(self),
            match r {
                Some(addr) => old(self).serves(final(self), n as nat, addr as int),
                None => true,
            },
    {
        let ghost max = self.max_order as nat;
        let ghost leaf = self.leaf_size as nat;
        let k = match self.order_for(n) {
            Some(k) => k,
            None => {
                proof {
                    assert forall|f: nat| #[trigger] self.is_free(f) implies n > self.block_bytes(f) by {
                        lemma_within_root(max, f);
                        assert(leaf * span(max, f) <= leaf * exp2(max)) by (nonlinear_arith)
                            requires span(max, f) <= exp2(max);
                    }
                }
                return None;
            },
        };
        let mut j: usize = k;
        proof {
            crate::pow::lemma_exp2_exceeds(max + 1);
        }
        while j <= self.max_order && self.free_lists[j].len() == 0
            invariant
                self.wf(),
                *self == *old(self),
                k <= j <= self.max_order + 1,
                self.max_order < usize::MAX,
                forall|m: int| k <= m < j ==> (#[trigger] self.lists()[m]).len() == 0,
            decreases self.max_order + 1 - j,
        {
            proof {
                assert(self.lists()[j as int] == self.free_lists@[j as int]@);
            }
            j = j + 1;
        }
        proof {
            // A free block that holds `n` bytes has order at least `k`, and
            // so sits on a list from `j` up.
            assert forall|f: nat| #[trigger] self.is_free(f) && n <= self.block_bytes(f) implies k
                <= order_of(max, f) && j <= order_of(max, f) by {
                let q = order_of(max, f);
                crate::tree::lemma_order_le(max, f);
                if q < k {
                    lemma_bytes_mono(leaf, q, (k - 1) as nat);
                }
                assert(self.lists()[q as int].contains(f as usize));
            }
        }
        if j > self.max_order {
            return None;
        }
        let ghost s0 = self.states@;
        let ghost l0 = self.lists();
        proof {
            assert(l0[j as int] == self.free_lists@[j as int]@);
            lemma_take(s0, l0, max, j as int);
        }
        let g = self.free_lists[j].pop().unwrap();
        self.states.set(g, BlockState::Allocated);
        proof {
            assert(self.lists() =~= l0.update(j as int, l0[j as int].drop_last()));
            assert(old(self).is_free(g as nat));
            lemma_bytes_mono(leaf, k as nat, j as nat);
            assert(n <= old(self).block_bytes(g as nat));
            assert forall|f: nat| #[trigger] old(self).is_free(f) && n <= old(self).block_bytes(f)
                implies old(self).block_bytes(g as nat) <= old(self).block_bytes(f) by {
                lemma_bytes_mono(leaf, j as nat, order_of(max, f));
            }
            assert forall|x: nat| #[trigger] self.is_allocated(x) <==> (old(self).is_allocated(x)
                || x == g) by {}
        }
        let mut h: usize = g;
        while j > k
            invariant
                self.wf(),
                self.same_region(old(self)),
                max == self.max_order,
                leaf == self.leaf_size,
                k <= j <= self.max_order,
                old(self).is_order_for(n as nat, k as nat),
                is_node(max, h as nat),
                h >= 1,
                self.states()[h as int] == BlockState::Allocated,
                order_of(max, h as nat) == j,
                is_ancestor(g as nat, h as nat),
                forall|x: nat| #[trigger] self.is_allocated(x) <==> (old(self).is_allocated(x) || x
                    == h),
                !old(self).is_allocated(h as nat),
                old(self).is_free(g as nat),
                forall|f: nat| #[trigger] old(self).is_free(f) && n <= old(self).block_bytes(f)
                    ==> old(self).block_bytes(g as nat) <= old(self).block_bytes(f),
            decreases j,
        {
            let ghost s1 = self.states@;
            let ghost l1 = self.lists();
            proof {
                lemma_node_depth(max, h as nat);
                crate::tree::lemma_order_le(max, h as nat);
                lemma_halves(max, h as nat);
                lemma_split(s1, l1, max, h as int);
                assert(l1[j - 1] == self.free_lists@[j - 1]@);
                assert forall|x: nat| (is_node(max, x) && #[trigger] s1[x as int]
                    == BlockState::Allocated) <==> (old(self).is_allocated(x) || x == h) by {
                    assert(self.is_allocated(x) <==> (old(self).is_allocated(x) || x == h));
                }
                assert(s1[(2 * h) as int] == BlockState::Absent);
                assert(s1[(2 * h + 1) as int] == BlockState::Absent);
                assert(!old(self).is_allocated((2 * h) as nat));
                assert(!old(self).is_allocated((2 * h + 1) as nat));
            }
            let c0 = 2 * h;
            let c1 = 2 * h + 1;
            self.states.set(h, BlockState::Split);
            self.states.set(c0, BlockState::Allocated);
            self.states.set(c1, BlockState::Free);
            self.free_lists[j - 1].push(c1);
            proof {
                assert(self.lists() =~= l1.update(j - 1, l1[j - 1].push(c1)));
                assert(is_ancestor(g as nat, c0 as nat)) by {
                    assert((c0 as nat) / 2 == h as nat);
                }
                assert forall|x: nat| #[trigger] self.is_allocated(x) <==> (old(self).is_allocated(x)
                    || x == c0) by {
                    if is_node(max, x) && x != h && x != c0 && x != c1 {
                        assert(self.states()[x as int] == s1[x as int]);
                    }
                }
                assert(s1[c0 as int] == BlockState::Absent);
            }
            h = c0;
            j = j - 1;
        }
        proof {
            lemma_node_depth(max, h as nat);
            crate::tree::lemma_order_le(max, h as nat);
            lemma_depth_bounds(h as nat);
            lemma_within_root(max, h as nat);
            assert(self.level_start@[k as int] == exp2(depth(h as nat)));
        }
        let index = h - self.level_start[k];
        proof {
            let o = exp2(k as nat);
            assert(index == index_of(h as nat));
            assert(lo(max, h as nat) == index * o);
            assert(leaf * (index * o) + leaf * o <= leaf * exp2(max)) by (nonlinear_arith)
                requires index * o + o <= exp2(max);
            assert(index * (leaf * o) == leaf * (index * o)) by (nonlinear_arith);
        }
        let offset = index * self.block_size[k];
        let addr = self.base + offset;
        proof {
            assert(old(self).places(self, n as nat, h as nat, addr as int));
            assert(old(self).serves(self, n as nat, addr as int));
        }
        Some(addr)
    }

    /// Returns the block at `addr`, handed out for `n` bytes. While its
    /// buddy is free the two are merged, the buddy leaving its free list,
    /// and the merged block takes its place one order up; the block that
    /// results goes on the free list of its order.
    pub fn free(&mut self, addr: usize, n: usize)
        requires
            old(self).wf(),
            old(self).is_block_of(addr as int, n as nat),
        ensures
            final(self).wf(),
            final(self).same_region(old(self)),
            old(self).releases(final(self), addr as int, n as nat),
    {
        let ghost max = self.max_order as nat;
        let ghost leaf = self.leaf_size as nat;
        let ghost hw = choose|h: nat| old(self).holds(addr as int, n as nat, h);
        proof {
            crate::tree::lemma_order_le(max, hw);
            lemma_bytes_mono(leaf, order_of(max, hw), max);
        }
        let k0 = self.order_for(n).unwrap();
        proof {
            lemma_order_for_unique(leaf, n as nat, k0 as nat, order_of(max, hw));
            lemma_node_depth(max, hw);
            lemma_depth_bounds(hw);
            lemma_within_root(max, hw);
            let o = exp2(k0 as nat);
            let idx = index_of(hw);
            assert(lo(max, hw) == idx * o);
            assert(leaf * (idx * o) == (leaf * o) * idx) by (nonlinear_arith);
            lemma_exp2_pos(k0 as nat);
            assert(leaf * o > 0) by (nonlinear_arith) requires leaf > 0, o > 0;
            vstd::arithmetic::div_mod::lemma_div_multiples_vanish(idx as int, (leaf * o) as int);
            assert(((leaf * o) * idx) / (leaf * o) == idx);
            assert(self.level_start@[k0 as int] == exp2(depth(hw)));
        }
        let i = (addr - self.base) / self.block_size[k0];
        let mut h = self.level_start[k0] + i;
        let mut k = k0;
        let mut merging = true;
        proof {
            assert(h == hw);
            assert forall|x: nat| #[trigger] self.is_allocated(x) <==> ((old(self).is_allocated(x)
                && x != hw) || x == h) by {}
        }
        while merging
            invariant
                self.wf(),
                self.same_region(old(self)),
                max == self.max_order,
                is_node(max, h as nat),
                h >= 1,
                self.states()[h as int] == BlockState::Allocated,
                order_of(max, h as nat) == k,
                k <= max,
                old(self).holds(addr as int, n as nat, hw),
                forall|x: nat| #[trigger] self.is_allocated(x) <==> ((old(self).is_allocated(x) && x
                    != hw) || x == h),
                h == hw || !old(self).is_allocated(h as nat),
                !merging ==> (h == 1 || self.states()[buddy_of(h as nat) as int]
                    != BlockState::Free),
            decreases (max - k) * 2 + if merging {
                1int
            } else {
                0int
            },
        {
            proof {
                lemma_node_depth(max, h as nat);
                crate::tree::lemma_order_le(max, h as nat);
            }
            if k == self.max_order {
                proof {
                    assert(depth(h as nat) == 0);
                    if h > 1 {
                        assert(depth(h as nat) == 1 + depth((h / 2) as nat));
                    }
                }
                merging = false;
            } else {
                let p = h / 2;
                proof {
                    assert(depth(h as nat) == 1 + depth(p as nat));
                    lemma_node_depth(max, p as nat);
                    lemma_halves(max, p as nat);
                }
                let b = if h % 2 == 0 {
                    h + 1
                } else {
                    h - 1
                };
                if self.states[b] == BlockState::Free {
                    let ghost s1 = self.states@;
                    let ghost l1 = self.lists();
                    proof {
                        assert(b == buddy_of(h as nat));
                        assert(order_of(max, b as nat) == k);
                        assert(l1[k as int].contains(b));
                        assert(l1[k as int] == self.free_lists@[k as int]@);
                    }
                    let idx = position_of(&self.free_lists[k], b);
                    proof {
                        lemma_remove_at(l1[k as int], idx as int);
                        lemma_merge(s1, l1, max, h as int, l1[k as int].remove(idx as int));
                        assert forall|x: nat| (is_node(max, x) && #[trigger] s1[x as int]
                            == BlockState::Allocated) <==> ((old(self).is_allocated(x) && x != hw)
                            || x == h) by {
                            assert(self.is_allocated(x) <==> ((old(self).is_allocated(x) && x
                                != hw) || x == h));
                        }
                        assert(s1[p as int] == BlockState::Split);
                        assert(s1[b as int] == BlockState::Free);
                    }
                    self.free_lists[k].remove(idx);
                    self.states.set(b, BlockState::Absent);
                    self.states.set(h, BlockState::Absent);
                    self.states.set(p, BlockState::Allocated);
                    proof {
                        assert(self.lists() =~= l1.update(k as int, l1[k as int].remove(idx as int)));
                        assert forall|x: nat| #[trigger] self.is_allocated(x) <==> ((old(
                            self,
                        ).is_allocated(x) && x != hw) || x == p) by {
                            if is_node(max, x) && x != h && x != b && x != p {
                                assert(self.states()[x as int] == s1[x as int]);
                            }
                        }
                    }
                    h = p;
                    k = k + 1;
                } else {
                    merging = false;
                }
            }
        }
        let ghost s2 = self.states@;
        let ghost l2 = self.lists();
        proof {
            crate::tree::lemma_order_le(max, h as nat);
            lemma_release(s2, l2, max, h as int);
            assert(l2[k as int] == self.free_lists@[k as int]@);
            assert forall|x: nat| (is_node(max, x) && #[trigger] s2[x as int]
                == BlockState::Allocated) <==> ((old(self).is_allocated(x) && x != hw) || x == h) by {
                assert(self.is_allocated(x) <==> ((old(self).is_allocated(x) && x != hw) || x == h));
            }
        }
        self.states.set(h, BlockState::Free);
        self.free_lists[k].push(h);
        proof {
            assert(self.lists() =~= l2.update(k as int, l2[k as int].push(h)));
            assert forall|x: nat| #[trigger] self.is_allocated(x) <==> (old(self).is_allocated(x)
                && x != hw) by {
                if is_node(max, x) && x != h {
                    assert(self.states()[x as int] == s2[x as int]);
                }
            }
        }
    }

    /// Bytes in the largest free block, or 0 when nothing is free.
    pub fn largest_free_block(&self) -> (r: usize)
        requires
            self.wf(),
        ensures
            r == 0 <==> forall|h: nat| !#[trigger] self.is_free(h),
            r != 0 ==> exists|h: nat| #[trigger] self.is_free(h) && self.block_bytes(h) == r,
            forall|h: nat| #[trigger] self.is_free(h) ==> self.block_bytes(h) <= r,
    {
        let ghost max = self.max_order as nat;
        let ghost leaf = self.leaf_size as nat;
        proof {
            crate::pow::lemma_exp2_exceeds(max + 1);
        }
        let mut k: usize = self.max_order + 1;
        while k > 0
            invariant
                self.wf(),
                max == self.max_order,
                leaf == self.leaf_size,
                k <= max + 1,
                forall|m: int| k <= m <= max ==> (#[trigger] self.lists()[m]).len() == 0,
            decreases k,
        {
            proof {
                assert(self.lists()[k - 1] == self.free_lists@[k - 1]@);
            }
            if self.free_lists[k - 1].len() > 0 {
                proof {
                    let q = (k - 1) as int;
                    let g = self.lists()[q][0];
                    assert(self.is_free(g as nat));
                    lemma_exp2_pos(q as nat);
                    assert(leaf * exp2(q as nat) > 0) by (nonlinear_arith)
                        requires leaf > 0, exp2(q as nat) > 0;
                    assert forall|h: nat| #[trigger] self.is_free(h) implies self.block_bytes(h)
                        <= self.block_bytes(g as nat) by {
                        crate::tree::lemma_order_le(max, h);
                        let o = order_of(max, h);
                        assert(self.lists()[o as int].contains(h as usize));
                        lemma_bytes_mono(leaf, o, q as nat);
                    }
                }
                return self.block_size[k - 1];
            }
            k = k - 1;
        }
        proof {
            assert forall|h: nat| !#[trigger] self.is_free(h) by {
                if self.is_free(h) {
                    crate::tree::lemma_order_le(max, h);
                    assert(self.lists()[order_of(max, h) as int].contains(h as usize));
                }
            }
        }
        0
    }

    /// A node's bytes lie inside the region, and hold at least one leaf.
    pub proof fn lemma_block_in_region(&self, h: nat)
        requires
            self.wf(),
            is_node(self.top(), h),
        ensures
            self.region_base() <= self.block_addr(h),
            self.block_addr(h) + self.block_bytes(h) <= self.region_base() + self.region_size(),
            self.block_bytes(h) >= self.leaf_len(),
            self.block_bytes(h) == self.leaf_len() * exp2(order_of(self.top(), h)),
            self.block_addr(h) == self.region_base() + index_of(h) * self.block_bytes(h),
            self.region_base() + self.region_size() <= usize::MAX,
    {
        let max = self.top();
        let leaf = self.leaf_len();
        lemma_within_root(max, h);
        lemma_exp2_pos(order_of(max, h));
        let (l, z) = (lo(max, h), span(max, h));
        assert(leaf * l + leaf * z <= leaf * exp2(max) && leaf * z >= leaf) by (nonlinear_arith)
            requires l + z <= exp2(max), z >= 1;
        let i = index_of(h);
        assert(leaf * (i * z) == i * (leaf * z)) by (nonlinear_arith);
    }

    /// The shape the allocator keeps: the tree and list rules of `tree_ok`
    /// and `lists_ok`, and so no free block whose buddy is free too.
    pub proof fn lemma_shape(&self)
        requires
            self.wf(),
        ensures
            tree_ok(self.states(), self.top()),
            lists_ok(self.states(), self.lists(), self.top()),
            forall|h: nat| #[trigger] self.is_free(h) && h >= 2 ==> !self.is_free(buddy_of(h)),
    {
        let s = self.states();
        let max = self.top();
        assert forall|h: nat| #[trigger] self.is_free(h) && h >= 2 implies !self.is_free(buddy_of(h)) by {
            let p = up(h as int);
            assert(s[h as int] != BlockState::Absent <==> s[up(h as int)] == BlockState::Split);
            lemma_node_depth(max, h);
            assert(depth(h) == 1 + depth(p as nat));
            lemma_node_depth(max, p as nat);
            lemma_halves(max, p as nat);
            assert(low(p) == h || high(p) == h);
            assert(!(s[low(p)] == BlockState::Free && s[high(p)] == BlockState::Free));
        }
    }

    /// Distinct blocks that are free or handed out occupy disjoint byte
    /// ranges.
    pub proof fn lemma_present_disjoint(&self, a: nat, b: nat)
        requires
            self.wf(),
            self.is_allocated(a) || self.is_free(a),
            self.is_allocated(b) || self.is_free(b),
            a != b,
        ensures
            self.block_addr(a) + self.block_bytes(a) <= self.block_addr(b) || self.block_addr(b)
                + self.block_bytes(b) <= self.block_addr(a),
    {
        let max = self.top();
        let leaf = self.leaf_len();
        if is_ancestor(a, b) {
            lemma_above_present(self.states(), max, a, b);
        }
        if is_ancestor(b, a) {
            lemma_above_present(self.states(), max, b, a);
        }
        lemma_unrelated_apart(max, a, b);
        let (la, za, lb, zb) = (lo(max, a), span(max, a), lo(max, b), span(max, b));
        assert(leaf * la + leaf * za <= leaf * lb || leaf * lb + leaf * zb <= leaf * la)
            by (nonlinear_arith)
            requires la + za <= lb || lb + zb <= la;
    }

    /// Two nodes of one order at one address are the same node.
    pub proof fn lemma_addr_determines(&self, a: nat, b: nat)
        requires
            self.wf(),
            is_node(self.top(), a),
            is_node(self.top(), b),
            order_of(self.top(), a) == order_of(self.top(), b),
            self.block_addr(a) == self.block_addr(b),
        ensures
            a == b,
    {
        let max = self.top();
        let leaf = self.leaf_len();
        lemma_node_depth(max, a);
        lemma_node_depth(max, b);
        if a != b {
            crate::tree::lemma_same_depth_apart(max, a, b);
            let (la, lb, z) = (lo(max, a), lo(max, b), span(max, a));
            lemma_exp2_pos(order_of(max, a));
            assert(leaf * la != leaf * lb) by (nonlinear_arith)
                requires leaf > 0, z >= 1, la + z <= lb || lb + z <= la;
        }
    }

    /// Distinct blocks handed out at the same time occupy disjoint byte
    /// ranges.
    pub proof fn lemma_allocated_disjoint(&self, a: nat, b: nat)
        requires
            self.wf(),
            self.is_allocated(a),
            self.is_allocated(b),
            a != b,
        ensures
            self.block_addr(a) + self.block_bytes(a) <= self.block_addr(b) || self.block_addr(b)
                + self.block_bytes(b) <= self.block_addr(a),
    {
        self.lemma_present_disjoint(a, b);
    }

    /// With nothing handed out, the whole region is one free block and no
    /// other block is free: every merge has been made.
    pub proof fn lemma_idle_whole(&self)
        requires
            self.wf(),
            self.is_idle(),
        ensures
            self.is_free(1),
            self.block_bytes(1) == self.region_size(),
            forall|h: nat| #[trigger] self.is_free(h) ==> h == 1,
    {
        let max = self.top();
        let s = self.states();
        lemma_exp2_pos(max);
        assert(exp2(max + 1) == 2 * exp2(max));
        assert forall|x: int| 1 <= x < s.len() implies #[trigger] s[x] != BlockState::Allocated by {
            assert(!self.is_allocated(x as nat));
        }
        lemma_idle_present_free(s, max, 1);
        assert(depth(1) == 0);
        assert(exp2(0) == 1);
        assert forall|h: nat| #[trigger] self.is_free(h) implies h == 1 by {
            if h != 1 {
                let p = up(h as int);
                assert(s[h as int] != BlockState::Absent <==> s[up(h as int)] == BlockState::Split);
                lemma_idle_present_free(s, max, p as nat);
            }
        }
    }

    /// Handing out a block for `n` bytes from an idle region and returning
    /// it leaves the region idle again, so that any request up to the
    /// region's size, in particular one up to the size of the returned
    /// block, is served; the region itself never changes.
    pub proof fn lemma_round_trip(
        b0: &BuddyAllocator,
        b1: &BuddyAllocator,
        b2: &BuddyAllocator,
        n: nat,
        addr: int,
    )
        requires
            b0.wf(),
            b0.is_idle(),
            b0.serves(b1, n, addr),
            b1.wf(),
            b1.same_region(b0),
            b1.releases(b2, addr, n),
            b2.wf(),
            b2.same_region(b1),
        ensures
            b2.is_idle(),
            forall|m: nat| m <= b0.region_size() ==> #[trigger] b2.can_serve(m),
            exists|h: nat| b0.places(b1, n, h, addr) && n <= b0.block_bytes(h) && b0.block_bytes(h)
                <= b2.region_size(),
    {
        let h = choose|h: nat| b0.places(b1, n, h, addr);
        let h2 = choose|h2: nat|
            b1.holds(addr, n, h2) && forall|x: nat| #[trigger] b2.is_allocated(x) <==> (
            b1.is_allocated(x) && x != h2);
        assert(b1.is_allocated(h));
        lemma_order_for_unique(
            b0.leaf_len(),
            n,
            order_of(b0.top(), h),
            order_of(b0.top(), h2),
        );
        b1.lemma_addr_determines(h, h2);
        assert forall|x: nat| !#[trigger] b2.is_allocated(x) by {
            assert(b1.is_allocated(x) <==> (b0.is_allocated(x) || x == h));
        }
        b2.lemma_idle_whole();
        b0.lemma_block_in_region(h);
    }

    /// Two blocks handed out from an idle region and both returned, in
    /// either order, leave one free block: the whole region.
    pub proof fn lemma_full_coalescing(
        b0: &BuddyAllocator,
        b1: &BuddyAllocator,
        b2: &BuddyAllocator,
        b3: &BuddyAllocator,
        b4: &BuddyAllocator,
        n1: nat,
        a1: int,
        n2: nat,
        a2: int,
        first_returned_is_first_served: bool,
    )
        requires
            b0.wf(),
            b0.is_idle(),
            b0.serves(b1, n1, a1),
            b1.wf(),
            b1.same_region(b0),
            b1.serves(b2, n2, a2),
            b2.wf(),
            b2.same_region(b1),
            if first_returned_is_first_served {
                b2.releases(b3, a1, n1) && b3.releases(b4, a2, n2)
            } else {
                b2.releases(b3, a2, n2) && b3.releases(b4, a1, n1)
            },
            b3.wf(),
            b3.same_region(b2),
            b4.wf(),
            b4.same_region(b3),
        ensures
            b4.is_idle(),
            b4.is_free(1),
            b4.block_bytes(1) == b4.region_size(),
            forall|h: nat| #[trigger] b4.is_free(h) ==> h == 1,
    {
        let h1 = choose|h: nat| b0.places(b1, n1, h, a1);
        let h2 = choose|h: nat| b1.places(b2, n2, h, a2);
        assert(b2.is_allocated(h1)) by {
            assert(b1.is_allocated(h1));
        }
        assert(b2.is_allocated(h2));
        let (ra, na, rb, nb) = if first_returned_is_first_served {
            (a1, n1, a2, n2)
        } else {
            (a2, n2, a1, n1)
        };
        let (ha, hb) = if first_returned_is_first_served {
            (h1, h2)
        } else {
            (h2, h1)
        };
        let g3 = choose|g: nat|
            b2.holds(ra, na, g) && forall|x: nat| #[trigger] b3.is_allocated(x) <==> (
            b2.is_allocated(x) && x != g);
        lemma_order_for_unique(b0.leaf_len(), na, order_of(b0.top(), ha), order_of(b0.top(), g3));
        b2.lemma_addr_determines(ha, g3);
        let g4 = choose|g: nat|
            b3.holds(rb, nb, g) && forall|x: nat| #[trigger] b4.is_allocated(x) <==> (
            b3.is_allocated(x) && x != g);
        assert(h1 != h2) by {
            assert(!b1.is_allocated(h2));
        }
        assert(b3.is_allocated(hb));
        lemma_order_for_unique(b0.leaf_len(), nb, order_of(b0.top(), hb), order_of(b0.top(), g4));
        b3.lemma_addr_determines(hb, g4);
        assert forall|x: nat| !#[trigger] b4.is_allocated(x) by {
            assert(b1.is_allocated(x) <==> (b0.is_allocated(x) || x == h1));
            assert(b2.is_allocated(x) <==> (b1.is_allocated(x) || x == h2));
            assert(b3.is_allocated(x) <==> (b2.is_allocated(x) && x != ha));
        }
        b4.lemma_idle_whole();
    }
}

/// Index of `x` in `v`.
fn position_of(v: &Vec<usize>, x: usize) -> (r: usize)
    requires
        v@.contains(x),
    ensures
        r < v@.len(),
        v@[r as int] == x,
{
    let len = v.len();
    let mut i: usize = 0;
    while v[i] != x
        invariant
            v@.contains(x),
            len == v@.len(),
            i < v@.len(),
            forall|m: int| 0 <= m < i ==> v@[m] != x,
        decreases v@.len() - i,
    {
        proof {
            let m = choose|m: int| 0 <= m < v@.len() && v@[m] == x;
            assert(m > i);
            assert(i + 1 < len);
        }
        i = i + 1;
    }
    i
}

proof fn lemma_order_for_unique(leaf: nat, n: nat, a: nat, b: nat)
    requires
        n <= leaf * exp2(a),
        a == 0 || leaf * exp2((a - 1) as nat) < n,
        n <= leaf * exp2(b),
        b == 0 || leaf * exp2((b - 1) as nat) < n,
    ensures
        a == b,
{
    if a < b {
        lemma_bytes_mono(leaf, a, (b - 1) as nat);
    } else if b < a {
        lemma_bytes_mono(leaf, b, (a - 1) as nat);
    }
}

} // verus!
