//! Nodes of the complete binary tree of buddy blocks, numbered as in a
//! heap: node 1 is the whole region, node `h` has the halves `2h` and
//! `2h + 1`, and its buddy is `h ^ 1`. In a tree of `max + 1` levels a node
//! of depth `d` has order `max - d`, spans `2^(max - d)` leaves and starts
//! at leaf `lo`.

use vstd::prelude::*;
use crate::pow::{exp2, lemma_exp2_pos, lemma_exp2_mono};

verus! {

/// Depth of node `h`: the root has depth 0.
pub open spec fn depth(h: nat) -> nat
    decreases h,
{
    if h <= 1 {
        0
    } else {
        1 + depth(h / 2)
    }
}

/// `a` is `x` or one of the blocks that contain it.
pub open spec fn is_ancestor(a: nat, x: nat) -> bool
    decreases x,
{
    x == a || (x > 1 && is_ancestor(a, x / 2))
}

/// `h` is a node of the tree whose leaves have depth `max`.
pub open spec fn is_node(max: nat, h: nat) -> bool {
    1 <= h < exp2(max + 1)
}

pub open spec fn order_of(max: nat, h: nat) -> nat {
    if depth(h) <= max {
        (max - depth(h)) as nat
    } else {
        0
    }
}

pub proof fn lemma_order_le(max: nat, h: nat)
    ensures
        order_of(max, h) <= max,
        depth(h) <= max ==> order_of(max, h) + depth(h) == max,
{
}

/// Position of `h` among the nodes of its depth.
pub open spec fn index_of(h: nat) -> nat {
    (h - exp2(depth(h))) as nat
}

/// First leaf of `h`.
pub open spec fn lo(max: nat, h: nat) -> nat {
    index_of(h) * exp2(order_of(max, h))
}

/// Number of leaves in `h`.
pub open spec fn span(max: nat, h: nat) -> nat {
    exp2(order_of(max, h))
}

/// The ancestor of `x` at depth `d`.
pub open spec fn ancestor_at(x: nat, d: nat) -> nat
    decreases x,
{
    if x <= 1 || depth(x) <= d {
        x
    } else {
        ancestor_at(x / 2, d)
    }
}

/// Two leaf ranges do not meet.
pub open spec fn apart(lo1: nat, len1: nat, lo2: nat, len2: nat) -> bool {
    lo1 + len1 <= lo2 || lo2 + len2 <= lo1
}

pub proof fn lemma_depth_bounds(h: nat)
    requires
        h >= 1,
    ensures
        exp2(depth(h)) <= h < exp2(depth(h) + 1),
    decreases h,
{
    if h > 1 {
        lemma_depth_bounds(h / 2);
        assert(exp2(depth(h)) == 2 * exp2(depth(h / 2)));
        assert(exp2(depth(h) + 1) == 2 * exp2(depth(h / 2) + 1));
    } else {
        assert(exp2(0) == 1);
        assert(exp2(1) == 2 * exp2(0));
    }
}

pub proof fn lemma_node_depth(max: nat, h: nat)
    requires
        is_node(max, h),
    ensures
        depth(h) <= max,
        depth(h) == max <==> h >= exp2(max),
{
    lemma_depth_bounds(h);
    if depth(h) > max {
        lemma_exp2_mono(max + 1, depth(h));
    }
    if depth(h) < max {
        lemma_exp2_mono(depth(h) + 1, max);
    }
}

/// The halves of `h`: one level down, twice the index, the same leaves.
pub proof fn lemma_halves(max: nat, h: nat)
    requires
        is_node(max, h),
        depth(h) < max,
    ensures
        is_node(max, 2 * h),
        is_node(max, 2 * h + 1),
        depth(2 * h) == depth(h) + 1,
        depth(2 * h + 1) == depth(h) + 1,
        order_of(max, h) >= 1,
        order_of(max, 2 * h) == order_of(max, h) - 1,
        order_of(max, 2 * h + 1) == order_of(max, h) - 1,
        span(max, h) == 2 * span(max, 2 * h),
        span(max, 2 * h + 1) == span(max, 2 * h),
        lo(max, 2 * h) == lo(max, h),
        lo(max, 2 * h + 1) == lo(max, h) + span(max, 2 * h),
        (2 * h) / 2 == h,
        (2 * h + 1) / 2 == h,
{
    lemma_depth_bounds(h);
    let d = depth(h);
    assert(depth(2 * h) == 1 + depth(h));
    assert(depth(2 * h + 1) == 1 + depth(h));
    lemma_exp2_mono(d + 2, max + 1);
    let o = order_of(max, h);
    let q = exp2((o - 1) as nat);
    assert(exp2(o) == 2 * q);
    assert(exp2(d + 1) == 2 * exp2(d));
    let i = index_of(h);
    assert(index_of(2 * h) == 2 * i);
    assert(index_of(2 * h + 1) == 2 * i + 1);
    assert((2 * i) * q == i * (2 * q)) by (nonlinear_arith);
    assert((2 * i + 1) * q == i * (2 * q) + q) by (nonlinear_arith);
}

/// Every node lies under the root.
pub proof fn lemma_root_ancestor(x: nat)
    requires
        x >= 1,
    ensures
        is_ancestor(1, x),
    decreases x,
{
    if x > 1 {
        lemma_root_ancestor(x / 2);
    }
}

/// A block contains the leaves of each block under it.
pub proof fn lemma_ancestor_contains(max: nat, a: nat, x: nat)
    requires
        is_node(max, x),
        a >= 1,
        is_ancestor(a, x),
    ensures
        is_node(max, a),
        depth(a) <= depth(x),
        lo(max, a) <= lo(max, x),
        lo(max, x) + span(max, x) <= lo(max, a) + span(max, a),
    decreases x,
{
    if x != a {
        let p = x / 2;
        lemma_exp2_pos(max + 1);
        lemma_node_depth(max, x);
        assert(depth(x) == 1 + depth(p));
        lemma_node_depth(max, p);
        lemma_halves(max, p);
        lemma_ancestor_contains(max, a, p);
    }
}

/// The ancestor of `x` at a depth no greater than its own.
pub proof fn lemma_ancestor_at(x: nat, d: nat)
    requires
        x >= 1,
        d <= depth(x),
    ensures
        ancestor_at(x, d) >= 1,
        depth(ancestor_at(x, d)) == d,
        is_ancestor(ancestor_at(x, d), x),
    decreases x,
{
    if x > 1 && depth(x) > d {
        lemma_ancestor_at(x / 2, d);
        lemma_ancestor_step(ancestor_at(x / 2, d), x / 2, x);
    }
}

proof fn lemma_ancestor_step(a: nat, p: nat, x: nat)
    requires
        is_ancestor(a, p),
        x > 1,
        x / 2 == p,
    ensures
        is_ancestor(a, x),
{
}

/// Distinct nodes of one depth hold disjoint leaves.
pub proof fn lemma_same_depth_apart(max: nat, a: nat, b: nat)
    requires
        is_node(max, a),
        is_node(max, b),
        depth(a) == depth(b),
        a != b,
    ensures
        apart(lo(max, a), span(max, a), lo(max, b), span(max, b)),
{
    let z = span(max, a);
    let ia = index_of(a);
    let ib = index_of(b);
    lemma_depth_bounds(a);
    lemma_depth_bounds(b);
    assert(ia != ib);
    if ia < ib {
        assert(ia * z + z <= ib * z) by (nonlinear_arith) requires ia < ib;
    } else {
        assert(ib * z + z <= ia * z) by (nonlinear_arith) requires ib < ia, ia != ib;
    }
}

/// Nodes neither of which lies under the other hold disjoint leaves.
pub proof fn lemma_unrelated_apart(max: nat, a: nat, b: nat)
    requires
        is_node(max, a),
        is_node(max, b),
        !is_ancestor(a, b),
        !is_ancestor(b, a),
    ensures
        apart(lo(max, a), span(max, a), lo(max, b), span(max, b)),
{
    if depth(a) <= depth(b) {
        let c = ancestor_at(b, depth(a));
        lemma_ancestor_at(b, depth(a));
        lemma_ancestor_contains(max, c, b);
        lemma_same_depth_apart(max, a, c);
    } else {
        let c = ancestor_at(a, depth(b));
        lemma_ancestor_at(a, depth(b));
        lemma_ancestor_contains(max, c, a);
        lemma_same_depth_apart(max, b, c);
    }
}

/// Every node lies within the root's `2^max` leaves.
pub proof fn lemma_within_root(max: nat, h: nat)
    requires
        is_node(max, h),
    ensures
        lo(max, h) + span(max, h) <= exp2(max),
{
    lemma_root_ancestor(h);
    lemma_ancestor_contains(max, 1, h);
    assert(depth(1) == 0);
    assert(exp2(0) == 1);
    assert(index_of(1) == 0);
    assert(order_of(max, 1) == max);
    assert(lo(max, 1) == 0 * exp2(max));
    assert(0 * exp2(max) == 0) by (nonlinear_arith);
    assert(span(max, 1) == exp2(max));
}

} // verus!
