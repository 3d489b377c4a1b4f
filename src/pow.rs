//! Powers of two, as the block arithmetic uses them.

use vstd::prelude::*;

verus! {

/// `2^e`.
pub open spec fn exp2(e: nat) -> nat
    decreases e,
{
    if e == 0 {
        1
    } else {
        2 * exp2((e - 1) as nat)
    }
}

/// `n` is a power of two.
pub open spec fn is_pow2(n: nat) -> bool {
    exists|e: nat| exp2(e) == n
}

pub proof fn lemma_exp2_pos(e: nat)
    ensures
        exp2(e) >= 1,
    decreases e,
{
    if e > 0 {
        lemma_exp2_pos((e - 1) as nat);
    }
}

pub proof fn lemma_exp2_strict_mono(a: nat, b: nat)
    requires
        a < b,
    ensures
        exp2(a) < exp2(b),
    decreases b,
{
    lemma_exp2_pos((b - 1) as nat);
    if a < b - 1 {
        lemma_exp2_strict_mono(a, (b - 1) as nat);
    }
}

pub proof fn lemma_pow2_pos(n: nat)
    requires
        is_pow2(n),
    ensures
        n >= 1,
{
    let e = choose|e: nat| exp2(e) == n;
    lemma_exp2_pos(e);
}

pub proof fn lemma_exp2_exceeds(e: nat)
    ensures
        exp2(e) > e,
    decreases e,
{
    if e > 0 {
        lemma_exp2_exceeds((e - 1) as nat);
    }
}

pub proof fn lemma_exp2_mono(a: nat, b: nat)
    requires
        a <= b,
    ensures
        exp2(a) <= exp2(b),
{
    if a < b {
        lemma_exp2_strict_mono(a, b);
    }
}

} // verus!
