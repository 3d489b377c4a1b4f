//! The partition of the arena into a fast region and a general region.

use vstd::prelude::*;
use crate::pow::{exp2, is_pow2, lemma_exp2_strict_mono};

verus! {

/// The sizes the arena is built from.
#[derive(Clone, Copy, Debug, PartialEq, Eq)]
pub struct ArenaConfig {
    pub total_size: usize,
    pub fast_region_size: usize,
    pub fast_slot_size: usize,
    pub leaf_size: usize,
}

/// Why an arena cannot be laid out.
#[derive(Clone, Copy, Debug, PartialEq, Eq)]
pub enum ConfigError {
    /// The slot size is zero.
    ZeroSlotSize,
    /// The fast region is empty or not a whole number of slots.
    BadFastRegion,
    /// The leaf size is not a power of two.
    BadLeafSize,
    /// No leaf-sized block fits beside the fast region.
    ArenaTooSmall,
    /// The arena runs past the end of the address space.
    AddressOverflow,
    /// The buddy tree of the general region would not fit in memory.
    GeneralRegionTooLarge,
}

/// Where the two regions lie. The general region is the largest span of
/// `leaf_size * 2^max_order` bytes that fits after the fast region; what is
/// left above it is never handed out.
#[derive(Clone, Copy, Debug, PartialEq, Eq)]
pub struct ArenaLayout {
    pub base: usize,
    pub total_size: usize,
    pub fast_size: usize,
    pub slot_size: usize,
    pub leaf_size: usize,
    pub general_base: usize,
    pub max_order: usize,
    pub general_size: usize,
}

/// The largest order whose block fits in `avail` bytes.
pub open spec fn is_top_order(leaf: nat, avail: nat, k: nat) -> bool {
    leaf * exp2(k) <= avail && avail < leaf * exp2(k + 1)
}

/// Bound on the order of the general region: its buddy tree has
/// `2^(max_order + 1)` nodes, which must be countable.
pub open spec fn order_fits(k: nat) -> bool {
    exp2(k + 1) <= usize::MAX
}

/// The error `compute_layout` reports for these inputs, if any.
pub open spec fn config_error(base: nat, c: ArenaConfig) -> Option<ConfigError> {
    if c.fast_slot_size == 0 {
        Some(ConfigError::ZeroSlotSize)
    } else if c.fast_region_size == 0 || c.fast_region_size % c.fast_slot_size != 0 {
        Some(ConfigError::BadFastRegion)
    } else if !is_pow2(c.leaf_size as nat) {
        Some(ConfigError::BadLeafSize)
    } else if c.total_size < c.fast_region_size + c.leaf_size {
        Some(ConfigError::ArenaTooSmall)
    } else if base + c.total_size > usize::MAX {
        Some(ConfigError::AddressOverflow)
    } else if !(forall|k: nat|
        is_top_order(c.leaf_size as nat, (c.total_size - c.fast_region_size) as nat, k)
            ==> order_fits(k)) {
        Some(ConfigError::GeneralRegionTooLarge)
    } else {
        None
    }
}

impl ArenaLayout {
    /// The layout this arena gets from a configuration and a base address.
    pub open spec fn describes(self, base: nat, c: ArenaConfig) -> bool {
        &&& self.base == base
        &&& self.total_size == c.total_size
        &&& self.fast_size == c.fast_region_size
        &&& self.slot_size == c.fast_slot_size
        &&& self.leaf_size == c.leaf_size
        &&& self.general_base == base + c.fast_region_size
        &&& is_top_order(c.leaf_size as nat, (c.total_size - c.fast_region_size) as nat, self.max_order as nat)
        &&& self.general_size == c.leaf_size * exp2(self.max_order as nat)
    }

    /// What every layout that `compute_layout` returns satisfies.
    pub open spec fn wf(self) -> bool {
        &&& self.slot_size > 0
        &&& self.fast_size > 0
        &&& self.fast_size % self.slot_size == 0
        &&& is_pow2(self.leaf_size as nat)
        &&& self.leaf_size > 0
        &&& self.general_base == self.base + self.fast_size
        &&& self.general_size == self.leaf_size * exp2(self.max_order as nat)
        &&& self.fast_size + self.general_size <= self.total_size
        &&& self.base + self.total_size <= usize::MAX
        &&& order_fits(self.max_order as nat)
    }

    /// The fast region holds `addr`.
    pub open spec fn in_fast_region(self, addr: int) -> bool {
        self.base <= addr < self.base + self.fast_size
    }

    /// The general region's usable span holds `addr`.
    pub open spec fn in_general_region(self, addr: int) -> bool {
        self.general_base <= addr < self.general_base + self.general_size
    }

    /// Whether `addr` lies in the fast region: a comparison of the address
    /// with the region's bounds.
    pub fn is_fast_address(&self, addr: usize) -> (r: bool)
        requires
            self.wf(),
        ensures
            r == self.in_fast_region(addr as int),
    {
        self.base <= addr && addr < self.base + self.fast_size
    }
}

/// Lays the arena out from `base`. Fails with the first error of
/// `config_error`, in that order.
pub fn compute_layout(base: usize, c: ArenaConfig) -> (r: Result<ArenaLayout, ConfigError>)
    ensures
        match r {
            Ok(l) => config_error(base as nat, c).is_none() && l.describes(base as nat, c) && l.wf(),
            Err(e) => config_error(base as nat, c) == Some(e),
        },
{
    if c.fast_slot_size == 0 {
        return Err(ConfigError::ZeroSlotSize);
    }
    if c.fast_region_size == 0 || c.fast_region_size % c.fast_slot_size != 0 {
        return Err(ConfigError::BadFastRegion);
    }
    if !is_power_of_two(c.leaf_size) {
        return Err(ConfigError::BadLeafSize);
    }
    proof {
        crate::pow::lemma_pow2_pos(c.leaf_size as nat);
    }
    if c.total_size < c.fast_region_size || c.total_size - c.fast_region_size < c.leaf_size {
        return Err(ConfigError::ArenaTooSmall);
    }
    if base > usize::MAX - c.total_size {
        return Err(ConfigError::AddressOverflow);
    }
    let avail = c.total_size - c.fast_region_size;
    let (k, size) = top_order(c.leaf_size, avail);
    proof {
        assert forall|j: nat| is_top_order(c.leaf_size as nat, avail as nat, j) implies j == k by {
            lemma_top_order_unique(c.leaf_size as nat, avail as nat, j, k as nat);
        }
    }
    if k == usize::MAX || checked_exp2(k + 1).is_none() {
        proof {
            assert(is_top_order(c.leaf_size as nat, avail as nat, k as nat));
            if k == usize::MAX {
                crate::pow::lemma_exp2_exceeds((k + 1) as nat);
            }
            assert(!order_fits(k as nat));
        }
        return Err(ConfigError::GeneralRegionTooLarge);
    }
    Ok(ArenaLayout {
        base,
        total_size: c.total_size,
        fast_size: c.fast_region_size,
        slot_size: c.fast_slot_size,
        leaf_size: c.leaf_size,
        general_base: base + c.fast_region_size,
        max_order: k,
        general_size: size,
    })
}

/// Whether `n` is a power of two.
pub fn is_power_of_two(n: usize) -> (r: bool)
    ensures
        r == is_pow2(n as nat),
{
    let mut p: usize = 1;
    let ghost mut e: nat = 0;
    while p < n
        invariant
            p == exp2(e),
            p >= 1,
            forall|j: nat| j < e ==> exp2(j) < n,
        decreases usize::MAX - p,
    {
        if p > usize::MAX / 2 {
            proof {
                assert forall|j: nat| exp2(j) != n by {
                    if j > e {
                        crate::pow::lemma_exp2_mono(e + 1, j);
                    }
                }
            }
            return false;
        }
        p = p * 2;
        proof {
            e = e + 1;
        }
    }
    proof {
        if p != n {
            assert forall|j: nat| exp2(j) != n by {
                if j > e {
                    lemma_exp2_strict_mono(e, j);
                }
            }
        }
    }
    p == n
}

proof fn lemma_top_order_unique(leaf: nat, avail: nat, a: nat, b: nat)
    requires
        is_top_order(leaf, avail, a),
        is_top_order(leaf, avail, b),
    ensures
        a == b,
{
    if a < b {
        crate::pow::lemma_exp2_mono(a + 1, b);
        assert(leaf * exp2(a + 1) <= leaf * exp2(b)) by (nonlinear_arith)
            requires exp2(a + 1) <= exp2(b);
    } else if b < a {
        crate::pow::lemma_exp2_mono(b + 1, a);
        assert(leaf * exp2(b + 1) <= leaf * exp2(a)) by (nonlinear_arith)
            requires exp2(b + 1) <= exp2(a);
    }
}

/// `2^e`, where it fits in a `usize`.
pub fn checked_exp2(e: usize) -> (r: Option<usize>)
    ensures
        match r {
            Some(p) => p == exp2(e as nat),
            None => exp2(e as nat) > usize::MAX,
        },
{
    let mut p: usize = 1;
    let mut i: usize = 0;
    assert(exp2(0) == 1);
    while i < e
        invariant
            i <= e,
            p == exp2(i as nat),
        decreases e - i,
    {
        if p > usize::MAX / 2 {
            proof {
                crate::pow::lemma_exp2_mono((i + 1) as nat, e as nat);
            }
            return None;
        }
        p = p * 2;
        i = i + 1;
    }
    Some(p)
}

/// The largest order `k` with `leaf * 2^k <= avail`, and that block size.
fn top_order(leaf: usize, avail: usize) -> (r: (usize, usize))
    requires
        leaf >= 1,
        leaf <= avail,
    ensures
        is_top_order(leaf as nat, avail as nat, r.0 as nat),
        r.1 == leaf * exp2(r.0 as nat),
{
    let mut k: usize = 0;
    let mut size: usize = leaf;
    assert(exp2(0) == 1);
    while size <= avail / 2
        invariant
            size == leaf * exp2(k as nat),
            size <= avail,
            size >= leaf,
            leaf >= 1,
            exp2(k as nat) <= size,
            k < exp2(k as nat),
        decreases avail - size,
    {
        proof {
            assert(leaf * exp2((k + 1) as nat) == 2 * (leaf * exp2(k as nat))) by (nonlinear_arith)
                requires exp2((k + 1) as nat) == 2 * exp2(k as nat);
            crate::pow::lemma_exp2_exceeds(k as nat);
            crate::pow::lemma_exp2_exceeds((k + 1) as nat);
            assert(exp2((k + 1) as nat) <= 2 * size) by (nonlinear_arith)
                requires exp2((k + 1) as nat) == 2 * exp2(k as nat), exp2(k as nat) <= size;
        }
        size = size * 2;
        k = k + 1;
    }
    proof {
        assert(leaf * exp2((k + 1) as nat) == 2 * (leaf * exp2(k as nat))) by (nonlinear_arith)
            requires exp2((k + 1) as nat) == 2 * exp2(k as nat);
    }
    (k, size)
}

} // verus!
