//! The allocator facade: lays the arena out on first use, sends requests
//! that fit a slot to the fast pool and all others to the buddy allocator,
//! and sends each returned address back to the region that holds it.

use vstd::prelude::*;
use crate::buddy::BuddyAllocator;
use crate::fast_pool::FastPool;
use crate::layout::{compute_layout, config_error, ArenaConfig, ArenaLayout, ConfigError};

verus! {

/// Why a request was not served.
#[derive(Clone, Copy, Debug, PartialEq, Eq)]
pub enum AllocError {
    /// The arena could not be laid out.
    Config(ConfigError),
    /// The request fits a slot and every slot is handed out.
    FastPoolExhausted,
    /// No free block of the general region is large enough.
    OutOfMemory,
}

struct Arena {
    layout: ArenaLayout,
    fast: FastPool,
    general: BuddyAllocator,
}

/// The allocator of one arena. Until its first request it only holds the
/// configuration; that request lays the arena out, once.
pub struct Allocator {
    config: ArenaConfig,
    arena: Option<Arena>,
    failure: Option<ConfigError>,
    layouts_computed: u64,
}

/// Bytes the general region is asked for: the size, raised to the
/// alignment.
pub open spec fn general_request(size: nat, align: nat) -> nat {
    if size >= align {
        size
    } else {
        align
    }
}

impl Allocator {
    pub closed spec fn config(&self) -> ArenaConfig {
        self.config
    }

    /// The arena has been laid out.
    pub closed spec fn is_ready(&self) -> bool {
        self.arena.is_some()
    }

    /// Why laying the arena out failed, if it did.
    pub closed spec fn failure(&self) -> Option<ConfigError> {
        self.failure
    }

    /// Times the layout has been computed.
    pub closed spec fn layout_count(&self) -> nat {
        self.layouts_computed as nat
    }

    pub closed spec fn regions(&self) -> ArenaLayout {
        self.arena.unwrap().layout
    }

    pub closed spec fn fast(&self) -> FastPool {
        self.arena.unwrap().fast
    }

    pub closed spec fn general(&self) -> BuddyAllocator {
        self.arena.unwrap().general
    }

    pub closed spec fn wf(&self) -> bool {
        &&& self.layouts_computed == if self.arena.is_some() || self.failure.is_some() {
            1int
        } else {
            0int
        }
        &&& !(self.arena.is_some() && self.failure.is_some())
        &&& self.arena.is_some() ==> arena_ok(self.arena.unwrap(), self.config)
    }

    /// A request of `size` bytes aligned to `align` goes to the fast pool.
    pub open spec fn fits_fast(&self, size: nat, align: nat) -> bool {
        size <= self.config().fast_slot_size && align <= self.config().fast_slot_size
    }

    /// `addr` was handed out for `size` bytes aligned to `align` and not
    /// returned since.
    pub open spec fn is_live(&self, addr: int, size: nat, align: nat) -> bool {
        if self.fits_fast(size, align) {
            exists|i: nat| #[trigger] self.fast().is_live(i) && addr == self.fast().slot_addr(i)
        } else {
            self.general().is_block_of(addr, general_request(size, align))
        }
    }

    /// Nothing is handed out.
    pub open spec fn is_quiet(&self) -> bool {
        self.fast().is_idle() && self.general().is_idle()
    }

    /// A request of `size` bytes aligned to `align` would be served.
    pub open spec fn can_allocate(&self, size: nat, align: nat) -> bool {
        if self.fits_fast(size, align) {
            self.fast().free_list().len() > 0
        } else {
            self.general().can_serve(general_request(size, align))
        }
    }

    /// The arena as laid out from `base`, with nothing handed out: every
    /// slot free in address order, the general region one free block.
    pub open spec fn is_fresh(&self, base: nat) -> bool {
        &&& self.is_ready()
        &&& self.regions().describes(base, self.config())
        &&& self.fast().free_list().len() == self.fast().slot_count()
        &&& (forall|j: int| 0 <= j < self.fast().slot_count() ==> self.fast().free_list()[j] == j)
        &&& self.general().is_idle()
        &&& self.general().is_free(1)
    }

    /// `after` is the ready allocator `self` having answered `r` to a
    /// request of `size` bytes aligned to `align`.
    pub open spec fn allocates(&self, after: &Self, size: nat, align: nat, r: Result<usize, AllocError>) -> bool {
        let n = general_request(size, align);
        &&& after.is_ready()
        &&& after.config() == self.config()
        &&& after.regions() == self.regions()
        &&& after.layout_count() == self.layout_count()
        &&& after.failure() == self.failure()
        &&& after.fast().same_pool(&self.fast())
        &&& after.general().same_region(&self.general())
        &&& if self.fits_fast(size, align) {
            &&& after.general() == self.general()
            &&& (r == Err::<usize, AllocError>(AllocError::FastPoolExhausted) <==> self.fast().free_list().len() == 0)
            &&& (r is Err ==> r == Err::<usize, AllocError>(AllocError::FastPoolExhausted) && after.fast().free_list() == self.fast().free_list())
            &&& (r matches Ok(addr) ==> addr == self.fast().slot_addr(self.fast().free_list()[0] as nat)
                && after.fast().free_list() == self.fast().free_list().drop_first())
        } else {
            &&& after.fast().free_list() == self.fast().free_list()
            &&& (r is Ok <==> self.general().can_serve(n))
            &&& (r is Err ==> r == Err::<usize, AllocError>(AllocError::OutOfMemory) && after.general() == self.general())
            &&& (r matches Ok(addr) ==> self.general().serves(&after.general(), n, addr as int))
        }
        &&& (r matches Ok(addr) ==> (self.fits_fast(size, align) <==> self.regions().in_fast_region(addr as int)))
        &&& (r matches Ok(addr) ==> after.is_live(addr as int, size, align))
    }

    /// `after` is the ready allocator `self` with the allocation at `addr`,
    /// for `size` bytes aligned to `align`, returned.
    pub open spec fn deallocates(&self, after: &Self, addr: int, size: nat, align: nat) -> bool {
        &&& after.is_ready()
        &&& after.config() == self.config()
        &&& after.regions() == self.regions()
        &&& after.layout_count() == self.layout_count()
        &&& after.failure() == self.failure()
        &&& after.fast().same_pool(&self.fast())
        &&& after.general().same_region(&self.general())
        &&& if self.fits_fast(size, align) {
            &&& after.general() == self.general()
            &&& exists|i: nat| #[trigger] self.fast().is_live(i) && addr == self.fast().slot_addr(i)
                && after.fast().free_list() == seq![i as usize] + self.fast().free_list()
        } else {
            &&& after.fast().free_list() == self.fast().free_list()
            &&& self.general().releases(&after.general(), addr, general_request(size, align))
        }
    }
}

impl Allocator {
    /// An allocator whose arena is laid out by its first request, from the
    /// base address that request supplies.
    pub fn deferred(config: ArenaConfig) -> (r: Allocator)
        ensures
            r.wf(),
            r.config() == config,
            !r.is_ready(),
            r.failure().is_none(),
            r.layout_count() == 0,
    {
        Allocator { config, arena: None, failure: None, layouts_computed: 0 }
    }

    /// An allocator whose arena is laid out now, from a base address known
    /// in advance.
    pub fn fixed(base: usize, config: ArenaConfig) -> (r: Result<Allocator, ConfigError>)
        ensures
            match r {
                Ok(a) => a.wf() && a.config() == config && a.is_fresh(base as nat) && a.layout_count()
                    == 1 && a.failure().is_none() && config_error(base as nat, config).is_none(),
                Err(e) => config_error(base as nat, config) == Some(e),
            },
    {
        let mut a = Allocator::deferred(config);
        match a.prepare(base) {
            Ok(()) => Ok(a),
            Err(e) => Err(e),
        }
    }

    /// Lays the arena out from `heap_base` unless that has been done, or
    /// tried, before: the layout is computed at most once, and every later
    /// call sees the same regions, or the same error.
    pub fn prepare(&mut self, heap_base: usize) -> (r: Result<(), ConfigError>)
        requires
            old(self).wf(),
        ensures
            final(self).wf(),
            final(self).config() == old(self).config(),
            final(self).layout_count() <= 1,
            r is Ok <==> final(self).is_ready(),
            old(self).is_ready() ==> r is Ok && *final(self) == *old(self),
            old(self).failure() matches Some(e) ==> r == Err::<(), ConfigError>(e) && *final(self)
                == *old(self),
            !old(self).is_ready() && old(self).failure().is_none() ==> final(self).layout_count()
                == 1 && match r {
                Ok(_) => final(self).is_fresh(heap_base as nat) && final(self).failure().is_none()
                    && config_error(heap_base as nat, old(self).config()).is_none(),
                Err(e) => config_error(heap_base as nat, old(self).config()) == Some(e)
                    && final(self).failure() == Some(e),
            },
    {
        if self.arena.is_some() {
            return Ok(());
        }
        match self.failure {
            Some(e) => {
                return Err(e);
            },
            None => {},
        }
        self.layouts_computed = self.layouts_computed + 1;
        match compute_layout(heap_base, self.config) {
            Ok(l) => {
                self.arena = Some(build_arena(l, self.config));
                Ok(())
            },
            Err(e) => {
                self.failure = Some(e);
                Err(e)
            },
        }
    }

    /// Serves a request of `size` bytes aligned to `align`, laying the arena
    /// out from `heap_base` first if no request has done so. A request that
    /// fits a slot is served by the fast pool or fails; any other by the
    /// general region or fails. Neither falls back on the other.
    pub fn allocate(&mut self, heap_base: usize, size: usize, align: usize) -> (r: Result<usize, AllocError>)
        requires
            old(self).wf(),
        ensures
            final(self).wf(),
            final(self).config() == old(self).config(),
            final(self).layout_count() <= 1,
            r matches Err(AllocError::Config(_)) <==> !final(self).is_ready(),
            old(self).is_ready() ==> old(self).allocates(final(self), size as nat, align as nat, r),
            old(self).failure() matches Some(e) ==> r == Err::<usize, AllocError>(AllocError::Config(e))
                && *final(self) == *old(self),
            !old(self).is_ready() && old(self).failure().is_none() ==> final(self).layout_count()
                == 1 && match r {
                Err(AllocError::Config(e)) => config_error(heap_base as nat, old(self).config())
                    == Some(e) && final(self).failure() == Some(e),
                _ => config_error(heap_base as nat, old(self).config()).is_none() && exists|
                    mid: Allocator,
                | #[trigger] mid.is_fresh(heap_base as nat) && mid.wf() && mid.config() == old(
                    self,
                ).config() && mid.allocates(final(self), size as nat, align as nat, r),
            },
    {
        match self.prepare(heap_base) {
            Err(e) => {
                return Err(AllocError::Config(e));
            },
            Ok(()) => {},
        }
        let ghost mid = *self;
        let mut arena = self.arena.take().unwrap();
        let slot = self.config.fast_slot_size;
        let r = if size <= slot && align <= slot {
            match arena.fast.allocate() {
                Some(a) => Ok(a),
                None => Err(AllocError::FastPoolExhausted),
            }
        } else {
            let n = if size >= align {
                size
            } else {
                align
            };
            match arena.general.allocate(n) {
                Some(a) => Ok(a),
                None => Err(AllocError::OutOfMemory),
            }
        };
        self.arena = Some(arena);
        proof {
            let m = mid.arena.unwrap();
            let f = self.arena.unwrap();
            assert(self.fast() == f.fast && self.general() == f.general);
            assert(mid.fast() == m.fast && mid.general() == m.general);
            assert(self.regions() == mid.regions());
            match r {
                Ok(addr) => {
                    if size <= slot && align <= slot {
                        let i = m.fast.free_list()[0] as nat;
                        f.fast.lemma_live_in_region(i);
                        assert(self.is_live(addr as int, size as nat, align as nat));
                    } else {
                        let n = general_request(size as nat, align as nat);
                        assert(m.general.serves(&f.general, n, addr as int));
                        let h = choose|h: nat| m.general.places(&f.general, n, h, addr as int);
                        m.general.lemma_block_in_region(h);
                        assert(f.general.holds(addr as int, n, h));
                        assert(self.is_live(addr as int, size as nat, align as nat));
                    }
                },
                Err(_) => {},
            }
            assert(mid.allocates(self, size as nat, align as nat, r));
        }
        r
    }

    /// Returns the allocation at `addr`, made for `size` bytes aligned to
    /// `align`, to the region whose address range holds it.
    pub fn deallocate(&mut self, addr: usize, size: usize, align: usize)
        requires
            old(self).wf(),
            old(self).is_ready(),
            old(self).is_live(addr as int, size as nat, align as nat),
        ensures
            final(self).wf(),
            old(self).deallocates(final(self), addr as int, size as nat, align as nat),
    {
        let ghost before = *self;
        let mut arena = self.arena.take().unwrap();
        proof {
            let m = before.arena.unwrap();
            if before.fits_fast(size as nat, align as nat) {
                let i = choose|i: nat| #[trigger] m.fast.is_live(i) && addr == m.fast.slot_addr(i);
                m.fast.lemma_live_in_region(i);
            } else {
                let n = general_request(size as nat, align as nat);
                let h = choose|h: nat| m.general.holds(addr as int, n, h);
                m.general.lemma_block_in_region(h);
            }
        }
        if arena.layout.is_fast_address(addr) {
            arena.fast.free(addr);
        } else {
            let n = if size >= align {
                size
            } else {
                align
            };
            arena.general.free(addr, n);
        }
        self.arena = Some(arena);
    }

    /// The layout, once computed.
    pub fn current_layout(&self) -> (r: Option<ArenaLayout>)
        requires
            self.wf(),
        ensures
            r matches Some(l) ==> self.is_ready() && l == self.regions(),
            r is None ==> !self.is_ready(),
    {
        match &self.arena {
            Some(a) => Some(a.layout),
            None => None,
        }
    }

    /// How many times the layout has been computed: 0 or 1.
    pub fn layouts_computed(&self) -> (r: u64)
        requires
            self.wf(),
        ensures
            r == self.layout_count(),
            r <= 1,
    {
        self.layouts_computed
    }

    /// Bytes in the largest free block of the general region; 0 before the
    /// arena is laid out.
    pub fn largest_free_general_block(&self) -> (r: usize)
        requires
            self.wf(),
        ensures
            !self.is_ready() ==> r == 0,
            self.is_ready() ==> (r == 0 <==> forall|h: nat| !#[trigger] self.general().is_free(h)),
            self.is_ready() && r != 0 ==> exists|h: nat| #[trigger] self.general().is_free(h)
                && self.general().block_bytes(h) == r,
            self.is_ready() ==> forall|h: nat| #[trigger] self.general().is_free(h)
                ==> self.general().block_bytes(h) <= r,
    {
        match &self.arena {
            Some(a) => {
                proof {
                    assert(self.general() == a.general);
                }
                a.general.largest_free_block()
            },
            None => 0,
        }
    }
}

impl Allocator {
    /// How the parts of a laid-out allocator fit together: the fast pool
    /// covers the fast region slot by slot, the buddy allocator the general
    /// region, both well formed; the layout has been computed once.
    pub proof fn lemma_parts(&self)
        requires
            self.wf(),
            self.is_ready(),
        ensures
            self.layout_count() == 1,
            self.failure().is_none(),
            self.regions().wf(),
            self.regions().describes(self.regions().base as nat, self.config()),
            self.fast().wf(),
            self.fast().region_start() == self.regions().base,
            self.fast().slot_len() == self.regions().slot_size,
            self.fast().slot_count() * self.regions().slot_size == self.regions().fast_size,
            self.general().wf(),
            self.general().region_base() == self.regions().general_base,
            self.general().leaf_len() == self.regions().leaf_size,
            self.general().top() == self.regions().max_order,
            self.general().region_size() == self.regions().general_size,
    {
        assert(arena_ok(self.arena.unwrap(), self.config));
    }

    /// The layout is computed by the first request and never again: an
    /// allocator that has not tried has computed nothing, one that has
    /// tried has computed it once, and it is either laid out or failed.
    pub proof fn lemma_count(&self)
        requires
            self.wf(),
        ensures
            self.layout_count() == if self.is_ready() || self.failure().is_some() {
                1int
            } else {
                0int
            },
            !(self.is_ready() && self.failure().is_some()),
    {
    }

    /// A request leaves every allocation that was live before it live.
    pub proof fn lemma_allocate_keeps_live(
        a0: &Allocator,
        a1: &Allocator,
        size: nat,
        align: nat,
        r: Result<usize, AllocError>,
        addr: int,
        s: nat,
        al: nat,
    )
        requires
            a0.wf(),
            a0.is_ready(),
            a0.allocates(a1, size, align, r),
            a0.is_live(addr, s, al),
        ensures
            a1.is_live(addr, s, al),
    {
        let (f0, f1) = (a0.fast(), a1.fast());
        let (g0, g1) = (a0.general(), a1.general());
        if a0.fits_fast(s, al) {
            let i = choose|i: nat| #[trigger] f0.is_live(i) && addr == f0.slot_addr(i);
            if a0.fits_fast(size, align) && r is Ok {
                if f1.free_list().contains(i as usize) {
                    let m = choose|m: int| 0 <= m < f1.free_list().len() && f1.free_list()[m] == i as usize;
                    assert(f0.free_list()[m + 1] == i as usize);
                }
            }
            assert(f1.is_live(i));
        } else {
            let n = general_request(s, al);
            let h = choose|h: nat| g0.holds(addr, n, h);
            if !a0.fits_fast(size, align) && r is Ok {
                let ra = r->Ok_0;
                let hn = choose|hn: nat| g0.places(&g1, general_request(size, align), hn, ra as int);
                assert(g1.is_allocated(h));
            }
            assert(g1.holds(addr, n, h));
        }
    }

    /// Returning one allocation leaves every other live allocation live.
    pub proof fn lemma_deallocate_keeps_live(
        a1: &Allocator,
        a2: &Allocator,
        addr: int,
        size: nat,
        align: nat,
        other: int,
        s: nat,
        al: nat,
    )
        requires
            a1.wf(),
            a1.is_ready(),
            a1.is_live(addr, size, align),
            a1.deallocates(a2, addr, size, align),
            a1.is_live(other, s, al),
            other != addr,
        ensures
            a2.is_live(other, s, al),
    {
        let (f1, f2) = (a1.fast(), a2.fast());
        let (g1, g2) = (a1.general(), a2.general());
        if a1.fits_fast(s, al) {
            let j = choose|j: nat| #[trigger] f1.is_live(j) && other == f1.slot_addr(j);
            if a1.fits_fast(size, align) {
                let i = choose|i: nat| #[trigger] f1.is_live(i) && addr == f1.slot_addr(i)
                    && f2.free_list() == seq![i as usize] + f1.free_list();
                assert(i != j);
                f1.lemma_count_fits();
                if f2.free_list().contains(j as usize) {
                    let m = choose|m: int| 0 <= m < f2.free_list().len() && f2.free_list()[m] == j as usize;
                    assert(m != 0);
                    assert(f1.free_list()[m - 1] == j as usize);
                }
            }
            assert(f2.is_live(j));
        } else {
            let n = general_request(s, al);
            let h = choose|h: nat| g1.holds(other, n, h);
            if !a1.fits_fast(size, align) {
                let hr = choose|hr: nat| g1.holds(addr, general_request(size, align), hr)
                    && forall|x: nat| #[trigger] g2.is_allocated(x) <==> (g1.is_allocated(x) && x != hr);
                assert(h != hr);
                assert(g2.is_allocated(h));
            }
            assert(g2.holds(other, n, h));
        }
    }

    /// Two requests for the general region served from an arena with
    /// nothing handed out, both returned in either order, leave the general
    /// region one free block of its full size, and no other free block.
    pub proof fn lemma_full_coalescing(
        a0: &Allocator,
        a1: &Allocator,
        a2: &Allocator,
        a3: &Allocator,
        a4: &Allocator,
        s1: nat,
        al1: nat,
        p1: usize,
        s2: nat,
        al2: nat,
        p2: usize,
        first_returned_is_first_served: bool,
    )
        requires
            a0.wf(),
            a0.is_ready(),
            a0.general().is_idle(),
            !a0.fits_fast(s1, al1),
            !a0.fits_fast(s2, al2),
            a0.allocates(a1, s1, al1, Ok(p1)),
            a1.wf(),
            a1.allocates(a2, s2, al2, Ok(p2)),
            a2.wf(),
            if first_returned_is_first_served {
                a2.deallocates(a3, p1 as int, s1, al1) && a3.deallocates(a4, p2 as int, s2, al2)
            } else {
                a2.deallocates(a3, p2 as int, s2, al2) && a3.deallocates(a4, p1 as int, s1, al1)
            },
            a3.wf(),
            a4.wf(),
        ensures
            a4.regions() == a0.regions(),
            a4.general().is_idle(),
            a4.general().is_free(1),
            a4.general().block_bytes(1) == a4.regions().general_size,
            forall|h: nat| #[trigger] a4.general().is_free(h) ==> h == 1,
    {
        a0.lemma_parts();
        a1.lemma_parts();
        a2.lemma_parts();
        a3.lemma_parts();
        a4.lemma_parts();
        BuddyAllocator::lemma_full_coalescing(
            &a0.general(),
            &a1.general(),
            &a2.general(),
            &a3.general(),
            &a4.general(),
            general_request(s1, al1),
            p1 as int,
            general_request(s2, al2),
            p2 as int,
            first_returned_is_first_served,
        );
    }

    /// Allocations live at the same time, at different addresses, occupy
    /// disjoint byte ranges: fast slots are distinct slots, general blocks
    /// are distinct blocks, and the fast region ends where the general
    /// region starts.
    pub proof fn lemma_live_disjoint(&self, a1: int, s1: nat, al1: nat, a2: int, s2: nat, al2: nat)
        requires
            self.wf(),
            self.is_ready(),
            self.is_live(a1, s1, al1),
            self.is_live(a2, s2, al2),
            a1 != a2,
        ensures
            a1 + s1 <= a2 || a2 + s2 <= a1,
    {
        let f = self.fast();
        let g = self.general();
        let l = self.regions();
        assert(arena_ok(self.arena.unwrap(), self.config));
        let n1 = general_request(s1, al1);
        let n2 = general_request(s2, al2);
        if self.fits_fast(s1, al1) {
            let i1 = choose|i: nat| #[trigger] f.is_live(i) && a1 == f.slot_addr(i);
            f.lemma_live_in_region(i1);
            if self.fits_fast(s2, al2) {
                let i2 = choose|i: nat| #[trigger] f.is_live(i) && a2 == f.slot_addr(i);
                f.lemma_live_disjoint(i1, i2);
            } else {
                let h2 = choose|h: nat| g.holds(a2, n2, h);
                g.lemma_block_in_region(h2);
            }
        } else {
            let h1 = choose|h: nat| g.holds(a1, n1, h);
            g.lemma_block_in_region(h1);
            if self.fits_fast(s2, al2) {
                let i2 = choose|i: nat| #[trigger] f.is_live(i) && a2 == f.slot_addr(i);
                f.lemma_live_in_region(i2);
            } else {
                let h2 = choose|h: nat| g.holds(a2, n2, h);
                g.lemma_block_in_region(h2);
                g.lemma_allocated_disjoint(h1, h2);
            }
        }
    }

    /// Once every slot of the fast region is handed out, a request that
    /// fits a slot fails, and the general region is left as it was.
    pub proof fn lemma_exhaustion(
        a0: &Allocator,
        a1: &Allocator,
        size: nat,
        align: nat,
        r: Result<usize, AllocError>,
    )
        requires
            a0.wf(),
            a0.is_ready(),
            forall|i: nat| i < a0.fast().slot_count() ==> #[trigger] a0.fast().is_live(i),
            a0.fits_fast(size, align),
            a0.allocates(a1, size, align, r),
        ensures
            r == Err::<usize, AllocError>(AllocError::FastPoolExhausted),
            a1.general() == a0.general(),
    {
        assert(arena_ok(a0.arena.unwrap(), a0.config));
        a0.fast().lemma_full_is_empty();
    }

    /// From an arena with nothing handed out, an allocation that is handed
    /// out and returned leaves nothing handed out, on the same regions; then
    /// every request that fits a slot, or fits the general region, is
    /// served, in particular any request up to the returned block's size.
    pub proof fn lemma_round_trip(
        a0: &Allocator,
        a1: &Allocator,
        a2: &Allocator,
        size: nat,
        align: nat,
        addr: usize,
    )
        requires
            a0.wf(),
            a0.is_ready(),
            a0.is_quiet(),
            a0.allocates(a1, size, align, Ok(addr)),
            a1.wf(),
            a1.deallocates(a2, addr as int, size, align),
            a2.wf(),
        ensures
            a2.is_quiet(),
            a2.regions() == a0.regions(),
            forall|s: nat, al: nat|
                a2.fits_fast(s, al) || general_request(s, al) <= a2.regions().general_size
                    ==> #[trigger] a2.can_allocate(s, al),
    {
        assert(arena_ok(a0.arena.unwrap(), a0.config));
        assert(arena_ok(a2.arena.unwrap(), a2.config));
        let (f0, f1, f2) = (a0.fast(), a1.fast(), a2.fast());
        let (g0, g1, g2) = (a0.general(), a1.general(), a2.general());
        let l = a0.regions();
        assert(f2.free_list().len() > 0 ==> f2.free_list().contains(f2.free_list()[0]));
        if a0.fits_fast(size, align) {
            let list0 = f0.free_list();
            let i = choose|i: nat| #[trigger] f1.is_live(i) && addr == f1.slot_addr(i)
                && f2.free_list() == seq![i as usize] + f1.free_list();
            let z = f0.slot_len();
            let i0 = list0[0] as nat;
            assert(i == i0) by {
                assert(i * z == i0 * z);
                if i < i0 {
                    assert(i * z < i0 * z) by (nonlinear_arith) requires i < i0, z > 0;
                } else if i > i0 {
                    assert(i0 * z < i * z) by (nonlinear_arith) requires i0 < i, z > 0;
                }
            }
            assert(f2.free_list() =~= list0);
            assert forall|j: nat| !#[trigger] f2.is_live(j) by {
                assert(!f0.is_live(j));
            }
            assert(g2 == g0);
        } else {
            assert(f2.free_list() == f0.free_list());
            assert forall|j: nat| !#[trigger] f2.is_live(j) by {
                assert(!f0.is_live(j));
            }
            BuddyAllocator::lemma_round_trip(&g0, &g1, &g2, general_request(size, align), addr as int);
        }
        g2.lemma_idle_whole();
        assert(f2.slot_count() > 0) by {
            let l2 = a2.regions();
            let (c, z, fs) = (f2.slot_count(), l2.slot_size as nat, l2.fast_size as nat);
            assert(c * z == fs);
            assert(c > 0) by (nonlinear_arith) requires c * z == fs, fs > 0;
        }
        assert(!f2.is_live(0));
        assert forall|s: nat, al: nat|
            a2.fits_fast(s, al) || general_request(s, al) <= a2.regions().general_size
                implies #[trigger] a2.can_allocate(s, al) by {
            if !a2.fits_fast(s, al) {
                assert(g2.is_free(1) && general_request(s, al) <= g2.block_bytes(1));
            }
        }
    }
}

fn build_arena(l: ArenaLayout, c: ArenaConfig) -> (a: Arena)
    requires
        l.wf(),
        l.describes(l.base as nat, c),
    ensures
        arena_ok(a, c),
        a.layout == l,
        a.fast.free_list().len() == a.fast.slot_count(),
        forall|j: int| 0 <= j < a.fast.slot_count() ==> a.fast.free_list()[j] == j,
        a.general.is_idle(),
        a.general.is_free(1),
{
    let capacity = l.fast_size / l.slot_size;
    proof {
        vstd::arithmetic::div_mod::lemma_fundamental_div_mod(l.fast_size as int, l.slot_size as int);
        assert(capacity * l.slot_size == l.slot_size * capacity) by (nonlinear_arith);
        assert(capacity * l.slot_size == l.fast_size);
    }
    let fast = FastPool::new(l.base, l.slot_size, capacity);
    let general = BuddyAllocator::new(l.general_base, l.leaf_size, l.max_order);
    Arena { layout: l, fast, general }
}

spec fn arena_ok(a: Arena, c: ArenaConfig) -> bool {
    let l = a.layout;
    &&& l.wf()
    &&& l.describes(l.base as nat, c)
    &&& a.fast.wf()
    &&& a.fast.region_start() == l.base
    &&& a.fast.slot_len() == l.slot_size
    &&& a.fast.slot_count() * l.slot_size == l.fast_size
    &&& a.general.wf()
    &&& a.general.region_base() == l.general_base
    &&& a.general.leaf_len() == l.leaf_size
    &&& a.general.top() == l.max_order
}

} // verus!
