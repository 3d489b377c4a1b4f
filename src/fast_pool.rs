//! Fixed-size slots served from an intrusive free list: each free slot's
//! link names the next free slot, or `capacity` for none.

use vstd::prelude::*;

verus! {

pub struct FastPool {
    start: usize,
    slot_size: usize,
    capacity: usize,
    /// `next[i]`: the link stored in free slot `i`.
    next: Vec<usize>,
    head: usize,
    /// The free slots, from the head of the list.
    order: Ghost<Seq<usize>>,
}

impl FastPool {
    pub closed spec fn region_start(&self) -> nat {
        self.start as nat
    }

    pub closed spec fn slot_len(&self) -> nat {
        self.slot_size as nat
    }

    pub closed spec fn slot_count(&self) -> nat {
        self.capacity as nat
    }

    /// The free slots in the order the free list holds them.
    pub closed spec fn free_list(&self) -> Seq<usize> {
        self.order@
    }

    /// The address of slot `i`.
    pub open spec fn slot_addr(&self, i: nat) -> int {
        (self.region_start() + i * self.slot_len()) as int
    }

    /// Slot `i` is handed out.
    pub open spec fn is_live(&self, i: nat) -> bool {
        i < self.slot_count() && !self.free_list().contains(i as usize)
    }

    /// `addr` lies in the pool's region.
    pub open spec fn in_region(&self, addr: int) -> bool {
        self.region_start() <= addr < self.region_start() + self.slot_count() * self.slot_len()
    }

    pub closed spec fn wf(&self) -> bool {
        let s = self.order@;
        &&& self.next@.len() == self.capacity
        &&& self.slot_size > 0
        &&& self.start + self.capacity * self.slot_size <= usize::MAX
        &&& s.no_duplicates()
        &&& forall|j: int| 0 <= j < s.len() ==> s[j] < self.capacity
        &&& self.head == if s.len() == 0 { self.capacity } else { s[0] }
        &&& forall|j: int| 0 <= j < s.len() - 1 ==> self.next@[s[j] as int] == s[j + 1]
        &&& s.len() > 0 ==> self.next@[s.last() as int] == self.capacity
    }

    /// A pool of `capacity` slots of `slot_size` bytes from `start`, all
    /// free, listed in address order.
    pub fn new(start: usize, slot_size: usize, capacity: usize) -> (r: FastPool)
        requires
            slot_size > 0,
            start + capacity * slot_size <= usize::MAX,
        ensures
            r.wf(),
            r.region_start() == start,
            r.slot_len() == slot_size,
            r.slot_count() == capacity,
            r.free_list().len() == capacity,
            forall|j: int| 0 <= j < capacity ==> r.free_list()[j] == j,
    {
        let mut next: Vec<usize> = Vec::new();
        let mut i: usize = 0;
        while i < capacity
            invariant
                i <= capacity,
                next@.len() == i,
                forall|j: int| 0 <= j < i ==> next@[j] == j + 1,
            decreases capacity - i,
        {
            next.push(i + 1);
            i = i + 1;
        }
        let ghost order = Seq::new(capacity as nat, |j: int| j as usize);
        proof {
            assert(order.no_duplicates());
        }
        FastPool { start, slot_size, capacity, next, head: 0, order: Ghost(order) }
    }

    /// Both describe the same slots.
    pub open spec fn same_pool(&self, other: &Self) -> bool {
        &&& self.region_start() == other.region_start()
        &&& self.slot_len() == other.slot_len()
        &&& self.slot_count() == other.slot_count()
    }

    /// No slot is handed out.
    pub open spec fn is_idle(&self) -> bool {
        forall|i: nat| !#[trigger] self.is_live(i)
    }

    /// Number of slots.
    pub fn capacity(&self) -> (r: usize)
        ensures
            r == self.slot_count(),
    {
        self.capacity
    }

    /// Size of each slot in bytes.
    pub fn slot_size(&self) -> (r: usize)
        ensures
            r == self.slot_len(),
    {
        self.slot_size
    }

    /// Takes the slot at the head of the free list; `None` when every slot
    /// is live.
    pub fn allocate(&mut self) -> (r: Option<usize>)
        requires
            old(self).wf(),
        ensures
            final(self).wf(),
            final(self).region_start() == old(self).region_start(),
            final(self).slot_len() == old(self).slot_len(),
            final(self).slot_count() == old(self).slot_count(),
            old(self).free_list().len() == 0 ==> r.is_none() && final(self).free_list()
                == old(self).free_list(),
            old(self).free_list().len() > 0 ==> {
                let i = old(self).free_list()[0];
                &&& r == Some((old(self).slot_addr(i as nat)) as usize)
                &&& final(self).free_list() == old(self).free_list().drop_first()
                &&& !old(self).is_live(i as nat)
                &&& final(self).is_live(i as nat)
                &&& forall|j: nat| #[trigger] final(self).is_live(j) <==> (old(self).is_live(j) || j == i)
            },
    {
        if self.head == self.capacity {
            return None;
        }
        let i = self.head;
        proof {
            lemma_slot_in_range(self.start as nat, self.slot_size as nat, i as nat, self.capacity as nat);
        }
        let addr = self.start + i * self.slot_size;
        self.head = self.next[i];
        let ghost s = self.order@;
        self.order = Ghost(s.drop_first());
        proof {
            let t = s.drop_first();
            assert forall|j: int| 0 <= j < t.len() - 1 implies self.next@[t[j] as int] == t[j + 1] by {
                assert(t[j] == s[j + 1]);
            }
            assert forall|j: nat| #[trigger] self.is_live(j) <==> (old(self).is_live(j) || j == i) by {
                if j < self.capacity {
                    if t.contains(j as usize) {
                        let p = choose|p: int| 0 <= p < t.len() && t[p] == j as usize;
                        assert(s[p + 1] == j as usize);
                        assert(s.contains(j as usize));
                    }
                    if s.contains(j as usize) && j != i {
                        let p = choose|p: int| 0 <= p < s.len() && s[p] == j as usize;
                        assert(p != 0);
                        assert(t[p - 1] == j as usize);
                    }
                }
            }
            assert(s[0] == i);
        }
        Some(addr)
    }

    /// Whether `addr` lies in the pool's region.
    pub fn contains_addr(&self, addr: usize) -> (r: bool)
        requires
            self.wf(),
        ensures
            r == self.in_region(addr as int),
    {
        self.start <= addr && addr < self.start + self.capacity * self.slot_size
    }

    /// Puts the live slot at `addr` back at the head of the free list.
    pub fn free(&mut self, addr: usize)
        requires
            old(self).wf(),
            exists|i: nat| old(self).is_live(i) && addr == old(self).slot_addr(i),
        ensures
            final(self).wf(),
            final(self).region_start() == old(self).region_start(),
            final(self).slot_len() == old(self).slot_len(),
            final(self).slot_count() == old(self).slot_count(),
            ({
                let i = (addr - old(self).region_start()) / old(self).slot_len() as int;
                &&& old(self).is_live(i as nat)
                &&& addr == old(self).slot_addr(i as nat)
                &&& final(self).free_list() == seq![i as usize] + old(self).free_list()
                &&& forall|j: nat| #[trigger] final(self).is_live(j) <==> (old(self).is_live(j) && j != i)
            }),
    {
        let ghost w = choose|i: nat| old(self).is_live(i) && addr == old(self).slot_addr(i);
        let i = (addr - self.start) / self.slot_size;
        proof {
            assert((w * self.slot_size) / (self.slot_size as int) == w) by (nonlinear_arith)
                requires self.slot_size > 0;
            assert(i == w);
        }
        let h = self.head;
        self.next.set(i, h);
        self.head = i;
        let ghost s = self.order@;
        self.order = Ghost(seq![i] + s);
        proof {
            let t = seq![i] + s;
            assert(t.no_duplicates()) by {
                assert forall|a: int, b: int| 0 <= a < b < t.len() implies t[a] != t[b] by {
                    if a == 0 {
                        assert(t[b] == s[b - 1]);
                        assert(s.contains(s[b - 1]));
                    }
                }
            }
            assert forall|j: int| 0 <= j < t.len() - 1 implies self.next@[t[j] as int] == t[j + 1] by {
                if j > 0 {
                    assert(t[j] == s[j - 1]);
                    assert(s.contains(s[j - 1]));
                    assert(s[j - 1] != i);
                }
            }
            if s.len() > 0 {
                assert(s.contains(s.last()));
                assert(t.last() == s.last());
            }
            assert forall|j: nat| #[trigger] self.is_live(j) <==> (old(self).is_live(j) && j != i) by {
                if j < self.capacity {
                    let u = j as usize;
                    if t.contains(u) && j != i {
                        let p = choose|p: int| 0 <= p < t.len() && t[p] == u;
                        assert(p != 0);
                        assert(t[p] == s[p - 1]);
                        assert(s.contains(u));
                    }
                    if s.contains(u) {
                        let p = choose|p: int| 0 <= p < s.len() && s[p] == u;
                        assert(t[p + 1] == u);
                        assert(t.contains(u));
                    }
                    assert(t[0] == i);
                    if j == i {
                        assert(t.contains(u));
                    }
                }
            }
        }
    }

    /// Two distinct live slots occupy disjoint address ranges.
    pub proof fn lemma_live_disjoint(&self, a: nat, b: nat)
        requires
            self.wf(),
            self.is_live(a),
            self.is_live(b),
            a != b,
        ensures
            self.slot_addr(a) + self.slot_len() <= self.slot_addr(b)
                || self.slot_addr(b) + self.slot_len() <= self.slot_addr(a),
    {
        let z = self.slot_len();
        if a < b {
            assert(a * z + z <= b * z) by (nonlinear_arith) requires a < b;
        } else {
            assert(b * z + z <= a * z) by (nonlinear_arith) requires b < a;
        }
    }

    /// The slot count is a machine integer.
    pub proof fn lemma_count_fits(&self)
        ensures
            self.slot_count() <= usize::MAX,
    {
    }

    /// With every slot handed out, the free list is empty.
    pub proof fn lemma_full_is_empty(&self)
        requires
            self.wf(),
            forall|i: nat| i < self.slot_count() ==> #[trigger] self.is_live(i),
        ensures
            self.free_list().len() == 0,
    {
        let s = self.order@;
        if s.len() > 0 {
            assert(s.contains(s[0]));
            assert(!self.is_live(s[0] as nat));
        }
    }

    /// A live slot lies wholly inside the region.
    pub proof fn lemma_live_in_region(&self, i: nat)
        requires
            self.wf(),
            self.is_live(i),
        ensures
            self.in_region(self.slot_addr(i)),
            self.slot_addr(i) + self.slot_len() <= self.region_start() + self.slot_count() * self.slot_len(),
    {
        lemma_slot_in_range(self.start as nat, self.slot_size as nat, i, self.capacity as nat);
    }
}

proof fn lemma_slot_in_range(start: nat, size: nat, i: nat, cap: nat)
    requires
        i < cap,
        size > 0,
    ensures
        start <= start + i * size,
        start + i * size + size <= start + cap * size,
        start + i * size < start + cap * size,
{
    assert(i * size + size <= cap * size) by (nonlinear_arith) requires i < cap, size > 0;
}

} // verus!
