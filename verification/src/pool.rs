use vstd::prelude::*;
use crate::chunk::Chunk;
use crate::freelist::FreeList;
use crate::model::{
    apart, fresh_region, is_live_in, is_slot_in, lemma_class_geometry, lemma_give_back, lemma_return_needs_own_class,
    lemma_live_sum_bound, lemma_live_sum_update, lemma_live_sum_zero, lemma_slots_disjoint, lemma_take, lemma_with_chunk,
    live_total, per_chunk, pool_wf, returns_slot, slot_addr, ClassState, CHUNK_BYTES,
};
use crate::util::{
    class_bytes, class_of, lemma_class_of_is_smallest_fit, lemma_classes_increase, max_class_size, size_class_index,
    NUM_CLASSES, SIZE_CLASSES,
};

verus! {

/// Counters of the pool's activity.
#[derive(Default, Debug, PartialEq, Eq)]
pub struct PoolStats {
    /// Requests served.
    pub alloc_count: usize,
    /// Slots returned.
    pub free_count: usize,
    /// Slots handed out and not yet returned.
    pub current_live: usize,
    /// Highest value `current_live` has reached.
    pub peak_live: usize,
}

impl PoolStats {
    /// `next` records the peak as the larger of this peak and `next`'s live count.
    pub open spec fn peak_follows(self, next: PoolStats) -> bool {
        next.peak_live == if self.peak_live >= next.current_live {
            self.peak_live
        } else {
            next.current_live
        }
    }
}

/// The largest live count among the first `n` counter snapshots of `h` (0 when `n` is 0).
pub open spec fn highest_live(h: Seq<PoolStats>, n: int) -> int
    decreases n,
{
    if n <= 0 {
        0
    } else {
        let m = highest_live(h, n - 1);
        if m >= h[n - 1].current_live {
            m
        } else {
            h[n - 1].current_live as int
        }
    }
}

/// Over a history of counter snapshots that starts with the peak at the live count (as
/// `Pool::new` does) and in which every step records the peak as the operations of
/// `Pool` do (`peak_follows`), each snapshot's peak is the largest live count reached
/// up to it.
pub proof fn lemma_peak_is_highest_live(h: Seq<PoolStats>)
    requires
        h.len() > 0,
        h[0].peak_live == h[0].current_live,
        forall|i: int| 0 <= i < h.len() - 1 ==> (#[trigger] h[i]).peak_follows(h[i + 1]),
    ensures
        forall|i: int| 0 <= i < h.len() ==> (#[trigger] h[i]).peak_live == highest_live(h, i + 1),
{
    assert forall|i: int| 0 <= i < h.len() implies (#[trigger] h[i]).peak_live == highest_live(h, i + 1) by {
        lemma_peak_prefix(h, i);
    }
}

proof fn lemma_peak_prefix(h: Seq<PoolStats>, i: int)
    requires
        0 <= i < h.len(),
        h[0].peak_live == h[0].current_live,
        forall|k: int| 0 <= k < h.len() - 1 ==> (#[trigger] h[k]).peak_follows(h[k + 1]),
    ensures
        h[i].peak_live == highest_live(h, i + 1),
    decreases i,
{
    if i > 0 {
        lemma_peak_prefix(h, i - 1);
        assert(h[i - 1].peak_follows(h[i]));
        assert(highest_live(h, i + 1) == if highest_live(h, i) >= h[i].current_live {
            highest_live(h, i)
        } else {
            h[i].current_live as int
        });
    } else {
        assert(highest_live(h, 0) == 0);
        assert(highest_live(h, 1) == h[0].current_live);
    }
}

/// What a request to the pool comes to.
#[derive(Clone, Copy, Debug, PartialEq, Eq)]
pub enum AllocOutcome {
    /// The address of a slot that now belongs to the caller.
    Done(usize),
    /// The request is not served: its size is zero or above the largest slot size, or its
    /// alignment exceeds the slot size of its class.
    Refused,
    /// The class has no free slot: the caller obtains `bytes` bytes aligned to `align` from
    /// the system, hands them over with `Pool::add_chunk(class, ..)`, and asks again.
    NeedsChunk { class: usize, bytes: usize, align: usize },
}

/// A multiple of `ss` is a multiple of every divisor `al` of `ss`.
proof fn lemma_multiple_of_multiple(a: int, ss: int, al: int)
    requires
        a % ss == 0,
        ss % al == 0,
        ss > 0,
        al > 0,
    ensures
        a % al == 0,
{
    vstd::arithmetic::div_mod::lemma_fundamental_div_mod(a, ss);
    vstd::arithmetic::div_mod::lemma_fundamental_div_mod(ss, al);
    let q = a / ss;
    let t = ss / al;
    assert(a == al * (t * q)) by (nonlinear_arith)
        requires
            a == ss * q,
            ss == al * t,
    ;
    vstd::arithmetic::div_mod::lemma_mod_multiples_vanish(t * q, 0, al);
}

/// Slots of one size class: the chunks it has taken, in order, and its free list.
/// Slot `s` is slot `s % slots_per_chunk` of chunk `s / slots_per_chunk`.
struct ClassPool {
    slot_size: usize,
    slots_per_chunk: usize,
    chunks: Vec<Chunk>,
    free: FreeList,
}

impl ClassPool {
    spec fn spc(&self) -> int {
        self.slots_per_chunk as int
    }

    spec fn bases(&self) -> Seq<usize> {
        self.chunks@.map_values(|ch: Chunk| ch.base_addr())
    }

    /// Address of slot `s`.
    spec fn addr_of(&self, s: int) -> int {
        slot_addr(
            self.bases(),
            self.slot_size as int,
            s / self.spc(),
            s % self.spc(),
        )
    }

    spec fn view(&self) -> ClassState {
        ClassState {
            slot_size: self.slot_size,
            chunks: self.bases(),
            free: self.free@.map_values(|s: usize| self.addr_of(s as int) as usize),
        }
    }

    spec fn n_slots(&self) -> int {
        self.chunks@.len() * self.slots_per_chunk
    }

    spec fn wf(&self) -> bool {
        &&& self.slots_per_chunk == per_chunk(self.slot_size as int)
        &&& self.free.wf()
        &&& self.free.slots() == self.n_slots()
        &&& forall|j: int|
            0 <= j < self.chunks@.len() ==> (#[trigger] self.chunks@[j]).size_bytes() == CHUNK_BYTES
                && self.chunks@[j].slot_bytes() == self.slot_size
        &&& self.view().chunks_wf()
    }

    /// Slot `s` is slot `s % per_chunk` of chunk `s / per_chunk`, a slot of the class.
    proof fn lemma_addr_of(&self, s: int)
        requires
            self.wf(),
            0 <= s < self.n_slots(),
        ensures
            0 <= s / self.spc() < self.chunks@.len(),
            0 <= s % self.spc() < self.slots_per_chunk,
            self.view().is_slot(self.addr_of(s)),
            0 < self.addr_of(s),
            self.addr_of(s) + self.slot_size <= usize::MAX,
            self.addr_of(s) == self.bases()[s / self.spc()] + (s % self.spc()) * self.slot_size,
    {
        let n = self.spc();
        let len = self.chunks@.len() as int;
        let v = self.view();
        assert(n > 0) by (nonlinear_arith)
            requires
                v.slot_size * n == CHUNK_BYTES,
        ;
        vstd::arithmetic::div_mod::lemma_fundamental_div_mod(s, n);
        vstd::arithmetic::div_mod::lemma_mod_pos_bound(s, n);
        let q = s / n;
        let r = s % n;
        assert(0 <= q < len) by (nonlinear_arith)
            requires
                s == n * q + r,
                0 <= r < n,
                0 <= s < len * n,
        ;
        v.lemma_slot_bounds(q, r);
        assert(v.slot_at(q, r) == self.addr_of(s));
        assert(is_slot_in(v.chunks, v.slot_size as int, self.addr_of(s)));
    }

    /// Slot `j * per_chunk + k` is slot `k` of chunk `j`.
    proof fn lemma_index_of(&self, j: int, k: int)
        requires
            self.wf(),
            0 <= j < self.chunks@.len(),
            0 <= k < self.slots_per_chunk,
        ensures
            0 <= j * self.slots_per_chunk + k < self.n_slots(),
            (j * self.slots_per_chunk + k) / self.spc() == j,
            (j * self.slots_per_chunk + k) % self.spc() == k,
            self.addr_of(j * self.slots_per_chunk + k) == self.view().slot_at(j, k),
    {
        let n = self.spc();
        let len = self.chunks@.len() as int;
        assert(0 <= j * n + k < len * n) by (nonlinear_arith)
            requires
                0 <= j < len,
                0 <= k < n,
        ;
        vstd::arithmetic::div_mod::lemma_fundamental_div_mod_converse(j * n + k, n, j, k);
    }

    /// Distinct slots have distinct addresses.
    proof fn lemma_addr_inj(&self, s1: int, s2: int)
        requires
            self.wf(),
            0 <= s1 < self.n_slots(),
            0 <= s2 < self.n_slots(),
            self.addr_of(s1) == self.addr_of(s2),
        ensures
            s1 == s2,
    {
        let n = self.spc();
        self.lemma_addr_of(s1);
        self.lemma_addr_of(s2);
        self.view().lemma_slot_unique(s1 / n, s1 % n, s2 / n, s2 % n);
        vstd::arithmetic::div_mod::lemma_fundamental_div_mod(s1, n);
        vstd::arithmetic::div_mod::lemma_fundamental_div_mod(s2, n);
    }

    /// A known slot is on the free list exactly when its address is among the free addresses.
    proof fn lemma_free_contains(&self, s: int)
        requires
            self.wf(),
            0 <= s < self.n_slots(),
        ensures
            self.free@.contains(s as usize) <==> self.view().free.contains(self.addr_of(s) as usize),
    {
        let v = self.view();
        self.free.lemma_wf();
        self.lemma_addr_of(s);
        if self.free@.contains(s as usize) {
            let k = choose|k: int| 0 <= k < self.free@.len() && self.free@[k] == s as usize;
            assert(v.free[k] == self.addr_of(s) as usize);
        }
        if v.free.contains(self.addr_of(s) as usize) {
            let k = choose|k: int| 0 <= k < v.free.len() && v.free[k] == self.addr_of(s) as usize;
            let t = self.free@[k];
            self.lemma_addr_of(t as int);
            self.lemma_addr_inj(t as int, s);
        }
    }

    /// The free addresses are distinct slots of the class.
    proof fn lemma_view_free(&self)
        requires
            self.wf(),
        ensures
            self.view().free.no_duplicates(),
            forall|k: int| 0 <= k < self.view().free.len() ==> self.view().is_slot(#[trigger] self.view().free[k] as int),
            self.view().free.len() <= self.view().n_slots(),
            self.view().n_slots() == self.n_slots(),
    {
        let v = self.view();
        self.free.lemma_wf();
        self.free.lemma_len(-1);
        assert forall|k: int| 0 <= k < v.free.len() implies v.is_slot(#[trigger] v.free[k] as int) by {
            self.lemma_addr_of(self.free@[k] as int);
        }
        assert forall|x: int, y: int| 0 <= x < y < v.free.len() implies v.free[x] != v.free[y] by {
            self.lemma_addr_of(self.free@[x] as int);
            self.lemma_addr_of(self.free@[y] as int);
            if v.free[x] == v.free[y] {
                self.lemma_addr_inj(self.free@[x] as int, self.free@[y] as int);
            }
        }
    }

    /// A live slot means the class has fewer free slots than slots.
    proof fn lemma_live_means_fewer_free(&self, a: usize)
        requires
            self.wf(),
            self.view().is_live(a),
        ensures
            self.view().free.len() < self.view().n_slots(),
    {
        let v = self.view();
        let ss = self.slot_size as int;
        let (j, k) = choose|j: int, k: int|
            0 <= j < v.chunks.len() && 0 <= k < per_chunk(ss) && a as int == #[trigger] slot_addr(v.chunks, ss, j, k);
        self.lemma_index_of(j, k);
        let s_ = j * self.spc() + k;
        self.lemma_free_contains(s_);
        self.free.lemma_len(s_);
        self.lemma_view_free();
    }

    fn new(slot_size: usize) -> (r: Self)
        requires
            slot_size > 0,
        ensures
            r.slot_size == slot_size,
            r.slots_per_chunk == per_chunk(slot_size as int),
            r.chunks@.len() == 0,
            r.free.wf(),
            r.free.slots() == 0,
            r.view().chunks == Seq::<usize>::empty(),
            r.view().free == Seq::<usize>::empty(),
    {
        let r = ClassPool {
            slot_size,
            slots_per_chunk: CHUNK_BYTES / slot_size,
            chunks: Vec::new(),
            free: FreeList::new(),
        };
        proof {
            assert(r.view().chunks =~= Seq::<usize>::empty());
            assert(r.view().free =~= Seq::<usize>::empty());
        }
        r
    }

    /// Address of slot `slot`.
    fn slot_addr(&self, slot: usize) -> (r: usize)
        requires
            self.wf(),
            slot < self.n_slots(),
        ensures
            r == self.addr_of(slot as int),
    {
        proof {
            self.lemma_addr_of(slot as int);
        }
        let (chunk_idx, slot_in_chunk) = (slot / self.slots_per_chunk, slot % self.slots_per_chunk);
        self.chunks[chunk_idx].slot_addr(slot_in_chunk)
    }

    spec fn holds(&self, j: int, addr: int, size: int) -> bool {
        self.bases()[j] <= addr && addr + size <= self.bases()[j] + CHUNK_BYTES
    }

    /// Chunk `j` is the first chunk that holds `size` bytes at `addr`.
    spec fn first_holding(&self, j: int, addr: int, size: int) -> bool {
        &&& 0 <= j < self.chunks@.len()
        &&& self.holds(j, addr, size)
        &&& forall|i: int| 0 <= i < j ==> !#[trigger] self.holds(i, addr, size)
    }

    /// Chunk `j` is the first to hold `size` bytes at `addr`, on a slot boundary of it.
    spec fn located_in(&self, j: int, addr: int, size: int) -> bool {
        &&& self.first_holding(j, addr, size)
        &&& (addr - self.bases()[j]) % self.slot_size as int == 0
    }

    /// For a request of at least one byte that fits a slot, the search finds a chunk
    /// exactly when `addr` is a slot address, and that slot is the one at `addr`.
    proof fn lemma_locate(&self, addr: int, size: int)
        requires
            self.wf(),
            1 <= size <= self.slot_size,
        ensures
            (exists|j: int| self.located_in(j, addr, size)) <==> self.view().is_slot(addr),
            forall|j: int|
                #[trigger] self.located_in(j, addr, size) ==> {
                    let k = (addr - self.bases()[j]) / self.slot_size as int;
                    &&& 0 <= k < self.spc()
                    &&& self.addr_of(j * self.spc() + k) == addr
                    &&& 0 <= j * self.spc() + k < self.n_slots()
                },
    {
        let v = self.view();
        let ss = self.slot_size as int;
        let n = self.spc();
        assert forall|j: int| #[trigger] self.located_in(j, addr, size) implies {
            let k = (addr - self.bases()[j]) / ss;
            &&& 0 <= k < n
            &&& self.addr_of(j * n + k) == addr
            &&& 0 <= j * n + k < self.n_slots()
        } by {
            let off = addr - self.bases()[j];
            vstd::arithmetic::div_mod::lemma_fundamental_div_mod(off, ss);
            let k = off / ss;
            assert(0 <= k < n) by (nonlinear_arith)
                requires
                    off == ss * k,
                    0 <= off,
                    off + size <= CHUNK_BYTES,
                    size >= 1,
                    ss * n == CHUNK_BYTES,
                    ss > 0,
            ;
            self.lemma_index_of(j, k);
            assert(ss * k == k * ss) by (nonlinear_arith);
        }
        if exists|j: int| self.located_in(j, addr, size) {
            let j = choose|j: int| self.located_in(j, addr, size);
            let k = (addr - self.bases()[j]) / ss;
            self.lemma_addr_of(j * n + k);
            self.lemma_index_of(j, k);
            assert(v.slot_at(j, k) == addr);
            assert(is_slot_in(v.chunks, ss, addr));
        }
        if v.is_slot(addr) {
            let (j, k) = choose|j: int, k: int|
                0 <= j < v.chunks.len() && 0 <= k < per_chunk(ss) && addr == #[trigger] slot_addr(v.chunks, ss, j, k);
            v.lemma_slot_bounds(j, k);
            assert(self.holds(j, addr, size));
            assert forall|i: int| 0 <= i < j implies !#[trigger] self.holds(i, addr, size) by {
                if self.holds(i, addr, size) {
                    assert(apart(v.chunks[i] as int, v.chunks[j] as int));
                }
            }
            vstd::arithmetic::div_mod::lemma_mod_multiples_vanish(k, 0, ss);
            assert(ss * k == k * ss) by (nonlinear_arith);
            assert(self.located_in(j, addr, size));
        }
    }

    /// Hands out the most recently freed slot of the class, or `None` when none is free.
    fn allocate(&mut self) -> (r: Option<usize>)
        requires
            old(self).wf(),
        ensures
            final(self).wf(),
            old(self).view().free.len() == 0 ==> r == None::<usize> && final(self).view() == old(self).view(),
            old(self).view().free.len() > 0 ==> r == Some(old(self).view().free[0]) && final(self).view()
                == old(self).view().take(),
    {
        proof {
            self.free.lemma_wf();
        }
        match self.free.pop() {
            Some(slot) => {
                let addr = self.slot_addr(slot);
                proof {
                    assert(self.view().free =~= old(self).view().free.drop_first());
                }
                Some(addr)
            },
            None => {
                proof {
                    assert(self.view().free =~= old(self).view().free);
                }
                None
            },
        }
    }

    /// Takes a new chunk at `base`: its slots become the next ones handed out.
    fn grow(&mut self, base: usize)
        requires
            old(self).wf(),
            old(self).view().accepts_chunk(base),
            forall|j: int|
                0 <= j < old(self).view().chunks.len() ==> apart(#[trigger] old(self).view().chunks[j] as int, base as int),
        ensures
            final(self).wf(),
            final(self).view() == old(self).view().with_chunk(base),
    {
        let ghost v0 = self.view();
        let ghost old_free = self.free@;
        let ghost n0 = self.n_slots();
        proof {
            v0.lemma_with_chunk_geometry(base);
        }
        self.chunks.push(Chunk::new(base, CHUNK_BYTES, self.slot_size));
        proof {
            assert(self.bases() =~= v0.chunks.push(base));
        }
        self.free.push_range(self.slots_per_chunk);
        proof {
            let v1 = self.view();
            let g = v0.with_chunk(base);
            let n = self.spc();
            let len = v0.chunks.len() as int;
            assert(v1.chunks == g.chunks);
            assert(self.n_slots() == n0 + n) by (nonlinear_arith)
                requires
                    self.n_slots() == (len + 1) * n,
                    n0 == len * n,
            ;
            assert(self.view().chunks_wf());
            assert forall|j: int|
                0 <= j < self.chunks@.len() implies (#[trigger] self.chunks@[j]).size_bytes() == CHUNK_BYTES
                && self.chunks@[j].slot_bytes() == self.slot_size by {
                if j < len {
                    assert(self.chunks@[j] == old(self).chunks@[j]);
                }
            }
            assert(self.wf());
            assert forall|k: int| 0 <= k < v1.free.len() implies v1.free[k] == g.free[k] by {
                if k < n {
                    self.lemma_index_of(len, k);
                    assert(self.free@[k] == n0 + k);
                } else {
                    let s = old_free[k - n];
                    assert(self.free@[k] == s);
                    old(self).free.lemma_wf();
                    old(self).lemma_addr_of(s as int);
                    self.lemma_addr_of(s as int);
                }
            }
            assert(v1.free =~= g.free);
        }
    }

    /// The first chunk that holds `size` bytes at `addr`, and the slot of it that starts at
    /// `addr`; `None` when `size` exceeds the slot size, when no chunk holds the bytes, or
    /// when that first chunk holds them off a slot boundary.
    fn find_slot(&self, addr: usize, size: usize) -> (r: Option<(usize, usize)>)
        requires
            self.wf(),
        ensures
            r matches Some((j, k)) ==> {
                &&& size <= self.slot_size
                &&& self.located_in(j as int, addr as int, size as int)
                &&& k == (addr - self.bases()[j as int]) / self.slot_size as int
            },
            r is None ==> !(size <= self.slot_size && exists|j: int| self.located_in(j, addr as int, size as int)),
    {
        if size > self.slot_size {
            return None;
        }
        let mut chunk_idx: usize = 0;
        while chunk_idx < self.chunks.len()
            invariant
                self.wf(),
                size <= self.slot_size,
                chunk_idx <= self.chunks@.len(),
                forall|i: int| 0 <= i < chunk_idx ==> !#[trigger] self.holds(i, addr as int, size as int),
            decreases self.chunks@.len() - chunk_idx,
        {
            let chunk = &self.chunks[chunk_idx];
            let start = chunk.base();
            proof {
                assert(self.bases()[chunk_idx as int] == start);
                assert(self.view().chunks[chunk_idx as int] + CHUNK_BYTES <= usize::MAX);
            }
            let end = start + chunk.capacity();
            let fits = match addr.checked_add(size) {
                Some(e) => e <= end,
                None => false,
            };
            if addr >= start && fits {
                let offset = addr - start;
                proof {
                    assert(self.first_holding(chunk_idx as int, addr as int, size as int));
                    assert forall|j: int| self.located_in(j, addr as int, size as int) implies j == chunk_idx by {
                        if j < chunk_idx {
                        } else if j > chunk_idx {
                            assert(self.holds(chunk_idx as int, addr as int, size as int));
                        }
                    }
                }
                if offset % self.slot_size != 0 {
                    return None;
                }
                return Some((chunk_idx, offset / self.slot_size));
            }
            chunk_idx = chunk_idx + 1;
        }
        None
    }

    /// Returns the slot at `addr` to the free list when `size` bytes at `addr` are a slot
    /// of this class; `false`, and nothing changes, otherwise.
    fn dealloc(&mut self, addr: usize, size: usize) -> (r: bool)
        requires
            old(self).wf(),
            size >= 1,
            size <= old(self).slot_size && old(self).view().is_slot(addr as int) ==> !old(self).view().free.contains(addr),
        ensures
            final(self).wf(),
            r == (size <= old(self).slot_size && old(self).view().is_slot(addr as int)),
            r ==> final(self).view() == old(self).view().give_back(addr),
            r ==> old(self).view().free.len() < old(self).view().n_slots(),
            !r ==> final(self).view() == old(self).view(),
    {
        if size <= self.slot_size {
            proof {
                self.lemma_locate(addr as int, size as int);
            }
        }
        let (chunk_idx, slot_in_chunk) = match self.find_slot(addr, size) {
            Some(pos) => pos,
            None => return false,
        };
        proof {
            self.lemma_locate(addr as int, size as int);
            assert(self.located_in(chunk_idx as int, addr as int, size as int));
        }
        let slot = chunk_idx * self.slots_per_chunk + slot_in_chunk;
        proof {
            self.lemma_free_contains(slot as int);
            self.free.lemma_len(slot as int);
            self.lemma_view_free();
        }
        let ghost old_free = self.free@;
        self.free.push(slot);
        proof {
            assert(self.view().free =~= seq![addr] + old(self).view().free);
        }
        true
    }

    /// Number of slots of the class.
    fn slot_count(&self) -> (r: usize)
        requires
            self.wf(),
        ensures
            r == self.view().n_slots(),
    {
        proof {
            self.lemma_view_free();
        }
        self.chunks.len() * self.slots_per_chunk
    }

    /// No chunk of the class overlaps a chunk at `base`.
    fn region_free(&self, base: usize) -> (r: bool)
        requires
            self.wf(),
            base + CHUNK_BYTES <= usize::MAX,
        ensures
            r == forall|j: int| 0 <= j < self.view().chunks.len() ==> apart(#[trigger] self.view().chunks[j] as int, base as int),
    {
        let mut j: usize = 0;
        while j < self.chunks.len()
            invariant
                self.wf(),
                base + CHUNK_BYTES <= usize::MAX,
                j <= self.chunks@.len(),
                forall|i: int| 0 <= i < j ==> apart(#[trigger] self.view().chunks[i] as int, base as int),
            decreases self.chunks@.len() - j,
        {
            let b = self.chunks[j].base();
            proof {
                assert(self.view().chunks[j as int] == b);
                assert(b + CHUNK_BYTES <= usize::MAX);
            }
            if !(b + CHUNK_BYTES <= base || base + CHUNK_BYTES <= b) {
                return false;
            }
            j = j + 1;
        }
        true
    }
}


/// The size classes of a pool, smallest slot size first.
pub struct SizeClasses {
    pools: Vec<ClassPool>,
}

impl View for SizeClasses {
    type V = Seq<ClassState>;

    /// One state per size class, smallest slot size first.
    closed spec fn view(&self) -> Seq<ClassState> {
        self.pools@.map_values(|cp: ClassPool| cp.view())
    }
}

impl SizeClasses {
    /// The classes are consistent with one another and with what each records.
    pub closed spec fn wf(&self) -> bool {
        &&& self.pools@.len() == NUM_CLASSES
        &&& forall|c: int| 0 <= c < NUM_CLASSES ==> (#[trigger] self.pools@[c]).wf()
        &&& pool_wf(self@)
    }

    proof fn lemma_wf_parts(&self)
        requires
            self.wf(),
        ensures
            forall|c: int| 0 <= c < NUM_CLASSES ==> (#[trigger] self@[c]) == self.pools@[c].view(),
            forall|c: int| 0 <= c < NUM_CLASSES ==> (#[trigger] self@[c]).n_live() >= 0,
            self@.len() == NUM_CLASSES,
    {
        assert forall|c: int| 0 <= c < NUM_CLASSES implies (#[trigger] self@[c]).n_live() >= 0 by {
            self.pools@[c].lemma_view_free();
        }
    }
}

/// A pool of fixed-size slots in ten size classes. Each class carves chunks of
/// `CHUNK_BYTES` bytes, supplied by the caller from the system allocator, into slots,
/// and keeps its free slots in a LIFO list.
pub struct Pool {
    pub classes: SizeClasses,
    pub stats: PoolStats,
}

impl View for Pool {
    type V = Seq<ClassState>;

    /// One state per size class, smallest slot size first.
    open spec fn view(&self) -> Seq<ClassState> {
        self.classes@
    }
}

impl Pool {
    /// The pool's classes are consistent.
    pub open spec fn wf(&self) -> bool {
        self.classes.wf()
    }

    /// A consistent pool has a consistent view: the laws of `model` apply to it.
    pub proof fn lemma_view_wf(&self)
        requires
            self.wf(),
        ensures
            pool_wf(self@),
    {
    }

    /// The counters agree with the pool: `current_live` is the number of slots handed out
    /// and not returned, every request served is either returned or still live, and the
    /// peak is at least the current count.
    pub open spec fn stats_consistent(&self) -> bool {
        &&& self.stats.current_live == live_total(self@)
        &&& self.stats.alloc_count == self.stats.free_count + self.stats.current_live
        &&& self.stats.peak_live >= self.stats.current_live
    }

    /// A request of `size` bytes aligned to `align` is one the pool serves: `size` is
    /// positive, at most the largest slot size, and `align` at most its class's slot size.
    pub open spec fn serves(size: usize, align: usize) -> bool {
        &&& size != 0
        &&& size <= max_class_size()
        &&& align <= class_bytes(class_of(size as int))
    }

    /// Returning `size` bytes at `addr` is a return of a slot: `addr` is a slot of the
    /// class of `size`, and `size` fits that class's slots.
    pub open spec fn releases(&self, addr: usize, size: usize) -> bool {
        returns_slot(self@, addr, size)
    }

    /// In a consistent pool no class has a negative live count, the total is at least
    /// each class's count, and a live slot anywhere makes the total at least one; so with
    /// consistent counters, a live slot means `current_live >= 1`.
    pub proof fn lemma_live_counts(&self)
        requires
            self.wf(),
        ensures
            forall|c: int| 0 <= c < NUM_CLASSES ==> (#[trigger] self@[c]).n_live() >= 0,
            forall|c: int| 0 <= c < NUM_CLASSES ==> live_total(self@) >= (#[trigger] self@[c]).n_live(),
            forall|a: usize| #[trigger] is_live_in(self@, a) ==> live_total(self@) >= 1,
            forall|a: usize| self.stats_consistent() && #[trigger] is_live_in(self@, a) ==> self.stats.current_live >= 1,
    {
        self.classes.lemma_wf_parts();
        assert forall|c: int| 0 <= c < NUM_CLASSES implies live_total(self@) >= (#[trigger] self@[c]).n_live() by {
            lemma_live_sum_bound(self@, c, NUM_CLASSES as int);
        }
        assert forall|a: usize| #[trigger] is_live_in(self@, a) implies live_total(self@) >= 1 by {
            let c = choose|c: int| 0 <= c < self@.len() && (#[trigger] self@[c]).is_live(a);
            self.classes.pools@[c].lemma_live_means_fewer_free(a);
            lemma_live_sum_bound(self@, c, NUM_CLASSES as int);
        }
    }

    /// The pool serves exactly the requests of 1 to 8192 bytes whose alignment is at most
    /// the slot size of the smallest class whose slots hold them.
    pub proof fn lemma_serves_exactly(size: usize, align: usize)
        ensures
            Self::serves(size, align) <==> (1 <= size <= 8192 && exists|c: int|
                0 <= c < NUM_CLASSES && size <= #[trigger] class_bytes(c) && align <= class_bytes(c) && (c == 0
                    || class_bytes(c - 1) < size)),
    {
        lemma_class_of_is_smallest_fit(size as int);
        lemma_classes_increase();
        let k = class_of(size as int);
        if Self::serves(size, align) {
            assert(size <= class_bytes(k));
            if k > 0 {
                assert(class_bytes(k - 1) < size);
            }
        }
        if 1 <= size <= 8192 && exists|c: int|
            0 <= c < NUM_CLASSES && size <= #[trigger] class_bytes(c) && align <= class_bytes(c) && (c == 0
                || class_bytes(c - 1) < size) {
            let c = choose|c: int|
                0 <= c < NUM_CLASSES && size <= #[trigger] class_bytes(c) && align <= class_bytes(c) && (c == 0
                    || class_bytes(c - 1) < size);
            assert(size <= class_bytes(k));
            if c < k {
                assert(class_bytes(c) < size);
            }
            if c > k {
                assert(class_bytes(k) <= class_bytes(c - 1));
            }
            assert(c == k);
        }
    }

    /// A live slot of class `c` is returned by exactly the sizes of class `c` (from 1 byte
    /// to the slot size), wherever in which chunk of the class the slot lies; an address
    /// that is no slot of any class is never returned.
    pub proof fn lemma_releases_exactly(&self, c: int, addr: usize, size: usize)
        requires
            self.wf(),
            0 <= c < NUM_CLASSES,
        ensures
            self@[c].is_live(addr) ==> (self.releases(addr, size) <==> (class_of(size as int) == c && 1 <= size
                <= class_bytes(c))),
            (forall|cc: int| 0 <= cc < NUM_CLASSES ==> !(#[trigger] self@[cc]).is_slot(addr as int)) ==> !self.releases(
                addr,
                size,
            ),
    {
        lemma_class_of_is_smallest_fit(size as int);
        if self@[c].is_live(addr) {
            lemma_return_needs_own_class(self@, c, addr, size);
        }
    }

    /// A chunk joins class `class` exactly when the class exists, the chunk's address is
    /// non-null and a multiple of the class's slot size, its bytes end within the address
    /// space, the class's slot count stays representable, and its bytes overlap those of
    /// no chunk of the pool; the order of addresses plays no part.
    pub proof fn lemma_takes_chunk_exactly(&self, class: usize, base: usize)
        requires
            self.wf(),
        ensures
            self.takes_chunk(class, base) <==> {
                &&& class < NUM_CLASSES
                &&& base != 0
                &&& base as int % class_bytes(class as int) == 0
                &&& base + CHUNK_BYTES <= usize::MAX
                &&& (self@[class as int].chunks.len() + 1) * (CHUNK_BYTES as int / class_bytes(class as int))
                    <= usize::MAX
                &&& forall|c: int, j: int|
                    0 <= c < NUM_CLASSES && 0 <= j < self@[c].chunks.len() ==> (#[trigger] self@[c].chunks[j])
                        + CHUNK_BYTES <= base || base + CHUNK_BYTES <= self@[c].chunks[j]
            },
    {
        self.classes.lemma_wf_parts();
        if class < NUM_CLASSES {
            let v = self@[class as int];
            assert(v.wf(class as int));
            let len = v.chunks.len() as int;
            let n = v.per_chunk();
            assert((len + 1) * n == len * n + n) by (nonlinear_arith);
        }
    }

    /// Whether the pool serves a request of `size` bytes aligned to `align` (see `serves`).
    pub fn is_served(size: usize, align: usize) -> (r: bool)
        ensures
            r == Self::serves(size, align),
    {
        if size == 0 || size > max_class_size() {
            return false;
        }
        align <= SIZE_CLASSES[size_class_index(size)]
    }

    /// An empty pool: every class has no chunk, all counters are zero.
    pub fn new() -> (r: Self)
        ensures
            r.wf(),
            forall|c: int| 0 <= c < NUM_CLASSES ==> (#[trigger] r@[c]).chunks.len() == 0 && r@[c].free.len() == 0,
            r.stats == (PoolStats { alloc_count: 0, free_count: 0, current_live: 0, peak_live: 0 }),
            r.stats_consistent(),
    {
        let mut pools: Vec<ClassPool> = Vec::new();
        let mut i: usize = 0;
        while i < NUM_CLASSES
            invariant
                i <= NUM_CLASSES,
                pools@.len() == i,
                forall|c: int|
                    0 <= c < i ==> {
                        &&& (#[trigger] pools@[c]).wf()
                        &&& pools@[c].slot_size == class_bytes(c)
                        &&& pools@[c].chunks@.len() == 0
                        &&& pools@[c].free@.len() == 0
                    },
            decreases NUM_CLASSES - i,
        {
            proof {
                lemma_class_geometry(i as int);
            }
            let ghost old_pools = pools@;
            let cp = ClassPool::new(SIZE_CLASSES[i]);
            proof {
                assert(cp.view().chunks_wf());
                assert(cp.n_slots() == 0);
                assert(cp.wf());
            }
            pools.push(cp);
            proof {
                assert forall|c: int| 0 <= c < i implies (#[trigger] pools@[c]) == old_pools[c] by {}
            }
            i = i + 1;
        }
        let r = Pool {
            classes: SizeClasses { pools },
            stats: PoolStats { alloc_count: 0, free_count: 0, current_live: 0, peak_live: 0 },
        };
        proof {
            let v = r@;
            assert forall|c: int| 0 <= c < NUM_CLASSES implies (#[trigger] v[c]).wf(c) by {
                assert(v[c] == r.classes.pools@[c].view());
                assert(v[c].free.len() == 0);
            }
            assert(pool_wf(v));
            assert forall|c: int| 0 <= c < NUM_CLASSES implies (#[trigger] v[c]).n_live() == 0 by {
                assert(v[c].chunks.len() == 0);
            }
            lemma_live_sum_zero(v, NUM_CLASSES as int);
        }
        r
    }

    /// Asks for a slot of `size` bytes aligned to `align`.
    ///
    /// A request the pool does not serve is `Refused`. Otherwise, when the request's class
    /// has a free slot, the most recently freed one is handed out (`Done`) and counted;
    /// when it has none, the answer is `NeedsChunk` and nothing changes.
    pub fn allocate(&mut self, size: usize, align: usize) -> (r: AllocOutcome)
        requires
            old(self).wf(),
            Self::serves(size, align) && old(self)@[class_of(size as int)].free.len() > 0 ==> {
                &&& old(self).stats.alloc_count < usize::MAX
                &&& old(self).stats.current_live < usize::MAX
            },
        ensures
            final(self).wf(),
            old(self).stats_consistent() ==> final(self).stats_consistent(),
            old(self).stats.peak_live >= old(self).stats.current_live ==> old(self).stats.peak_follows(final(self).stats),
            ({
                let c = class_of(size as int);
                if !Self::serves(size, align) {
                    &&& r == AllocOutcome::Refused
                    &&& final(self)@ == old(self)@
                    &&& final(self).stats == old(self).stats
                } else if old(self)@[c].free.len() == 0 {
                    &&& r == (AllocOutcome::NeedsChunk {
                        class: c as usize,
                        bytes: CHUNK_BYTES,
                        align: class_bytes(c) as usize,
                    })
                    &&& final(self)@ == old(self)@
                    &&& final(self).stats == old(self).stats
                } else {
                    let a = old(self)@[c].free[0];
                    &&& r == AllocOutcome::Done(a)
                    &&& final(self)@ == old(self)@.update(c, old(self)@[c].take())
                    &&& final(self).stats == (PoolStats {
                        alloc_count: (old(self).stats.alloc_count + 1) as usize,
                        free_count: old(self).stats.free_count,
                        current_live: (old(self).stats.current_live + 1) as usize,
                        peak_live: if old(self).stats.peak_live > old(self).stats.current_live + 1 {
                            old(self).stats.peak_live
                        } else {
                            (old(self).stats.current_live + 1) as usize
                        },
                    })
                    // The slot was live nowhere in the pool and is live now; it is aligned to
                    // its class's slot size, and holds `size` bytes within the address space.
                    &&& !is_live_in(old(self)@, a)
                    &&& final(self)@[c].is_live(a)
                    &&& forall|cc: int, b: usize|
                        0 <= cc < NUM_CLASSES && #[trigger] old(self)@[cc].is_live(b) ==> a + class_bytes(c) <= b
                            || b + class_bytes(cc) <= a
                    &&& a != 0
                    &&& a as int % class_bytes(c) == 0
                    &&& align > 0 && class_bytes(c) % (align as int) == 0 ==> a as int % (align as int) == 0
                    &&& a + size <= usize::MAX
                }
            }),
    {
        proof {
            lemma_class_of_is_smallest_fit(size as int);
            self.classes.lemma_wf_parts();
        }
        if size == 0 || size > max_class_size() {
            return AllocOutcome::Refused;
        }
        let c = size_class_index(size);
        let slot_size = self.classes.pools[c].slot_size;
        if align > slot_size {
            return AllocOutcome::Refused;
        }
        let ghost v0 = self@;
        match self.classes.pools[c].allocate() {
            None => {
                proof {
                    assert(self@ =~= v0);
                }
                AllocOutcome::NeedsChunk { class: c, bytes: CHUNK_BYTES, align: slot_size }
            },
            Some(addr) => {
                proof {
                    assert(self@ =~= v0.update(c as int, v0[c as int].take()));
                    lemma_take(v0, c as int);
                    lemma_class_geometry(c as int);
                    assert(v0[c as int].wf(c as int));
                    assert(v0[c as int].is_slot(addr as int));
                    assert forall|cc: int, b: usize|
                        0 <= cc < NUM_CLASSES && #[trigger] v0[cc].is_live(b) implies addr + class_bytes(c as int) <= b
                            || b + class_bytes(cc) <= addr by {
                        assert(v0[cc].wf(cc));
                        assert(is_live_in(v0, b));
                        lemma_slots_disjoint(v0, c as int, addr as int, cc, b as int);
                    }
                    if align > 0 && class_bytes(c as int) % (align as int) == 0 {
                        let ss = class_bytes(c as int);
                        let al = align as int;
                        lemma_multiple_of_multiple(addr as int, ss, al);
                    }
                    lemma_live_sum_update(v0, c as int, v0[c as int].take(), NUM_CLASSES as int);
                    assert forall|cc: int| 0 <= cc < NUM_CLASSES implies (#[trigger] self.classes.pools@[cc]).wf() by {
                        if cc != c {
                            assert(self.classes.pools@[cc] == old(self).classes.pools@[cc]);
                        }
                    }
                }
                self.stats.alloc_count += 1;
                self.stats.current_live += 1;
                self.stats.peak_live = if self.stats.peak_live > self.stats.current_live {
                    self.stats.peak_live
                } else {
                    self.stats.current_live
                };
                AllocOutcome::Done(addr)
            },
        }
    }

    /// A chunk at `base` can join class `class`: the class exists, the chunk is acceptable
    /// to it, and it overlaps no chunk of the pool.
    pub open spec fn takes_chunk(&self, class: usize, base: usize) -> bool {
        &&& class < NUM_CLASSES
        &&& self@[class as int].accepts_chunk(base)
        &&& fresh_region(self@, base)
    }

    /// Hands class `class` a chunk of `CHUNK_BYTES` bytes at `base`, obtained from the
    /// system. When the chunk can join the class, its slots become the class's next free
    /// slots, lowest address first, and the answer is `true`; otherwise nothing changes and
    /// the answer is `false`.
    pub fn add_chunk(&mut self, class: usize, base: usize) -> (r: bool)
        requires
            old(self).wf(),
        ensures
            final(self).wf(),
            r == old(self).takes_chunk(class, base),
            r ==> final(self)@ == old(self)@.update(class as int, old(self)@[class as int].with_chunk(base)),
            r ==> final(self)@[class as int].free[0] == base,
            !r ==> final(self)@ == old(self)@,
            final(self).stats == old(self).stats,
            forall|b: usize| is_live_in(final(self)@, b) == is_live_in(old(self)@, b),
            old(self).stats_consistent() ==> final(self).stats_consistent(),
            old(self).stats.peak_live >= old(self).stats.current_live ==> old(self).stats.peak_follows(final(self).stats),
    {
        proof {
            self.classes.lemma_wf_parts();
        }
        if class >= NUM_CLASSES {
            return false;
        }
        let slot_size = self.classes.pools[class].slot_size;
        proof {
            lemma_class_geometry(class as int);
        }
        if base == 0 || base % slot_size != 0 || base > usize::MAX - CHUNK_BYTES {
            return false;
        }
        let n = self.classes.pools[class].slot_count();
        if n > usize::MAX - self.classes.pools[class].slots_per_chunk {
            return false;
        }
        let mut c: usize = 0;
        while c < NUM_CLASSES
            invariant
                self.wf(),
                self == old(self),
                base + CHUNK_BYTES <= usize::MAX,
                c <= NUM_CLASSES,
                forall|cc: int, j: int|
                    0 <= cc < c && 0 <= j < self@[cc].chunks.len() ==> apart(#[trigger] self@[cc].chunks[j] as int, base as int),
            decreases NUM_CLASSES - c,
        {
            proof {
                self.classes.lemma_wf_parts();
            }
            if !self.classes.pools[c].region_free(base) {
                proof {
                    let cv = self.classes.pools@[c as int].view();
                    let j = choose|j: int| 0 <= j < cv.chunks.len() && !apart(#[trigger] cv.chunks[j] as int, base as int);
                    assert(self@[c as int] == cv);
                    assert(!apart(self@[c as int].chunks[j] as int, base as int));
                }
                return false;
            }
            c = c + 1;
        }
        let ghost v0 = self@;
        proof {
            lemma_with_chunk(v0, class as int, base);
            lemma_live_sum_update(v0, class as int, v0[class as int].with_chunk(base), NUM_CLASSES as int);
            lemma_class_geometry(class as int);
        }
        self.classes.pools[class].grow(base);
        proof {
            assert(self@ =~= v0.update(class as int, v0[class as int].with_chunk(base)));
            assert forall|cc: int| 0 <= cc < NUM_CLASSES implies (#[trigger] self.classes.pools@[cc]).wf() by {
                if cc != class {
                    assert(self.classes.pools@[cc] == old(self).classes.pools@[cc]);
                }
            }
            let g = v0[class as int].with_chunk(base);
            assert(g.free[0] == g.chunk_slots(base)[0]);
            assert(g.n_live() == v0[class as int].n_live()) by (nonlinear_arith)
                requires
                    g.n_slots() == (v0[class as int].chunks.len() + 1) * g.per_chunk(),
                    v0[class as int].n_slots() == v0[class as int].chunks.len() * g.per_chunk(),
                    g.free.len() == g.per_chunk() + v0[class as int].free.len(),
                    g.per_chunk() == v0[class as int].per_chunk(),
            ;
        }
        true
    }

    /// Whether `dealloc(addr, size, ..)` would return a slot (see `releases`), without
    /// changing anything.
    pub fn would_release(&self, addr: usize, size: usize) -> (r: bool)
        requires
            self.wf(),
        ensures
            r == self.releases(addr, size),
    {
        proof {
            lemma_class_of_is_smallest_fit(size as int);
            self.classes.lemma_wf_parts();
        }
        if addr == 0 || size == 0 {
            return false;
        }
        let c = size_class_index(size);
        let cp = &self.classes.pools[c];
        proof {
            assert(self@[c as int] == cp.view());
            assert(self@[c as int].wf(c as int));
        }
        if size > cp.slot_size {
            return false;
        }
        proof {
            cp.lemma_locate(addr as int, size as int);
        }
        match cp.find_slot(addr, size) {
            Some(_) => true,
            None => false,
        }
    }

    /// Returns `size` bytes at `addr` to the pool.
    ///
    /// When this is the return of a slot (see `releases`), the slot becomes the next one its
    /// class hands out and the return is counted; anything else (a null address, a zero
    /// size, a size of another class, an address that is not a slot) is ignored.
    pub fn dealloc(&mut self, addr: usize, size: usize, _align: usize)
        requires
            old(self).wf(),
            old(self).releases(addr, size) ==> {
                &&& old(self)@[class_of(size as int)].is_live(addr)
                &&& old(self).stats.free_count < usize::MAX
            },
        ensures
            final(self).wf(),
            old(self).stats_consistent() ==> final(self).stats_consistent(),
            old(self).stats.peak_live >= old(self).stats.current_live ==> old(self).stats.peak_follows(final(self).stats),
            ({
                let c = class_of(size as int);
                if old(self).releases(addr, size) {
                    &&& final(self)@ == old(self)@.update(c, old(self)@[c].give_back(addr))
                    &&& final(self).stats == (PoolStats {
                        alloc_count: old(self).stats.alloc_count,
                        free_count: (old(self).stats.free_count + 1) as usize,
                        current_live: if old(self).stats.current_live > 0 {
                            (old(self).stats.current_live - 1) as usize
                        } else {
                            0
                        },
                        peak_live: old(self).stats.peak_live,
                    })
                    // The slot is live nowhere now; no other address changes.
                    &&& !is_live_in(final(self)@, addr)
                    &&& forall|b: usize| b != addr ==> (is_live_in(final(self)@, b) == is_live_in(old(self)@, b))
                } else {
                    &&& final(self)@ == old(self)@
                    &&& final(self).stats == old(self).stats
                }
            }),
    {
        proof {
            lemma_class_of_is_smallest_fit(size as int);
            self.classes.lemma_wf_parts();
        }
        if addr == 0 || size == 0 {
            return;
        }
        let c = size_class_index(size);
        let ghost v0 = self@;
        proof {
            assert(v0[c as int] == self.classes.pools@[c as int].view());
            assert(v0[c as int].wf(c as int));
        }
        if !self.classes.pools[c].dealloc(addr, size) {
            proof {
                assert(self@ =~= v0);
            }
            return;
        }
        proof {
            assert(self@ =~= v0.update(c as int, v0[c as int].give_back(addr)));
            lemma_give_back(v0, c as int, addr);
            lemma_live_sum_update(v0, c as int, v0[c as int].give_back(addr), NUM_CLASSES as int);
            lemma_live_sum_bound(v0, c as int, NUM_CLASSES as int);
            assert forall|cc: int| 0 <= cc < NUM_CLASSES implies (#[trigger] self.classes.pools@[cc]).wf() by {
                if cc != c {
                    assert(self.classes.pools@[cc] == old(self).classes.pools@[cc]);
                }
            }
        }
        self.stats.free_count += 1;
        self.stats.current_live = self.stats.current_live.saturating_sub(1);
    }
}


impl Default for Pool {
    fn default() -> (r: Self)
        ensures
            r.wf(),
            forall|c: int| 0 <= c < NUM_CLASSES ==> (#[trigger] r@[c]).chunks.len() == 0 && r@[c].free.len() == 0,
            r.stats == (PoolStats { alloc_count: 0, free_count: 0, current_live: 0, peak_live: 0 }),
            r.stats_consistent(),
    {
        Self::new()
    }
}

}
