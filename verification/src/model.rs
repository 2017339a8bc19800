use vstd::prelude::*;
use crate::util::{class_bytes, class_of, lemma_class_of_is_smallest_fit, NUM_CLASSES};

verus! {

/// Bytes the pool takes from the system each time a class runs out of free slots.
pub const CHUNK_BYTES: usize = 16 * 1024;

/// Number of slots of `slot_size` bytes in one chunk.
pub open spec fn per_chunk(slot_size: int) -> int {
    CHUNK_BYTES as int / slot_size
}

/// Each slot size divides the chunk size, so a chunk holds a whole number of slots
/// (at least two).
pub proof fn lemma_class_geometry(c: int)
    requires
        0 <= c < NUM_CLASSES,
    ensures
        class_bytes(c) > 0,
        class_bytes(c) * per_chunk(class_bytes(c)) == CHUNK_BYTES,
        per_chunk(class_bytes(c)) >= 2,
        class_bytes(c) <= usize::MAX,
{
    assert(CHUNK_BYTES == 16384);
    if c == 0 { assert(class_bytes(0) == 8); }
    else if c == 1 { assert(class_bytes(1) == 16); }
    else if c == 2 { assert(class_bytes(2) == 32); }
    else if c == 3 { assert(class_bytes(3) == 64); }
    else if c == 4 { assert(class_bytes(4) == 128); }
    else if c == 5 { assert(class_bytes(5) == 256); }
    else if c == 6 { assert(class_bytes(6) == 512); }
    else if c == 7 { assert(class_bytes(7) == 1024); }
    else if c == 8 { assert(class_bytes(8) == 2048); }
    else { assert(class_bytes(9) == 8192); }
}

/// Address of slot `k` of the chunk at `chunks[j]`, for slots of `slot_size` bytes.
pub open spec fn slot_addr(chunks: Seq<usize>, slot_size: int, j: int, k: int) -> int {
    chunks[j] + k * slot_size
}

/// `a` is the address of a slot of one of `chunks`, for slots of `slot_size` bytes.
pub open spec fn is_slot_in(chunks: Seq<usize>, slot_size: int, a: int) -> bool {
    exists|j: int, k: int|
        0 <= j < chunks.len() && 0 <= k < per_chunk(slot_size) && a == #[trigger] slot_addr(chunks, slot_size, j, k)
}

/// The chunk regions starting at `a` and at `b` share no byte.
pub open spec fn apart(a: int, b: int) -> bool {
    a + CHUNK_BYTES <= b || b + CHUNK_BYTES <= a
}

/// What one size class holds, by address: its slot size, the start of each chunk in the
/// order the chunks were added, and its free slots, the one handed out next first.
pub struct ClassState {
    pub slot_size: usize,
    pub chunks: Seq<usize>,
    pub free: Seq<usize>,
}

impl ClassState {
    /// Slots per chunk.
    pub open spec fn per_chunk(self) -> int {
        per_chunk(self.slot_size as int)
    }

    /// Address of slot `k` of chunk `j`.
    pub open spec fn slot_at(self, j: int, k: int) -> int {
        slot_addr(self.chunks, self.slot_size as int, j, k)
    }

    /// `a` is the address of a slot of this class.
    pub open spec fn is_slot(self, a: int) -> bool {
        is_slot_in(self.chunks, self.slot_size as int, a)
    }

    /// `a` is a slot of this class that is handed out and not yet returned.
    pub open spec fn is_live(self, a: usize) -> bool {
        self.is_slot(a as int) && !self.free.contains(a)
    }

    /// Number of slots of this class.
    pub open spec fn n_slots(self) -> int {
        self.chunks.len() * self.per_chunk()
    }

    /// Number of slots handed out and not yet returned.
    pub open spec fn n_live(self) -> int {
        self.n_slots() - self.free.len()
    }

    /// The class after handing out its first free slot.
    pub open spec fn take(self) -> ClassState {
        ClassState { free: self.free.drop_first(), ..self }
    }

    /// The class after slot `a` is returned: it is handed out next.
    pub open spec fn give_back(self, a: usize) -> ClassState {
        ClassState { free: seq![a] + self.free, ..self }
    }

    /// Slot addresses of a chunk at `base`, in increasing order.
    pub open spec fn chunk_slots(self, base: usize) -> Seq<usize> {
        Seq::new(self.per_chunk() as nat, |k: int| (base + k * self.slot_size) as usize)
    }

    /// The class after a chunk at `base` is added: its slots are handed out first, lowest
    /// address first.
    pub open spec fn with_chunk(self, base: usize) -> ClassState {
        ClassState {
            slot_size: self.slot_size,
            chunks: self.chunks.push(base),
            free: self.chunk_slots(base) + self.free,
        }
    }

    /// A chunk at `base` is non-null, aligned to the slot size, ends within the address
    /// space, and the slot count stays representable.
    pub open spec fn accepts_chunk(self, base: usize) -> bool {
        &&& base != 0
        &&& base as int % self.slot_size as int == 0
        &&& base + CHUNK_BYTES <= usize::MAX
        &&& self.n_slots() + self.per_chunk() <= usize::MAX
    }

    /// The slot size is positive and divides the chunk size.
    pub open spec fn geometry_ok(self) -> bool {
        &&& self.slot_size > 0
        &&& self.slot_size * self.per_chunk() == CHUNK_BYTES
    }

    /// Every chunk is acceptable and no two chunks overlap.
    pub open spec fn chunks_wf(self) -> bool {
        &&& self.geometry_ok()
        &&& forall|j: int|
            0 <= j < self.chunks.len() ==> {
                &&& #[trigger] self.chunks[j] != 0
                &&& self.chunks[j] as int % self.slot_size as int == 0
                &&& self.chunks[j] + CHUNK_BYTES <= usize::MAX
            }
        &&& forall|i: int, j: int|
            0 <= i < self.chunks.len() && 0 <= j < self.chunks.len() && i != j ==> apart(
                #[trigger] self.chunks[i] as int,
                #[trigger] self.chunks[j] as int,
            )
        &&& self.n_slots() <= usize::MAX
    }

    /// Class `c` is consistent: its slot size is that of class `c`, its chunks are
    /// consistent, and its free slots are distinct slots of it.
    pub open spec fn wf(self, c: int) -> bool {
        &&& self.slot_size == class_bytes(c)
        &&& self.chunks_wf()
        &&& self.free.no_duplicates()
        &&& forall|k: int| 0 <= k < self.free.len() ==> self.is_slot(#[trigger] self.free[k] as int)
    }
}

impl ClassState {
    /// Slot `k` of chunk `j` lies inside that chunk, is non-null and aligned to the slot
    /// size.
    pub proof fn lemma_slot_bounds(self, j: int, k: int)
        requires
            self.chunks_wf(),
            0 <= j < self.chunks.len(),
            0 <= k < self.per_chunk(),
        ensures
            self.chunks[j] <= self.slot_at(j, k),
            self.slot_at(j, k) + self.slot_size <= self.chunks[j] + CHUNK_BYTES,
            self.slot_at(j, k) % (self.slot_size as int) == 0,
            self.slot_at(j, k) > 0,
            self.slot_at(j, k) + self.slot_size <= usize::MAX,
    {
        let ss = self.slot_size as int;
        let n = self.per_chunk();
        assert(self.chunks[j] != 0);
        assert(0 <= k * ss && k * ss + ss <= n * ss) by (nonlinear_arith)
            requires
                0 <= k < n,
                ss > 0,
        ;
        assert(n * ss == ss * n) by (nonlinear_arith);
        vstd::arithmetic::div_mod::lemma_mod_multiples_vanish(k, self.chunks[j] as int, ss);
        assert(ss * k == k * ss) by (nonlinear_arith);
    }

    /// Distinct (chunk, slot) positions have distinct addresses.
    pub proof fn lemma_slot_unique(self, j1: int, k1: int, j2: int, k2: int)
        requires
            self.chunks_wf(),
            0 <= j1 < self.chunks.len(),
            0 <= k1 < self.per_chunk(),
            0 <= j2 < self.chunks.len(),
            0 <= k2 < self.per_chunk(),
            self.slot_at(j1, k1) == self.slot_at(j2, k2),
        ensures
            j1 == j2,
            k1 == k2,
    {
        self.lemma_slot_bounds(j1, k1);
        self.lemma_slot_bounds(j2, k2);
        if j1 != j2 {
            assert(apart(self.chunks[j1] as int, self.chunks[j2] as int));
        }
        let ss = self.slot_size as int;
        assert(k1 * ss == k2 * ss);
        assert(k1 == k2) by (nonlinear_arith)
            requires
                k1 * ss == k2 * ss,
                ss > 0,
        ;
    }

    /// Every slot address of the class is non-null, aligned to the slot size, and its
    /// slot ends within the address space.
    pub proof fn lemma_is_slot(self, a: int)
        requires
            self.chunks_wf(),
            self.is_slot(a),
        ensures
            a > 0,
            a % (self.slot_size as int) == 0,
            a + self.slot_size <= usize::MAX,
    {
        let (j, k) = choose|j: int, k: int|
            0 <= j < self.chunks.len() && 0 <= k < per_chunk(self.slot_size as int) && a
                == #[trigger] slot_addr(self.chunks, self.slot_size as int, j, k);
        self.lemma_slot_bounds(j, k);
    }
}

impl ClassState {
    /// Adding an acceptable chunk that overlaps none of the class's chunks keeps the
    /// chunks consistent.
    pub proof fn lemma_with_chunk_geometry(self, base: usize)
        requires
            self.chunks_wf(),
            self.accepts_chunk(base),
            forall|j: int| 0 <= j < self.chunks.len() ==> apart(#[trigger] self.chunks[j] as int, base as int),
        ensures
            self.with_chunk(base).chunks_wf(),
            self.with_chunk(base).n_slots() == self.n_slots() + self.per_chunk(),
    {
        let g = self.with_chunk(base);
        let len = self.chunks.len() as int;
        let n = self.per_chunk();
        assert(g.n_slots() == self.n_slots() + n) by (nonlinear_arith)
            requires
                g.n_slots() == (len + 1) * n,
                self.n_slots() == len * n,
        ;
        assert forall|i: int, j: int|
            0 <= i < g.chunks.len() && 0 <= j < g.chunks.len() && i != j implies apart(
            #[trigger] g.chunks[i] as int,
            #[trigger] g.chunks[j] as int,
        ) by {
            if i < len && j < len {
                assert(apart(self.chunks[i] as int, self.chunks[j] as int));
            } else if i < len {
                assert(apart(self.chunks[i] as int, base as int));
            } else {
                assert(apart(self.chunks[j] as int, base as int));
            }
        }
    }
}

/// A slot address belongs to one class only.
pub proof fn lemma_slot_owner(v: Seq<ClassState>, c1: int, c2: int, a: int)
    requires
        pool_wf(v),
        0 <= c1 < NUM_CLASSES,
        0 <= c2 < NUM_CLASSES,
        v[c1].is_slot(a),
        v[c2].is_slot(a),
    ensures
        c1 == c2,
{
    let (j1, k1) = choose|j: int, k: int|
        0 <= j < v[c1].chunks.len() && 0 <= k < per_chunk(v[c1].slot_size as int) && a
            == #[trigger] slot_addr(v[c1].chunks, v[c1].slot_size as int, j, k);
    let (j2, k2) = choose|j: int, k: int|
        0 <= j < v[c2].chunks.len() && 0 <= k < per_chunk(v[c2].slot_size as int) && a
            == #[trigger] slot_addr(v[c2].chunks, v[c2].slot_size as int, j, k);
    assert(v[c1].wf(c1));
    assert(v[c2].wf(c2));
    v[c1].lemma_slot_bounds(j1, k1);
    v[c2].lemma_slot_bounds(j2, k2);
    if c1 != c2 {
        assert(apart(v[c1].chunks[j1] as int, v[c2].chunks[j2] as int));
    }
}

/// Distinct slot addresses of the pool, of the same class or not, have disjoint bytes:
/// the slot at `a` (of class `c1`) and the slot at `b` (of class `c2`) do not overlap.
pub proof fn lemma_slots_disjoint(v: Seq<ClassState>, c1: int, a: int, c2: int, b: int)
    requires
        pool_wf(v),
        0 <= c1 < NUM_CLASSES,
        0 <= c2 < NUM_CLASSES,
        v[c1].is_slot(a),
        v[c2].is_slot(b),
        a != b,
    ensures
        a + v[c1].slot_size <= b || b + v[c2].slot_size <= a,
{
    let (j1, k1) = choose|j: int, k: int|
        0 <= j < v[c1].chunks.len() && 0 <= k < per_chunk(v[c1].slot_size as int) && a
            == #[trigger] slot_addr(v[c1].chunks, v[c1].slot_size as int, j, k);
    let (j2, k2) = choose|j: int, k: int|
        0 <= j < v[c2].chunks.len() && 0 <= k < per_chunk(v[c2].slot_size as int) && b
            == #[trigger] slot_addr(v[c2].chunks, v[c2].slot_size as int, j, k);
    assert(v[c1].wf(c1));
    assert(v[c2].wf(c2));
    v[c1].lemma_slot_bounds(j1, k1);
    v[c2].lemma_slot_bounds(j2, k2);
    if c1 != c2 || j1 != j2 {
        assert(apart(v[c1].chunks[j1] as int, v[c2].chunks[j2] as int));
    } else {
        let ss = v[c1].slot_size as int;
        assert(k1 != k2);
        assert(k1 * ss + ss <= k2 * ss || k2 * ss + ss <= k1 * ss) by (nonlinear_arith)
            requires
                k1 != k2,
                ss > 0,
        ;
    }
}

/// Handing out the first free slot `a` of class `c` keeps the pool consistent; `a` was
/// not live anywhere in the pool, is live afterwards, and no other address changes.
pub proof fn lemma_take(v: Seq<ClassState>, c: int)
    requires
        pool_wf(v),
        0 <= c < NUM_CLASSES,
        v[c].free.len() > 0,
    ensures
        ({
            let a = v[c].free[0];
            let w = v.update(c, v[c].take());
            &&& pool_wf(w)
            &&& !is_live_in(v, a)
            &&& w[c].is_live(a)
            &&& forall|b: usize| b != a ==> (is_live_in(w, b) == is_live_in(v, b))
            &&& a > 0
            &&& a as int % class_bytes(c) == 0
            &&& a + class_bytes(c) <= usize::MAX
        }),
{
    let a = v[c].free[0];
    let w = v.update(c, v[c].take());
    let cs = v[c];
    assert(cs.wf(c));
    assert(cs.is_slot(a as int));
    cs.lemma_is_slot(a as int);
    let t = cs.take();
    assert forall|k: int| 0 <= k < t.free.len() implies t.is_slot(#[trigger] t.free[k] as int) by {
        assert(t.free[k] == cs.free[k + 1]);
    }
    assert(t.wf(c));
    assert forall|cc: int| 0 <= cc < NUM_CLASSES implies (#[trigger] w[cc]).wf(cc) by {
        if cc != c {
            assert(w[cc] == v[cc]);
        }
    }
    assert(pool_wf(w));
    assert(cs.free.contains(a));
    assert(!t.free.contains(a)) by {
        if t.free.contains(a) {
            let k = choose|k: int| 0 <= k < t.free.len() && t.free[k] == a;
            assert(cs.free[k + 1] == cs.free[0]);
        }
    }
    assert(w[c].is_live(a));
    assert forall|cc: int| 0 <= cc < v.len() implies !(#[trigger] v[cc]).is_live(a) by {
        if cc != c && v[cc].is_slot(a as int) {
            lemma_slot_owner(v, c, cc, a as int);
        }
    }
    assert forall|b: usize| b != a implies (is_live_in(w, b) == is_live_in(v, b)) by {
        assert forall|cc: int| 0 <= cc < NUM_CLASSES implies (#[trigger] w[cc]).is_live(b) == v[cc].is_live(b) by {
            if cc == c {
                if cs.free.contains(b) {
                    let k = choose|k: int| 0 <= k < cs.free.len() && cs.free[k] == b;
                    assert(k > 0);
                    assert(t.free[k - 1] == b);
                }
                if t.free.contains(b) {
                    let k = choose|k: int| 0 <= k < t.free.len() && t.free[k] == b;
                    assert(cs.free[k + 1] == b);
                }
            }
        }
        if is_live_in(v, b) {
            let cc = choose|cc: int| 0 <= cc < v.len() && (#[trigger] v[cc]).is_live(b);
            assert(w[cc].is_live(b));
        }
        if is_live_in(w, b) {
            let cc = choose|cc: int| 0 <= cc < w.len() && (#[trigger] w[cc]).is_live(b);
            assert(v[cc].is_live(b));
        }
    }
}

/// Returning a live slot `a` of class `c` keeps the pool consistent; afterwards `a` is
/// free and no other address changes.
pub proof fn lemma_give_back(v: Seq<ClassState>, c: int, a: usize)
    requires
        pool_wf(v),
        0 <= c < NUM_CLASSES,
        v[c].is_live(a),
    ensures
        ({
            let w = v.update(c, v[c].give_back(a));
            &&& pool_wf(w)
            &&& !is_live_in(w, a)
            &&& forall|b: usize| b != a ==> (is_live_in(w, b) == is_live_in(v, b))
            &&& w[c].free[0] == a
            &&& w[c].take() == v[c]
        }),
{
    let w = v.update(c, v[c].give_back(a));
    let cs = v[c];
    assert(cs.wf(c));
    let g = cs.give_back(a);
    assert forall|k: int| 0 <= k < g.free.len() implies g.is_slot(#[trigger] g.free[k] as int) by {
        if k > 0 {
            assert(g.free[k] == cs.free[k - 1]);
        }
    }
    assert forall|x: int, y: int| 0 <= x < y < g.free.len() implies g.free[x] != g.free[y] by {
        assert(g.free[y] == cs.free[y - 1]);
        if x > 0 {
            assert(g.free[x] == cs.free[x - 1]);
        } else {
            assert(cs.free.contains(cs.free[y - 1]));
        }
    }
    assert(g.wf(c));
    assert forall|cc: int| 0 <= cc < NUM_CLASSES implies (#[trigger] w[cc]).wf(cc) by {
        if cc != c {
            assert(w[cc] == v[cc]);
        }
    }
    assert(pool_wf(w));
    assert(g.free[0] == a);
    assert(g.free.contains(a));
    assert forall|cc: int| 0 <= cc < w.len() implies !(#[trigger] w[cc]).is_live(a) by {
        if cc != c && w[cc].is_slot(a as int) {
            lemma_slot_owner(v, c, cc, a as int);
        }
    }
    assert(g.take().free =~= cs.free);
    assert forall|b: usize| b != a implies (is_live_in(w, b) == is_live_in(v, b)) by {
        assert forall|cc: int| 0 <= cc < NUM_CLASSES implies (#[trigger] w[cc]).is_live(b) == v[cc].is_live(b) by {
            if cc == c {
                if cs.free.contains(b) {
                    let k = choose|k: int| 0 <= k < cs.free.len() && cs.free[k] == b;
                    assert(g.free[k + 1] == b);
                }
                if g.free.contains(b) {
                    let k = choose|k: int| 0 <= k < g.free.len() && g.free[k] == b;
                    assert(k > 0);
                    assert(cs.free[k - 1] == b);
                }
            }
        }
        if is_live_in(v, b) {
            let cc = choose|cc: int| 0 <= cc < v.len() && (#[trigger] v[cc]).is_live(b);
            assert(w[cc].is_live(b));
        }
        if is_live_in(w, b) {
            let cc = choose|cc: int| 0 <= cc < w.len() && (#[trigger] w[cc]).is_live(b);
            assert(v[cc].is_live(b));
        }
    }
}

/// Adding an acceptable chunk at a fresh `base` to class `c` keeps the pool consistent
/// and changes no address's liveness: all the new slots are free.
pub proof fn lemma_with_chunk(v: Seq<ClassState>, c: int, base: usize)
    requires
        pool_wf(v),
        0 <= c < NUM_CLASSES,
        v[c].accepts_chunk(base),
        fresh_region(v, base),
    ensures
        ({
            let w = v.update(c, v[c].with_chunk(base));
            &&& pool_wf(w)
            &&& forall|b: usize| is_live_in(w, b) == is_live_in(v, b)
        }),
{
    let w = v.update(c, v[c].with_chunk(base));
    let cs = v[c];
    assert(cs.wf(c));
    let g = cs.with_chunk(base);
    let ss = cs.slot_size as int;
    let n = cs.per_chunk();
    let len = cs.chunks.len() as int;
    lemma_class_geometry(c);
    let fresh = cs.chunk_slots(base);
    // Slots of the new chunk: inside it, distinct, and slots of the class.
    assert forall|k: int| 0 <= k < n implies {
        &&& base <= #[trigger] fresh[k] < base + CHUNK_BYTES
        &&& fresh[k] == slot_addr(g.chunks, ss, len, k)
    } by {
        assert(0 <= k * ss && k * ss + ss <= n * ss) by (nonlinear_arith)
            requires
                0 <= k < n,
                ss > 0,
        ;
        assert(g.chunks[len] == base);
    }
    assert forall|x: int, y: int| 0 <= x < y < n implies fresh[x] != fresh[y] by {
        assert(x * ss != y * ss) by (nonlinear_arith)
            requires
                0 <= x < y,
                ss > 0,
        ;
        assert(0 <= x * ss && x * ss + ss <= n * ss) by (nonlinear_arith)
            requires
                0 <= x < n,
                ss > 0,
        ;
        assert(0 <= y * ss && y * ss + ss <= n * ss) by (nonlinear_arith)
            requires
                0 <= y < n,
                ss > 0,
        ;
    }
    // Old slots keep their positions and lie outside the new chunk.
    assert forall|a: int| #[trigger] cs.is_slot(a) implies g.is_slot(a) && !(base <= a < base + CHUNK_BYTES) by {
        let (j, k) = choose|j: int, k: int|
            0 <= j < cs.chunks.len() && 0 <= k < per_chunk(ss) && a == #[trigger] slot_addr(cs.chunks, ss, j, k);
        cs.lemma_slot_bounds(j, k);
        assert(g.chunks[j] == cs.chunks[j]);
        assert(slot_addr(g.chunks, ss, j, k) == a);
        assert(apart(v[c].chunks[j] as int, base as int));
    }
    // A slot of the grown class is a new-chunk slot or an old one.
    assert forall|a: int| #[trigger] g.is_slot(a) implies cs.is_slot(a) || fresh.contains(a as usize) by {
        let (j, k) = choose|j: int, k: int|
            0 <= j < g.chunks.len() && 0 <= k < per_chunk(ss) && a == #[trigger] slot_addr(g.chunks, ss, j, k);
        if j < len {
            assert(cs.chunks[j] == g.chunks[j]);
            assert(slot_addr(cs.chunks, ss, j, k) == a);
        } else {
            assert(fresh[k] == a);
        }
    }
    assert forall|k: int| 0 <= k < g.free.len() implies g.is_slot(#[trigger] g.free[k] as int) by {
        if k < n {
            assert(g.free[k] == fresh[k]);
        } else {
            assert(g.free[k] == cs.free[k - n]);
            assert(cs.is_slot(cs.free[k - n] as int));
        }
    }
    assert forall|x: int, y: int| 0 <= x < y < g.free.len() implies g.free[x] != g.free[y] by {
        if y < n {
        } else if x < n {
            assert(g.free[y] == cs.free[y - n]);
            assert(cs.is_slot(cs.free[y - n] as int));
        } else {
            assert(g.free[y] == cs.free[y - n]);
            assert(g.free[x] == cs.free[x - n]);
        }
    }
    assert(g.n_slots() == cs.n_slots() + n) by (nonlinear_arith)
        requires
            g.n_slots() == (len + 1) * n,
            cs.n_slots() == len * n,
    ;
    assert forall|i: int, j: int|
        0 <= i < g.chunks.len() && 0 <= j < g.chunks.len() && i != j implies apart(
        #[trigger] g.chunks[i] as int,
        #[trigger] g.chunks[j] as int,
    ) by {
        if i < len && j < len {
            assert(apart(cs.chunks[i] as int, cs.chunks[j] as int));
        } else if i < len {
            assert(apart(v[c].chunks[i] as int, base as int));
        } else {
            assert(apart(v[c].chunks[j] as int, base as int));
        }
    }
    assert(g.wf(c));
    assert forall|cc: int| 0 <= cc < NUM_CLASSES implies (#[trigger] w[cc]).wf(cc) by {
        if cc != c {
            assert(w[cc] == v[cc]);
        }
    }
    assert forall|c1: int, j1: int, c2: int, j2: int|
        0 <= c1 < NUM_CLASSES && 0 <= c2 < NUM_CLASSES && 0 <= j1 < w[c1].chunks.len() && 0 <= j2
            < w[c2].chunks.len() && (c1 != c2 || j1 != j2) implies apart(
        #[trigger] w[c1].chunks[j1] as int,
        #[trigger] w[c2].chunks[j2] as int,
    ) by {
        let new1 = c1 == c && j1 == len;
        let new2 = c2 == c && j2 == len;
        if !new1 && !new2 {
            assert(w[c1].chunks[j1] == v[c1].chunks[j1]);
            assert(w[c2].chunks[j2] == v[c2].chunks[j2]);
        } else if new1 && !new2 {
            assert(w[c2].chunks[j2] == v[c2].chunks[j2]);
            assert(apart(v[c2].chunks[j2] as int, base as int));
        } else if new2 && !new1 {
            assert(w[c1].chunks[j1] == v[c1].chunks[j1]);
            assert(apart(v[c1].chunks[j1] as int, base as int));
        }
    }
    assert(pool_wf(w));
    assert forall|b: usize| is_live_in(w, b) == is_live_in(v, b) by {
        assert forall|cc: int| 0 <= cc < NUM_CLASSES implies (#[trigger] w[cc]).is_live(b) == v[cc].is_live(b) by {
            if cc == c {
                if cs.free.contains(b) {
                    let k = choose|k: int| 0 <= k < cs.free.len() && cs.free[k] == b;
                    assert(g.free[k + n] == b);
                }
                if g.is_slot(b as int) && !cs.is_slot(b as int) {
                    let k = choose|k: int| 0 <= k < fresh.len() && fresh[k] == b;
                    assert(g.free[k] == b);
                }
                if cs.is_slot(b as int) && g.free.contains(b) {
                    let k = choose|k: int| 0 <= k < g.free.len() && g.free[k] == b;
                    if k < n {
                        assert(fresh[k] == b);
                    } else {
                        assert(cs.free[k - n] == b);
                    }
                }
            }
        }
        if is_live_in(v, b) {
            let cc = choose|cc: int| 0 <= cc < v.len() && (#[trigger] v[cc]).is_live(b);
            assert(w[cc].is_live(b));
        }
        if is_live_in(w, b) {
            let cc = choose|cc: int| 0 <= cc < w.len() && (#[trigger] w[cc]).is_live(b);
            assert(v[cc].is_live(b));
        }
    }
}

/// The whole pool is consistent: one consistent state per class, and no two chunks,
/// of the same class or not, overlap.
pub open spec fn pool_wf(v: Seq<ClassState>) -> bool {
    &&& v.len() == NUM_CLASSES
    &&& forall|c: int| 0 <= c < NUM_CLASSES ==> (#[trigger] v[c]).wf(c)
    &&& forall|c1: int, j1: int, c2: int, j2: int|
        0 <= c1 < NUM_CLASSES && 0 <= c2 < NUM_CLASSES && 0 <= j1 < v[c1].chunks.len() && 0 <= j2
            < v[c2].chunks.len() && (c1 != c2 || j1 != j2) ==> apart(
            #[trigger] v[c1].chunks[j1] as int,
            #[trigger] v[c2].chunks[j2] as int,
        )
}

/// A chunk at `base` overlaps none of the pool's chunks.
pub open spec fn fresh_region(v: Seq<ClassState>, base: usize) -> bool {
    forall|c: int, j: int|
        0 <= c < v.len() && 0 <= j < v[c].chunks.len() ==> apart(#[trigger] v[c].chunks[j] as int, base as int)
}

/// `a` is handed out by some class of the pool and not yet returned.
pub open spec fn is_live_in(v: Seq<ClassState>, a: usize) -> bool {
    exists|c: int| 0 <= c < v.len() && (#[trigger] v[c]).is_live(a)
}

/// Number of slots handed out and not yet returned, over classes `0..n`.
pub open spec fn live_sum(v: Seq<ClassState>, n: int) -> int
    decreases n,
{
    if n <= 0 {
        0
    } else {
        live_sum(v, n - 1) + v[n - 1].n_live()
    }
}

/// Number of slots handed out and not yet returned, over the whole pool.
pub open spec fn live_total(v: Seq<ClassState>) -> int {
    live_sum(v, v.len() as int)
}


/// Replacing class `c` changes the live count over classes `0..n` by the change of
/// that class's live count, when `c < n`, and not at all otherwise.
pub proof fn lemma_live_sum_update(v: Seq<ClassState>, c: int, x: ClassState, n: int)
    requires
        0 <= c < v.len(),
        n <= v.len(),
    ensures
        c < n ==> live_sum(v.update(c, x), n) == live_sum(v, n) - v[c].n_live() + x.n_live(),
        c >= n ==> live_sum(v.update(c, x), n) == live_sum(v, n),
    decreases n,
{
    if n > 0 {
        lemma_live_sum_update(v, c, x, n - 1);
    }
}

/// When no class has a negative live count, the total over classes `0..n` is at least
/// the count of any one of them.
pub proof fn lemma_live_sum_bound(v: Seq<ClassState>, c: int, n: int)
    requires
        0 <= c < n <= v.len(),
        forall|i: int| 0 <= i < n ==> (#[trigger] v[i]).n_live() >= 0,
    ensures
        live_sum(v, n) >= v[c].n_live(),
    decreases n,
{
    if c < n - 1 {
        lemma_live_sum_bound(v, c, n - 1);
    } else {
        lemma_live_sum_nonneg(v, n - 1);
    }
}

/// When no class has a negative live count, neither has any range of classes.
pub proof fn lemma_live_sum_nonneg(v: Seq<ClassState>, n: int)
    requires
        n <= v.len(),
        forall|i: int| 0 <= i < n ==> (#[trigger] v[i]).n_live() >= 0,
    ensures
        live_sum(v, n) >= 0,
    decreases n,
{
    if n > 0 {
        lemma_live_sum_nonneg(v, n - 1);
    }
}


/// With no slot live in any class, nothing is live in any range of classes.
pub proof fn lemma_live_sum_zero(v: Seq<ClassState>, n: int)
    requires
        n <= v.len(),
        forall|i: int| 0 <= i < n ==> (#[trigger] v[i]).n_live() == 0,
    ensures
        live_sum(v, n) == 0,
    decreases n,
{
    if n > 0 {
        lemma_live_sum_zero(v, n - 1);
    }
}


/// Returning `size` bytes at `addr` is the return of a slot: `addr` is a slot of the
/// class of `size`, and `size` is positive and fits that class's slots.
pub open spec fn returns_slot(v: Seq<ClassState>, addr: usize, size: usize) -> bool {
    &&& addr != 0
    &&& size != 0
    &&& size <= class_bytes(class_of(size as int))
    &&& v[class_of(size as int)].is_slot(addr as int)
}

/// A slot handed out by class `c` can be given back with any size that the class
/// serves and fits its slots, and with no other size: sizes of another class leave the
/// pool unchanged.
pub proof fn lemma_return_needs_own_class(v: Seq<ClassState>, c: int, addr: usize, size: usize)
    requires
        pool_wf(v),
        0 <= c < NUM_CLASSES,
        v[c].is_live(addr),
    ensures
        returns_slot(v, addr, size) <==> (class_of(size as int) == c && 1 <= size <= class_bytes(c)),
{
    lemma_class_of_is_smallest_fit(size as int);
    assert(v[c].wf(c));
    v[c].lemma_is_slot(addr as int);
    if returns_slot(v, addr, size) {
        lemma_slot_owner(v, c, class_of(size as int), addr as int);
    }
}


/// Handing out the first free slot of class `c` and then giving it back restores the
/// pool exactly.
pub proof fn lemma_take_then_give_back(v: Seq<ClassState>, c: int)
    requires
        pool_wf(v),
        0 <= c < NUM_CLASSES,
        v[c].free.len() > 0,
    ensures
        ({
            let a = v[c].free[0];
            let w = v.update(c, v[c].take());
            &&& w[c].is_live(a)
            &&& w.update(c, w[c].give_back(a)) == v
        }),
{
    let a = v[c].free[0];
    let w = v.update(c, v[c].take());
    lemma_take(v, c);
    assert(w[c].give_back(a).free =~= v[c].free);
    assert(w.update(c, w[c].give_back(a)) =~= v);
}

}
