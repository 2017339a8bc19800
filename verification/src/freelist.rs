use vstd::prelude::*;
use vstd::set_lib::set_int_range;

verus! {

/// Link value that ends the chain of free slots.
pub const NIL: usize = usize::MAX;

/// Slot indices `start, start + 1, ..., start + count - 1`, in that order.
pub open spec fn index_run(start: int, count: int) -> Seq<usize> {
    Seq::new(count as nat, |k: int| (start + k) as usize)
}

/// Index-based LIFO list of free slots.
///
/// `next` has one entry per slot ever handed to the list; the entry of a free slot holds
/// the index of the free slot after it, or `NIL` for the last one. The list itself is
/// never written into the slots it tracks.
pub struct FreeList {
    head: Option<usize>,
    next: Vec<usize>,
    order: Ghost<Seq<usize>>,
}

impl View for FreeList {
    type V = Seq<usize>;

    /// The free slots, the one that `pop` hands out next first.
    closed spec fn view(&self) -> Seq<usize> {
        self.order@
    }
}

impl FreeList {
    /// Number of slots the list knows about (free or not): indices `0..slots()`.
    pub closed spec fn slots(&self) -> nat {
        self.next@.len()
    }

    /// The link array: entry `s` is what slot `s` was last linked to.
    pub closed spec fn links(&self) -> Seq<usize> {
        self.next@
    }

    /// The link a slot pushed now receives: the current first free slot, or `NIL`.
    pub open spec fn head_link(&self) -> usize {
        if self@.len() == 0 {
            NIL
        } else {
            self@[0]
        }
    }

    /// Links written for `count` new slots numbered from `start`: each to the next one,
    /// the last to `tail`.
    pub open spec fn run_links(start: int, count: int, tail: usize) -> Seq<usize> {
        Seq::new(count as nat, |k: int| if k + 1 < count { (start + k + 1) as usize } else { tail })
    }

    /// The chain `head -> next[..] -> ... -> NIL` visits exactly the free slots, each once.
    pub closed spec fn wf(&self) -> bool {
        let l = self.order@;
        &&& l.no_duplicates()
        &&& forall|k: int| 0 <= k < l.len() ==> (#[trigger] l[k]) < self.next@.len()
        &&& self.head == (if l.len() == 0 { None::<usize> } else { Some(l[0]) })
        &&& forall|k: int| 0 <= k < l.len() - 1 ==> self.next@[#[trigger] l[k] as int] == l[k + 1]
        &&& l.len() > 0 ==> self.next@[l[l.len() - 1] as int] == NIL
    }

    /// Every free slot is a known slot, none is listed twice, and the number of known
    /// slots is representable.
    pub proof fn lemma_wf(&self)
        requires
            self.wf(),
        ensures
            self@.no_duplicates(),
            forall|k: int| 0 <= k < self@.len() ==> (#[trigger] self@[k]) < self.slots(),
            self.slots() <= usize::MAX,
    {
        assert(self.next@.len() == self.next.len());
    }

    /// A list of distinct known slots is no longer than the number of known slots, and
    /// shorter when some known slot is missing from it.
    pub proof fn lemma_len(&self, missing: int)
        requires
            self.wf(),
        ensures
            self@.len() <= self.slots(),
            0 <= missing < self.slots() && !self@.contains(missing as usize) ==> self@.len() < self.slots(),
    {
        let l = self@;
        let n = self.slots() as int;
        let li = l.map_values(|x: usize| x as int);
        assert forall|a: int, b: int| 0 <= a < b < li.len() implies li[a] != li[b] by {
            assert(l[a] != l[b]);
        }
        assert(li.no_duplicates());
        li.unique_seq_to_set();
        vstd::set_lib::lemma_int_range(0, n);
        let bound = if 0 <= missing < n && !l.contains(missing as usize) {
            set_int_range(0, n).remove(missing)
        } else {
            set_int_range(0, n)
        };
        assert forall|x: int| li.to_set().contains(x) implies bound.contains(x) by {
            let k = choose|k: int| 0 <= k < li.len() && li[k] == x;
            assert(l[k] < n);
            if 0 <= missing < n && !l.contains(missing as usize) {
                if x == missing {
                    assert(l.contains(l[k]));
                }
            }
        }
        vstd::set_lib::lemma_len_subset(li.to_set(), bound);
    }

    /// An empty list that knows no slot.
    pub fn new() -> (r: Self)
        ensures
            r.wf(),
            r@ == Seq::<usize>::empty(),
            r.slots() == 0,
    {
        FreeList { head: None, next: Vec::new(), order: Ghost(Seq::empty()) }
    }

    /// Takes the most recently freed slot, or `None` when no slot is free.
    pub fn pop(&mut self) -> (r: Option<usize>)
        requires
            old(self).wf(),
        ensures
            final(self).wf(),
            final(self).slots() == old(self).slots(),
            old(self)@.len() == 0 ==> r == None::<usize> && final(self)@ == old(self)@,
            old(self)@.len() > 0 ==> r == Some(old(self)@[0]) && final(self)@ == old(self)@.drop_first(),
            final(self).links() == old(self).links(),
    {
        let i = match self.head {
            Some(i) => i,
            None => return None,
        };
        let ghost l = self.order@;
        let next_i = self.next[i];
        proof {
            if l.len() > 1 {
                assert(self.next@[l[0] as int] == l[1]);
                assert(l[1] < self.next.len());
            } else {
                assert(l[l.len() - 1] == l[0]);
            }
        }
        self.head = if next_i == NIL { None } else { Some(next_i) };
        self.order = Ghost(l.drop_first());
        proof {
            let l2 = l.drop_first();
            assert forall|k: int| 0 <= k < l2.len() - 1 implies self.next@[#[trigger] l2[k] as int] == l2[k + 1] by {
                assert(l2[k] == l[k + 1]);
            }
            assert forall|k: int| 0 <= k < l2.len() implies (#[trigger] l2[k]) < self.next@.len() by {
                assert(l2[k] == l[k + 1]);
            }
            assert forall|a: int, b: int| 0 <= a < b < l2.len() implies l2[a] != l2[b] by {
                assert(l2[a] == l[a + 1] && l2[b] == l[b + 1]);
            }
            if l2.len() > 0 {
                assert(l2[0] == l[1]);
                assert(l2[l2.len() - 1] == l[l.len() - 1]);
            }
        }
        Some(i)
    }

    /// Marks slot `i` free; it is the next one `pop` hands out.
    pub fn push(&mut self, i: usize)
        requires
            old(self).wf(),
            i < old(self).slots(),
            !old(self)@.contains(i),
        ensures
            final(self).wf(),
            final(self).slots() == old(self).slots(),
            final(self)@ == seq![i] + old(self)@,
            final(self).links() == old(self).links().update(i as int, old(self).head_link()),
    {
        let ghost l = self.order@;
        let link = match self.head {
            Some(h) => h,
            None => NIL,
        };
        self.next[i] = link;
        self.head = Some(i);
        self.order = Ghost(seq![i] + l);
        proof {
            let l2 = seq![i] + l;
            assert forall|k: int| 0 <= k < l.len() implies l[k] != i by {
                assert(l.contains(l[k]));
            }
            assert forall|k: int| 0 <= k < l2.len() - 1 implies self.next@[#[trigger] l2[k] as int] == l2[k + 1] by {
                if k > 0 {
                    assert(l2[k] == l[k - 1]);
                }
            }
            assert forall|k: int| 0 <= k < l2.len() implies (#[trigger] l2[k]) < self.next@.len() by {
                if k > 0 {
                    assert(l2[k] == l[k - 1]);
                }
            }
            assert forall|a: int, b: int| 0 <= a < b < l2.len() implies l2[a] != l2[b] by {
                if a > 0 {
                    assert(l2[a] == l[a - 1] && l2[b] == l[b - 1]);
                } else {
                    assert(l2[b] == l[b - 1]);
                }
            }
        }
    }

    /// Adds `count` new slots, numbered from `slots()` on, all free; they are handed out
    /// in increasing order, before the slots that were free already.
    pub fn push_range(&mut self, count: usize)
        requires
            old(self).wf(),
            old(self).slots() + count <= usize::MAX,
        ensures
            final(self).wf(),
            final(self).slots() == old(self).slots() + count,
            final(self)@ == index_run(old(self).slots() as int, count as int) + old(self)@,
            final(self).links() == old(self).links() + Self::run_links(
                old(self).slots() as int,
                count as int,
                old(self).head_link(),
            ),
    {
        let start = self.next.len();
        if count == 0 {
            proof {
                assert(index_run(start as int, 0) + self@ =~= self@);
                assert(self.next@ + Self::run_links(start as int, 0, self.head_link()) =~= self.next@);
            }
            return;
        }
        let ghost l = self.order@;
        let ghost old_next = self.next@;
        let old_head = self.head;
        let end = start + count;
        let tail = match old_head {
            Some(h) => h,
            None => NIL,
        };
        let mut i = start;
        while i < end
            invariant
                start <= i <= end,
                end == start + count,
                self.next@.len() == i,
                self.next@.subrange(0, start as int) == old_next,
                old_next.len() == start,
                forall|j: int| start <= j < i ==> self.next@[j] == (if j + 1 < end { (j + 1) as usize } else { tail }),
            decreases end - i,
        {
            let link = if i + 1 < end { i + 1 } else { tail };
            self.next.push(link);
            i = i + 1;
            proof {
                assert(self.next@.subrange(0, start as int) =~= old_next);
            }
        }
        self.head = Some(start);
        let ghost run = index_run(start as int, count as int);
        self.order = Ghost(run + l);
        proof {
            let l2 = run + l;
            assert forall|k: int| 0 <= k < l.len() implies self.next@[#[trigger] l[k] as int] == old_next[l[k] as int] by {
                assert(self.next@.subrange(0, start as int)[l[k] as int] == self.next@[l[k] as int]);
            }
            assert forall|k: int| 0 <= k < l2.len() implies (#[trigger] l2[k]) < self.next@.len() by {
                if k >= count {
                    assert(l2[k] == l[k - count]);
                }
            }
            assert forall|k: int| 0 <= k < l2.len() - 1 implies self.next@[#[trigger] l2[k] as int] == l2[k + 1] by {
                if k < count - 1 {
                    assert(l2[k] == start + k);
                } else if k == count - 1 {
                    assert(l2[k] == start + k);
                    assert(l2[k + 1] == l[0]);
                } else {
                    assert(l2[k] == l[k - count]);
                    assert(l2[k + 1] == l[k + 1 - count]);
                }
            }
            if l.len() == 0 {
                assert(l2[l2.len() - 1] == start + count - 1);
            } else {
                assert(l2[l2.len() - 1] == l[l.len() - 1]);
            }
            assert forall|a: int, b: int| 0 <= a < b < l2.len() implies l2[a] != l2[b] by {
                if b >= count && a >= count {
                    assert(l2[a] == l[a - count] && l2[b] == l[b - count]);
                } else if b >= count {
                    assert(l2[b] == l[b - count]);
                }
            }
        }
    }
}

impl Default for FreeList {
    fn default() -> (r: Self)
        ensures
            r.wf(),
            r@ == Seq::<usize>::empty(),
            r.slots() == 0,
    {
        Self::new()
    }
}


/// A slot pushed onto a free list is the next one popped, and popping it gives back the
/// list as it was.
pub proof fn lemma_push_then_pop(l: Seq<usize>, i: usize)
    ensures
        (seq![i] + l).len() > 0,
        (seq![i] + l)[0] == i,
        (seq![i] + l).drop_first() == l,
{
    assert((seq![i] + l).drop_first() =~= l);
}

/// After `push_range(count)` on a list of `slots` known slots, the next `count` pops give
/// the new slots `slots, slots + 1, ...` in increasing order, and the slots that were free
/// before come after them, in their old order.
pub proof fn lemma_push_range_order(l: Seq<usize>, slots: int, count: int)
    requires
        0 <= slots,
        0 <= count,
        slots + count <= usize::MAX,
    ensures
        forall|k: int| 0 <= k < count ==> (index_run(slots, count) + l)[k] == slots + k,
        (index_run(slots, count) + l).subrange(count, count + l.len()) == l,
{
    assert((index_run(slots, count) + l).subrange(count, count + l.len()) =~= l);
}

}
