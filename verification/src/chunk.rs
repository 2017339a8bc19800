use vstd::prelude::*;

verus! {

/// A contiguous region of `capacity` bytes starting at address `base`, cut into slots of
/// `slot_size` bytes. The region itself is obtained from, and returned to, the system
/// allocator by the code that owns the pool; a chunk only records where it lies.
pub struct Chunk {
    base: usize,
    capacity: usize,
    slot_size: usize,
}

impl Chunk {
    /// Start address of the region.
    pub closed spec fn base_addr(&self) -> usize {
        self.base
    }

    /// Length of the region in bytes.
    pub closed spec fn size_bytes(&self) -> usize {
        self.capacity
    }

    /// Size of one slot in bytes.
    pub closed spec fn slot_bytes(&self) -> usize {
        self.slot_size
    }

    /// Records a region of `capacity` bytes at `base`, cut into slots of `slot_size` bytes.
    pub fn new(base: usize, capacity: usize, slot_size: usize) -> (r: Self)
        ensures
            r.base_addr() == base,
            r.size_bytes() == capacity,
            r.slot_bytes() == slot_size,
    {
        Chunk { base, capacity, slot_size }
    }

    /// Start address of the region.
    pub fn base(&self) -> (r: usize)
        ensures
            r == self.base_addr(),
    {
        self.base
    }

    /// Length of the region in bytes.
    pub fn capacity(&self) -> (r: usize)
        ensures
            r == self.size_bytes(),
    {
        self.capacity
    }

    /// Address of slot `i`: `base + i * slot_size`.
    pub fn slot_addr(&self, i: usize) -> (r: usize)
        requires
            self.base_addr() + i * self.slot_bytes() <= usize::MAX,
        ensures
            r == self.base_addr() + i * self.slot_bytes(),
    {
        proof {
            assert(0 <= i * self.slot_size) by (nonlinear_arith);
        }
        self.base + i * self.slot_size
    }
}

}
