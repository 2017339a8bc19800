use memory_pool::model::CHUNK_BYTES;
use memory_pool::pool::{AllocOutcome, Pool, PoolStats};
use memory_pool::util::max_class_size;

/// Stands in for the system allocator: hands out consecutive, non-overlapping chunk
/// addresses, each aligned to `CHUNK_BYTES`.
struct FakeSystem {
    next: usize,
}

impl FakeSystem {
    fn new() -> Self {
        FakeSystem { next: 0x100_0000 }
    }

    fn take(&mut self, bytes: usize) -> usize {
        let base = self.next;
        self.next += bytes;
        base
    }
}

/// Asks the pool for `size` bytes, feeding it chunks until it answers; 0 when refused.
fn obtain(pool: &mut Pool, sys: &mut FakeSystem, size: usize, align: usize) -> usize {
    loop {
        match pool.allocate(size, align) {
            AllocOutcome::Done(addr) => return addr,
            AllocOutcome::Refused => return 0,
            AllocOutcome::NeedsChunk { class, bytes, align } => {
                let base = sys.take(bytes);
                assert_eq!(base % align, 0);
                assert!(pool.add_chunk(class, base));
            }
        }
    }
}

#[test]
fn allocations_are_aligned_and_distinct() {
    let mut pool = Pool::new();
    let mut sys = FakeSystem::new();
    let mut ptrs = Vec::new();
    for _ in 0..256 {
        let p = obtain(&mut pool, &mut sys, 32, 8);
        assert!(p != 0);
        assert_eq!(p % 8, 0);
        assert!(!ptrs.contains(&p));
        ptrs.push(p);
    }
    assert_eq!(pool.stats.current_live, 256);
}

#[test]
fn freed_memory_is_reused() {
    let mut pool = Pool::new();
    let mut sys = FakeSystem::new();
    let first = (0..64)
        .map(|_| obtain(&mut pool, &mut sys, 64, 8))
        .collect::<Vec<_>>();
    for &p in &first {
        pool.dealloc(p, 64, 8);
    }

    let second = (0..64)
        .map(|_| obtain(&mut pool, &mut sys, 64, 8))
        .collect::<Vec<_>>();
    let (mut f, mut s) = (first.clone(), second.clone());
    f.sort_unstable();
    s.sort_unstable();
    assert_eq!(f, s); // every returned slot is handed out again
}

#[test]
fn data_integrity_roundtrip() {
    // Real memory for one chunk of 8-byte slots.
    let mut buf: Vec<u64> = vec![0; CHUNK_BYTES / 8];
    let base = buf.as_ptr() as usize;
    let mut pool = Pool::new();
    match pool.allocate(8, 8) {
        AllocOutcome::NeedsChunk { class, .. } => assert!(pool.add_chunk(class, base)),
        other => panic!("unexpected {:?}", other),
    }
    let p = match pool.allocate(8, 8) {
        AllocOutcome::Done(p) => p,
        other => panic!("unexpected {:?}", other),
    };
    assert!(p != 0);
    assert!(base <= p && p + 8 <= base + CHUNK_BYTES);
    let slot = (p - base) / 8;
    buf[slot] = 0xDEAD_BEEF_CAFE_F00D;
    assert_eq!(buf[slot], 0xDEAD_BEEF_CAFE_F00D);
}

#[test]
fn oversized_or_misaligned_requests_are_rejected() {
    let mut pool = Pool::new();
    let mut sys = FakeSystem::new();
    assert_eq!(obtain(&mut pool, &mut sys, 0, 8), 0);
    assert_eq!(obtain(&mut pool, &mut sys, max_class_size() + 1, 8), 0); // above the largest class
    assert_eq!(obtain(&mut pool, &mut sys, 16, 32), 0); // align > slot_size
}

#[test]
fn stats_track_live_allocations() {
    let mut pool = Pool::new();
    let mut sys = FakeSystem::new();
    let a = obtain(&mut pool, &mut sys, 16, 8);
    let b = obtain(&mut pool, &mut sys, 16, 8);
    assert_eq!(pool.stats.alloc_count, 2);
    assert_eq!(pool.stats.current_live, 2);
    assert_eq!(pool.stats.peak_live, 2);

    pool.dealloc(a, 16, 8);
    assert_eq!(pool.stats.free_count, 1);
    assert_eq!(pool.stats.current_live, 1);
    assert_eq!(pool.stats.peak_live, 2);

    pool.dealloc(b, 16, 8);
    assert_eq!(pool.stats.free_count, 2);
    assert_eq!(pool.stats.current_live, 0);
}

#[test]
fn dealloc_with_wrong_size_is_ignored() {
    let mut pool = Pool::new();
    let mut sys = FakeSystem::new();
    let p = obtain(&mut pool, &mut sys, 16, 8);
    pool.dealloc(p, 128, 8); // returned as 128 bytes: the wrong class
    assert_eq!(pool.stats.free_count, 0);
    assert_eq!(pool.stats.current_live, 1);

    pool.dealloc(p, 16, 8); // with the right size the return goes through
    assert_eq!(pool.stats.free_count, 1);
    assert_eq!(pool.stats.current_live, 0);
}

#[test]
fn empty_class_asks_for_a_chunk() {
    let mut pool = Pool::default();
    assert_eq!(
        pool.allocate(100, 16),
        AllocOutcome::NeedsChunk { class: 4, bytes: 16 * 1024, align: 128 }
    );
    assert_eq!(
        pool.allocate(8192, 8192),
        AllocOutcome::NeedsChunk { class: 9, bytes: 16 * 1024, align: 8192 }
    );
    assert_eq!(pool.stats, PoolStats::default());
}

#[test]
fn new_chunk_is_handed_out_from_its_start() {
    let mut pool = Pool::new();
    assert!(pool.add_chunk(3, 0x40_0000));
    assert_eq!(pool.allocate(64, 64), AllocOutcome::Done(0x40_0000));
    assert_eq!(pool.allocate(50, 1), AllocOutcome::Done(0x40_0040));
    assert_eq!(pool.allocate(33, 8), AllocOutcome::Done(0x40_0080));
    assert_eq!(pool.stats.alloc_count, 3);
}

#[test]
fn a_chunk_serves_exactly_its_slot_count() {
    let mut pool = Pool::new();
    assert!(pool.add_chunk(9, 0x80_0000));
    assert_eq!(pool.allocate(5000, 8), AllocOutcome::Done(0x80_0000));
    assert_eq!(pool.allocate(8192, 4096), AllocOutcome::Done(0x80_2000));
    assert_eq!(
        pool.allocate(8000, 8),
        AllocOutcome::NeedsChunk { class: 9, bytes: 16 * 1024, align: 8192 }
    );
}

#[test]
fn unusable_chunks_are_refused() {
    let mut pool = Pool::new();
    assert!(!pool.add_chunk(10, 0x40_0000)); // no such class
    assert!(!pool.add_chunk(0, 0)); // null
    assert!(!pool.add_chunk(5, 0x40_0080)); // not aligned to 256
    assert!(!pool.add_chunk(0, usize::MAX - 7)); // runs past the address space
    assert!(pool.add_chunk(2, 0x40_0000));
    assert!(!pool.add_chunk(2, 0x40_0000)); // same region again
    assert!(!pool.add_chunk(7, 0x40_2000)); // overlaps, from another class
    assert!(pool.add_chunk(7, 0x40_4000)); // right after it
    assert_eq!(pool.stats, PoolStats::default());
}

#[test]
fn last_freed_slot_is_handed_out_first() {
    let mut pool = Pool::new();
    let mut sys = FakeSystem::new();
    let ptrs: Vec<usize> = (0..4).map(|_| obtain(&mut pool, &mut sys, 8, 8)).collect();
    for w in ptrs.windows(2) {
        assert_eq!(w[1], w[0] + 8);
    }
    for &p in &ptrs {
        pool.dealloc(p, 8, 8);
    }
    let again = obtain(&mut pool, &mut sys, 8, 8);
    assert_eq!(again, ptrs[3]);
    pool.dealloc(again, 8, 8);
    assert_eq!(
        pool.stats,
        PoolStats { alloc_count: 5, free_count: 5, current_live: 0, peak_live: 4 }
    );
}

#[test]
fn returns_that_are_not_slots_are_ignored() {
    let mut pool = Pool::new();
    let mut sys = FakeSystem::new();
    let p = obtain(&mut pool, &mut sys, 32, 8);
    pool.dealloc(0, 32, 8); // null
    pool.dealloc(p, 0, 8); // zero size
    pool.dealloc(p + 8, 32, 8); // inside a slot, off its start
    pool.dealloc(p, 100_000, 8); // larger than any slot
    pool.dealloc(0x10, 32, 8); // outside every chunk
    assert_eq!(pool.stats.free_count, 0);
    assert_eq!(pool.stats.current_live, 1);
    pool.dealloc(p, 20, 8); // any size of the same class returns it
    assert_eq!(pool.stats.free_count, 1);
    assert_eq!(obtain(&mut pool, &mut sys, 32, 32), p);
}

#[test]
fn classes_never_share_addresses() {
    let mut pool = Pool::new();
    let mut sys = FakeSystem::new();
    let mut seen = Vec::new();
    for size in [1usize, 16, 30, 64, 100, 256, 300, 1024, 2000, 4097] {
        for _ in 0..3 {
            let p = obtain(&mut pool, &mut sys, size, 1);
            assert!(p != 0);
            assert_eq!(p % memory_pool::util::round_up(size), 0);
            assert!(!seen.contains(&p));
            seen.push(p);
        }
    }
    assert_eq!(pool.stats.current_live, 30);
    assert_eq!(pool.stats.peak_live, 30);
}

#[test]
fn would_release_matches_what_dealloc_does() {
    let mut pool = Pool::new();
    let mut sys = FakeSystem::new();
    let p = obtain(&mut pool, &mut sys, 16, 8);
    assert!(pool.would_release(p, 16));
    assert!(pool.would_release(p, 9));
    assert!(!pool.would_release(p, 128)); // another class
    assert!(!pool.would_release(p, 0));
    assert!(!pool.would_release(0, 16));
    assert!(!pool.would_release(p + 4, 8)); // off a slot start
    pool.dealloc(p, 128, 8);
    assert_eq!(pool.stats.free_count, 0);
    pool.dealloc(p, 16, 8);
    assert_eq!(pool.stats.free_count, 1);
}

#[test]
fn peak_is_the_highest_live_count_so_far() {
    let mut pool = Pool::new();
    let mut sys = FakeSystem::new();
    let a = obtain(&mut pool, &mut sys, 8, 8);
    let b = obtain(&mut pool, &mut sys, 8, 8);
    let c = obtain(&mut pool, &mut sys, 1000, 8);
    assert_eq!(pool.stats.peak_live, 3);
    pool.dealloc(a, 8, 8);
    pool.dealloc(c, 1000, 8);
    assert_eq!(pool.stats.current_live, 1);
    assert_eq!(pool.stats.peak_live, 3);
    let d = obtain(&mut pool, &mut sys, 8, 8);
    assert_eq!(d, a);
    assert_eq!(pool.stats.peak_live, 3);
    pool.dealloc(b, 8, 8);
    pool.dealloc(d, 8, 8);
    assert_eq!(
        pool.stats,
        PoolStats { alloc_count: 4, free_count: 4, current_live: 0, peak_live: 3 }
    );
}

#[test]
fn slot_bytes_never_overlap() {
    let mut pool = Pool::new();
    let mut sys = FakeSystem::new();
    let mut spans: Vec<(usize, usize)> = Vec::new();
    for size in [8usize, 24, 64, 8, 300, 5000, 24, 2048] {
        let p = obtain(&mut pool, &mut sys, size, 1);
        let len = memory_pool::util::round_up(size);
        for &(q, l) in &spans {
            assert!(p + len <= q || q + l <= p);
        }
        spans.push((p, len));
    }
}

#[test]
fn is_served_matches_refusals() {
    assert!(!Pool::is_served(0, 8));
    assert!(!Pool::is_served(8193, 8));
    assert!(!Pool::is_served(16, 32));
    assert!(Pool::is_served(16, 16));
    assert!(Pool::is_served(9, 16));
    assert!(Pool::is_served(8192, 8192));
    assert!(Pool::is_served(1, 0));
    let mut pool = Pool::new();
    assert_eq!(pool.allocate(16, 32), AllocOutcome::Refused);
    assert_eq!(pool.allocate(8193, 8), AllocOutcome::Refused);
}
