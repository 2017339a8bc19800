# memory_pool

A single-threaded slab allocator with ten size classes (8 to 8192 bytes), written in
Verus. Requests are rounded up to the smallest class that holds them; each class carves
16 KiB chunks into equal slots and keeps its free slots in an index-based LIFO list that
never writes into the slots themselves.

The library decides and the caller supplies memory: `Pool::allocate` answers `Done`
with a slot address, `Refused`, or `NeedsChunk` when the class is empty, in which case
the caller obtains a chunk from the system allocator and hands it over with
`Pool::add_chunk` before asking again.

Layout:

- `src/util.rs` – size classes and the size-to-class mapping.
- `src/freelist.rs` – the LIFO free list of slot indices.
- `src/chunk.rs` – where a chunk lies and where its slots start.
- `src/model.rs` – the abstract state of the pool (per class: chunks and free slot
  addresses), its invariant, and the laws relating allocation and return.
- `src/pool.rs` – the pool itself, its counters, and its contracts over that state.
- `tests/` – unit tests, run against a stand-in for the system allocator.
- `app/main.rs` – a demo that takes chunks from `std::alloc` and frees them on drop.
