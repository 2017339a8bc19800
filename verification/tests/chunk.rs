use memory_pool::chunk::Chunk;

#[test]
fn chunk_reports_its_region() {
    let c = Chunk::new(0x4000, 16 * 1024, 64);
    assert_eq!(c.base(), 0x4000);
    assert_eq!(c.capacity(), 16 * 1024);
}

#[test]
fn slot_addresses_step_by_slot_size() {
    let c = Chunk::new(0x10000, 16 * 1024, 32);
    assert_eq!(c.slot_addr(0), 0x10000);
    assert_eq!(c.slot_addr(1), 0x10020);
    assert_eq!(c.slot_addr(511), 0x10000 + 511 * 32);
}
