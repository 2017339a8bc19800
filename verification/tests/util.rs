use memory_pool::util::{max_class_size, round_up, size_class_index, NUM_CLASSES, SIZE_CLASSES};

#[test]
fn round_up_returns_slot_size() {
    assert_eq!(round_up(1), 8);
    assert_eq!(round_up(20), 32);
    assert_eq!(round_up(4097), 8192);
}

#[test]
fn size_class_maps_to_first_fitting_slot() {
    assert_eq!(size_class_index(0), 0);
    assert_eq!(size_class_index(1), 0);
    assert_eq!(size_class_index(8), 0);
    assert_eq!(size_class_index(9), 1);
    assert_eq!(size_class_index(16), 1);
    assert_eq!(size_class_index(17), 2);
    assert_eq!(size_class_index(32), 2);
    assert_eq!(size_class_index(33), 3);
    assert_eq!(size_class_index(100), 4);
    assert_eq!(size_class_index(128), 4);
    assert_eq!(size_class_index(8192), 9);
    assert_eq!(size_class_index(100_000), 9);
}

#[test]
fn every_size_lands_in_the_smallest_fitting_class() {
    for size in 1..=max_class_size() {
        let i = size_class_index(size);
        assert!(size <= SIZE_CLASSES[i]);
        if i > 0 {
            assert!(SIZE_CLASSES[i - 1] < size);
        }
        assert_eq!(round_up(size), SIZE_CLASSES[i]);
    }
}

#[test]
fn sizes_past_the_largest_class_use_the_largest_class() {
    assert_eq!(size_class_index(8193), NUM_CLASSES - 1);
    assert_eq!(size_class_index(usize::MAX), NUM_CLASSES - 1);
    assert_eq!(round_up(usize::MAX), 8192);
    assert_eq!(round_up(2049), 8192);
    assert_eq!(round_up(2048), 2048);
}

#[test]
fn max_class_size_is_the_largest_slot() {
    assert_eq!(max_class_size(), 8192);
    assert_eq!(max_class_size(), SIZE_CLASSES[NUM_CLASSES - 1]);
}
