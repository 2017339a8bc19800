use memory_pool::freelist::FreeList;

#[test]
fn pop_returns_slots_in_lifo_order() {
    let mut f = FreeList::new();
    f.push_range(4);
    assert_eq!(f.pop(), Some(0));
    assert_eq!(f.pop(), Some(1));
    assert_eq!(f.pop(), Some(2));
    assert_eq!(f.pop(), Some(3));
    assert_eq!(f.pop(), None);
}

#[test]
fn freed_slot_is_reused() {
    let mut f = FreeList::new();
    f.push_range(4);
    assert_eq!(f.pop(), Some(0));
    f.push(0);
    assert_eq!(f.pop(), Some(0));
}

#[test]
fn new_range_links_after_old_head() {
    let mut f = FreeList::new();
    f.push_range(2);
    assert_eq!(f.pop(), Some(0));
    assert_eq!(f.pop(), Some(1));
    assert_eq!(f.pop(), None);

    f.push_range(2); // slots 2 and 3 go to the head of the list
    assert_eq!(f.pop(), Some(2));
    assert_eq!(f.pop(), Some(3));
    assert_eq!(f.pop(), None);
}

#[test]
fn empty_list_pops_nothing() {
    let mut f = FreeList::default();
    assert_eq!(f.pop(), None);
    f.push_range(0);
    assert_eq!(f.pop(), None);
}

#[test]
fn push_range_puts_new_slots_before_old_free_ones() {
    let mut f = FreeList::new();
    f.push_range(3);
    assert_eq!(f.pop(), Some(0));
    f.push_range(2);
    assert_eq!(f.pop(), Some(3));
    assert_eq!(f.pop(), Some(4));
    assert_eq!(f.pop(), Some(1));
    assert_eq!(f.pop(), Some(2));
    assert_eq!(f.pop(), None);
}

#[test]
fn pushes_come_back_last_in_first_out() {
    let mut f = FreeList::new();
    f.push_range(5);
    for expected in 0..5 {
        assert_eq!(f.pop(), Some(expected));
    }
    f.push(1);
    f.push(4);
    f.push(2);
    assert_eq!(f.pop(), Some(2));
    assert_eq!(f.pop(), Some(4));
    assert_eq!(f.pop(), Some(1));
    assert_eq!(f.pop(), None);
}

#[test]
fn links_survive_pops_and_ranges() {
    // A popped slot keeps its link; pushing it back relinks it to the head.
    let mut f = FreeList::new();
    f.push_range(3);
    assert_eq!(f.pop(), Some(0));
    assert_eq!(f.pop(), Some(1));
    f.push_range(0);
    f.push(0);
    assert_eq!(f.pop(), Some(0));
    assert_eq!(f.pop(), Some(2));
    assert_eq!(f.pop(), None);
}
