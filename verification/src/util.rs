use vstd::prelude::*;

verus! {

/// Number of size classes.
pub const NUM_CLASSES: usize = 10;

/// Slot sizes, in bytes, of the size classes, smallest first.
pub const SIZE_CLASSES: [usize; 10] = [8, 16, 32, 64, 128, 256, 512, 1024, 2048, 8192];

/// Slot size, in bytes, of class `i`.
pub open spec fn class_bytes(i: int) -> int {
    SIZE_CLASSES@[i] as int
}

/// The first class at or after `i` whose slots hold `size` bytes; the last class when none does.
pub open spec fn first_fit(size: int, i: int) -> int
    decreases NUM_CLASSES - i,
{
    if i >= NUM_CLASSES - 1 {
        NUM_CLASSES - 1
    } else if size <= class_bytes(i) {
        i
    } else {
        first_fit(size, i + 1)
    }
}

/// The class that serves a request of `size` bytes: the smallest one that can hold it,
/// or the largest class when none can.
pub open spec fn class_of(size: int) -> int {
    first_fit(size, 0)
}

/// Slot size of the class that serves a request of `size` bytes.
pub open spec fn rounded(size: int) -> int {
    class_bytes(class_of(size))
}

/// The class of `size` is the smallest whose slot holds it; past the largest slot,
/// the largest class.
pub proof fn lemma_class_of_is_smallest_fit(size: int)
    ensures
        0 <= class_of(size) < NUM_CLASSES,
        forall|j: int| 0 <= j < class_of(size) ==> class_bytes(j) < size,
        class_of(size) < NUM_CLASSES - 1 ==> size <= class_bytes(class_of(size)),
        size <= class_bytes(NUM_CLASSES - 1) ==> size <= class_bytes(class_of(size)),
{
    lemma_first_fit(size, 0);
}

proof fn lemma_first_fit(size: int, i: int)
    requires
        0 <= i < NUM_CLASSES,
        forall|j: int| 0 <= j < i ==> class_bytes(j) < size,
    ensures
        i <= first_fit(size, i) < NUM_CLASSES,
        forall|j: int| 0 <= j < first_fit(size, i) ==> class_bytes(j) < size,
        first_fit(size, i) < NUM_CLASSES - 1 ==> size <= class_bytes(first_fit(size, i)),
        size <= class_bytes(NUM_CLASSES - 1) ==> size <= class_bytes(first_fit(size, i)),
    decreases NUM_CLASSES - i,
{
    if i < NUM_CLASSES - 1 && !(size <= class_bytes(i)) {
        lemma_first_fit(size, i + 1);
    }
}

/// Slot sizes grow strictly from class to class, from 8 up to 8192 bytes.
pub proof fn lemma_classes_increase()
    ensures
        forall|i: int, j: int| 0 <= i < j < NUM_CLASSES ==> class_bytes(i) < class_bytes(j),
        class_bytes(0) == 8,
        class_bytes(NUM_CLASSES - 1) == 8192,
{
    assert(class_bytes(0) == 8);
    assert(class_bytes(1) == 16);
    assert(class_bytes(2) == 32);
    assert(class_bytes(3) == 64);
    assert(class_bytes(4) == 128);
    assert(class_bytes(5) == 256);
    assert(class_bytes(6) == 512);
    assert(class_bytes(7) == 1024);
    assert(class_bytes(8) == 2048);
    assert(class_bytes(9) == 8192);
}

/// Index of the size class that serves a request of `size` bytes: the first class whose
/// slot holds `size`, or the last class when `size` exceeds every slot.
pub fn size_class_index(size: usize) -> (r: usize)
    ensures
        r == class_of(size as int),
        r < NUM_CLASSES,
        forall|j: int| 0 <= j < r ==> class_bytes(j) < size,
        r < NUM_CLASSES - 1 ==> size <= class_bytes(r as int),
{
    proof {
        lemma_class_of_is_smallest_fit(size as int);
    }
    let mut i: usize = 0;
    while i < NUM_CLASSES - 1 && SIZE_CLASSES[i] < size
        invariant
            i < NUM_CLASSES,
            first_fit(size as int, i as int) == class_of(size as int),
        decreases NUM_CLASSES - i,
    {
        i = i + 1;
    }
    i
}

/// Slot size, in bytes, that a request of `size` bytes is rounded up to.
pub fn round_up(size: usize) -> (r: usize)
    ensures
        r == rounded(size as int),
        size <= max_class_size() ==> size <= r,
{
    proof {
        lemma_class_of_is_smallest_fit(size as int);
    }
    SIZE_CLASSES[size_class_index(size)]
}

/// The largest slot size: no request above it is served.
pub open spec fn max_class_size_spec() -> usize {
    SIZE_CLASSES@[NUM_CLASSES - 1]
}

/// The largest slot size, in bytes.
#[verifier::when_used_as_spec(max_class_size_spec)]
pub fn max_class_size() -> (r: usize)
    ensures
        r == max_class_size_spec(),
        r == 8192,
{
    SIZE_CLASSES[NUM_CLASSES - 1]
}

}
