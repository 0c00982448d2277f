use firstos::allocator::bump::Allocator;
use firstos::allocator::locked::Locked;

const HEAP_BASE: usize = 0x1000;
const HEAP_SIZE: usize = 512;

fn fresh() -> Allocator {
    let mut a = Allocator::empty();
    a.init(HEAP_BASE, HEAP_SIZE);
    a
}

#[test]
fn empty_is_zeroed() {
    let a = Allocator::empty();
    assert_eq!(a.heap_start, 0);
    assert_eq!(a.heap_end, 0);
    assert_eq!(a.next, 0);
    assert_eq!(a.allocations, 0);
}

#[test]
fn init_sets_watermark_to_top() {
    let a = fresh();
    assert_eq!(a.heap_start, HEAP_BASE);
    assert_eq!(a.heap_end, HEAP_BASE + HEAP_SIZE);
    assert_eq!(a.next, HEAP_BASE + HEAP_SIZE);
}

#[test]
fn allocates_downward_with_alignment() {
    let mut a = fresh();
    // 512 - 16 = 0x11F0, already 8-aligned.
    assert_eq!(a.allocate(16, 8), Some(HEAP_BASE + HEAP_SIZE - 16));
    // 0x11F0 - 24 = 0x11D8, rounded down to 32 gives 0x11C0.
    assert_eq!(a.allocate(24, 32), Some(0x11C0));
    assert_eq!(a.allocations, 2);
}

#[test]
fn rejects_when_heap_exhausted() {
    let mut a = fresh();
    assert_eq!(a.allocate(HEAP_SIZE + 1, 1), None);
    assert_eq!(a.allocate(HEAP_SIZE, 1), Some(HEAP_BASE));
    // Nothing is left at all now.
    assert_eq!(a.allocate(1, 1), None);
}

#[test]
fn round_trip_reuse_returns_same_address() {
    // Allocate, free, allocate the same layout again: same address.
    let mut a = fresh();
    let p = a.allocate(40, 16).unwrap();
    a.deallocate(p, 40);
    assert_eq!(a.allocate(40, 16), Some(p));
}

#[test]
fn lifo_frees_restore_watermark_exactly() {
    // Three allocations freed most-recent-first walk the watermark back
    // to the top of the heap.
    let mut a = fresh();
    let p1 = a.allocate(16, 8).unwrap();
    let p2 = a.allocate(16, 8).unwrap();
    let p3 = a.allocate(16, 8).unwrap();
    a.deallocate(p3, 16);
    a.deallocate(p2, 16);
    a.deallocate(p1, 16);
    assert_eq!(a.allocations, 0);
    assert_eq!(a.next, HEAP_BASE + HEAP_SIZE);
}

#[test]
fn reset_branch_reclaims_whole_heap() {
    // An out-of-order free leaks until the count reaches zero on a free
    // away from the watermark; then the whole heap is reclaimed at once.
    let mut a = fresh();
    let p1 = a.allocate(16, 8).unwrap();
    let p2 = a.allocate(16, 8).unwrap();
    let p3 = a.allocate(16, 8).unwrap();
    a.deallocate(p2, 16); // leaked for now
    a.deallocate(p3, 16); // most recent: reused immediately
    a.deallocate(p1, 16); // count hits zero away from the watermark
    assert_eq!(a.allocations, 0);
    assert_eq!(a.next, HEAP_BASE + HEAP_SIZE);
    // The heap serves full-size requests again.
    assert_eq!(a.allocate(HEAP_SIZE, 1), Some(HEAP_BASE));
}

#[test]
fn locked_wrapper_serializes_bump_calls() {
    let mut a = Allocator::empty();
    a.init(HEAP_BASE, HEAP_SIZE);
    let mut locked = Locked::new(a);
    let p = locked.allocate(32, 8).unwrap();
    assert_eq!(p, HEAP_BASE + HEAP_SIZE - 32);
    locked.deallocate(p, 32, 8);
    assert_eq!(locked.allocate(32, 8), Some(p));
}
