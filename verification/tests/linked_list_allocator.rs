use firstos::allocator::linked_list::AllocError;
use firstos::allocator::linked_list::Allocator;
use firstos::allocator::linked_list::Region;
use firstos::allocator::linked_list::NODE_SIZE;
use firstos::allocator::locked::Locked;

const HEAP_BASE: usize = 0x1000;

fn fresh(size: usize) -> Allocator {
    let mut a = Allocator::empty();
    a.init(HEAP_BASE, size);
    a
}

#[test]
fn test_linked_list_stays_sorted_trivial() {
    // Heap of 512 bytes; allocate a 2-byte block, free it, allocate the
    // same layout again: the identical address comes back — the first
    // node found is reused.
    let heap_size: usize = 512;
    let mut alloc = Locked::new(Allocator::empty());
    alloc.lock().init(HEAP_BASE, heap_size);
    let p1 = alloc.allocate(2, 1).expect("failed to allocate first block");
    alloc.deallocate(p1, 2, 1);
    let pnew = alloc.allocate(2, 1).expect("failed to allocate block again");
    assert_eq!(pnew, p1, "should have reused the first node found");
}

#[test]
fn size_align_pads_to_header() {
    // A tiny request grows to a header-capable region.
    assert_eq!(Allocator::size_align(2, 1), (16, 8));
    assert_eq!(Allocator::size_align(16, 8), (16, 8));
    assert_eq!(Allocator::size_align(17, 8), (24, 8));
    // Alignment carries through and pads the size to a multiple.
    assert_eq!(Allocator::size_align(40, 32), (64, 32));
    // A zero-size request still reserves a header's worth.
    assert_eq!(Allocator::size_align(0, 64), (16, 64));
}

#[test]
fn region_accessors() {
    let r = Region::new(0x2000, 48);
    assert_eq!(r.start_addr(), 0x2000);
    assert_eq!(r.end_addr(), 0x2030);
}

#[test]
fn alloc_from_region_reports_too_small_tail() {
    // A region that fits the request but would leave a tail smaller than
    // a header is rejected as too small.
    let r = Region::new(0x2000, 24);
    assert_eq!(Allocator::alloc_from_region(&r, 16, 8), Err(AllocError::TooSmall));
    // With no tail at all it is accepted.
    let r = Region::new(0x2000, 16);
    assert_eq!(Allocator::alloc_from_region(&r, 16, 8), Ok(0x2000));
    // With a full header's tail it is accepted too.
    let r = Region::new(0x2000, 32);
    assert_eq!(Allocator::alloc_from_region(&r, 16, 8), Ok(0x2000));
}

#[test]
fn alloc_from_region_reports_overflow() {
    // Aligning the start past the address space is an overflow, treated
    // as a non-match.
    let r = Region::new(usize::MAX - 63, 48);
    assert_eq!(
        Allocator::alloc_from_region(&r, 16, usize::MAX / 2 + 1),
        Err(AllocError::Overflow)
    );
}

#[test]
fn first_fit_skips_small_regions() {
    // Carve the heap into two free regions with a live block between
    // them, then ask for more than the first region holds.
    let mut a = fresh(512);
    let p1 = a.alloc_first_fit(64, 8).unwrap();
    assert_eq!(p1, HEAP_BASE);
    let p2 = a.alloc_first_fit(64, 8).unwrap();
    assert_eq!(p2, HEAP_BASE + 64);
    a.deallocate(p1, 64, 8);
    // Free list: [HEAP_BASE, 64) and [HEAP_BASE + 128, 384).
    let p3 = a.alloc_first_fit(128, 8).unwrap();
    assert_eq!(p3, HEAP_BASE + 128, "first fit must skip the 64-byte region");
    // The 64-byte region still serves smaller requests first-fit.
    assert_eq!(a.alloc_first_fit(64, 8), Ok(HEAP_BASE));
}

#[test]
fn coalescing_merges_both_neighbours() {
    // Free three adjacent blocks in an order that exercises merging with
    // the successor, the predecessor, and both at once; afterwards one
    // whole region serves a request spanning all three.
    let mut a = fresh(512);
    let p1 = a.alloc_first_fit(64, 8).unwrap();
    let p2 = a.alloc_first_fit(64, 8).unwrap();
    let p3 = a.alloc_first_fit(64, 8).unwrap();
    let p4 = a.alloc_first_fit(64, 8).unwrap();
    assert_eq!((p1, p2, p3, p4), (0x1000, 0x1040, 0x1080, 0x10C0));
    a.deallocate(p1, 64, 8);
    a.deallocate(p3, 64, 8);
    // Freeing the middle block bridges both neighbours into one region.
    a.deallocate(p2, 64, 8);
    let big = a.alloc_first_fit(192, 8).unwrap();
    assert_eq!(big, 0x1000, "three adjacent frees must coalesce into one region");
}

#[test]
fn exhaustion_reports_out_of_memory() {
    let mut a = fresh(64);
    assert_eq!(a.alloc_first_fit(128, 8), Err(AllocError::OOM));
    // The failed attempt left the allocator untouched.
    assert_eq!(a.alloc_first_fit(48, 8), Ok(HEAP_BASE));
}

#[test]
fn aligned_requests_land_on_boundaries() {
    let mut a = fresh(1024);
    // Pad the front so the next region start is only 8-aligned.
    let _pad = a.alloc_first_fit(8, 8).unwrap();
    let p = a.alloc_first_fit(64, 256).unwrap();
    assert_eq!(p % 256, 0);
    // The padding gap stays out of reach of the allocator, but the tail
    // after the aligned block is served again.
    let q = a.alloc_first_fit(16, 8).unwrap();
    assert_eq!(q % 8, 0);
}

#[test]
fn node_size_matches_two_words() {
    assert_eq!(NODE_SIZE, 16);
}
