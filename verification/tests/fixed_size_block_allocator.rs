use firstos::allocator::fixed_size_block::Allocator;
use firstos::allocator::locked::Locked;
use firstos::allocator::HEAP_SIZE;

const HEAP_BASE: usize = 0x10_0000;

fn fresh(size: usize) -> Allocator {
    let mut a = Allocator::empty();
    a.init(HEAP_BASE, size);
    a
}

#[test]
fn class_size_sufficiency_across_classes() {
    // For requests up to the largest class, the returned block is big
    // enough and aligned at least as strictly as asked.
    let mut a = fresh(64 * 1024);
    let cases: &[(usize, usize)] = &[
        (1, 1),
        (8, 8),
        (9, 4),
        (16, 16),
        (24, 8),
        (48, 32),
        (100, 64),
        (200, 128),
        (500, 256),
        (1000, 512),
        (2000, 1024),
        (2048, 2048),
    ];
    for &(size, align) in cases {
        let p = a
            .allocate(size, align)
            .unwrap_or_else(|| panic!("allocation of ({}, {}) failed", size, align));
        assert_eq!(p % align, 0, "({}, {}) returned a misaligned block", size, align);
    }
}

#[test]
fn round_trip_reuse_through_the_bin() {
    // The first allocation of a class comes from the fallback; freed, it
    // sits at the head of its bin, and the next allocation of the same
    // layout returns exactly it.
    let mut a = fresh(4096);
    let p = a.allocate(8, 8).unwrap();
    a.deallocate(p, 8, 8);
    assert_eq!(a.allocate(8, 8), Some(p));
}

#[test]
fn bins_hand_out_most_recently_freed_first() {
    let mut a = fresh(4096);
    let p1 = a.allocate(32, 32).unwrap();
    let p2 = a.allocate(32, 32).unwrap();
    assert_ne!(p1, p2);
    a.deallocate(p1, 32, 32);
    a.deallocate(p2, 32, 32);
    // LIFO: the block freed last comes back first.
    assert_eq!(a.allocate(32, 32), Some(p2));
    assert_eq!(a.allocate(32, 32), Some(p1));
}

#[test]
fn split_fills_a_bin_from_the_next_class() {
    // Prime the 32-byte bin with one block, then ask for 16 bytes twice:
    // the 32-byte block is carved into two 16-byte halves.
    let mut a = fresh(4096);
    let p32 = a.allocate(32, 32).unwrap();
    a.deallocate(p32, 32, 32);
    let lower = a.allocate(16, 16).unwrap();
    assert_eq!(lower, p32, "the split returns the lower half");
    let upper = a.allocate(16, 16).unwrap();
    assert_eq!(upper, p32 + 16, "the other half waits in the smaller bin");
}

#[test]
fn oversized_requests_bypass_the_bins() {
    // Beyond the largest class the fallback serves directly; the address
    // honours the requested alignment.
    let mut a = fresh(64 * 1024);
    let p = a.allocate(4096, 4096).unwrap();
    assert_eq!(p % 4096, 0);
    let q = a.allocate(3000, 8).unwrap();
    assert_ne!(p, q);
    a.deallocate(p, 4096, 4096);
    a.deallocate(q, 3000, 8);
}

#[test]
fn drain_then_retry_recovers_binned_memory() {
    // A 256-byte heap: one 128-byte block makes the round trip into its
    // bin, leaving the fallback too fragmented for a 256-byte request.
    // The drain returns the bin's storage, the regions coalesce, and the
    // retried request succeeds.
    let mut a = fresh(256);
    let p = a.allocate(128, 128).unwrap();
    assert_eq!(p, HEAP_BASE);
    a.deallocate(p, 128, 128);
    let big = a.allocate(256, 256);
    assert_eq!(big, Some(HEAP_BASE), "drain-then-retry must reclaim the binned block");
}

#[test]
fn failure_after_retry_is_clean() {
    // When even the drained fallback cannot serve, allocation fails and
    // the allocator keeps serving what it can.
    let mut a = fresh(256);
    let p = a.allocate(64, 64).unwrap();
    assert_eq!(a.allocate(2048, 2048), None);
    // The live block is untouched and small requests still work.
    let q = a.allocate(64, 64).unwrap();
    assert_ne!(p, q);
    a.deallocate(p, 64, 64);
    a.deallocate(q, 64, 64);
}

#[test]
fn many_blocks_long_lived_survivor() {
    // One block allocated up front, then as many 8-byte round trips as
    // the heap has bytes: every allocation must succeed with a block
    // distinct from the survivor.
    let mut a = fresh(HEAP_SIZE);
    let long_lived = a.allocate(8, 8).unwrap();
    for i in 0..HEAP_SIZE {
        let p = a
            .allocate(8, 8)
            .unwrap_or_else(|| panic!("allocation {} failed", i));
        assert_ne!(p, long_lived, "allocation {} clobbered the live block", i);
        a.deallocate(p, 8, 8);
    }
    a.deallocate(long_lived, 8, 8);
}

#[test]
fn locked_wrapper_serializes_fixed_size_calls() {
    let mut a = Allocator::empty();
    a.init(HEAP_BASE, 4096);
    let mut locked = Locked::new(a);
    let p = locked.allocate(64, 64).unwrap();
    assert_eq!(p % 64, 0);
    locked.deallocate(p, 64, 64);
    assert_eq!(locked.allocate(64, 64), Some(p));
}
