use firstos::memory::ListFrameAllocator;
use firstos::memory::FRAME_SIZE;

const OFFSET: u64 = 0x8000_0000_0000;

#[test]
fn frames_come_out_in_the_order_given() {
    let frames = vec![0x4000u64, 0x5000, 0x6000];
    let mut a = ListFrameAllocator::init(OFFSET, &frames);
    assert_eq!(a.allocate_frame(), Some(0x4000));
    assert_eq!(a.allocate_frame(), Some(0x5000));
    assert_eq!(a.allocate_frame(), Some(0x6000));
    assert_eq!(a.allocate_frame(), None);
}

#[test]
fn freed_frames_are_reused_first() {
    let frames = vec![0x4000u64, 0x5000];
    let mut a = ListFrameAllocator::init(OFFSET, &frames);
    let f = a.allocate_frame().unwrap();
    a.deallocate_frame(f);
    assert_eq!(a.allocate_frame(), Some(f));
}

#[test]
fn exhausted_allocator_recovers_by_frees() {
    let frames = vec![0x4000u64];
    let mut a = ListFrameAllocator::init(OFFSET, &frames);
    assert_eq!(a.allocate_frame(), Some(0x4000));
    assert_eq!(a.allocate_frame(), None);
    a.deallocate_frame(0x9000);
    assert_eq!(a.allocate_frame(), Some(0x9000));
    assert_eq!(a.allocate_frame(), None);
}

#[test]
fn frame_size_is_one_page() {
    assert_eq!(FRAME_SIZE, 4096);
}
