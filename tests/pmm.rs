use kernel::arch::{KERNEL_BASE, PAGE_SIZE};
use kernel::heap::align_up;
use kernel::pmm::{init, Frame, PmmError, MIN_MEMORY};

#[test]
fn consecutive_allocations_are_one_page_apart() {
    let kernel_end = KERNEL_BASE + 0x12_3456;
    let mut fma = init(16 * 1024 * 1024, 4096, kernel_end).unwrap();
    let base = fma.next_frame_id() * 4096;
    let mut seen: Vec<u64> = Vec::new();
    for k in 1..=10u64 {
        let fr = fma.allocate_frame();
        assert_eq!(fr.frame_addr_with(4096), base + (k - 1) * 4096);
        assert!(!seen.contains(&fr.frame_id));
        seen.push(fr.frame_id);
    }
    assert_eq!(fma.next_frame_id() * 4096, base + 10 * 4096);
}

#[test]
fn allocations_follow_a_larger_page_size() {
    let mut fma = init(16 * 1024 * 1024, 8192, KERNEL_BASE).unwrap();
    assert_eq!(fma.next_frame_id(), 2);
    let a = fma.allocate_frame();
    let b = fma.allocate_frame();
    assert_eq!(a.frame_addr_with(8192), 2 * 8192);
    assert_eq!(b.frame_addr_with(8192), 3 * 8192);
    assert_eq!(fma.page_size(), 8192);
}

#[test]
fn init_starts_two_pages_past_the_kernel_end() {
    let kernel_end = KERNEL_BASE + 0x12_3456;
    let mut fma = init(16 * 1024 * 1024, 4096, kernel_end).unwrap();
    assert_eq!(fma.next_frame_id(), 293);
    let first = fma.allocate_frame();
    let end_rounded = align_up(kernel_end - KERNEL_BASE, 4096);
    assert!(first.frame_addr() >= end_rounded + 4096);
    assert!(first.frame_addr() >= kernel_end - KERNEL_BASE + 4096);
    assert_eq!(first.frame_addr(), 293 * 4096);
}

#[test]
fn init_rejects_less_than_one_mebibyte() {
    let r = init(512 * 1024, 4096, KERNEL_BASE + 0x10_0000);
    assert!(matches!(r, Err(PmmError::InsufficientMemory)));
    let r = init(MIN_MEMORY - 1, 4096, KERNEL_BASE + 0x10_0000);
    assert!(matches!(r, Err(PmmError::InsufficientMemory)));
}

#[test]
fn init_accepts_exactly_one_mebibyte_and_two() {
    assert!(init(MIN_MEMORY, 4096, KERNEL_BASE).is_ok());
    assert!(init(2 * 1024 * 1024, 4096, KERNEL_BASE + 0x10_0000).is_ok());
}

#[test]
fn frame_addresses_use_the_page_size() {
    let fr = Frame::get_frame_by_id(7);
    assert_eq!(fr.frame_id, 7);
    assert_eq!(fr.frame_addr(), 7 * PAGE_SIZE);
    assert_eq!(fr.frame_addr_with(8192), 7 * 8192);
    assert_eq!(Frame::get_frame_for(0x5FFF, 4096).frame_id, 5);
    assert_eq!(Frame::get_frame_for(0x6000, 4096).frame_id, 6);
}

#[test]
fn freeing_a_frame_changes_nothing() {
    let mut fma = init(16 * 1024 * 1024, 4096, KERNEL_BASE).unwrap();
    let fr = fma.allocate_frame();
    let before = fma.next_frame_id();
    fma.free_frame(fr);
    assert_eq!(fma.next_frame_id(), before);
    assert_ne!(fma.allocate_frame(), fr);
}
