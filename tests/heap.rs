use kernel::heap::{align_down, align_up, SimpleBumpAllocator, HEAP_SIZE, HEAP_START};

#[test]
fn align_down_clears_low_bits() {
    assert_eq!(align_down(0x1234, 0x1000), 0x1000);
    assert_eq!(align_down(0x2000, 0x1000), 0x2000);
    assert_eq!(align_down(17, 1), 17);
    assert_eq!(align_down(12345, 0), 0);
}

#[test]
fn align_up_rounds_to_the_next_multiple() {
    assert_eq!(align_up(0x1001, 0x1000), 0x2000);
    assert_eq!(align_up(0x1000, 0x1000), 0x1000);
    assert_eq!(align_up(0, 16), 0);
    assert_eq!(align_up(33, 16), 48);
}

#[test]
fn bump_allocator_aligns_and_advances() {
    let mut heap = SimpleBumpAllocator::new(HEAP_START, HEAP_START + HEAP_SIZE);
    let a = heap.allocate(10, 8).unwrap();
    assert_eq!(a, HEAP_START);
    let b = heap.allocate(16, 16).unwrap();
    assert_eq!(b, HEAP_START + 16);
    let c = heap.allocate(1, 1).unwrap();
    assert_eq!(c, HEAP_START + 32);
    heap.deallocate(c, 1);
    let d = heap.allocate(4, 4).unwrap();
    assert_eq!(d, HEAP_START + 36);
}

#[test]
fn bump_allocator_refuses_what_does_not_fit() {
    let mut heap = SimpleBumpAllocator::new(0x1000, 0x1100);
    assert_eq!(heap.allocate(0x100, 1), Some(0x1000));
    assert_eq!(heap.allocate(1, 1), None);
    let mut heap = SimpleBumpAllocator::new(0x1000, 0x1100);
    assert_eq!(heap.allocate(0x101, 1), None);
    assert_eq!(heap.allocate(0x80, 0x100), Some(0x1000));
    assert_eq!(heap.allocate(0x10, 0x100), None);
}

#[test]
fn bump_allocator_handles_the_top_of_the_address_space() {
    let mut heap = SimpleBumpAllocator::new(u64::MAX - 8, u64::MAX);
    assert_eq!(heap.allocate(4, 16), None);
    assert_eq!(heap.allocate(u64::MAX, 1), None);
    assert_eq!(heap.allocate(8, 1), Some(u64::MAX - 8));
}
