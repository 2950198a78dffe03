use frame_alloc::arith::{align_up, class_of, prev_power_of_two};
use frame_alloc::bump::{BumpAllocator, LinearAllocator};
use frame_alloc::layout::Layout;

#[test]
fn align_up_rounds_to_multiples() {
    assert_eq!(align_up(0, 8), 0);
    assert_eq!(align_up(1, 8), 8);
    assert_eq!(align_up(8, 8), 8);
    assert_eq!(align_up(9, 4), 12);
    assert_eq!(align_up(100, 1), 100);
}

#[test]
fn prev_power_of_two_values() {
    assert_eq!(prev_power_of_two(1), 1);
    assert_eq!(prev_power_of_two(3), 2);
    assert_eq!(prev_power_of_two(4096), 4096);
    assert_eq!(prev_power_of_two(4097), 4096);
    assert_eq!(prev_power_of_two(usize::MAX), 1usize << (usize::BITS - 1));
}

#[test]
fn class_of_rounds_up_to_power_of_two() {
    assert_eq!(class_of(0, 31), (1, 0));
    assert_eq!(class_of(1, 31), (1, 0));
    assert_eq!(class_of(100, 31), (128, 7));
    assert_eq!(class_of(4096, 31), (4096, 12));
    assert_eq!(class_of(1 << 31, 31), (1 << 31, 31));
}

#[test]
fn layout_checks_alignment() {
    assert!(Layout::from_size_align(8, 3).is_err());
    assert!(Layout::from_size_align(8, 0).is_err());
    assert!(Layout::from_size_align(usize::MAX, 8).is_err());
    let l = Layout::from_size_align(24, 16).unwrap();
    assert_eq!((l.size(), l.align()), (24, 16));
}

#[test]
fn linear_allocator_bumps_and_resets() {
    let mut a = LinearAllocator::new();
    a.init(0x1000, 0x100);
    assert_eq!(a.heap_end, 0x1100);
    assert_eq!(a.allocate(10, 1), Some(0x1000));
    assert_eq!(a.allocate(16, 16), Some(0x1010));
    assert_eq!(a.next, 0x1020);
    assert_eq!(a.allocate(0x100, 1), None);
    assert_eq!(a.allocations, 2);
    a.dealloc();
    assert_eq!(a.next, 0x1020);
    a.dealloc();
    assert_eq!(a.next, 0x1000);
}

#[test]
fn bump_allocator_init() {
    let mut b = BumpAllocator::new();
    b.init(64, 128);
    assert_eq!((b.heap_head, b.heap_end, b.next, b.cnt), (64, 192, 64, 0));
}
