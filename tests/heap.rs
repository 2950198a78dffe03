use frame_alloc::heap::Heap;
use frame_alloc::layout::Layout;

fn layout(size: usize, align: usize) -> Layout {
    Layout::from_size_align(size, align).unwrap()
}

#[test]
fn heap_alloc_and_free() {
    let mut heap = Heap::<32>::new();
    heap.init(0x1000, 0x1000);
    assert_eq!(heap.stats_total_bytes(), 0x1000);
    let a = heap.allocate(layout(100, 8)).unwrap();
    assert_eq!(a, 0x1000);
    assert_eq!(heap.stats_alloc_actual(), 128);
    assert_eq!(heap.stats_alloc_user(), 100);
    let b = heap.allocate(layout(16, 64)).unwrap();
    assert_eq!(b % 64, 0);
    assert_eq!(heap.stats_alloc_actual(), 128 + 64);
    heap.dealloc(a, layout(100, 8));
    heap.dealloc(b, layout(16, 64));
    assert_eq!(heap.stats_alloc_actual(), 0);
    assert_eq!(heap.stats_alloc_user(), 0);
    for k in 0..32 {
        let expected = if k == 12 { vec![0x1000] } else { Vec::new() };
        assert_eq!(heap.free_blocks(k), expected);
    }
}

#[test]
fn heap_small_request_takes_a_word() {
    let mut heap = Heap::<32>::empty();
    heap.free_heap(3, 64);
    let a = heap.allocate(layout(1, 1)).unwrap();
    assert_eq!(heap.stats_alloc_actual(), std::mem::size_of::<usize>());
    assert_eq!(a % std::mem::size_of::<usize>(), 0);
}

#[test]
fn heap_exhausted() {
    let mut heap = Heap::<32>::new();
    heap.init(0, 256);
    assert!(heap.allocate(layout(512, 8)).is_err());
    assert!(heap.allocate(layout(256, 8)).is_ok());
    assert!(heap.allocate(layout(8, 8)).is_err());
}

#[test]
fn heap_size_and_class_and_overlap() {
    assert_eq!(Heap::<32>::size_and_class(layout(100, 8)), Some((128, 7)));
    assert_eq!(Heap::<32>::size_and_class(layout(3, 64)), Some((64, 6)));
    assert_eq!(Heap::<8>::size_and_class(layout(200, 8)), None);
    let mut heap = Heap::<32>::new();
    heap.init(0, 4096);
    let a = heap.allocate(layout(128, 8)).unwrap();
    assert!(!heap.overlaps_free(a, 128));
    assert!(heap.overlaps_free(a + 128, 8));
    heap.dealloc(a, layout(128, 8));
    assert!(heap.overlaps_free(a, 128));
    assert_eq!(heap.free_blocks(12), vec![0]);
}
