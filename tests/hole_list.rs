use frame_alloc::hole_list::{allocate_first_fit, deallocate, split_hole, Hole, HoleList};
use frame_alloc::layout::Layout;

fn layout(size: usize, align: usize) -> Layout {
    Layout::from_size_align(size, align).unwrap()
}

fn word() -> usize {
    std::mem::size_of::<usize>()
}

#[test]
fn alloc_then_free_restores_single_hole() {
    let mut heap = HoleList::new(0, 1024);
    assert_eq!(heap.holes(), vec![Hole { addr: 0, size: 1024 }]);
    let (addr, reserved) = heap.alloc_first_fit(layout(100, 8)).unwrap();
    assert!(addr < 1024);
    assert_eq!(addr, 0);
    // 100 bytes rounded up to a whole number of words
    let expected = if word() == 8 { 104 } else { 100 };
    assert_eq!(reserved.size(), expected);
    assert_eq!(reserved.align(), 8);
    assert_eq!(heap.holes(), vec![Hole { addr: expected, size: 1024 - expected }]);
    let freed = heap.deallocate(addr, layout(100, 8));
    assert_eq!(freed, reserved);
    assert_eq!(heap.holes(), vec![Hole { addr: 0, size: 1024 }]);
    assert_eq!(heap.first_hole(), Some((0, 1024)));
}

#[test]
fn first_fit_takes_earlier_smaller_hole() {
    let mut heap = HoleList::new(0, 1024);
    let (a, _) = heap.alloc_first_fit(layout(128, 8)).unwrap();
    let (b, _) = heap.alloc_first_fit(layout(128, 8)).unwrap();
    assert_eq!((a, b), (0, 128));
    heap.deallocate(a, layout(128, 8));
    assert_eq!(heap.holes(), vec![Hole { addr: 0, size: 128 }, Hole { addr: 256, size: 768 }]);
    let (c, _) = heap.alloc_first_fit(layout(64, 8)).unwrap();
    assert_eq!(c, 0);
    assert_eq!(heap.holes(), vec![Hole { addr: 64, size: 64 }, Hole { addr: 256, size: 768 }]);
}

#[test]
fn freeing_between_two_holes_merges_all_three() {
    let mut heap = HoleList::new(0, 1024);
    let (a, _) = heap.alloc_first_fit(layout(128, 8)).unwrap();
    let (b, _) = heap.alloc_first_fit(layout(128, 8)).unwrap();
    heap.deallocate(a, layout(128, 8));
    assert_eq!(heap.holes().len(), 2);
    heap.deallocate(b, layout(128, 8));
    assert_eq!(heap.holes(), vec![Hole { addr: 0, size: 1024 }]);
}

#[test]
fn freeing_before_a_hole_merges_with_it() {
    let mut heap = HoleList::new(0, 1024);
    let (a, _) = heap.alloc_first_fit(layout(128, 8)).unwrap();
    let (_b, _) = heap.alloc_first_fit(layout(128, 8)).unwrap();
    let (c, _) = heap.alloc_first_fit(layout(128, 8)).unwrap();
    assert_eq!(c, 256);
    heap.deallocate(c, layout(128, 8));
    assert_eq!(heap.holes(), vec![Hole { addr: 256, size: 768 }]);
    heap.deallocate(a, layout(128, 8));
    assert_eq!(heap.holes(), vec![Hole { addr: 0, size: 128 }, Hole { addr: 256, size: 768 }]);
}

#[test]
fn exhausted_when_no_hole_fits() {
    let mut heap = HoleList::new(0, 256);
    assert!(heap.alloc_first_fit(layout(512, 8)).is_err());
    assert_eq!(heap.holes(), vec![Hole { addr: 0, size: 256 }]);
    let mut empty = HoleList::empty();
    assert!(empty.alloc_first_fit(layout(8, 8)).is_err());
    assert_eq!(empty.first_hole(), None);
}

#[test]
fn remainder_too_small_skips_hole() {
    // a hole one word larger than the request cannot be used: the rest
    // would be smaller than the minimum hole size
    let min = HoleList::min_size();
    let mut heap = HoleList::new(0, 64 + word());
    assert!(heap.alloc_first_fit(layout(64, 8)).is_err());
    let mut exact = HoleList::new(0, 64 + min);
    assert_eq!(exact.alloc_first_fit(layout(64, 8)).unwrap().0, 0);
    assert_eq!(exact.holes(), vec![Hole { addr: 64, size: min }]);
}

#[test]
fn alignment_leaves_front_padding() {
    let mut heap = HoleList::new(8, 1016);
    let (addr, _) = heap.alloc_first_fit(layout(64, 256)).unwrap();
    assert_eq!(addr, 256);
    assert_eq!(heap.holes(), vec![Hole { addr: 8, size: 248 }, Hole { addr: 320, size: 704 }]);
}

#[test]
fn new_aligns_start_to_a_word() {
    let heap = HoleList::new(3, 100);
    let start = if word() == 8 { 8 } else { 4 };
    assert_eq!(heap.first_hole(), Some((start, 103 - start)));
}

#[test]
fn align_layout_rounds_up() {
    let min = HoleList::min_size();
    assert_eq!(min, 2 * word());
    let l = HoleList::align_layout(layout(1, 4));
    assert_eq!(l.size(), min);
    assert_eq!(l.align(), 4);
    let l = HoleList::align_layout(layout(33, 1));
    assert_eq!(l.size(), 32 + word());
}

#[test]
fn split_hole_reports_paddings() {
    let a = split_hole(Hole { addr: 8, size: 1016 }, layout(64, 256)).unwrap();
    assert_eq!(a.info, Hole { addr: 256, size: 64 });
    assert_eq!(a.front_padding, Some(Hole { addr: 8, size: 248 }));
    assert_eq!(a.back_padding, Some(Hole { addr: 320, size: 704 }));
    let b = split_hole(Hole { addr: 0, size: 64 }, layout(64, 8)).unwrap();
    assert_eq!(b.front_padding, None);
    assert_eq!(b.back_padding, None);
    assert!(split_hole(Hole { addr: 0, size: 32 }, layout(64, 8)).is_none());
}

#[test]
fn chain_functions_work_on_plain_vectors() {
    let mut holes = vec![Hole { addr: 0, size: 64 }, Hole { addr: 128, size: 512 }];
    let taken = allocate_first_fit(&mut holes, layout(128, 8)).unwrap();
    assert_eq!(taken, Hole { addr: 128, size: 128 });
    assert_eq!(holes, vec![Hole { addr: 0, size: 64 }, Hole { addr: 256, size: 384 }]);
    deallocate(&mut holes, 64, 64);
    assert_eq!(holes, vec![Hole { addr: 0, size: 128 }, Hole { addr: 256, size: 384 }]);
    deallocate(&mut holes, 128, 128);
    assert_eq!(holes, vec![Hole { addr: 0, size: 640 }]);
    deallocate(&mut holes, 1000, 64);
    assert_eq!(holes, vec![Hole { addr: 0, size: 640 }, Hole { addr: 1000, size: 64 }]);
}

#[test]
fn double_free_is_detectable() {
    let mut heap = HoleList::new(0, 1024);
    let (a, reserved) = heap.alloc_first_fit(layout(64, 8)).unwrap();
    assert!(!heap.overlaps_free(a, reserved.size()));
    heap.deallocate(a, layout(64, 8));
    assert!(heap.overlaps_free(a, reserved.size()));
    assert!(heap.overlaps_free(1000, 8));
    assert!(!heap.overlaps_free(1024, 8));
}
