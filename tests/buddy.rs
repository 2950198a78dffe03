use frame_alloc::buddy::{BuddyAllocator, NUM_CLASSES};

fn free_sum(a: &BuddyAllocator) -> usize {
    let mut sum = 0;
    for k in 0..NUM_CLASSES {
        sum += a.free_blocks(k).len() << k;
    }
    sum
}

fn all_blocks(a: &BuddyAllocator) -> Vec<(usize, usize)> {
    let mut v = Vec::new();
    for k in 0..NUM_CLASSES {
        for p in a.free_blocks(k) {
            v.push((p, 1usize << k));
        }
    }
    v
}

#[test]
fn register_alloc_dealloc_scenario() {
    let mut a = BuddyAllocator::new();
    a.alloc_frame(0, 4096);
    assert_eq!(a.free_blocks(12), vec![0]);
    assert_eq!(a.allocate(100), Some(0));
    assert_eq!(a.stats_allocated(), 128);
    assert_eq!(a.free_blocks(12), Vec::<usize>::new());
    assert_eq!(a.free_blocks(7), vec![128]);
    assert_eq!(a.free_blocks(11), vec![2048]);
    a.dealloc(0, 100);
    assert_eq!(a.free_blocks(12), vec![0]);
    for k in 0..NUM_CLASSES {
        if k != 12 {
            assert!(a.free_blocks(k).is_empty());
        }
    }
    assert_eq!(a.stats_allocated(), 0);
    assert_eq!(a.stats_total(), 4096);
}

#[test]
fn range_is_cut_into_aligned_blocks() {
    let mut a = BuddyAllocator::new();
    a.insert(4096..12288 + 512);
    assert_eq!(a.free_blocks(12), vec![4096, 8192]);
    assert_eq!(a.free_blocks(9), vec![12288]);
    assert_eq!(a.stats_total(), 8192 + 512);
}

#[test]
fn conservation_over_a_sequence() {
    let mut a = BuddyAllocator::new();
    a.alloc_frame(0x1000, 0x9000);
    let x = a.allocate(300).unwrap();
    let y = a.allocate(4096).unwrap();
    let z = a.allocate(1).unwrap();
    assert_eq!(a.stats_total() - a.stats_allocated(), free_sum(&a));
    a.dealloc(y, 4096);
    assert_eq!(a.stats_total() - a.stats_allocated(), free_sum(&a));
    a.dealloc(x, 300);
    a.dealloc(z, 1);
    assert_eq!(a.stats_allocated(), 0);
    assert_eq!(free_sum(&a), 0x8000);
}

#[test]
fn free_blocks_never_overlap() {
    let mut a = BuddyAllocator::new();
    a.alloc_frame(0, 1 << 16);
    let p = a.allocate(1000).unwrap();
    let q = a.allocate(7).unwrap();
    let _r = a.allocate(5000).unwrap();
    a.dealloc(p, 1000);
    let blocks = all_blocks(&a);
    for (i, &(a1, s1)) in blocks.iter().enumerate() {
        for &(a2, s2) in blocks.iter().skip(i + 1) {
            assert!(a1 + s1 <= a2 || a2 + s2 <= a1);
        }
    }
    assert!(blocks.iter().all(|&(p, s)| !(p <= q && q < p + s)));
}

#[test]
fn alloc_then_dealloc_restores_classes() {
    let mut a = BuddyAllocator::new();
    a.alloc_frame(0, 1 << 20);
    let before: Vec<Vec<usize>> = (0..NUM_CLASSES).map(|k| a.free_blocks(k)).collect();
    let p = a.allocate(3).unwrap();
    a.dealloc(p, 3);
    let after: Vec<Vec<usize>> = (0..NUM_CLASSES).map(|k| a.free_blocks(k)).collect();
    assert_eq!(before, after);
}

#[test]
fn count_zero_takes_the_smallest_class() {
    let mut a = BuddyAllocator::new();
    a.alloc_frame(0, 16);
    assert_eq!(a.allocate(0), Some(0));
    assert_eq!(a.stats_allocated(), 1);
    assert_eq!(a.free_blocks(0), vec![1]);
}

#[test]
fn exhausted_when_nothing_large_enough() {
    let mut a = BuddyAllocator::new();
    a.alloc_frame(0, 64);
    assert_eq!(a.allocate(128), None);
    assert_eq!(a.allocate(usize::MAX), None);
    assert_eq!(a.free_blocks(6), vec![0]);
    assert_eq!(a.allocate(64), Some(0));
    assert_eq!(a.allocate(1), None);
}

#[test]
fn lowest_address_is_taken_first() {
    let mut a = BuddyAllocator::new();
    a.alloc_frame(4096, 8192);
    a.alloc_frame(0, 4096);
    assert_eq!(a.free_blocks(12), vec![0, 4096]);
    assert_eq!(a.allocate(4096), Some(0));
}

#[test]
fn buddy_double_free_is_detectable() {
    let mut a = BuddyAllocator::new();
    a.alloc_frame(0, 4096);
    let p = a.allocate(256).unwrap();
    assert!(!a.overlaps_free(p, 256));
    assert!(a.overlaps_free(p + 256, 1));
    a.dealloc(p, 256);
    assert!(a.overlaps_free(p, 256));
    assert!(!a.overlaps_free(4096, 4096));
}
