//! Bump allocators: memory is handed out upward and reclaimed only when
//! every allocation has been freed.
use vstd::prelude::*;
use crate::arith::align_up_spec;

verus! {

/// A bump allocator over `[heap_start, heap_end)`.
pub struct LinearAllocator {
    pub heap_start: usize,
    pub heap_end: usize,
    pub next: usize,
    pub allocations: usize,
}

impl LinearAllocator {
    /// An allocator with no memory.
    pub fn new() -> (r: Self)
        ensures
            r.heap_start == 0 && r.heap_end == 0 && r.next == 0 && r.allocations == 0,
    {
        LinearAllocator { heap_start: 0, heap_end: 0, next: 0, allocations: 0 }
    }

    /// Gives the allocator the memory `[heap_start, heap_start + heap_size)`.
    pub fn init(&mut self, heap_start: usize, heap_size: usize)
        requires
            heap_start + heap_size <= usize::MAX,
        ensures
            final(self).heap_start == heap_start,
            final(self).heap_end == heap_start + heap_size,
            final(self).next == heap_start,
            final(self).allocations == old(self).allocations,
    {
        self.heap_start = heap_start;
        self.heap_end = heap_start + heap_size;
        self.next = heap_start;
    }

    /// Hands out `size` bytes at the next address aligned to `align`, or
    /// `None` when they do not fit below the end of the heap.
    pub fn allocate(&mut self, size: usize, align: usize) -> (r: Option<usize>)
        requires
            align > 0,
            old(self).allocations < usize::MAX,
        ensures
            ({
                let start = align_up_spec(old(self).next as int, align as int);
                if start + size <= old(self).heap_end {
                    &&& r == Some(start as usize)
                    &&& final(self).next == start + size
                    &&& final(self).allocations == old(self).allocations + 1
                    &&& final(self).heap_start == old(self).heap_start
                    &&& final(self).heap_end == old(self).heap_end
                } else {
                    r is None && *final(self) == *old(self)
                }
            }),
    {
        let rem = self.next % align;
        assert(rem < align && rem <= self.next) by {
            vstd::arithmetic::div_mod::lemma_mod_bound(self.next as int, align as int);
            vstd::arithmetic::div_mod::lemma_mod_decreases(self.next as nat, align as nat);
        }
        let alloc_start = if rem == 0 {
            self.next
        } else if self.next - rem > usize::MAX - align {
            return None;
        } else {
            self.next - rem + align
        };
        if alloc_start > usize::MAX - size {
            return None;
        }
        let alloc_end = alloc_start + size;
        if alloc_end > self.heap_end {
            None
        } else {
            self.next = alloc_end;
            self.allocations = self.allocations + 1;
            Some(alloc_start)
        }
    }

    /// Records that one allocation was freed; when none is left, the whole
    /// heap is free again.
    pub fn dealloc(&mut self)
        requires
            old(self).allocations > 0,
        ensures
            final(self).allocations == old(self).allocations - 1,
            final(self).next == if final(self).allocations == 0 { old(self).heap_start } else { old(self).next },
            final(self).heap_start == old(self).heap_start,
            final(self).heap_end == old(self).heap_end,
    {
        self.allocations = self.allocations - 1;
        if self.allocations == 0 {
            self.next = self.heap_start;
        }
    }
}

/// A bump allocator that counts its allocations.
pub struct BumpAllocator {
    pub heap_head: usize,
    pub heap_end: usize,
    pub next: usize,
    pub cnt: usize,
}

impl BumpAllocator {
    /// An allocator with no memory.
    pub fn new() -> (r: Self)
        ensures
            r.heap_head == 0 && r.heap_end == 0 && r.next == 0 && r.cnt == 0,
    {
        BumpAllocator { heap_head: 0, heap_end: 0, next: 0, cnt: 0 }
    }

    /// Gives the allocator the memory `[heap_head, heap_head + heap_size)`.
    pub fn init(&mut self, heap_head: usize, heap_size: usize)
        requires
            heap_head + heap_size <= usize::MAX,
        ensures
            final(self).heap_head == heap_head,
            final(self).heap_end == heap_head + heap_size,
            final(self).next == heap_head,
            final(self).cnt == old(self).cnt,
    {
        self.heap_head = heap_head;
        self.heap_end = heap_head + heap_size;
        self.next = heap_head;
    }
}

} // verus!
