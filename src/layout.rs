//! Size and alignment of a memory request.
use vstd::prelude::*;
use crate::arith::{is_pow2, pow2};

verus! {

/// The size and alignment of a block of memory.
#[derive(Clone, Copy, Debug, PartialEq, Eq, Structural)]
pub struct Layout {
    size: usize,
    align: usize,
}

/// The alignment given to `Layout::from_size_align` is not a power of two, or
/// the size rounded up to it does not fit in an `isize`.
#[derive(Clone, Copy, Debug, PartialEq, Eq, Structural)]
pub struct LayoutError;

/// Whether `size` and `align` describe a valid layout.
pub open spec fn layout_ok(size: int, align: int) -> bool {
    is_pow2(align) && size + align - 1 <= isize::MAX
}

impl Layout {
    pub closed spec fn spec_size(&self) -> usize {
        self.size
    }

    pub closed spec fn spec_align(&self) -> usize {
        self.align
    }

    pub open spec fn wf(&self) -> bool {
        layout_ok(self.spec_size() as int, self.spec_align() as int)
    }

    /// Builds a layout, or fails when `align` is not a power of two or the
    /// rounded size would exceed `isize::MAX`.
    pub fn from_size_align(size: usize, align: usize) -> (r: Result<Layout, LayoutError>)
        ensures
            r is Ok <==> layout_ok(size as int, align as int),
            r matches Ok(l) ==> l.spec_size() == size && l.spec_align() == align && l.wf(),
    {
        if align == 0 {
            proof {
                if is_pow2(0) {
                    crate::arith::lemma_pow2_pos(choose|k: nat| pow2(k) == 0);
                }
            }
            return Err(LayoutError);
        }
        let mut p: usize = 1;
        let ghost mut k: nat = 0;
        while p < align && p <= usize::MAX / 2
            invariant
                p == pow2(k),
                p >= 1,
                k > 0 ==> pow2((k - 1) as nat) < align,
            decreases usize::MAX - p,
        {
            p = p * 2;
            proof {
                k = k + 1;
            }
        }
        if p != align {
            proof {
                if is_pow2(align as int) {
                    let j = choose|j: nat| pow2(j) == align;
                    if j < k {
                        crate::arith::lemma_pow2_strict(j, k);
                        if k > 0 {
                            crate::arith::lemma_pow2_mono(j, (k - 1) as nat);
                        }
                    } else if j > k {
                        crate::arith::lemma_pow2_strict(k, j);
                        crate::arith::lemma_pow2_mono((k + 1) as nat, j);
                        assert(pow2((k + 1) as nat) == 2 * pow2(k));
                    }
                }
            }
            return Err(LayoutError);
        }
        if align - 1 > isize::MAX as usize || size > (isize::MAX as usize) - (align - 1) {
            return Err(LayoutError);
        }
        Ok(Layout { size, align })
    }

    pub fn size(&self) -> (r: usize)
        ensures
            r == self.spec_size(),
    {
        self.size
    }

    pub fn align(&self) -> (r: usize)
        ensures
            r == self.spec_align(),
    {
        self.align
    }
}

} // verus!
