//! Memory allocation core for a freestanding runtime: a buddy frame allocator,
//! a first-fit hole allocator, the free list they share, and a bump allocator.
use vstd::prelude::*;

pub mod arith;
pub mod layout;
pub mod hole_list;
pub mod buddy;
pub mod linked_list;
pub mod heap;
pub mod bump;

verus! {

/// The size in bytes of a machine word.
pub open spec fn word() -> int {
    vstd::layout::size_of::<usize>() as int
}

pub proof fn lemma_word()
    ensures
        word() == 4 || word() == 8,
        usize::MAX >= 0xffff_ffff,
{
    broadcast use vstd::layout::layout_of_primitives;
    assert(usize::BITS == 32 || usize::BITS == 64);
}

} // verus!
