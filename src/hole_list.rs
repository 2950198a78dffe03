//! First-fit allocator over an address-ordered chain of free regions ("holes").
use vstd::prelude::*;
use crate::arith::{align_up, align_up_spec};
use crate::layout::Layout;
use crate::{word, lemma_word};

verus! {

/// A free region `[addr, addr + size)`.
#[derive(Clone, Copy, Debug, PartialEq, Eq, Structural)]
pub struct Hole {
    pub addr: usize,
    pub size: usize,
}

impl Hole {
    pub open spec fn end(self) -> int {
        self.addr + self.size
    }
}

/// The parts of a hole that an allocation produces: the allocated block and
/// the free regions left before and after it.
#[derive(Clone, Copy, Debug, PartialEq, Eq, Structural)]
pub struct Allocation {
    pub info: Hole,
    pub front_padding: Option<Hole>,
    pub back_padding: Option<Hole>,
}

/// Two machine words: the header a free region must be able to hold.
pub open spec fn min_hole_size() -> int {
    2 * word()
}

/// Every hole is large enough and fits in the address space; holes are in
/// ascending address order with a gap between any two of them.
pub open spec fn chain_wf(holes: Seq<Hole>) -> bool {
    &&& forall|i: int|
        0 <= i < holes.len() ==> #[trigger] holes[i].size >= min_hole_size() && holes[i].end()
            <= usize::MAX
    &&& forall|i: int, j: int|
        0 <= i < j < holes.len() ==> #[trigger] holes[i].end() < #[trigger] holes[j].addr
}

/// Byte `x` lies in some hole of the chain.
pub open spec fn covers(holes: Seq<Hole>, x: int) -> bool {
    exists|i: int| 0 <= i < holes.len() && #[trigger] holes[i].addr <= x < holes[i].end()
}

/// `[addr, addr + size)` shares no byte with any hole of the chain.
pub open spec fn disjoint_from(holes: Seq<Hole>, addr: int, size: int) -> bool {
    forall|i: int|
        0 <= i < holes.len() ==> #[trigger] holes[i].end() <= addr || addr + size <= holes[i].addr
}

/// Where an allocation of `size` bytes aligned to `align` starts inside `hole`:
/// at the hole itself if it is aligned, else far enough in to leave a front
/// region of at least the minimum size.
pub open spec fn aligned_start(hole: Hole, align: int) -> int {
    if (hole.addr as int) % align == 0 {
        hole.addr as int
    } else {
        align_up_spec(hole.addr + min_hole_size(), align)
    }
}

/// The fit test: how `hole` splits for a request, or `None` when it is too
/// small or would leave a back region below the minimum size.
pub open spec fn split_spec(hole: Hole, size: int, align: int) -> Option<Allocation> {
    let aligned = aligned_start(hole, align);
    let rest = hole.end() - (aligned + size);
    if rest < 0 || (rest != 0 && rest < min_hole_size()) {
        None
    } else {
        Some(
            Allocation {
                info: Hole { addr: aligned as usize, size: size as usize },
                front_padding: if aligned == hole.addr {
                    None
                } else {
                    Some(Hole { addr: hole.addr, size: (aligned - hole.addr) as usize })
                },
                back_padding: if rest == 0 {
                    None
                } else {
                    Some(Hole { addr: (aligned + size) as usize, size: rest as usize })
                },
            },
        )
    }
}

/// The free regions an allocation leaves, in address order.
pub open spec fn paddings(a: Allocation) -> Seq<Hole> {
    let f = match a.front_padding {
        Some(h) => seq![h],
        None => Seq::empty(),
    };
    let b = match a.back_padding {
        Some(h) => seq![h],
        None => Seq::empty(),
    };
    f + b
}

/// Index of the first hole at or after `i` that passes the fit test, or -1.
pub open spec fn first_fit_from(holes: Seq<Hole>, size: int, align: int, i: int) -> int
    decreases holes.len() - i,
{
    if i < 0 || i >= holes.len() {
        -1
    } else if split_spec(holes[i], size, align) is Some {
        i
    } else {
        first_fit_from(holes, size, align, i + 1)
    }
}

/// The chain after hole `i` was split by allocation `a`.
pub open spec fn chain_after_alloc(holes: Seq<Hole>, i: int, a: Allocation) -> Seq<Hole> {
    holes.subrange(0, i) + paddings(a) + holes.subrange(i + 1, holes.len() as int)
}

/// Number of holes that start at or before `addr`, counted from `i`.
pub open spec fn insert_pos(holes: Seq<Hole>, addr: int, i: int) -> int
    decreases holes.len() - i,
{
    if i < 0 || i >= holes.len() || holes[i].addr > addr {
        i
    } else {
        insert_pos(holes, addr, i + 1)
    }
}

/// The chain after the free block `[addr, addr + size)` was put back: it
/// merges with the hole that ends at `addr`, with the hole that starts at
/// `addr + size`, with both, or else becomes a hole of its own in address order.
pub open spec fn chain_after_free(holes: Seq<Hole>, addr: int, size: int) -> Seq<Hole> {
    let k = insert_pos(holes, addr, 0);
    let with_prev = k > 0 && holes[k - 1].end() == addr;
    let with_next = k < holes.len() && addr + size == holes[k].addr;
    if with_prev && with_next {
        holes.subrange(0, k - 1) + seq![
            Hole {
                addr: holes[k - 1].addr,
                size: (holes[k - 1].size + size + holes[k].size) as usize,
            },
        ] + holes.subrange(k + 1, holes.len() as int)
    } else if with_prev {
        holes.update(k - 1, Hole { addr: holes[k - 1].addr, size: (holes[k - 1].size + size) as usize })
    } else if with_next {
        holes.update(k, Hole { addr: addr as usize, size: (size + holes[k].size) as usize })
    } else {
        holes.insert(k, Hole { addr: addr as usize, size: size as usize })
    }
}

/// Rounds `x` up to a multiple of `align`, or `None` when that exceeds `usize::MAX`.
fn checked_align_up(x: usize, align: usize) -> (r: Option<usize>)
    requires
        align > 0,
    ensures
        r matches Some(v) ==> v == align_up_spec(x as int, align as int),
        r is None ==> align_up_spec(x as int, align as int) > usize::MAX,
{
    let rem = x % align;
    assert(rem < align && rem <= x) by {
        vstd::arithmetic::div_mod::lemma_mod_bound(x as int, align as int);
        vstd::arithmetic::div_mod::lemma_mod_decreases(x as nat, align as nat);
    }
    if rem == 0 {
        Some(x)
    } else if x - rem > usize::MAX - align {
        None
    } else {
        Some(x - rem + align)
    }
}

/// Splits `hole` for a request of `required_layout`, as `split_spec` says.
pub fn split_hole(hole: Hole, required_layout: Layout) -> (r: Option<Allocation>)
    requires
        required_layout.wf(),
        hole.end() <= usize::MAX,
    ensures
        r == split_spec(hole, required_layout.spec_size() as int, required_layout.spec_align() as int),
{
    let required_size = required_layout.size();
    let required_align = required_layout.align();
    proof {
        lemma_word();
        crate::arith::lemma_is_pow2_pos(required_align as int);
    }
    let hole_end = hole.addr + hole.size;
    let (aligned_addr, front_padding) = if hole.addr % required_align == 0 {
        (hole.addr, None)
    } else {
        let min = HoleList::min_size();
        if hole.addr > usize::MAX - min {
            return None;
        }
        match checked_align_up(hole.addr + min, required_align) {
            None => return None,
            Some(aligned_addr) => {
                (aligned_addr, Some(Hole { addr: hole.addr, size: aligned_addr - hole.addr }))
            },
        }
    };
    if aligned_addr > hole_end || required_size > hole_end - aligned_addr {
        // the hole is too small
        return None;
    }
    let rest = hole_end - aligned_addr - required_size;
    let back_padding = if rest == 0 {
        None
    } else if rest < HoleList::min_size() {
        // what remains would be a hole too small to hold its own header
        return None;
    } else {
        Some(Hole { addr: aligned_addr + required_size, size: rest })
    };
    Some(
        Allocation {
            info: Hole { addr: aligned_addr, size: required_size },
            front_padding,
            back_padding,
        },
    )
}

/// Takes the first hole of the chain that passes the fit test for `layout`,
/// puts its front and back remainders in its place, and returns the block.
pub fn allocate_first_fit(holes: &mut Vec<Hole>, layout: Layout) -> (r: Result<Hole, ()>)
    requires
        layout.wf(),
        chain_wf(old(holes)@),
    ensures
        ({
            let (size, align) = (layout.spec_size() as int, layout.spec_align() as int);
            let i = first_fit_from(old(holes)@, size, align, 0);
            if i < 0 {
                r is Err && final(holes)@ == old(holes)@
            } else {
                let a = split_spec(old(holes)@[i], size, align)->Some_0;
                r == Ok::<Hole, ()>(a.info) && final(holes)@ == chain_after_alloc(old(holes)@, i, a)
            }
        }),
{
    let ghost size = layout.spec_size() as int;
    let ghost align = layout.spec_align() as int;
    let mut i: usize = 0;
    loop
        invariant
            holes@ == old(holes)@,
            i <= holes.len(),
            layout.wf(),
            chain_wf(holes@),
            size == layout.spec_size() as int,
            align == layout.spec_align() as int,
            first_fit_from(holes@, size, align, 0) == first_fit_from(holes@, size, align, i as int),
        decreases holes.len() - i,
    {
        if i >= holes.len() {
            return Err(());
        }
        let allocation = split_hole(holes[i], layout);
        match allocation {
            Some(allocation) => {
                let ghost before = holes@;
                holes.remove(i);
                let mut at = i;
                if let Some(padding) = allocation.front_padding {
                    holes.insert(at, padding);
                    at = at + 1;
                }
                if let Some(padding) = allocation.back_padding {
                    holes.insert(at, padding);
                }
                assert(holes@ =~= chain_after_alloc(before, i as int, allocation));
                return Ok(allocation.info);
            },
            None => {
                i = i + 1;
            },
        }
    }
}

/// Facts on the insertion point of an address in an ordered chain.
proof fn lemma_insert_pos(holes: Seq<Hole>, addr: int, i: int)
    requires
        0 <= i <= holes.len(),
    ensures
        i <= insert_pos(holes, addr, i) <= holes.len(),
        forall|j: int| i <= j < insert_pos(holes, addr, i) ==> holes[j].addr <= addr,
        insert_pos(holes, addr, i) < holes.len() ==> holes[insert_pos(holes, addr, i)].addr > addr,
    decreases holes.len() - i,
{
    if i < holes.len() && holes[i].addr <= addr {
        lemma_insert_pos(holes, addr, i + 1);
    }
}

/// Puts the free block `[addr, addr + size)` back into the chain, merging it
/// with the holes it touches.
pub fn deallocate(holes: &mut Vec<Hole>, addr: usize, size: usize)
    requires
        chain_wf(old(holes)@),
        size >= min_hole_size(),
        addr + size <= usize::MAX,
        disjoint_from(old(holes)@, addr as int, size as int),
    ensures
        final(holes)@ == chain_after_free(old(holes)@, addr as int, size as int),
{
    let ghost h0 = holes@;
    let ghost size0 = size as int;
    let ghost k = insert_pos(h0, addr as int, 0);
    let ghost mut absorbed = false;
    proof {
        lemma_insert_pos(h0, addr as int, 0);
        lemma_word();
    }
    let mut cur_size = size;
    let mut i: usize = 0;
    loop
        invariant
            h0 == old(holes)@,
            chain_wf(h0),
            disjoint_from(h0, addr as int, size0),
            addr + size0 <= usize::MAX,
            size0 >= min_hole_size(),
            size0 == size,
            min_hole_size() >= 8,
            k == insert_pos(h0, addr as int, 0),
            0 <= k <= h0.len(),
            forall|j: int| 0 <= j < k ==> h0[j].addr <= addr,
            k < h0.len() ==> h0[k].addr > addr,
            !absorbed ==> {
                &&& holes@ == h0
                &&& cur_size == size0
                &&& i <= k
            },
            absorbed ==> {
                &&& i == k
                &&& k < h0.len()
                &&& addr + size0 == h0[k].addr
                &&& holes@ == h0.remove(k)
                &&& cur_size == size0 + h0[k].size
            },
        decreases 2 * (holes.len() - i) + if absorbed { 0int } else { 1int },
    {
        let len = holes.len();
        // the block ends where the hole before the cursor ends
        let after_prev = i > 0 && holes[i - 1].addr + holes[i - 1].size == addr;
        if after_prev {
            assert(k == i) by {
                if !absorbed && i < h0.len() {
                    assert(h0[i - 1].end() < h0[i as int].addr);
                }
            }
        }
        if i < len {
            let next = holes[i];
            if after_prev && addr + cur_size == next.addr {
                // the block fills the gap between two holes: all three become one
                let prev = holes[i - 1];
                assert(h0[i - 1].end() < h0[i as int].addr);
                holes.set(i - 1, Hole { addr: prev.addr, size: prev.size + cur_size + next.size });
                holes.remove(i);
                assert(holes@ =~= chain_after_free(h0, addr as int, size0));
                return ;
            }
        }
        if after_prev {
            // the block extends the hole before it
            let prev = holes[i - 1];
            proof {
                if absorbed && k + 1 < h0.len() {
                    assert(h0[k].end() < h0[k + 1].addr);
                }
                if !absorbed && k < h0.len() {
                    assert(addr + size0 <= h0[k].addr);
                    assert(h0[k - 1].end() < h0[k].addr);
                }
            }
            holes.set(i - 1, Hole { addr: prev.addr, size: prev.size + cur_size });
            assert(holes@ =~= chain_after_free(h0, addr as int, size0));
            return ;
        }
        if i < len {
            let next = holes[i];
            if addr + cur_size == next.addr {
                // the block takes in the hole after it
                proof {
                    if absorbed {
                        if k + 1 < h0.len() {
                            assert(h0[k].end() < h0[k + 1].addr);
                        }
                        assert(false);
                    }
                    assert(next.addr > addr);
                    assert(k == i);
                }
                holes.remove(i);
                cur_size = cur_size + next.size;
                proof {
                    absorbed = true;
                }
                continue ;
            }
            if next.addr <= addr {
                // the block lies beyond the next hole
                proof {
                    if absorbed {
                        if k + 1 < h0.len() {
                            assert(h0[k].end() < h0[k + 1].addr);
                        }
                        assert(false);
                    }
                }
                i = i + 1;
                continue ;
            }
        }
        // the block stands between two holes, or after the last one
        proof {
            if !absorbed {
                if i < k {
                    assert(h0[i as int].addr <= addr);
                }
                assert(k == i);
            }
        }
        holes.insert(i, Hole { addr, size: cur_size });
        assert(holes@ =~= chain_after_free(h0, addr as int, size0));

        return ;
    }
}

/// Splitting a hole of a well-formed chain keeps the chain well-formed, and
/// the bytes it covers afterwards are those it covered before, less the block.
pub proof fn lemma_alloc_keeps_chain(holes: Seq<Hole>, i: int, size: int, align: int)
    requires
        chain_wf(holes),
        0 <= i < holes.len(),
        size >= 1,
        align >= 1,
        split_spec(holes[i], size, align) is Some,
    ensures
        ({
            let a = split_spec(holes[i], size, align)->Some_0;
            let n = chain_after_alloc(holes, i, a);
            &&& chain_wf(n)
            &&& a.info.addr == aligned_start(holes[i], align)
            &&& holes[i].addr <= a.info.addr
            &&& a.info.end() <= holes[i].end()
            &&& forall|x: int|
                covers(n, x) <==> covers(holes, x) && !(a.info.addr <= x < a.info.end())
        }),
{
    let h = holes[i];
    let a = split_spec(h, size, align)->Some_0;
    let p = paddings(a);
    let n = chain_after_alloc(holes, i, a);
    let aligned = aligned_start(h, align);
    lemma_word();
    if (h.addr as int) % align != 0 {
        assert(aligned >= h.addr + min_hole_size()) by {
            vstd::arithmetic::div_mod::lemma_mod_bound(h.addr + min_hole_size(), align);
        }
    }
    assert(aligned >= h.addr);
    // every padding lies inside the hole, is large enough, and they are ordered
    assert forall|q: int| 0 <= q < p.len() implies p[q].size >= min_hole_size() && h.addr <= p[q].addr
        && p[q].end() <= h.end() && (p[q].end() <= aligned || p[q].addr >= aligned + size) by {}
    assert(p.len() == 2 ==> p[0].end() < p[1].addr);
    assert forall|q: int| 0 <= q < n.len() implies (q < i ==> n[q] == holes[q]) && (i <= q < i
        + p.len() ==> n[q] == p[q - i]) && (q >= i + p.len() ==> n[q] == holes[q - p.len() + 1]) by {}
    assert forall|u: int, v: int| 0 <= u < v < n.len() implies #[trigger] n[u].end() < #[trigger] n[v].addr by {
        if v < i {
        } else if u < i && v < i + p.len() {
            assert(holes[u].end() < holes[i].addr);
        } else if u < i {
            assert(holes[u].end() < holes[v - p.len() + 1].addr);
        } else if v < i + p.len() {
        } else if u < i + p.len() {
            assert(holes[i].end() < holes[v - p.len() + 1].addr);
        } else {
            assert(holes[u - p.len() + 1].end() < holes[v - p.len() + 1].addr);
        }
    }
    assert forall|x: int| covers(n, x) <==> covers(holes, x) && !(a.info.addr <= x < a.info.end()) by {
        if covers(n, x) {
            let q = choose|q: int| 0 <= q < n.len() && #[trigger] n[q].addr <= x < n[q].end();
            if q < i {
                assert(holes[q].addr <= x < holes[q].end());
                assert(holes[q].end() < holes[i].addr);
            } else if q < i + p.len() {
                assert(holes[i].addr <= x < holes[i].end());
            } else {
                let j = q - p.len() + 1;
                assert(holes[j].addr <= x < holes[j].end());
                assert(holes[i].end() < holes[j].addr);
            }
        }
        if covers(holes, x) && !(a.info.addr <= x < a.info.end()) {
            let j = choose|j: int| 0 <= j < holes.len() && #[trigger] holes[j].addr <= x < holes[j].end();
            if j < i {
                assert(n[j].addr <= x < n[j].end());
            } else if j > i {
                assert(n[j + p.len() - 1].addr <= x < n[j + p.len() - 1].end());
            } else if x < aligned {
                assert(n[i].addr <= x < n[i].end());
            } else {
                assert(n[i + p.len() - 1].addr <= x < n[i + p.len() - 1].end());
            }
        }
    }
}

/// The free block `[addr, addr + size)` goes in at position `k` of the chain.
pub open spec fn free_at(holes: Seq<Hole>, addr: int, size: int, k: int) -> bool {
    &&& chain_wf(holes)
    &&& size >= min_hole_size()
    &&& min_hole_size() >= 8
    &&& 0 <= addr
    &&& addr + size <= usize::MAX
    &&& 0 <= k <= holes.len()
    &&& forall|j: int| 0 <= j < k ==> #[trigger] holes[j].end() <= addr
    &&& forall|j: int| k <= j < holes.len() ==> #[trigger] holes[j].addr >= addr + size
}

proof fn lemma_free_between(holes: Seq<Hole>, addr: int, size: int, k: int)
    requires
        free_at(holes, addr, size, k),
        k > 0 && holes[k - 1].end() == addr,
        k < holes.len() && addr + size == holes[k].addr,
    ensures
        chain_wf(holes.subrange(0, k - 1) + seq![Hole { addr: holes[k - 1].addr, size: (holes[k - 1].size + size + holes[k].size) as usize }] + holes.subrange(k + 1, holes.len() as int)),
        forall|x: int| covers(holes.subrange(0, k - 1) + seq![Hole { addr: holes[k - 1].addr, size: (holes[k - 1].size + size + holes[k].size) as usize }] + holes.subrange(k + 1, holes.len() as int), x) <==> covers(holes, x) || (addr <= x < addr + size),
{
    let n = holes.subrange(0, k - 1) + seq![Hole { addr: holes[k - 1].addr, size: (holes[k - 1].size + size + holes[k].size) as usize }] + holes.subrange(k + 1, holes.len() as int);
    assert forall|q: int| 0 <= q < n.len() implies (q < k - 1 ==> n[q] == holes[q]) && (q >= k
        ==> n[q] == holes[q + 1]) by {}
    assert forall|u: int, v: int| 0 <= u < v < n.len() implies #[trigger] n[u].end()
        < #[trigger] n[v].addr by {
        if v < k - 1 {
        } else if u < k - 1 && v == k - 1 {
            assert(holes[u].end() < holes[k - 1].addr);
        } else if u < k - 1 {
            assert(holes[u].end() < holes[v + 1].addr);
        } else if u == k - 1 {
            assert(holes[k].end() < holes[v + 1].addr);
        } else {
            assert(holes[u + 1].end() < holes[v + 1].addr);
        }
    }
    assert forall|x: int| covers(n, x) <==> covers(holes, x) || (addr <= x < addr + size) by {
        if covers(n, x) {
            let q = choose|q: int| 0 <= q < n.len() && #[trigger] n[q].addr <= x < n[q].end();
            if q < k - 1 {
                assert(holes[q].addr <= x < holes[q].end());
            } else if q >= k {
                assert(holes[q + 1].addr <= x < holes[q + 1].end());
            } else if x < addr {
                assert(holes[k - 1].addr <= x < holes[k - 1].end());
            } else if x >= addr + size {
                assert(holes[k].addr <= x < holes[k].end());
            }
        }
        if covers(holes, x) {
            let j = choose|j: int| 0 <= j < holes.len() && #[trigger] holes[j].addr <= x < holes[j].end();
            if j < k - 1 {
                assert(n[j].addr <= x < n[j].end());
            } else if j > k {
                assert(n[j - 1].addr <= x < n[j - 1].end());
            } else {
                assert(n[k - 1].addr <= x < n[k - 1].end());
            }
        }
        if addr <= x < addr + size {
            assert(n[k - 1].addr <= x < n[k - 1].end());
        }
    }
}

proof fn lemma_free_after(holes: Seq<Hole>, addr: int, size: int, k: int)
    requires
        free_at(holes, addr, size, k),
        k > 0 && holes[k - 1].end() == addr,
        !(k < holes.len() && addr + size == holes[k].addr),
    ensures
        chain_wf(holes.update(k - 1, Hole { addr: holes[k - 1].addr, size: (holes[k - 1].size + size) as usize })),
        forall|x: int| covers(holes.update(k - 1, Hole { addr: holes[k - 1].addr, size: (holes[k - 1].size + size) as usize }), x) <==> covers(holes, x) || (addr <= x < addr + size),
{
    let n = holes.update(k - 1, Hole { addr: holes[k - 1].addr, size: (holes[k - 1].size + size) as usize });
    assert forall|u: int, v: int| 0 <= u < v < n.len() implies #[trigger] n[u].end()
        < #[trigger] n[v].addr by {
        if v != k - 1 && u != k - 1 {
            assert(holes[u].end() < holes[v].addr);
        } else if u == k - 1 {
            assert(holes[v].addr >= addr + size);
            if v > k {
                assert(holes[k].end() < holes[v].addr);
                assert(holes[k].addr >= addr + size);
            }
        } else {
            assert(holes[u].end() < holes[v].addr);
        }
    }
    assert forall|x: int| covers(n, x) <==> covers(holes, x) || (addr <= x < addr + size) by {
        if covers(n, x) {
            let q = choose|q: int| 0 <= q < n.len() && #[trigger] n[q].addr <= x < n[q].end();
            if q != k - 1 || x < addr {
                assert(holes[q].addr <= x < holes[q].end());
            }
        }
        if covers(holes, x) {
            let j = choose|j: int| 0 <= j < holes.len() && #[trigger] holes[j].addr <= x < holes[j].end();
            assert(n[j].addr <= x < n[j].end());
        }
        if addr <= x < addr + size {
            assert(n[k - 1].addr <= x < n[k - 1].end());
        }
    }
}

proof fn lemma_free_before(holes: Seq<Hole>, addr: int, size: int, k: int)
    requires
        free_at(holes, addr, size, k),
        !(k > 0 && holes[k - 1].end() == addr),
        k < holes.len() && addr + size == holes[k].addr,
    ensures
        chain_wf(holes.update(k, Hole { addr: addr as usize, size: (size + holes[k].size) as usize })),
        forall|x: int| covers(holes.update(k, Hole { addr: addr as usize, size: (size + holes[k].size) as usize }), x) <==> covers(holes, x) || (addr <= x < addr + size),
{
    let n = holes.update(k, Hole { addr: addr as usize, size: (size + holes[k].size) as usize });
    assert forall|u: int, v: int| 0 <= u < v < n.len() implies #[trigger] n[u].end()
        < #[trigger] n[v].addr by {
        if u != k && v != k {
            assert(holes[u].end() < holes[v].addr);
        } else if u == k {
            assert(holes[u].end() < holes[v].addr);
        } else {
            assert(holes[u].end() <= addr);
            if u == k - 1 {
                assert(holes[u].end() != addr);
            }
        }
    }
    assert forall|x: int| covers(n, x) <==> covers(holes, x) || (addr <= x < addr + size) by {
        if covers(n, x) {
            let q = choose|q: int| 0 <= q < n.len() && #[trigger] n[q].addr <= x < n[q].end();
            if q != k || x >= addr + size {
                assert(holes[q].addr <= x < holes[q].end());
            }
        }
        if covers(holes, x) {
            let j = choose|j: int| 0 <= j < holes.len() && #[trigger] holes[j].addr <= x < holes[j].end();
            assert(n[j].addr <= x < n[j].end());
        }
        if addr <= x < addr + size {
            assert(n[k].addr <= x < n[k].end());
        }
    }
}

proof fn lemma_free_apart(holes: Seq<Hole>, addr: int, size: int, k: int)
    requires
        free_at(holes, addr, size, k),
        !(k > 0 && holes[k - 1].end() == addr),
        !(k < holes.len() && addr + size == holes[k].addr),
    ensures
        chain_wf(holes.insert(k, Hole { addr: addr as usize, size: size as usize })),
        forall|x: int| covers(holes.insert(k, Hole { addr: addr as usize, size: size as usize }), x) <==> covers(holes, x) || (addr <= x < addr + size),
{
    let n = holes.insert(k, Hole { addr: addr as usize, size: size as usize });
    let b = Hole { addr: addr as usize, size: size as usize };
    assert forall|q: int| 0 <= q < n.len() implies (q < k ==> n[q] == holes[q]) && (q == k ==> n[q]
        == b) && (q > k ==> n[q] == holes[q - 1]) by {}
    assert forall|u: int, v: int| 0 <= u < v < n.len() implies #[trigger] n[u].end()
        < #[trigger] n[v].addr by {
        if v < k {
        } else if u < k && v == k {
            assert(holes[u].end() <= addr);
            if u < k - 1 {
                assert(holes[u].end() < holes[k - 1].addr);
            }
        } else if u < k {
            assert(holes[u].end() < holes[v - 1].addr);
        } else if u == k {
            assert(addr + size <= holes[v - 1].addr);
            if v - 1 > k {
                assert(holes[k].end() < holes[v - 1].addr);
            }
        } else {
            assert(holes[u - 1].end() < holes[v - 1].addr);
        }
    }
    assert forall|x: int| covers(n, x) <==> covers(holes, x) || (addr <= x < addr + size) by {
        if covers(n, x) {
            let q = choose|q: int| 0 <= q < n.len() && #[trigger] n[q].addr <= x < n[q].end();
            if q < k {
                assert(holes[q].addr <= x < holes[q].end());
            } else if q > k {
                assert(holes[q - 1].addr <= x < holes[q - 1].end());
            }
        }
        if covers(holes, x) {
            let j = choose|j: int| 0 <= j < holes.len() && #[trigger] holes[j].addr <= x < holes[j].end();
            if j < k {
                assert(n[j].addr <= x < n[j].end());
            } else {
                assert(n[j + 1].addr <= x < n[j + 1].end());
            }
        }
        if addr <= x < addr + size {
            assert(n[k].addr <= x < n[k].end());
        }
    }
}

/// Putting a block back keeps a well-formed chain well-formed, and the bytes
/// it covers afterwards are those it covered before together with the block.
pub proof fn lemma_free_keeps_chain(holes: Seq<Hole>, addr: int, size: int)
    requires
        chain_wf(holes),
        size >= min_hole_size(),
        0 <= addr,
        addr + size <= usize::MAX,
        disjoint_from(holes, addr, size),
    ensures
        chain_wf(chain_after_free(holes, addr, size)),
        forall|x: int|
            covers(chain_after_free(holes, addr, size), x) <==> covers(holes, x) || (addr <= x < addr
                + size),
{
    let n = chain_after_free(holes, addr, size);
    let k = insert_pos(holes, addr, 0);
    lemma_insert_pos(holes, addr, 0);
    lemma_word();
    let with_prev = k > 0 && holes[k - 1].end() == addr;
    let with_next = k < holes.len() && addr + size == holes[k].addr;
    // the holes before the insertion point end before the block, the others start after it
    assert forall|j: int| 0 <= j < holes.len() implies (j < k ==> #[trigger] holes[j].end() <= addr) && (j >= k
        ==> holes[j].addr >= addr + size) by {
        if k > 0 {
            assert(holes[k - 1].end() <= addr);
        }
        if k < holes.len() {
            assert(addr + size <= holes[k].addr);
        }
        if j < k - 1 {
            assert(holes[j].end() < holes[k - 1].addr);
        }
        if j > k {
            assert(holes[k].end() < holes[j].addr);
        }
    }
    if with_prev && with_next {
        let e = holes.subrange(0, k - 1) + seq![Hole { addr: holes[k - 1].addr, size: (holes[k - 1].size + size + holes[k].size) as usize }] + holes.subrange(k + 1, holes.len() as int);
        assert(n == e);
        lemma_free_between(holes, addr, size, k);
        assert forall|x: int| covers(n, x) <==> covers(holes, x) || (addr <= x < addr + size) by {
            assert(covers(e, x) <==> covers(holes, x) || (addr <= x < addr + size));
        }
    } else if with_prev {
        let e = holes.update(k - 1, Hole { addr: holes[k - 1].addr, size: (holes[k - 1].size + size) as usize });
        assert(n == e);
        lemma_free_after(holes, addr, size, k);
        assert forall|x: int| covers(n, x) <==> covers(holes, x) || (addr <= x < addr + size) by {
            assert(covers(e, x) <==> covers(holes, x) || (addr <= x < addr + size));
        }
    } else if with_next {
        let e = holes.update(k, Hole { addr: addr as usize, size: (size + holes[k].size) as usize });
        assert(n == e);
        lemma_free_before(holes, addr, size, k);
        assert forall|x: int| covers(n, x) <==> covers(holes, x) || (addr <= x < addr + size) by {
            assert(covers(e, x) <==> covers(holes, x) || (addr <= x < addr + size));
        }
    } else {
        let e = holes.insert(k, Hole { addr: addr as usize, size: size as usize });
        assert(n == e);
        lemma_free_apart(holes, addr, size, k);
        assert forall|x: int| covers(n, x) <==> covers(holes, x) || (addr <= x < addr + size) by {
            assert(covers(e, x) <==> covers(holes, x) || (addr <= x < addr + size));
        }
    }
}

/// Size of the block actually reserved for a request of `size` bytes: at
/// least the minimum hole size, rounded up to a whole number of words.
pub open spec fn aligned_size(size: int) -> int {
    align_up_spec(if size < min_hole_size() { min_hole_size() } else { size }, word())
}

/// The free regions of a heap, in address order.
pub struct HoleList {
    holes: Vec<Hole>,
}

impl HoleList {
    /// The holes, in chain order.
    pub closed spec fn chain(&self) -> Seq<Hole> {
        self.holes@
    }

    pub open spec fn wf(&self) -> bool {
        chain_wf(self.chain())
    }

    /// A list with no free memory.
    pub fn empty() -> (r: HoleList)
        ensures
            r.wf(),
            r.chain() == Seq::<Hole>::empty(),
    {
        HoleList { holes: Vec::new() }
    }

    /// A list whose one hole is `[list_addr, list_addr + list_size)`, less
    /// the bytes needed to align its start to a word.
    pub fn new(list_addr: usize, list_size: usize) -> (r: HoleList)
        requires
            list_addr + list_size <= usize::MAX,
            list_size >= align_up_spec(list_addr as int, word()) - list_addr + min_hole_size(),
        ensures
            r.wf(),
            ({
                let start = align_up_spec(list_addr as int, word());
                r.chain() == seq![Hole { addr: start as usize, size: (list_addr + list_size - start) as usize }]
            }),
    {
        proof {
            lemma_word();
        }
        let aligned_hole_addr = align_up(list_addr, core::mem::size_of::<usize>());
        let mut holes: Vec<Hole> = Vec::new();
        holes.push(Hole { addr: aligned_hole_addr, size: list_size - (aligned_hole_addr - list_addr) });
        HoleList { holes }
    }

    /// The layout reserved for a request of `layout`, or `None` when the
    /// rounded size does not form a valid layout.
    fn rounded_layout(layout: Layout) -> (r: Option<Layout>)
        requires
            layout.wf(),
        ensures
            r is Some <==> crate::layout::layout_ok(aligned_size(layout.spec_size() as int), layout.spec_align() as int),
            r matches Some(l) ==> l.spec_size() == aligned_size(layout.spec_size() as int)
                && l.spec_align() == layout.spec_align() && l.wf(),
    {
        proof {
            lemma_word();
        }
        let mut size = layout.size();
        if size < Self::min_size() {
            size = Self::min_size();
        }
        let size = align_up(size, core::mem::size_of::<usize>());
        match Layout::from_size_align(size, layout.align()) {
            Ok(l) => Some(l),
            Err(_) => None,
        }
    }

    /// The layout that is reserved, and must be handed back on free, for a
    /// request of `layout`.
    pub fn align_layout(layout: Layout) -> (r: Layout)
        requires
            layout.wf(),
            crate::layout::layout_ok(aligned_size(layout.spec_size() as int), layout.spec_align() as int),
        ensures
            r.spec_size() == aligned_size(layout.spec_size() as int),
            r.spec_align() == layout.spec_align(),
            r.wf(),
    {
        match Self::rounded_layout(layout) {
            Some(l) => l,
            None => layout,
        }
    }

    /// Allocates a block for `layout` from the first hole that fits it.
    /// Returns its address and the layout reserved for it, or `Err` when no
    /// hole fits.
    pub fn alloc_first_fit(&mut self, layout: Layout) -> (r: Result<(usize, Layout), ()>)
        requires
            old(self).wf(),
            layout.wf(),
        ensures
            final(self).wf(),
            ({
                let size = aligned_size(layout.spec_size() as int);
                let align = layout.spec_align() as int;
                let i = first_fit_from(old(self).chain(), size, align, 0);
                if !crate::layout::layout_ok(size, align) || i < 0 {
                    r is Err && final(self).chain() == old(self).chain()
                } else {
                    let a = split_spec(old(self).chain()[i], size, align)->Some_0;
                    &&& r matches Ok((addr, l)) && addr == a.info.addr && l.spec_size() == size
                        && l.spec_align() == align && l.wf()
                    &&& final(self).chain() == chain_after_alloc(old(self).chain(), i, a)
                    &&& forall|x: int|
                        covers(final(self).chain(), x) <==> covers(old(self).chain(), x) && !(
                        a.info.addr <= x < a.info.end())
                    &&& forall|x: int| a.info.addr <= x < a.info.end() ==> covers(old(self).chain(), x)
                }
            }),
    {
        let aligned_layout = match Self::rounded_layout(layout) {
            Some(l) => l,
            None => {
                return Err(());
            },
        };
        let ghost before = self.holes@;
        let r = allocate_first_fit(&mut self.holes, aligned_layout);
        proof {
            lemma_word();
            let size = aligned_size(layout.spec_size() as int);
            let align = layout.spec_align() as int;
            let i = first_fit_from(before, size, align, 0);
            crate::arith::lemma_is_pow2_pos(align);
            lemma_first_fit_found(before, size, align, 0);
            if i >= 0 {
                lemma_alloc_keeps_chain(before, i, size, align);
                let a = split_spec(before[i], size, align)->Some_0;
                assert forall|x: int| a.info.addr <= x < a.info.end() implies covers(before, x) by {
                    assert(before[i].addr <= x < before[i].end());
                }
            }
        }
        match r {
            Ok(info) => Ok((info.addr, aligned_layout)),
            Err(()) => Err(()),
        }
    }

    /// Returns the block at `ptr`, reserved for `layout`, to the free
    /// regions, merging it with the holes it touches. Returns the layout that
    /// was freed.
    pub fn deallocate(&mut self, ptr: usize, layout: Layout) -> (r: Layout)
        requires
            old(self).wf(),
            layout.wf(),
            crate::layout::layout_ok(aligned_size(layout.spec_size() as int), layout.spec_align() as int),
            ptr + aligned_size(layout.spec_size() as int) <= usize::MAX,
            disjoint_from(old(self).chain(), ptr as int, aligned_size(layout.spec_size() as int)),
        ensures
            final(self).wf(),
            r.spec_size() == aligned_size(layout.spec_size() as int),
            r.spec_align() == layout.spec_align(),
            final(self).chain() == chain_after_free(old(self).chain(), ptr as int, r.spec_size() as int),
            forall|x: int|
                covers(final(self).chain(), x) <==> covers(old(self).chain(), x) || (ptr <= x < ptr
                    + r.spec_size()),
    {
        let aligned_layout = Self::align_layout(layout);
        proof {
            lemma_word();
            assert(aligned_layout.spec_size() >= min_hole_size()) by {
                let m = if layout.spec_size() < min_hole_size() { min_hole_size() } else { layout.spec_size() as int };
                vstd::arithmetic::div_mod::lemma_mod_bound(m, word());
            }
            lemma_free_keeps_chain(self.holes@, ptr as int, aligned_layout.spec_size() as int);
        }
        deallocate(&mut self.holes, ptr, aligned_layout.size());
        aligned_layout
    }

    /// Whether `[addr, addr + size)` shares a byte with some hole: freeing
    /// such a block would be a double free.
    pub fn overlaps_free(&self, addr: usize, size: usize) -> (r: bool)
        ensures
            r == !disjoint_from(self.chain(), addr as int, size as int),
    {
        let mut i: usize = 0;
        while i < self.holes.len()
            invariant
                i <= self.holes.len(),
                disjoint_from(self.holes@.subrange(0, i as int), addr as int, size as int),
            decreases self.holes.len() - i,
        {
            let h = self.holes[i];
            if !(h.addr as u128 + h.size as u128 <= addr as u128 || addr as u128 + size as u128 <= h.addr as u128) {
                assert(!disjoint_from(self.holes@, addr as int, size as int)) by {
                    assert(self.holes@[i as int] == h);
                    assert(!(self.holes@[i as int].end() <= addr || addr + size <= self.holes@[i as int].addr));
                }
                return true;
            }
            i = i + 1;
            assert forall|j: int| 0 <= j < i implies #[trigger] self.holes@.subrange(0, i as int)[j].end() <= addr
                || addr + size <= self.holes@.subrange(0, i as int)[j].addr by {
                if j < i - 1 {
                    assert(self.holes@.subrange(0, i - 1)[j] == self.holes@[j]);
                }
            }
        }
        assert(self.holes@.subrange(0, i as int) =~= self.holes@);
        false
    }

    /// The smallest hole: two machine words.
    pub fn min_size() -> (r: usize)
        ensures
            r == min_hole_size(),
    {
        proof {
            lemma_word();
        }
        core::mem::size_of::<usize>() * 2
    }

    /// Address and size of the first hole, if any.
    pub fn first_hole(&self) -> (r: Option<(usize, usize)>)
        ensures
            self.chain().len() == 0 ==> r is None,
            self.chain().len() > 0 ==> r == Some((self.chain()[0].addr, self.chain()[0].size)),
    {
        if self.holes.len() == 0 {
            None
        } else {
            Some((self.holes[0].addr, self.holes[0].size))
        }
    }

    /// The holes, in chain order.
    pub fn holes(&self) -> (r: Vec<Hole>)
        ensures
            r@ == self.chain(),
    {
        let mut r: Vec<Hole> = Vec::new();
        let mut i: usize = 0;
        while i < self.holes.len()
            invariant
                i <= self.holes.len(),
                r@ == self.holes@.subrange(0, i as int),
            decreases self.holes.len() - i,
        {
            r.push(self.holes[i]);
            i = i + 1;
            assert(r@ =~= self.holes@.subrange(0, i as int));
        }
        assert(r@ =~= self.holes@);
        r
    }
}

/// The first-fit index is -1 or names a hole that passes the fit test.
proof fn lemma_first_fit_found(holes: Seq<Hole>, size: int, align: int, i: int)
    requires
        0 <= i,
    ensures
        first_fit_from(holes, size, align, i) == -1 || (i <= first_fit_from(holes, size, align, i)
            < holes.len() && split_spec(holes[first_fit_from(holes, size, align, i)], size, align) is Some),
    decreases holes.len() - i,
{
    if i < holes.len() && split_spec(holes[i], size, align) is None {
        lemma_first_fit_found(holes, size, align, i + 1);
    }
}

/// First fit: the hole an allocation takes is the earliest one in chain
/// order that passes the fit test; no hole before it passes, and when none is
/// taken, no hole passes at all.
pub proof fn lemma_first_fit_is_earliest(holes: Seq<Hole>, size: int, align: int)
    ensures
        ({
            let i = first_fit_from(holes, size, align, 0);
            &&& i == -1 ==> forall|j: int| 0 <= j < holes.len() ==> split_spec(#[trigger] holes[j], size, align) is None
            &&& i != -1 ==> 0 <= i < holes.len() && split_spec(holes[i], size, align) is Some
                && forall|j: int| 0 <= j < i ==> split_spec(#[trigger] holes[j], size, align) is None
        }),
{
    lemma_first_fit_prefix(holes, size, align, 0);
}

proof fn lemma_first_fit_prefix(holes: Seq<Hole>, size: int, align: int, k: int)
    requires
        0 <= k,
    ensures
        ({
            let i = first_fit_from(holes, size, align, k);
            &&& i == -1 ==> forall|j: int| k <= j < holes.len() ==> split_spec(#[trigger] holes[j], size, align) is None
            &&& i != -1 ==> k <= i < holes.len() && split_spec(holes[i], size, align) is Some
                && forall|j: int| k <= j < i ==> split_spec(#[trigger] holes[j], size, align) is None
        }),
    decreases holes.len() - k,
{
    if k < holes.len() && split_spec(holes[k], size, align) is None {
        lemma_first_fit_prefix(holes, size, align, k + 1);
    }
}

/// Merge completeness: freeing the block that fills the gap between two
/// neighbouring holes leaves one hole spanning the three ranges, in a single
/// call.
pub proof fn lemma_free_between_merges(holes: Seq<Hole>, i: int, addr: int, size: int)
    requires
        chain_wf(holes),
        0 <= i,
        i + 1 < holes.len(),
        holes[i].end() == addr,
        addr + size == holes[i + 1].addr,
    ensures
        chain_after_free(holes, addr, size) == holes.subrange(0, i) + seq![
            Hole { addr: holes[i].addr, size: (holes[i].size + size + holes[i + 1].size) as usize },
        ] + holes.subrange(i + 2, holes.len() as int),
{
    lemma_insert_pos(holes, addr, 0);
    let k = insert_pos(holes, addr, 0);
    lemma_word();
    if k <= i {
        if k < i {
            assert(holes[k].end() < holes[i].addr);
        }
        assert(holes[k].addr > addr);
    }
    if k > i + 1 {
        assert(holes[i + 1].addr <= addr);
    }
    assert(k == i + 1);
}

} // verus!
