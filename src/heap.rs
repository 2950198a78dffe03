//! Buddy heap whose size classes are free lists of addresses.
use vstd::prelude::*;
use crate::arith::{pow2, pow2_exec, lemma_pow2_pos, lemma_pow2_mono, lemma_size_class, class_of, size_class, align_up, align_up_spec};
use crate::buddy::{
    aligned, classes_wf, free_bytes, outside_free, buddy_of, buddy_free, merge_spec, first_nonempty,
    split_state, alloc_spec, insert_range, piece, empty_classes, lemma_insert_block,
    lemma_remove_block, lemma_buddy, lemma_outside_sub, lemma_outside_join, lemma_outside_update,
    lemma_split_step, lemma_free_bytes_nonneg, lemma_free_bytes_empty, lemma_wf_member,
};
use crate::layout::Layout;
use crate::linked_list::{LinkedList, Node};
use crate::{word, lemma_word};

verus! {

/// The class that serves `layout`: the least power of two that is at least
/// its size, its alignment and a machine word.
pub open spec fn heap_class(layout: Layout) -> nat {
    let s = layout.spec_size() as int;
    let a = layout.spec_align() as int;
    let m = if s < a { a } else { s };
    size_class(if m < word() { word() } else { m })
}

/// `x` rounded down to a whole number of words.
pub open spec fn word_floor(x: int) -> int {
    x - x % word()
}

/// A buddy heap with `ORDER` size classes, each a free list.
pub struct Heap<const ORDER: usize> {
    free_list: Vec<LinkedList>,
    user: usize,
    allocated: usize,
    sum: usize,
}

impl<const ORDER: usize> Heap<ORDER> {
    /// The free blocks of each class.
    pub closed spec fn classes(&self) -> Seq<Set<usize>> {
        Seq::new(self.free_list@.len(), |k: int| self.free_list@[k]@.to_set())
    }

    /// The block at the head of the list of class `k`.
    pub closed spec fn head_of(&self, k: int) -> usize {
        self.free_list@[k]@.last()
    }

    /// There is one list per class, none holding an address twice.
    pub closed spec fn lists_ok(&self) -> bool {
        &&& self.free_list@.len() == ORDER
        &&& forall|k: int| 0 <= k < ORDER ==> (#[trigger] self.free_list@[k])@.no_duplicates()
    }

    /// Bytes asked for by the allocations not yet freed.
    pub closed spec fn spec_user(&self) -> usize {
        self.user
    }

    /// Bytes handed out and not yet given back.
    pub closed spec fn spec_allocated(&self) -> usize {
        self.allocated
    }

    /// Bytes ever registered.
    pub closed spec fn spec_total(&self) -> usize {
        self.sum
    }

    /// The number of classes is usable.
    pub open spec fn order_ok() -> bool {
        1 <= ORDER <= 64 && pow2((ORDER - 1) as nat) <= usize::MAX
    }

    pub open spec fn wf(&self) -> bool {
        &&& Self::order_ok()
        &&& self.lists_ok()
        &&& self.classes().len() == ORDER
        &&& classes_wf(self.classes())
        &&& self.spec_total() == self.spec_allocated() + free_bytes(self.classes(), ORDER as int)
        &&& self.spec_user() <= self.spec_allocated()
    }

    /// A heap with no memory.
    pub fn new() -> (r: Self)
        requires
            Self::order_ok(),
        ensures
            r.wf(),
            r.classes() == empty_classes(ORDER as int),
            r.spec_user() == 0,
            r.spec_allocated() == 0,
            r.spec_total() == 0,
    {
        let mut free_list: Vec<LinkedList> = Vec::new();
        let mut i: usize = 0;
        while i < ORDER
            invariant
                i <= ORDER,
                free_list@.len() == i,
                forall|k: int| 0 <= k < i ==> (#[trigger] free_list@[k])@ == Seq::<usize>::empty(),
            decreases ORDER - i,
        {
            free_list.push(LinkedList::new());
            i = i + 1;
        }
        let r = Heap { free_list, user: 0, allocated: 0, sum: 0 };
        assert forall|k: int| 0 <= k < ORDER implies #[trigger] r.classes()[k] =~= Set::<usize>::empty() by {}
        assert(r.classes() =~= empty_classes(ORDER as int));
        proof {
            lemma_free_bytes_empty(ORDER as int);
            crate::buddy::lemma_empty_wf(ORDER as int);
        }
        r
    }

    /// A heap with no memory.
    pub fn empty() -> (r: Self)
        requires
            Self::order_ok(),
        ensures
            r.wf(),
            r.classes() == empty_classes(ORDER as int),
            r.spec_user() == 0,
            r.spec_allocated() == 0,
            r.spec_total() == 0,
    {
        Self::new()
    }

    fn push_block(&mut self, k: usize, p: usize)
        requires
            old(self).lists_ok(),
            k < ORDER,
            !old(self).classes()[k as int].contains(p),
        ensures
            final(self).lists_ok(),
            final(self).classes() == old(self).classes().update(k as int, old(self).classes()[k as int].insert(p)),
            final(self).head_of(k as int) == p,
            forall|j: int| 0 <= j < ORDER && j != k ==> final(self).head_of(j) == old(self).head_of(j),
            final(self).spec_user() == old(self).spec_user(),
            final(self).spec_allocated() == old(self).spec_allocated(),
            final(self).spec_total() == old(self).spec_total(),
    {
        self.free_list[k].push(p);
        proof {
            let l = old(self).free_list@[k as int]@;
            assert(l.push(p).to_set() =~= l.to_set().insert(p)) by {
                assert forall|x: usize| l.push(p).contains(x) implies l.contains(x) || x == p by {
                    let q = choose|q: int| 0 <= q < l.push(p).len() && l.push(p)[q] == x;
                    if q < l.len() {
                        assert(l[q] == x);
                    }
                }
                assert forall|x: usize| #[trigger] l.contains(x) || x == p implies l.push(p).contains(x) by {
                    if x == p {
                        assert(l.push(p)[l.len() as int] == p);
                    } else {
                        let q = choose|q: int| 0 <= q < l.len() && l[q] == x;
                        assert(l.push(p)[q] == x);
                    }
                }
            }
            assert forall|j: int| 0 <= j < ORDER implies (#[trigger] self.free_list@[j])@.no_duplicates() by {
                if j == k {
                    assert(!l.contains(p));
                }
            }
            assert(self.classes() =~= old(self).classes().update(k as int, old(self).classes()[k as int].insert(p)));
        }
    }

    fn pop_block(&mut self, k: usize) -> (r: Option<usize>)
        requires
            old(self).lists_ok(),
            k < ORDER,
        ensures
            final(self).lists_ok(),
            old(self).classes()[k as int].is_empty() <==> r is None,
            r is None ==> final(self).classes() == old(self).classes(),
            r matches Some(p) ==> p == old(self).head_of(k as int) && old(self).classes()[k as int].contains(p)
                && final(self).classes() == old(self).classes().update(k as int, old(self).classes()[k as int].remove(p)),
            final(self).spec_user() == old(self).spec_user(),
            final(self).spec_allocated() == old(self).spec_allocated(),
            final(self).spec_total() == old(self).spec_total(),
    {
        let r = self.free_list[k].pop();
        proof {
            let l = old(self).free_list@[k as int]@;
            if l.len() > 0 {
                assert(l.drop_last().to_set() =~= l.to_set().remove(l.last())) by {
                    assert forall|x: usize| l.drop_last().contains(x) implies x != l.last() by {
                        let q = choose|q: int| 0 <= q < l.drop_last().len() && l.drop_last()[q] == x;
                        assert(l[q] == x);
                    }
                    assert forall|x: usize| #[trigger] l.contains(x) && x != l.last() implies l.drop_last().contains(x) by {
                        let q = choose|q: int| 0 <= q < l.len() && l[q] == x;
                        assert(l.drop_last()[q] == x);
                    }
                }
                assert(l.to_set().contains(l.last())) by {
                    assert(l[l.len() - 1] == l.last());
                }
                assert forall|j: int| 0 <= j < ORDER implies (#[trigger] self.free_list@[j])@.no_duplicates() by {}
                assert(self.classes() =~= old(self).classes().update(k as int, old(self).classes()[k as int].remove(l.last())));
            } else {
                assert(l.to_set() =~= Set::<usize>::empty());
                assert(self.classes() =~= old(self).classes());
            }
        }
        r
    }

    /// The node of the list of class `k` that holds `target`, if any.
    fn find_block(&self, k: usize, target: usize) -> (r: Option<Node>)
        requires
            self.lists_ok(),
            k < ORDER,
        ensures
            r is None ==> !self.classes()[k as int].contains(target),
            r matches Some(n) ==> n.index < self.free_list@[k as int]@.len() && self.free_list@[k as int]@[n.index as int] == target
                && n.value == target,
    {
        let list = &self.free_list[k];
        let mut it = list.iter_mut();
        loop
            invariant
                self.lists_ok(),
                k < ORDER,
                *list == self.free_list@[k as int],
                it.current <= list@.len(),
                forall|q: int| it.current <= q < list@.len() ==> list@[q] != target,
            decreases it.current,
        {
            match it.next(list) {
                None => {
                    return None;
                },
                Some(node) => {
                    if node.value() == target {
                        return Some(node);
                    }
                },
            }
        }
    }

    fn remove_node(&mut self, k: usize, node: Node)
        requires
            old(self).lists_ok(),
            k < ORDER,
            node.index < old(self).free_list@[k as int]@.len(),
            old(self).free_list@[k as int]@[node.index as int] == node.value,
        ensures
            final(self).lists_ok(),
            final(self).classes() == old(self).classes().update(k as int, old(self).classes()[k as int].remove(node.value)),
            node.index < old(self).free_list@[k as int]@.len() - 1 ==> final(self).head_of(k as int) == old(self).head_of(k as int),
            final(self).spec_user() == old(self).spec_user(),
            final(self).spec_allocated() == old(self).spec_allocated(),
            final(self).spec_total() == old(self).spec_total(),
    {
        let ghost l = self.free_list@[k as int]@;
        let ghost idx = node.index as int;
        let ghost v = node.value;
        node.pop(&mut self.free_list[k]);
        proof {
            let n = l.remove(idx);
            assert(n.to_set() =~= l.to_set().remove(v)) by {
                assert forall|x: usize| n.contains(x) implies x != v && l.contains(x) by {
                    let q = choose|q: int| 0 <= q < n.len() && n[q] == x;
                    if q < idx {
                        assert(l[q] == x);
                    } else {
                        assert(l[q + 1] == x);
                    }
                }
                assert forall|x: usize| #[trigger] l.contains(x) && x != v implies n.contains(x) by {
                    let q = choose|q: int| 0 <= q < l.len() && l[q] == x;
                    if q < idx {
                        assert(n[q] == x);
                    } else {
                        assert(n[q - 1] == x);
                    }
                }
            }
            assert forall|j: int| 0 <= j < ORDER implies (#[trigger] self.free_list@[j])@.no_duplicates() by {
                if j == k {
                    assert forall|a: int, b: int| 0 <= a < b < n.len() implies n[a] != n[b] by {
                        let a1 = if a < idx { a } else { a + 1 };
                        let b1 = if b < idx { b } else { b + 1 };
                        assert(l[a1] != l[b1]);
                    }
                }
            }
            assert(self.classes() =~= old(self).classes().update(k as int, old(self).classes()[k as int].remove(v)));
        }
    }

    /// The block size and class that serve `layout`, or `None` when it
    /// needs a class above the largest.
    pub fn size_and_class(layout: Layout) -> (r: Option<(usize, usize)>)
        requires
            Self::order_ok(),
            layout.wf(),
        ensures
            r is None <==> heap_class(layout) > ORDER - 1,
            r matches Some((size, class)) ==> class == heap_class(layout) && size == pow2(class as nat)
                && layout.spec_size() <= size,
    {
        proof {
            lemma_word();
        }
        let w = core::mem::size_of::<usize>();
        let mut need = layout.size();
        if need < layout.align() {
            need = layout.align();
        }
        if need < w {
            need = w;
        }
        let top = pow2_exec(ORDER - 1);
        if need > top {
            proof {
                lemma_size_class(need as int, 0);
                let cls = size_class(need as int);
                if cls <= ORDER - 1 {
                    lemma_pow2_mono(cls, (ORDER - 1) as nat);
                }
            }
            return None;
        }
        let (size, class) = class_of(need, ORDER - 1);
        Some((size, class))
    }

    /// Whether `[p, p + size)` shares a byte with some free block: freeing
    /// such a block would be a double free.
    pub fn overlaps_free(&self, p: usize, size: usize) -> (r: bool)
        requires
            self.wf(),
        ensures
            r == !outside_free(self.classes(), p as int, size as int),
    {
        let mut k: usize = 0;
        while k < ORDER
            invariant
                self.wf(),
                k <= ORDER,
                forall|j: int, x: usize| 0 <= j < k && #[trigger] self.classes()[j].contains(x) ==> x + pow2(j as nat) <= p || p + size <= x,
            decreases ORDER - k,
        {
            proof {
                lemma_pow2_mono(k as nat, (ORDER - 1) as nat);
            }
            let bsize = pow2_exec(k);
            let list = &self.free_list[k];
            let mut i: usize = 0;
            while i < list.len()
                invariant
                    self.wf(),
                    k < ORDER,
                    *list == self.free_list@[k as int],
                    bsize == pow2(k as nat),
                    i <= list@.len(),
                    forall|q: int| 0 <= q < i ==> list@[q] + bsize <= p || p + size <= list@[q],
                decreases list@.len() - i,
            {
                let x = list.get(i);
                if !(x as u128 + bsize as u128 <= p as u128 || p as u128 + size as u128 <= x as u128) {
                    assert(self.classes()[k as int].contains(x)) by {
                        assert(list@[i as int] == x);
                    }
                    return true;
                }
                i = i + 1;
            }
            assert forall|x: usize| #[trigger] self.classes()[k as int].contains(x) implies x + pow2(k as nat) <= p || p + size <= x by {
                let q = choose|q: int| 0 <= q < list@.len() && list@[q] == x;
            }
            k = k + 1;
        }
        false
    }

    /// Registers the free memory `[start, end)`, shrunk inward to whole
    /// words: cuts it into maximal aligned power-of-two blocks, at most of the
    /// largest class, and makes each of them free.
    pub fn free_heap(&mut self, start: usize, end: usize)
        requires
            old(self).wf(),
            start + word() - 1 <= usize::MAX,
            align_up_spec(start as int, word()) <= word_floor(end as int),
            old(self).spec_total() + (word_floor(end as int) - align_up_spec(start as int, word())) <= usize::MAX,
            outside_free(old(self).classes(), align_up_spec(start as int, word()), word_floor(end as int) - align_up_spec(start as int, word())),
        ensures
            final(self).wf(),
            final(self).classes() == insert_range(old(self).classes(), align_up_spec(start as int, word()), word_floor(end as int)),
            final(self).spec_allocated() == old(self).spec_allocated(),
            final(self).spec_user() == old(self).spec_user(),
            final(self).spec_total() == old(self).spec_total() + (word_floor(end as int) - align_up_spec(start as int, word())),
    {
        proof {
            lemma_word();
        }
        let w = core::mem::size_of::<usize>();
        let start = align_up(start, w);
        let end = end - end % w;
        let mut sum: usize = 0;
        let mut current_start = start;
        while current_start < end
            invariant
                old(self).wf(),
                Self::order_ok(),
                old(self).spec_total() + (end - start) <= usize::MAX,
                start <= current_start <= end,
                sum == current_start - start,
                self.lists_ok(),
                self.classes().len() == ORDER,
                classes_wf(self.classes()),
                insert_range(self.classes(), current_start as int, end as int) == insert_range(
                    old(self).classes(), start as int, end as int),
                free_bytes(self.classes(), ORDER as int) == free_bytes(old(self).classes(), ORDER as int) + sum,
                outside_free(self.classes(), current_start as int, end - current_start),
                self.spec_allocated() == old(self).spec_allocated(),
                self.spec_user() == old(self).spec_user(),
                self.spec_total() == old(self).spec_total(),
            decreases end - current_start,
        {
            let (size, class) = piece(current_start, end - current_start, ORDER - 1);
            let ghost c = self.classes();
            proof {
                lemma_pow2_pos(class as nat);
                lemma_outside_sub(c, current_start as int, end - current_start, current_start as int, size as int);
                lemma_insert_block(c, class as int, current_start);
                if current_start + size < end {
                    lemma_outside_sub(c, current_start as int, end - current_start, current_start + size, end - current_start - size);
                    lemma_outside_update(c, class as int, c[class as int].insert(current_start), current_start + size, end - current_start - size);
                }
            }
            self.push_block(class, current_start);
            sum = sum + size;
            current_start = current_start + size;
            proof {
                if current_start >= end {
                    assert forall|k: int, x: usize| 0 <= k < self.classes().len() && #[trigger] self.classes()[k].contains(x)
                        implies x + pow2(k as nat) <= current_start || current_start + (end - current_start) <= x by {}
                }
            }
        }
        self.sum = self.sum + sum;
    }

    /// Registers the free memory `[start, start + size)`, as `free_heap` does.
    pub fn init(&mut self, start: usize, size: usize)
        requires
            old(self).wf(),
            start + size <= usize::MAX,
            start + word() - 1 <= usize::MAX,
            align_up_spec(start as int, word()) <= word_floor(start + size),
            old(self).spec_total() + (word_floor(start + size) - align_up_spec(start as int, word())) <= usize::MAX,
            outside_free(old(self).classes(), align_up_spec(start as int, word()), word_floor(start + size) - align_up_spec(start as int, word())),
        ensures
            final(self).wf(),
            final(self).classes() == insert_range(old(self).classes(), align_up_spec(start as int, word()), word_floor(start + size)),
            final(self).spec_allocated() == old(self).spec_allocated(),
            final(self).spec_user() == old(self).spec_user(),
            final(self).spec_total() == old(self).spec_total() + (word_floor(start + size) - align_up_spec(start as int, word())),
    {
        self.free_heap(start, start + size);
    }

    /// Splits the block `b` at the head of class `i` down to class `cls`,
    /// leaving the upper half of each split free in its class.
    #[verifier::rlimit(60)]
    fn split_down(&mut self, i: usize, class: usize, b: usize)
        requires
            class <= i < ORDER,
            Self::order_ok(),
            old(self).lists_ok(),
            classes_wf(old(self).classes()),
            old(self).classes()[i as int].contains(b),
            old(self).head_of(i as int) == b,
            forall|k: int| class <= k < i ==> old(self).classes()[k].len() == 0,
        ensures
            final(self).lists_ok(),
            final(self).classes() == split_state(old(self).classes(), i as int, class as int, b),
            classes_wf(final(self).classes()),
            free_bytes(final(self).classes(), ORDER as int) == free_bytes(old(self).classes(), ORDER as int),
            final(self).head_of(class as int) == b,
            final(self).spec_user() == old(self).spec_user(),
            final(self).spec_allocated() == old(self).spec_allocated(),
            final(self).spec_total() == old(self).spec_total(),
    {
        let ghost c0 = self.classes();
        proof {
            assert(split_state(c0, i as int, i as int, b) =~= c0);
            lemma_wf_member(c0, i as int, b);
        }
        let mut j: usize = i;
        while j > class
            invariant
                class <= j <= i < ORDER,
                Self::order_ok(),
                classes_wf(c0),
                c0 == old(self).classes(),
                c0.len() == ORDER,
                b + pow2(i as nat) <= usize::MAX,
                c0[i as int].contains(b),
                forall|k: int| class <= k < i ==> c0[k].len() == 0,
                self.lists_ok(),
                self.classes() == split_state(c0, i as int, j as int, b),
                self.head_of(j as int) == b,
                classes_wf(self.classes()),
                free_bytes(self.classes(), ORDER as int) == free_bytes(c0, ORDER as int),
                self.spec_user() == old(self).spec_user(),
                self.spec_allocated() == old(self).spec_allocated(),
                self.spec_total() == old(self).spec_total(),
            decreases j,
        {
            proof {
                lemma_split_step(c0, i as int, j as int, b);
                lemma_pow2_mono((j - 1) as nat, (ORDER - 1) as nat);
            }
            let half = pow2_exec(j - 1);
            let block = match self.pop_block(j) {
                Some(block) => block,
                None => {
                    return ;
                },
            };
            self.push_block(j - 1, block + half);
            self.push_block(j - 1, block);
            j = j - 1;
        }
    }

    /// Allocates a block for `layout`: its size rounded up to a power of two,
    /// at least its alignment and a word. Takes the head block of the first
    /// non-empty class that is large enough, splits it down to that size, and
    /// returns its address; `Err` when no class can serve the request.
    #[verifier::rlimit(60)]
    pub fn allocate(&mut self, layout: Layout) -> (r: Result<usize, ()>)
        requires
            old(self).wf(),
            layout.wf(),
        ensures
            final(self).wf(),
            final(self).spec_total() == old(self).spec_total(),
            ({
                let cls = heap_class(layout) as int;
                let i = first_nonempty(old(self).classes(), cls);
                if i < 0 {
                    &&& r is Err
                    &&& final(self).classes() == old(self).classes()
                    &&& final(self).spec_allocated() == old(self).spec_allocated()
                    &&& final(self).spec_user() == old(self).spec_user()
                } else {
                    let b = old(self).head_of(i);
                    &&& r == Ok::<usize, ()>(b)
                    &&& old(self).classes()[i].contains(b)
                    &&& final(self).classes() == alloc_spec(old(self).classes(), i, cls, b)
                    &&& final(self).spec_allocated() == old(self).spec_allocated() + pow2(cls as nat)
                    &&& final(self).spec_user() == old(self).spec_user() + layout.spec_size()
                    // the block meets what `dealloc(b, layout)` asks of it
                    &&& cls <= ORDER - 1
                    &&& aligned(b as int, cls as nat)
                    &&& b + pow2(cls as nat) <= usize::MAX
                    &&& outside_free(final(self).classes(), b as int, pow2(cls as nat) as int)
                    &&& final(self).spec_allocated() >= pow2(cls as nat)
                    &&& final(self).spec_user() >= layout.spec_size()
                    &&& final(self).spec_user() - layout.spec_size() <= final(self).spec_allocated() - pow2(cls as nat)
                }
            }),
    {
        let (size, class) = match Self::size_and_class(layout) {
            Some(sc) => sc,
            None => {
                return Err(());
            },
        };
        let ghost c0 = self.classes();
        let mut i: usize = class;
        while i < ORDER
            invariant
                class <= i <= ORDER,
                Self::order_ok(),
                self.classes() == c0,
                c0 == old(self).classes(),
                old(self).wf(),
                *self == *old(self),
                first_nonempty(c0, class as int) == first_nonempty(c0, i as int),
                forall|k: int| class <= k < i ==> c0[k].len() == 0,
                size == pow2(class as nat),
                class == heap_class(layout),
                layout.spec_size() <= size,
            decreases ORDER - i,
        {
            if !self.free_list[i].is_empty() {
                let b = match self.free_list[i].peek() {
                    Some(b) => b,
                    None => {
                        return Err(());
                    },
                };
                proof {
                    let l = self.free_list@[i as int]@;
                    assert(l[l.len() - 1] == b);
                    assert(c0[i as int].contains(b));
                    assert(c0[i as int].len() > 0) by {
                        lemma_wf_member(c0, i as int, b);
                        vstd::set_lib::lemma_set_empty_equivalency_len(c0[i as int]);
                    }
                }
                self.split_down(i, class, b);
                let ghost c = self.classes();
                let result = match self.pop_block(class) {
                    Some(block) => block,
                    None => {
                        return Err(());
                    },
                };
                proof {
                    lemma_remove_block(c, class as int, b);
                    lemma_free_bytes_nonneg(self.classes(), ORDER as int);
                }
                self.allocated = self.allocated + size;
                self.user = self.user + layout.size();
                return Ok(result);
            }
            proof {
                let l = self.free_list@[i as int]@;
                assert(c0[i as int] =~= Set::<usize>::empty()) by {
                    assert(l.len() == 0);
                }
            }
            i = i + 1;
        }
        Err(())
    }

    /// Frees the block at `ptr` that `allocate(layout)` handed out, merging
    /// it with its buddy for as long as the buddy is free.
    #[verifier::rlimit(60)]
    pub fn dealloc(&mut self, ptr: usize, layout: Layout)
        requires
            old(self).wf(),
            layout.wf(),
            heap_class(layout) <= ORDER - 1,
            aligned(ptr as int, heap_class(layout)),
            ptr + pow2(heap_class(layout)) <= usize::MAX,
            outside_free(old(self).classes(), ptr as int, pow2(heap_class(layout)) as int),
            old(self).spec_allocated() >= pow2(heap_class(layout)),
            old(self).spec_user() >= layout.spec_size(),
            old(self).spec_user() - layout.spec_size() <= old(self).spec_allocated() - pow2(heap_class(layout)),
        ensures
            final(self).wf(),
            final(self).classes() == merge_spec(old(self).classes(), ptr, heap_class(layout) as int),
            final(self).spec_allocated() == old(self).spec_allocated() - pow2(heap_class(layout)),
            final(self).spec_user() == old(self).spec_user() - layout.spec_size(),
            final(self).spec_total() == old(self).spec_total(),
    {
        let (size, class) = match Self::size_and_class(layout) {
            Some(sc) => sc,
            None => {
                return ;
            },
        };
        let ghost c0 = self.classes();
        let ghost mut st = c0;
        proof {
            lemma_insert_block(c0, class as int, ptr);
        }
        self.push_block(class, ptr);
        let mut current_ptr = ptr;
        let mut current_class = class;
        let mut block_size = size;
        loop
            invariant
                old(self).wf(),
                Self::order_ok(),
                c0 == old(self).classes(),
                class <= current_class < ORDER,
                block_size == pow2(current_class as nat),
                size == pow2(class as nat),
                class == heap_class(layout),
                self.lists_ok(),
                st.len() == ORDER,
                classes_wf(st),
                !st[current_class as int].contains(current_ptr),
                self.classes() == st.update(current_class as int, st[current_class as int].insert(current_ptr)),
                self.head_of(current_class as int) == current_ptr,
                merge_spec(st, current_ptr, current_class as int) == merge_spec(c0, ptr, class as int),
                aligned(current_ptr as int, current_class as nat),
                current_ptr + block_size <= usize::MAX,
                outside_free(st, current_ptr as int, block_size as int),
                free_bytes(st, ORDER as int) + block_size == free_bytes(c0, ORDER as int) + size,
                self.spec_allocated() == old(self).spec_allocated(),
                self.spec_user() == old(self).spec_user(),
                self.spec_total() == old(self).spec_total(),
            ensures
                !buddy_free(st, current_ptr, current_class as int),
                class <= current_class < ORDER,
                block_size == pow2(current_class as nat),
                self.lists_ok(),
                st.len() == ORDER,
                classes_wf(st),
                self.classes() == st.update(current_class as int, st[current_class as int].insert(current_ptr)),
                merge_spec(st, current_ptr, current_class as int) == merge_spec(c0, ptr, class as int),
                aligned(current_ptr as int, current_class as nat),
                current_ptr + block_size <= usize::MAX,
                outside_free(st, current_ptr as int, block_size as int),
                free_bytes(st, ORDER as int) + block_size == free_bytes(c0, ORDER as int) + size,
                self.spec_allocated() == old(self).spec_allocated(),
                self.spec_user() == old(self).spec_user(),
                self.spec_total() == old(self).spec_total(),
            decreases ORDER - current_class,
        {
            if current_class + 1 >= ORDER {
                break;
            }
            proof {
                lemma_buddy(current_ptr as int, current_class as nat);
                lemma_pow2_pos(current_class as nat);
            }
            let buddy: usize;
            if (current_ptr / block_size) % 2 == 0 {
                if current_ptr > usize::MAX - block_size {
                    break;
                }
                buddy = current_ptr + block_size;
            } else {
                buddy = current_ptr - block_size;
            }
            assert(buddy == buddy_of(current_ptr as int, current_class as nat));
            match self.find_block(current_class, buddy) {
                None => {
                    break;
                },
                Some(node) => {
                    let ghost s = block_size as int;
                    let lower = if current_ptr < buddy { current_ptr } else { buddy };
                    proof {
                        let l = self.free_list@[current_class as int]@;
                        assert(l[l.len() - 1] == current_ptr);
                        assert(l[node.index as int] == buddy);
                        assert(l.contains(buddy));
                        assert(self.classes()[current_class as int].contains(buddy));
                        assert(st[current_class as int].insert(current_ptr).contains(buddy));
                        assert(st[current_class as int].contains(buddy));
                        lemma_remove_block(st, current_class as int, buddy);
                        let c1 = st.update(current_class as int, st[current_class as int].remove(buddy));
                        lemma_outside_update(st, current_class as int, st[current_class as int].remove(buddy), current_ptr as int, s);
                        if lower == current_ptr {
                            lemma_outside_join(c1, current_ptr as int, s);
                        } else {
                            lemma_outside_join(c1, buddy as int, s);
                        }
                        assert(pow2((current_class + 1) as nat) == 2 * s);
                        lemma_pow2_mono((current_class + 1) as nat, (ORDER - 1) as nat);
                        lemma_insert_block(c1, (current_class + 1) as int, lower);
                    }
                    self.remove_node(current_class, node);
                    let _ = self.pop_block(current_class);
                    proof {
                        let c1 = st.update(current_class as int, st[current_class as int].remove(buddy));
                        assert(st[current_class as int].insert(current_ptr).remove(buddy).remove(current_ptr)
                            =~= st[current_class as int].remove(buddy));
                        assert(self.classes() =~= c1);
                        st = c1;
                    }
                    current_ptr = lower;
                    current_class = current_class + 1;
                    block_size = block_size * 2;
                    self.push_block(current_class, current_ptr);
                },
            }
        }
        proof {
            lemma_insert_block(st, current_class as int, current_ptr);
        }
        self.allocated = self.allocated - size;
        self.user = self.user - layout.size();
    }

    /// The free blocks of class `k`, the head last.
    pub fn free_blocks(&self, k: usize) -> (r: Vec<usize>)
        requires
            self.wf(),
            k < ORDER,
        ensures
            r@.to_set() == self.classes()[k as int],
    {
        let list = &self.free_list[k];
        let mut r: Vec<usize> = Vec::new();
        let mut it = list.iter();
        while it.current > 0
            invariant
                it.list == list,
                it.current <= list@.len(),
                r@ == list@.subrange(it.current as int, list@.len() as int).reverse(),
            decreases it.current,
        {
            if let Some(v) = it.next() {
                r.push(v);
                assert(r@ =~= list@.subrange(it.current as int, list@.len() as int).reverse());
            }
        }
        proof {
            let l = list@;
            assert(l.subrange(0, l.len() as int) =~= l);
            assert(r@.to_set() =~= l.to_set()) by {
                assert forall|x: usize| r@.contains(x) implies l.contains(x) by {
                    let q = choose|q: int| 0 <= q < r@.len() && r@[q] == x;
                    assert(l[l.len() - 1 - q] == x);
                }
                assert forall|x: usize| l.contains(x) implies r@.contains(x) by {
                    let q = choose|q: int| 0 <= q < l.len() && l[q] == x;
                    assert(r@[l.len() - 1 - q] == x);
                }
            }
        }
        r
    }

    /// Bytes asked for by the allocations not yet freed.
    pub fn stats_alloc_user(&self) -> (r: usize)
        ensures
            r == self.spec_user(),
    {
        self.user
    }

    /// Bytes handed out, rounded to their classes, and not yet freed.
    pub fn stats_alloc_actual(&self) -> (r: usize)
        ensures
            r == self.spec_allocated(),
    {
        self.allocated
    }

    /// Bytes ever registered.
    pub fn stats_total_bytes(&self) -> (r: usize)
        ensures
            r == self.spec_total(),
    {
        self.sum
    }
}

} // verus!
