//! A free list of addresses: a stack whose head is the last address pushed.
use vstd::prelude::*;

verus! {

/// A stack of free addresses. Its view lists them from the bottom up: the
/// head is the last element.
pub struct LinkedList {
    items: Vec<usize>,
}

impl View for LinkedList {
    type V = Seq<usize>;

    closed spec fn view(&self) -> Seq<usize> {
        self.items@
    }
}

impl LinkedList {
    /// An empty list.
    pub fn new() -> (r: LinkedList)
        ensures
            r@ == Seq::<usize>::empty(),
    {
        LinkedList { items: Vec::new() }
    }

    /// Whether the list holds no address.
    pub fn is_empty(&self) -> (r: bool)
        ensures
            r == (self@.len() == 0),
    {
        self.items.len() == 0
    }

    /// Pushes `item` on the front of the list.
    pub fn push(&mut self, item: usize)
        ensures
            final(self)@ == old(self)@.push(item),
    {
        self.items.push(item);
    }

    /// Removes and returns the head, if any.
    pub fn pop(&mut self) -> (r: Option<usize>)
        ensures
            old(self)@.len() == 0 ==> r is None && final(self)@ == old(self)@,
            old(self)@.len() > 0 ==> r == Some(old(self)@.last()) && final(self)@ == old(self)@.drop_last(),
    {
        self.items.pop()
    }

    /// The head, if any.
    pub fn peek(&self) -> (r: Option<usize>)
        ensures
            self@.len() == 0 ==> r is None,
            self@.len() > 0 ==> r == Some(self@.last()),
    {
        if self.items.len() == 0 {
            None
        } else {
            Some(self.items[self.items.len() - 1])
        }
    }

    /// Number of addresses in the list.
    pub fn len(&self) -> (r: usize)
        ensures
            r == self@.len(),
    {
        self.items.len()
    }

    /// The address at position `i`, counted from the bottom.
    pub fn get(&self, i: usize) -> (r: usize)
        requires
            i < self@.len(),
        ensures
            r == self@[i as int],
    {
        self.items[i]
    }

    /// Walks the list from the head.
    pub fn iter(&self) -> (r: Iter<'_>)
        ensures
            r.list == self,
            r.current == self@.len(),
    {
        Iter { list: self, current: self.items.len() }
    }

    /// Walks the list from the head, handing out nodes that can be removed.
    pub fn iter_mut(&self) -> (r: IterMut)
        ensures
            r.current == self@.len(),
    {
        IterMut { current: self.items.len() }
    }
}

/// A walk over a list, from the head: `current` addresses remain.
pub struct Iter<'a> {
    pub list: &'a LinkedList,
    pub current: usize,
}

impl<'a> Iter<'a> {
    /// The next address, if any.
    pub fn next(&mut self) -> (r: Option<usize>)
        requires
            old(self).current <= old(self).list@.len(),
        ensures
            final(self).list == old(self).list,
            old(self).current == 0 ==> r is None && final(self).current == 0,
            old(self).current > 0 ==> r == Some(old(self).list@[old(self).current - 1])
                && final(self).current == old(self).current - 1,
    {
        if self.current == 0 {
            None
        } else {
            self.current = self.current - 1;
            Some(self.list.items[self.current])
        }
    }
}

/// A walk over a list, from the head, that hands out removable nodes:
/// `current` addresses remain.
pub struct IterMut {
    pub current: usize,
}

impl IterMut {
    /// The next node of `list`, if any.
    pub fn next(&mut self, list: &LinkedList) -> (r: Option<Node>)
        requires
            old(self).current <= list@.len(),
        ensures
            old(self).current == 0 ==> r is None && final(self).current == 0,
            old(self).current > 0 ==> final(self).current == old(self).current - 1 && r == Some(
                Node { index: (old(self).current - 1) as usize, value: list@[old(self).current - 1] },
            ),
    {
        if self.current == 0 {
            None
        } else {
            self.current = self.current - 1;
            Some(Node { index: self.current, value: list.items[self.current] })
        }
    }
}

/// An element of a list, found by a walk, that can be taken out of it.
pub struct Node {
    pub index: usize,
    pub value: usize,
}

impl Node {
    /// Removes this element from `list` and returns its address.
    pub fn pop(self, list: &mut LinkedList) -> (r: usize)
        requires
            self.index < old(list)@.len(),
            old(list)@[self.index as int] == self.value,
        ensures
            r == self.value,
            final(list)@ == old(list)@.remove(self.index as int),
    {
        list.items.remove(self.index);
        self.value
    }

    /// The address of this element.
    pub fn value(&self) -> (r: usize)
        ensures
            r == self.value,
    {
        self.value
    }
}

} // verus!
