use frame_alloc::linked_list::LinkedList;

#[test]
fn push_pop_is_last_in_first_out() {
    let mut list = LinkedList::new();
    assert!(list.is_empty());
    assert_eq!(list.pop(), None);
    list.push(0x10);
    list.push(0x20);
    list.push(0x30);
    assert!(!list.is_empty());
    assert_eq!(list.peek(), Some(0x30));
    assert_eq!(list.pop(), Some(0x30));
    assert_eq!(list.pop(), Some(0x20));
    assert_eq!(list.peek(), Some(0x10));
    assert_eq!(list.pop(), Some(0x10));
    assert_eq!(list.peek(), None);
    assert!(list.is_empty());
}

#[test]
fn iter_walks_from_the_head() {
    let mut list = LinkedList::new();
    list.push(1);
    list.push(2);
    list.push(3);
    let mut it = list.iter();
    assert_eq!(it.next(), Some(3));
    assert_eq!(it.next(), Some(2));
    assert_eq!(it.next(), Some(1));
    assert_eq!(it.next(), None);
}

#[test]
fn node_pop_removes_in_place() {
    let mut list = LinkedList::new();
    list.push(1);
    list.push(2);
    list.push(3);
    let mut it = list.iter_mut();
    let mut found = None;
    while let Some(node) = it.next(&list) {
        if node.value() == 2 {
            found = Some(node);
            break;
        }
    }
    let node = found.unwrap();
    assert_eq!(node.pop(&mut list), 2);
    assert_eq!(list.pop(), Some(3));
    assert_eq!(list.pop(), Some(1));
    assert_eq!(list.pop(), None);
}
