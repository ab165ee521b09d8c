use adts::doubly;
use adts::singly;

fn singly_items(list: &singly::LinkedList<i32>) -> Vec<i32> {
    let mut out = Vec::new();
    let mut it = list.iter();
    while let Some(v) = it.next() {
        out.push(*v);
    }
    out
}

fn doubly_items(list: &doubly::LinkedList<i32>) -> Vec<i32> {
    let mut out = Vec::new();
    let mut it = list.iter();
    while let Some(v) = it.next() {
        out.push(v);
    }
    out
}

#[test]
fn singly_new_is_empty() {
    let list: singly::LinkedList<i32> = singly::LinkedList::new();
    assert!(list.is_empty());
    assert_eq!(list.len(), 0);
}

#[test]
fn singly_push_head_prepends() {
    let mut list = singly::LinkedList::new();
    list.push_head(3);
    list.push_head(2);
    list.push_head(1);
    assert_eq!(singly_items(&list), vec![1, 2, 3]);
    assert_eq!(list.len(), 3);
}

#[test]
fn singly_push_tail_appends() {
    let mut list = singly::LinkedList::new();
    list.push_tail(1);
    list.push_tail(2);
    list.push_tail(3);
    assert_eq!(singly_items(&list), vec![1, 2, 3]);
}

#[test]
fn singly_from_keeps_order() {
    let list = singly::LinkedList::from(vec![4, 5, 6]);
    assert_eq!(singly_items(&list), vec![4, 5, 6]);
}

#[test]
fn singly_pop_takes_head() {
    let mut list = singly::LinkedList::from(vec![1, 2]);
    assert_eq!(list.pop(), Some(1));
    assert_eq!(list.pop(), Some(2));
    assert_eq!(list.pop(), None);
    assert!(list.is_empty());
}

#[test]
fn singly_insert_semantics() {
    let mut list = singly::LinkedList::from(vec![10, 20, 30]);
    // index 0 prepends
    assert_eq!(list.insert(0, 5), Some(()));
    assert_eq!(singly_items(&list), vec![5, 10, 20, 30]);
    // a positive index splices in after that position
    assert_eq!(list.insert(1, 15), Some(()));
    assert_eq!(singly_items(&list), vec![5, 10, 15, 20, 30]);
    // out of range is refused
    assert_eq!(list.insert(5, 99), None);
    assert_eq!(singly_items(&list), vec![5, 10, 15, 20, 30]);
}

#[test]
fn singly_set_and_get() {
    let mut list = singly::LinkedList::from(vec![1, 2, 3]);
    assert_eq!(list.set(1, 20), Some(()));
    assert_eq!(list.get(1), Some(&20));
    assert_eq!(list.get(2), Some(&3));
    assert_eq!(list.get(3), None);
    assert_eq!(list.set(3, 9), None);
    assert_eq!(singly_items(&list), vec![1, 20, 3]);
}

#[test]
fn singly_extend_head_reverses() {
    let mut list = singly::LinkedList::from(vec![9]);
    list.extend_head(vec![1, 2, 3]);
    assert_eq!(singly_items(&list), vec![3, 2, 1, 9]);
}

#[test]
fn singly_extend_tail_appends() {
    let mut list = singly::LinkedList::from(vec![9]);
    list.extend_tail(vec![1, 2, 3]);
    assert_eq!(singly_items(&list), vec![9, 1, 2, 3]);
}

#[test]
fn singly_clear_resets() {
    let mut list = singly::LinkedList::from(vec![1, 2, 3]);
    list.clear();
    assert!(list.is_empty());
    assert_eq!(list.len(), 0);
}

#[test]
fn singly_into_iter_yields_in_order() {
    let list = singly::LinkedList::from(vec![7, 8, 9]);
    let mut it = list.into_iter();
    assert_eq!(it.next(), Some(7));
    assert_eq!(it.next(), Some(8));
    assert_eq!(it.next(), Some(9));
    assert_eq!(it.next(), None);
}

#[test]
fn singly_node_is_a_chain_of_one() {
    let _node = singly::Node::new(42);
}

#[test]
fn doubly_new_is_empty() {
    let list: doubly::LinkedList<i32> = doubly::LinkedList::new();
    assert!(list.is_empty());
    assert_eq!(list.len(), 0);
}

#[test]
fn doubly_push_both_ends() {
    let mut list = doubly::LinkedList::new();
    list.push_tail(2);
    list.push_tail(3);
    list.push_head(1);
    assert_eq!(doubly_items(&list), vec![1, 2, 3]);
}

#[test]
fn doubly_pop_both_ends() {
    let mut list = doubly::LinkedList::from(vec![1, 2, 3, 4]);
    assert_eq!(list.pop_head(), Some(1));
    assert_eq!(list.pop_tail(), Some(4));
    assert_eq!(doubly_items(&list), vec![2, 3]);
    assert_eq!(list.pop_head(), Some(2));
    assert_eq!(list.pop_tail(), Some(3));
    assert_eq!(list.pop_head(), None);
    assert_eq!(list.pop_tail(), None);
}

#[test]
fn doubly_insert_splices_after_index() {
    let mut list = doubly::LinkedList::from(vec![10, 20, 30]);
    assert_eq!(list.insert(0, 15), Some(()));
    assert_eq!(doubly_items(&list), vec![10, 15, 20, 30]);
    assert_eq!(list.insert(2, 25), Some(()));
    assert_eq!(doubly_items(&list), vec![10, 15, 20, 25, 30]);
    assert_eq!(list.insert(5, 99), None);
    assert_eq!(doubly_items(&list), vec![10, 15, 20, 25, 30]);
}

#[test]
fn doubly_set_and_get() {
    let mut list = doubly::LinkedList::from(vec![1, 2, 3]);
    assert_eq!(list.set(0, 10), Some(()));
    assert_eq!(list.get(0), Some(10));
    assert_eq!(list.get(2), Some(3));
    assert_eq!(list.get(3), None);
    assert_eq!(list.set(9, 9), None);
}

#[test]
fn doubly_extends() {
    let mut list = doubly::LinkedList::from(vec![5]);
    list.extend_tail(vec![6, 7]);
    list.extend_head(vec![1, 2]);
    assert_eq!(doubly_items(&list), vec![2, 1, 5, 6, 7]);
}

#[test]
fn doubly_clear_resets() {
    let mut list = doubly::LinkedList::from(vec![1, 2]);
    list.clear();
    assert!(list.is_empty());
}

#[test]
fn doubly_into_iter_yields_in_order() {
    let list = doubly::LinkedList::from(vec![4, 5]);
    let mut it = list.into_iter();
    assert_eq!(it.next(), Some(4));
    assert_eq!(it.next(), Some(5));
    assert_eq!(it.next(), None);
}
