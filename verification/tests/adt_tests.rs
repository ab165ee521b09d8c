use adts::adt::{Queue, Stack};
use adts::doubly;
use adts::singly;

#[test]
fn singly_list_as_stack() {
    let mut stack: singly::LinkedList<i32> = singly::LinkedList::new();
    assert!(Stack::is_empty(&stack));
    Stack::push(&mut stack, 1);
    Stack::push(&mut stack, 2);
    Stack::push(&mut stack, 3);
    assert_eq!(Stack::len(&stack), 3);
    assert_eq!(Stack::peek(&stack), Some(3));
    assert_eq!(Stack::pop(&mut stack), Some(3));
    assert_eq!(Stack::pop(&mut stack), Some(2));
    assert_eq!(Stack::pop(&mut stack), Some(1));
    assert_eq!(Stack::pop(&mut stack), None);
    assert!(Stack::is_empty(&stack));
}

#[test]
fn singly_list_as_queue() {
    let mut queue: singly::LinkedList<i32> = singly::LinkedList::new();
    Queue::offer(&mut queue, 1);
    Queue::offer(&mut queue, 2);
    Queue::offer(&mut queue, 3);
    assert_eq!(Queue::len(&queue), 3);
    assert_eq!(Queue::head(&queue), Some(1));
    assert_eq!(Queue::tail(&queue), Some(3));
    assert_eq!(Queue::poll(&mut queue), Some(1));
    assert_eq!(Queue::poll(&mut queue), Some(2));
    assert_eq!(Queue::poll(&mut queue), Some(3));
    assert_eq!(Queue::poll(&mut queue), None);
    assert_eq!(Queue::head(&queue), None);
    assert_eq!(Queue::tail(&queue), None);
}

#[test]
fn singly_stack_clear() {
    let mut stack: singly::LinkedList<i32> = singly::LinkedList::new();
    Stack::push(&mut stack, 7);
    Stack::clear(&mut stack);
    assert!(Stack::is_empty(&stack));
    assert_eq!(Stack::peek(&stack), None);
}

#[test]
fn doubly_list_as_stack() {
    let mut stack: doubly::LinkedList<i32> = doubly::LinkedList::new();
    Stack::push(&mut stack, 10);
    Stack::push(&mut stack, 20);
    assert_eq!(Stack::peek(&stack), Some(20));
    assert_eq!(Stack::pop(&mut stack), Some(20));
    assert_eq!(Stack::pop(&mut stack), Some(10));
    assert_eq!(Stack::pop(&mut stack), None);
}

#[test]
fn doubly_list_as_queue() {
    let mut queue: doubly::LinkedList<i32> = doubly::LinkedList::new();
    Queue::offer(&mut queue, 10);
    Queue::offer(&mut queue, 20);
    Queue::offer(&mut queue, 30);
    assert_eq!(Queue::head(&queue), Some(10));
    assert_eq!(Queue::tail(&queue), Some(30));
    assert_eq!(Queue::poll(&mut queue), Some(10));
    assert_eq!(Queue::poll(&mut queue), Some(20));
    assert_eq!(Queue::poll(&mut queue), Some(30));
    assert_eq!(Queue::poll(&mut queue), None);
}

#[test]
fn doubly_queue_clear() {
    let mut queue: doubly::LinkedList<i32> = doubly::LinkedList::new();
    Queue::offer(&mut queue, 1);
    Queue::clear(&mut queue);
    assert!(Queue::is_empty(&queue));
    assert_eq!(Queue::head(&queue), None);
}
