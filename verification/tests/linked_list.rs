use dict_matcher::adt::queue::Queue;
use dict_matcher::adt::stack::Stack;
use dict_matcher::linked_list::error::{ParseNodeError, TryAsMut, TryAsRef};
use dict_matcher::linked_list::list::LinkedList;
use dict_matcher::linked_list::node::{ListNode, NodePtr};

#[test]
fn new_list_is_empty() {
    let list: LinkedList<u32> = LinkedList::new();
    assert!(list.is_empty());
    assert_eq!(list.len(), 0);
    assert_eq!(list.peek(), None);
    assert!(!list.is_full());
}

#[test]
fn push_and_pop_are_last_in_first_out() {
    let mut list = LinkedList::new();
    list.push(1);
    list.push(2);
    list.push(3);
    assert_eq!(list.len(), 3);
    assert_eq!(list.peek(), Some(3));
    assert_eq!(list.pop(), Some(3));
    assert_eq!(list.pop(), Some(2));
    assert_eq!(list.pop(), Some(1));
    assert_eq!(list.pop(), None);
    assert!(list.is_empty());
}

#[test]
fn append_and_pop_are_first_in_first_out() {
    let mut list = LinkedList::new();
    list.append("a".to_string());
    list.append("b".to_string());
    list.append("c".to_string());
    assert_eq!(list.len(), 3);
    assert_eq!(list.peek(), Some("a".to_string()));
    assert_eq!(list.pop(), Some("a".to_string()));
    assert_eq!(list.pop(), Some("b".to_string()));
    assert_eq!(list.pop(), Some("c".to_string()));
    assert_eq!(list.pop(), None);
}

#[test]
fn push_and_append_meet_in_one_list() {
    let mut list = LinkedList::new();
    list.append(2);
    list.append(3);
    list.push(1);
    list.append(4);
    list.push(0);
    assert_eq!(list.len(), 5);
    for expected in 0..5 {
        assert_eq!(list.peek(), Some(expected));
        assert_eq!(list.pop(), Some(expected));
    }
    assert!(list.is_empty());
}

#[test]
fn pops_between_appends_keep_the_order() {
    let mut list = LinkedList::new();
    list.append(1);
    list.append(2);
    assert_eq!(list.pop(), Some(1));
    list.append(3);
    list.append(4);
    assert_eq!(list.pop(), Some(2));
    assert_eq!(list.pop(), Some(3));
    list.append(5);
    assert_eq!(list.len(), 2);
    assert_eq!(list.pop(), Some(4));
    assert_eq!(list.pop(), Some(5));
    assert_eq!(list.pop(), None);
    assert_eq!(list.len(), 0);
}

#[test]
fn clear_drops_everything() {
    let mut list = LinkedList::new();
    list.push(1);
    list.append(2);
    list.clear();
    assert!(list.is_empty());
    assert_eq!(list.len(), 0);
    assert_eq!(list.pop(), None);
    list.append(7);
    assert_eq!(list.pop(), Some(7));
}

#[test]
fn many_items_pass_through_in_order() {
    let mut list = LinkedList::new();
    let mut next = 0u32;
    for round in 0..200u32 {
        list.append(2 * round);
        list.append(2 * round + 1);
        assert_eq!(list.pop(), Some(next));
        next += 1;
    }
    assert_eq!(list.len(), 200);
    while let Some(item) = list.pop() {
        assert_eq!(item, next);
        next += 1;
    }
    assert_eq!(next, 400);
}

#[test]
fn list_serves_as_a_stack() {
    let mut stack: LinkedList<char> = LinkedList::new();
    assert!(Stack::is_empty(&stack));
    Stack::push(&mut stack, 'a');
    Stack::push(&mut stack, 'b');
    assert_eq!(Stack::size(&stack), 2);
    assert!(!Stack::is_full(&stack));
    assert_eq!(Stack::peek(&stack), Some('b'));
    assert_eq!(Stack::pop(&mut stack), Some('b'));
    assert_eq!(Stack::pop(&mut stack), Some('a'));
    assert_eq!(Stack::pop(&mut stack), None);
}

#[test]
fn list_serves_as_a_queue() {
    let mut queue: LinkedList<char> = LinkedList::new();
    assert!(Queue::is_empty(&queue));
    Queue::offer(&mut queue, 'a');
    Queue::offer(&mut queue, 'b');
    assert_eq!(Queue::size(&queue), 2);
    assert!(!Queue::is_full(&queue));
    assert_eq!(Queue::peek(&queue), Some('a'));
    assert_eq!(Queue::poll(&mut queue), Some('a'));
    assert_eq!(Queue::poll(&mut queue), Some('b'));
    assert_eq!(Queue::poll(&mut queue), None);
}

#[test]
fn new_node_stands_alone() {
    let node = ListNode::new(5);
    assert_eq!(node.data, 5);
    assert!(node.next.is_none());
}

#[test]
fn new_ptr_leads_to_a_node() {
    let ptr = ListNode::new_ptr(5);
    let node = ptr.expect("a node");
    assert_eq!(node.data, 5);
    assert!(node.next.is_none());
}

#[test]
fn pointer_gives_read_access() {
    let ptr: NodePtr<ListNode<u8>> = ListNode::new_ptr(9);
    assert_eq!(ptr.try_as_ref().unwrap().data, 9);
    let none: NodePtr<ListNode<u8>> = None;
    assert!(matches!(none.try_as_ref(), Err(ParseNodeError)));
}

#[test]
fn pointer_gives_write_access() {
    let mut ptr: NodePtr<ListNode<u8>> = ListNode::new_ptr(9);
    ptr.try_as_mut().unwrap().data = 10;
    ptr.try_as_mut().unwrap().next = ListNode::new_ptr(11);
    let node = ptr.unwrap();
    assert_eq!(node.data, 10);
    assert_eq!(node.next.unwrap().data, 11);
    let mut none: NodePtr<ListNode<u8>> = None;
    assert!(matches!(none.try_as_mut(), Err(ParseNodeError)));
}

#[test]
fn node_error_has_a_name() {
    assert_eq!(ParseNodeError.to_string(), "ParseNodeError");
}

#[test]
fn to_vec_lists_the_items_from_head_to_tail() {
    let mut list = LinkedList::new();
    assert_eq!(list.to_vec(), Vec::<u32>::new());
    list.append(2);
    list.append(3);
    list.push(1);
    list.append(4);
    assert_eq!(list.to_vec(), vec![1, 2, 3, 4]);
    assert_eq!(list.pop(), Some(1));
    assert_eq!(list.pop(), Some(2));
    list.append(5);
    assert_eq!(list.to_vec(), vec![3, 4, 5]);
    assert_eq!(list.len(), 3);
}
