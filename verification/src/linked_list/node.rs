//! The cells of a linked list.

use crate::linked_list::error::{ParseNodeError, TryAsMut, TryAsRef};
use vstd::prelude::*;

verus! {

/// An owning pointer that may be empty.
pub type NodePtr<T> = Option<Box<T>>;

/// One cell of a singly linked list.
pub struct ListNode<T: Clone> {
    pub data: T,
    pub next: NodePtr<ListNode<T>>,
}

/// The items of the cells from `p` on, in the order in which `next` reaches them.
pub open spec fn chain<T: Clone>(p: NodePtr<ListNode<T>>) -> Seq<T>
    decreases p,
{
    match p {
        None => Seq::empty(),
        Some(node) => seq![node.data] + chain(node.next),
    }
}

impl<T: Clone> ListNode<T> {
    pub fn new(data: T) -> (node: Self)
        ensures
            node.data == data,
            node.next is None,
    {
        Self { data, next: None }
    }

    pub fn new_ptr(data: T) -> (ptr: NodePtr<Self>)
        ensures
            ptr matches Some(node) && node.data == data && node.next is None,
            chain(ptr) == seq![data],
    {
        let ptr = Some(Box::new(Self::new(data)));
        assert(chain(ptr) =~= seq![data]) by {
            reveal_with_fuel(chain, 2);
        }
        ptr
    }
}

impl<T: Clone> TryAsRef<ListNode<T>> for NodePtr<ListNode<T>> {
    type Error = ParseNodeError;

    fn try_as_ref(&self) -> (r: Result<&ListNode<T>, ParseNodeError>)
        ensures
            match *self {
                Some(node) => r == Ok::<&ListNode<T>, ParseNodeError>(&*node),
                None => r is Err,
            },
    {
        match self {
            Some(node) => Ok(&**node),
            None => Err(ParseNodeError),
        }
    }
}

impl<T: Clone> TryAsMut<ListNode<T>> for NodePtr<ListNode<T>> {
    type Error = ParseNodeError;

    fn try_as_mut(&mut self) -> (r: Result<&mut ListNode<T>, ParseNodeError>)
        ensures
            match *old(self) {
                Some(node) => r matches Ok(cell) && *cell == *node && *final(self) == Some(
                    Box::new(*final(cell)),
                ),
                None => r is Err && *final(self) == *old(self),
            },
    {
        match self {
            Some(node) => Ok(&mut **node),
            None => Err(ParseNodeError),
        }
    }
}

} // verus!
