//! A linked list that is a stack and a queue.

use crate::adt::queue::Queue;
use crate::adt::stack::Stack;
use crate::linked_list::error::TryAsRef;
use crate::linked_list::node::{chain, ListNode, NodePtr};
use vstd::prelude::*;

verus! {

/// A singly linked list that serves as a stack at its head and as a queue from
/// head to tail.
///
/// The items are kept in two chains: `head` holds the front part in order, and
/// `tail` the part appended behind it, newest first. Items move from `tail` to
/// `head` when `head` runs empty, so every operation takes constant time on
/// average.
pub struct LinkedList<T: Clone> {
    head: NodePtr<ListNode<T>>,
    tail: NodePtr<ListNode<T>>,
    size: usize,
}

impl<T: Clone> View for LinkedList<T> {
    type V = Seq<T>;

    /// The items from head to tail.
    closed spec fn view(&self) -> Seq<T> {
        chain(self.head) + chain(self.tail).reverse()
    }
}

/// Moves every cell of `from` onto the front of `onto`, one by one.
fn pour<T: Clone>(from: NodePtr<ListNode<T>>, onto: NodePtr<ListNode<T>>) -> (r: NodePtr<
    ListNode<T>,
>)
    ensures
        chain(r) == chain(from).reverse() + chain(onto),
{
    let mut from = from;
    let mut onto = onto;
    let ghost whole = chain(from).reverse() + chain(onto);
    loop
        invariant
            chain(from).reverse() + chain(onto) == whole,
        ensures
            chain(onto) == whole,
        decreases chain(from).len(),
    {
        match from {
            None => {
                assert(chain(from).reverse() =~= Seq::<T>::empty());
                break ;
            },
            Some(mut node) => {
                let ghost rest = chain(node.next);
                let ghost item = node.data;
                from = node.next.take();
                node.next = onto;
                onto = Some(node);
                assert((seq![item] + rest).reverse() =~= rest.reverse() + seq![item]);
                assert(chain(onto) =~= seq![item] + chain(node.next));
                assert(chain(from).reverse() + chain(onto) =~= whole);
            },
        }
    }
    onto
}

/// The items of the chain `from`, in the order of the chain.
fn items_of<'a, T: Clone>(from: &'a NodePtr<ListNode<T>>) -> (items: Vec<&'a T>)
    ensures
        items@.len() == chain(*from).len(),
        forall|k: int| 0 <= k < items@.len() ==> *(#[trigger] items@[k]) == chain(*from)[k],
{
    let ghost all = chain(*from);
    let mut items: Vec<&'a T> = Vec::new();
    let mut at: &'a NodePtr<ListNode<T>> = from;
    loop
        invariant
            all == chain(*from),
            items@.len() + chain(*at).len() == all.len(),
            forall|k: int| 0 <= k < items@.len() ==> *(#[trigger] items@[k]) == all[k],
            forall|k: int|
                0 <= k < chain(*at).len() ==> (#[trigger] chain(*at)[k]) == all[items@.len() + k],
        ensures
            items@.len() == all.len(),
        decreases chain(*at).len(),
    {
        match at {
            None => {
                break ;
            },
            Some(node) => {
                let ghost rest = chain(node.next);
                let ghost here = chain(*at);
                proof {
                    assert(here =~= seq![node.data] + rest);
                    assert(here[0] == all[items@.len() as int]);
                    assert forall|k: int| 0 <= k < rest.len() implies (#[trigger] rest[k])
                        == all[items@.len() + 1 + k] by {
                        assert(here[k + 1] == rest[k]);
                    }
                }
                items.push(&node.data);
                at = &node.next;
            },
        }
    }
    items
}

impl<T: Clone> LinkedList<T> {
    /// The representation's invariant: the counter is right, and nothing waits
    /// in `tail` while `head` is empty.
    pub closed spec fn wf(&self) -> bool {
        &&& self.size == chain(self.head).len() + chain(self.tail).len()
        &&& self.head is None ==> self.tail is None
    }

    pub fn new() -> (list: Self)
        ensures
            list.wf(),
            list@ == Seq::<T>::empty(),
    {
        let list = Self { head: None, tail: None, size: 0 };
        assert(list@ =~= Seq::<T>::empty());
        list
    }

    pub fn is_empty(&self) -> (b: bool)
        requires
            self.wf(),
        ensures
            b == (self@.len() == 0),
    {
        self.size == 0
    }

    pub fn len(&self) -> (n: usize)
        requires
            self.wf(),
        ensures
            n == self@.len(),
    {
        self.size
    }

    /// Whether the list can take no more: never, memory allowing.
    pub fn is_full(&self) -> (b: bool)
        ensures
            !b,
    {
        false
    }

    /// Puts `item` in front of everything held.
    pub fn push(&mut self, item: T)
        requires
            old(self).wf(),
            old(self)@.len() < usize::MAX,
        ensures
            final(self).wf(),
            final(self)@ == seq![item] + old(self)@,
    {
        let mut node = ListNode::new(item);
        node.next = self.head.take();
        self.head = Some(Box::new(node));
        self.size = self.size + 1;
        assert(chain(self.head) =~= seq![item] + chain(old(self).head));
        assert(self@ =~= seq![item] + old(self)@);
    }

    /// Takes the item at the head out, or returns `None` from an empty list.
    pub fn pop(&mut self) -> (r: Option<T>)
        requires
            old(self).wf(),
        ensures
            final(self).wf(),
            old(self)@.len() == 0 ==> r is None && final(self)@ == old(self)@,
            old(self)@.len() > 0 ==> {
                &&& r == Some(old(self)@[0])
                &&& final(self)@ == old(self)@.drop_first()
            },
    {
        match self.head.take() {
            None => {
                assert(self@ =~= old(self)@);
                None
            },
            Some(node) => {
                let cell = *node;
                let ghost rest = chain(cell.next);
                let ghost back = chain(self.tail);
                assert(chain(old(self).head) =~= seq![cell.data] + rest);
                self.size = self.size - 1;
                if cell.next.is_none() {
                    assert(rest =~= Seq::<T>::empty());
                    self.head = pour(self.tail.take(), None);
                    assert(chain(self.head) =~= back.reverse());
                    assert(chain(self.tail) =~= Seq::<T>::empty());
                } else {
                    self.head = cell.next;
                }
                assert(self@ =~= rest + back.reverse());
                assert(old(self)@ =~= seq![cell.data] + (rest + back.reverse()));
                assert(self@ =~= old(self)@.drop_first());
                Some(cell.data)
            },
        }
    }

    /// A copy of the item at the head, or `None` from an empty list.
    pub fn peek(&self) -> (r: Option<T>)
        requires
            self.wf(),
        ensures
            self@.len() == 0 ==> r is None,
            self@.len() > 0 ==> (r matches Some(item) && cloned(self@[0], item)),
    {
        match self.head.try_as_ref() {
            Ok(node) => {
                assert(chain(self.head) =~= seq![node.data] + chain(node.next));
                Some(node.data.clone())
            },
            Err(_) => None,
        }
    }

    /// Puts `item` behind everything held.
    pub fn append(&mut self, item: T)
        requires
            old(self).wf(),
            old(self)@.len() < usize::MAX,
        ensures
            final(self).wf(),
            final(self)@ == old(self)@.push(item),
    {
        if self.is_empty() {
            self.push(item);
            assert(self@ =~= old(self)@.push(item));
        } else {
            let mut node = ListNode::new(item);
            node.next = self.tail.take();
            self.tail = Some(Box::new(node));
            self.size = self.size + 1;
            assert(chain(self.tail) =~= seq![item] + chain(old(self).tail));
            assert(chain(self.tail).reverse() =~= chain(old(self).tail).reverse().push(item));
            assert(self@ =~= old(self)@.push(item));
        }
    }

    /// Copies of the items, from head to tail.
    pub fn to_vec(&self) -> (items: Vec<T>)
        requires
            self.wf(),
        ensures
            items@.len() == self@.len(),
            forall|k: int| 0 <= k < self@.len() ==> cloned(#[trigger] self@[k], items@[k]),
    {
        let front = items_of(&self.head);
        let back = items_of(&self.tail);
        let ghost first = chain(self.head);
        let ghost last = chain(self.tail);
        let mut items: Vec<T> = Vec::new();
        let mut at: usize = 0;
        while at < front.len()
            invariant
                at <= front@.len(),
                front@.len() == first.len(),
                first == chain(self.head),
                last == chain(self.tail),
                items@.len() == at,
                forall|k: int| 0 <= k < front@.len() ==> *(#[trigger] front@[k]) == first[k],
                forall|k: int| 0 <= k < at ==> cloned(self@[k], #[trigger] items@[k]),
            decreases front.len() - at,
        {
            proof {
                assert(self@[at as int] == first[at as int]);
            }
            items.push(front[at].clone());
            at = at + 1;
        }
        let mut left: usize = back.len();
        while left > 0
            invariant
                left <= back@.len(),
                back@.len() == last.len(),
                first == chain(self.head),
                last == chain(self.tail),
                items@.len() == first.len() + (back@.len() - left),
                forall|k: int| 0 <= k < back@.len() ==> *(#[trigger] back@[k]) == last[k],
                forall|k: int| 0 <= k < items@.len() ==> cloned(self@[k], #[trigger] items@[k]),
            decreases left,
        {
            left = left - 1;
            proof {
                let k = items@.len() as int;
                let j = k - first.len();
                assert(self@[k] == last.reverse()[j]);
                assert(last.reverse()[j] == last[left as int]);
            }
            items.push(back[left].clone());
        }
        items
    }

    /// Drops every item.
    pub fn clear(&mut self)
        requires
            old(self).wf(),
        ensures
            final(self).wf(),
            final(self)@ == Seq::<T>::empty(),
    {
        self.head = None;
        self.tail = None;
        self.size = 0;
        assert(self@ =~= Seq::<T>::empty());
    }
}

impl<T: Clone> Stack<T> for LinkedList<T> {
    open spec fn items(&self) -> Seq<T> {
        self@
    }

    open spec fn valid(&self) -> bool {
        self.wf()
    }

    fn is_empty(&self) -> (b: bool) {
        LinkedList::is_empty(self)
    }

    /// Never: the list takes items as long as memory lasts.
    fn is_full(&self) -> (b: bool)
        ensures
            !b,
    {
        LinkedList::is_full(self)
    }

    fn size(&self) -> (n: usize) {
        self.len()
    }

    fn peek(&self) -> (r: Option<T>) {
        LinkedList::peek(self)
    }

    fn push(&mut self, item: T) {
        LinkedList::push(self, item);
    }

    fn pop(&mut self) -> (r: Option<T>) {
        LinkedList::pop(self)
    }
}

impl<T: Clone> Queue<T> for LinkedList<T> {
    open spec fn items(&self) -> Seq<T> {
        self@
    }

    open spec fn valid(&self) -> bool {
        self.wf()
    }

    fn is_empty(&self) -> (b: bool) {
        LinkedList::is_empty(self)
    }

    /// Never: the list takes items as long as memory lasts.
    fn is_full(&self) -> (b: bool)
        ensures
            !b,
    {
        LinkedList::is_full(self)
    }

    fn size(&self) -> (n: usize) {
        self.len()
    }

    fn peek(&self) -> (r: Option<T>) {
        LinkedList::peek(self)
    }

    fn offer(&mut self, item: T) {
        self.append(item);
    }

    fn poll(&mut self) -> (r: Option<T>) {
        LinkedList::pop(self)
    }
}

} // verus!
