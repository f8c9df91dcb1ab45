//! What a queue is.

use vstd::prelude::*;

verus! {

/// A first-in, first-out container. `items` lists what is held, the item that
/// leaves next at index 0.
pub trait Queue<T> {
    /// What the queue holds, oldest first.
    spec fn items(&self) -> Seq<T>;

    /// The representation's own invariant.
    spec fn valid(&self) -> bool;

    fn is_empty(&self) -> (b: bool)
        requires
            self.valid(),
        ensures
            b == (self.items().len() == 0),
    ;

    fn is_full(&self) -> (b: bool)
        requires
            self.valid(),
        ensures
            b ==> self.items().len() >= usize::MAX,
    ;

    fn size(&self) -> (n: usize)
        requires
            self.valid(),
        ensures
            n == self.items().len(),
    ;

    /// Adds `item` behind everything already held.
    fn offer(&mut self, item: T)
        requires
            old(self).valid(),
            old(self).items().len() < usize::MAX,
        ensures
            final(self).valid(),
            final(self).items() == old(self).items().push(item),
    ;

    /// Takes the oldest item out, or returns `None` from an empty queue.
    fn poll(&mut self) -> (r: Option<T>)
        requires
            old(self).valid(),
        ensures
            final(self).valid(),
            old(self).items().len() == 0 ==> r is None && final(self).items() == old(self).items(),
            old(self).items().len() > 0 ==> {
                &&& r == Some(old(self).items()[0])
                &&& final(self).items() == old(self).items().drop_first()
            },
    ;

    /// A copy of the oldest item, or `None` from an empty queue.
    fn peek(&self) -> (r: Option<T>) where T: Clone
        requires
            self.valid(),
        ensures
            self.items().len() == 0 ==> r is None,
            self.items().len() > 0 ==> (r matches Some(item) && cloned(self.items()[0], item)),
    ;
}

} // verus!
