//! The nodes of the trie, and the links between them.

use crate::linked_list::node::NodePtr;
use std::collections::HashMap;
use vstd::prelude::*;
use vstd::std_specs::iter::IteratorSpec;

verus! {

/// A link to a node of the arena that does not own it: the node's index, or
/// nothing.
pub type WeakPtr = Option<usize>;

/// What a node says about the words of the dictionary.
pub enum Word {
    /// No word ends here.
    No,
    /// The node is the root of the trie.
    Root,
    /// The word held ends here.
    Yes(String),
}

impl Default for Word {
    fn default() -> (w: Self)
        ensures
            w is No,
    {
        Word::No
    }
}

/// One state of the automaton. Children are found by the code point of the
/// character that leads to them.
pub struct DictNode {
    pub state: char,
    pub output: Word,
    pub parent: WeakPtr,
    pub suffix: WeakPtr,
    pub children: HashMap<u32, usize>,
}

impl Default for DictNode {
    fn default() -> (node: Self)
        ensures
            node.state == '\0',
            node.output is No,
            node.parent is None,
            node.suffix is None,
            node.children@ == Map::<u32, usize>::empty(),
    {
        DictNode::new('\0')
    }
}

impl DictNode {
    /// The child that `state` leads to, if there is one.
    pub open spec fn child(&self, state: char) -> WeakPtr {
        if self.children@.contains_key(state as u32) {
            Some(self.children@[state as u32])
        } else {
            None
        }
    }

    /// A node for `state` that is no word, has no links and no children.
    pub fn new(state: char) -> (node: Self)
        ensures
            node.state == state,
            node.output is No,
            node.parent is None,
            node.suffix is None,
            node.children@ == Map::<u32, usize>::empty(),
    {
        Self { state, output: Word::No, parent: None, suffix: None, children: HashMap::new() }
    }

    /// A node like that of `new`, on the heap.
    pub fn new_ptr(state: char) -> (ptr: NodePtr<Self>)
        ensures
            ptr matches Some(node) && node.state == state && node.output is No
                && node.parent is None
                && node.suffix is None && node.children@ == Map::<u32, usize>::empty(),
    {
        Some(Box::new(Self::new(state)))
    }

    /// The node that a trie starts from.
    pub fn root() -> (node: Self)
        ensures
            node.state == '\0',
            node.output is Root,
            node.parent is None,
            node.suffix is None,
            node.children@ == Map::<u32, usize>::empty(),
    {
        let mut node = DictNode::new('\0');
        node.output = Word::Root;
        node
    }

    pub fn is_root(&self) -> (b: bool)
        ensures
            b == (self.output is Root),
    {
        match self.output {
            Word::Root => true,
            _ => false,
        }
    }

    pub fn is_word(&self) -> (b: bool)
        ensures
            b == (self.output is Yes),
    {
        match self.output {
            Word::Yes(_) => true,
            _ => false,
        }
    }

    pub fn has_child(&self, state: char) -> (b: bool)
        ensures
            b == (self.child(state) is Some),
    {
        broadcast use vstd::std_specs::hash::group_hash_axioms;

        let key: u32 = state as u32;
        self.children.get(&key).is_some()
    }

    /// Records `child` as the node that `state` leads to.
    pub fn add_child(&mut self, state: char, child: usize)
        ensures
            final(self).children@ == old(self).children@.insert(state as u32, child),
            final(self).state == old(self).state,
            final(self).output == old(self).output,
            final(self).parent == old(self).parent,
            final(self).suffix == old(self).suffix,
    {
        broadcast use vstd::std_specs::hash::group_hash_axioms;

        let key: u32 = state as u32;
        self.children.insert(key, child);
    }

    /// Forgets the child that `state` leads to, if there is one.
    pub fn remove_child(&mut self, state: char)
        ensures
            final(self).children@ == old(self).children@.remove(state as u32),
            final(self).state == old(self).state,
            final(self).output == old(self).output,
            final(self).parent == old(self).parent,
            final(self).suffix == old(self).suffix,
    {
        broadcast use vstd::std_specs::hash::group_hash_axioms;

        let key: u32 = state as u32;
        self.children.remove(&key);
    }

    pub fn get_child(&self, state: char) -> (ptr: WeakPtr)
        ensures
            ptr == self.child(state),
    {
        broadcast use vstd::std_specs::hash::group_hash_axioms;

        let key: u32 = state as u32;
        match self.children.get(&key) {
            Some(child) => Some(*child),
            None => None,
        }
    }

    /// Whether `ids` lists the children of a node with the map `children`: each
    /// once, in some order.
    pub open spec fn lists(children: Map<u32, usize>, ids: Seq<usize>) -> bool {
        exists|keys: Seq<u32>|
            {
                &&& keys.no_duplicates()
                &&& keys.to_set() == children.dom()
                &&& keys.len() == ids.len()
                &&& forall|k: int| 0 <= k < ids.len() ==> ids[k] == children[#[trigger] keys[k]]
            }
    }

    /// The children, each once, in the order in which the map hands them out.
    pub fn get_children(&self) -> (ids: Vec<usize>)
        ensures
            Self::lists(self.children@, ids@),
    {
        broadcast use vstd::std_specs::hash::group_hash_axioms;

        let mut ids: Vec<usize> = Vec::new();
        let ghost all = self.children.iter().remaining();
        for pair in it: self.children.iter()
            invariant
                it.seq() == all,
                all == self.children.iter().remaining(),
                all.no_duplicates(),
                ids@.len() == it.index(),
                forall|k: int| 0 <= k < ids@.len() ==> ids@[k] == *(#[trigger] all[k]).1,
        {
            ids.push(*pair.1);
        }
        proof {
            let keys = Seq::new(all.len(), |k: int| *all[k].0);
            assert forall|i: int, j: int| 0 <= i < keys.len() && 0 <= j < keys.len() && i != j
                implies keys[i] != keys[j] by {
                assert(self.children@[*all[i].0] == *all[i].1);
                assert(self.children@[*all[j].0] == *all[j].1);
                if keys[i] == keys[j] {
                    assert(all[i] == all[j]);
                }
            }
            assert forall|key: u32| keys.to_set().contains(key) <==> self.children@.dom().contains(
                key,
            ) by {
                if self.children@.dom().contains(key) {
                    assert(self.children@.contains_key(key));
                    let at = choose|k: int|
                        0 <= k < all.len() && all[k] == (&key, &self.children@[key]);
                    assert(keys[at] == key);
                }
                if keys.to_set().contains(key) {
                    let at = choose|k: int| 0 <= k < keys.len() && keys[k] == key;
                    assert(self.children@.contains_key(*all[at].0));
                }
            }
            assert(keys.to_set() =~= self.children@.dom());
            assert forall|k: int| 0 <= k < ids@.len() implies
                ids@[k] == self.children@[#[trigger] keys[k]] by {
                assert(self.children@[*all[k].0] == *all[k].1);
            }
            assert(Self::lists(self.children@, ids@));
        }
        ids
    }
}

/// The node that `link` names in `arena`, if it names one.
pub open spec fn resolve(link: WeakPtr, arena: Seq<DictNode>) -> Option<DictNode> {
    match link {
        Some(i) if i < arena.len() => Some(arena[i as int]),
        _ => None,
    }
}

/// The way from a link to a node to the parent and to the suffix link of that
/// node, by way of the owner of the nodes. It fails where the link leads to no
/// node, or the node has no such link.
pub trait TryLink {
    type Error;

    type Owner;

    fn try_parent(&self, owner: &Self::Owner) -> Result<WeakPtr, Self::Error>;

    fn try_suffix(&self, owner: &Self::Owner) -> Result<WeakPtr, Self::Error>;
}

} // verus!
