//! The set of words, its invariant, and what can be asked of it without
//! changing it.

use crate::dict::error::{ParseWeakError, TryUpgrade};
use crate::dict::links::{link_ok, links_ok, shorter};
use crate::dict::model::{has_prefix, texts, with_words};
use crate::dict::node::{resolve, DictNode, TryLink, WeakPtr, Word};
use crate::dict::trie::{
    counted, covered, covers, holds, kids_ok, lemma_child, lemma_no_child, lemma_prefix_node,
    live, minimal, node_ok, shape, word_nodes, words,
};
use vstd::prelude::*;

verus! {

/// The word that was to be removed is not indexed.
#[derive(Debug)]
pub struct DictSetError;

impl DictSetError {
    /// The error's name, as it is shown to a user.
    pub fn to_string(&self) -> (s: String)
        ensures
            s@ == "DictSetError"@,
    {
        "DictSetError".to_owned()
    }
}

/// A set of words, kept as a trie whose nodes lie in an arena. The root is the
/// node with index 0. A node that has been pruned stays in the arena, cut off
/// from its parent, and is never used again for another string.
pub struct DictSet {
    pub(crate) nodes: Vec<DictNode>,
    pub(crate) count: usize,
    /// Whether the suffix links fit the trie as it is now.
    pub(crate) linked: bool,
    /// For each node, the string that leads from the root to it.
    pub(crate) paths: Ghost<Seq<Seq<char>>>,
    /// The nodes that suffix links may pass through: those that were part of
    /// the trie when the links were last computed.
    pub(crate) chained: Ghost<Set<int>>,
}

/// Inside the library the invariant can be read.
pub(crate) broadcast proof fn lemma_wf_open(set: DictSet)
    ensures
        #[trigger] set.wf() == {
            &&& shape(set.nodes@, set.paths@)
            &&& minimal(set.nodes@, set.paths@)
            &&& counted(set.nodes@, set.paths@, set.count)
            &&& set.linked ==> links_ok(set.nodes@, set.paths@, set.chained@)
        },
{
}

/// Inside the library the words are those that the trie marks.
pub(crate) broadcast proof fn lemma_view_open(set: DictSet)
    ensures
        #[trigger] set.view() == words(set.nodes@, set.paths@),
{
}

/// Inside the library the state of the links is a field.
pub(crate) broadcast proof fn lemma_linked_open(set: DictSet)
    ensures
        #[trigger] set.linked() == set.linked,
{
}

/// Inside the library the arena is a field.
pub(crate) broadcast proof fn lemma_arena_open(set: DictSet)
    ensures
        #[trigger] set.arena() == set.nodes@,
{
}

/// Inside the library the strings of the nodes are a field.
pub(crate) broadcast proof fn lemma_path_open(set: DictSet, i: int)
    ensures
        #[trigger] set.path(i) == set.paths@[i],
{
}

pub(crate) broadcast group group_dict_set {
    lemma_wf_open,
    lemma_view_open,
    lemma_linked_open,
    lemma_arena_open,
    lemma_path_open,
}

impl View for DictSet {
    type V = Set<Seq<char>>;

    /// The words that are indexed.
    closed spec fn view(&self) -> Set<Seq<char>> {
        words(self.nodes@, self.paths@)
    }
}

impl DictSet {
    /// The invariant of the representation. Every function of the set keeps
    /// it, and `new` and `aho_corasick` establish it.
    pub closed spec fn wf(&self) -> bool {
        &&& shape(self.nodes@, self.paths@)
        &&& minimal(self.nodes@, self.paths@)
        &&& counted(self.nodes@, self.paths@, self.count)
        &&& self.linked ==> links_ok(self.nodes@, self.paths@, self.chained@)
    }

    /// Whether the suffix links fit the trie, so that `search` can be used.
    pub closed spec fn linked(&self) -> bool {
        self.linked
    }

    /// The strings that have a node in the trie.
    pub closed spec fn prefixes(&self) -> Set<Seq<char>> {
        Set::new(
            |p: Seq<char>| exists|i: int| live(self.nodes@, i) && #[trigger] self.paths@[i] == p,
        )
    }

    /// An empty set. With no word in it, it can be searched at once.
    pub fn new() -> (set: Self)
        ensures
            set.wf(),
            set@ == Set::<Seq<char>>::empty(),
            set.linked(),
    {
        let mut nodes: Vec<DictNode> = Vec::new();
        nodes.push(DictNode::root());
        let paths = Ghost(Seq::<Seq<char>>::empty().push(Seq::<char>::empty()));
        let chained = Ghost(Set::<int>::empty().insert(0));
        let set = Self { nodes, count: 0, linked: true, paths, chained };
        proof {
            assert(kids_ok(set.nodes@, 0));
            assert(shape(set.nodes@, set.paths@));
            assert(word_nodes(set.nodes@) =~= Set::<int>::empty());
            assert(set@ =~= Set::<Seq<char>>::empty());
            assert(links_ok(set.nodes@, set.paths@, set.chained@));
        }
        set
    }

    /// The number of words that are indexed.
    pub fn word_count(&self) -> (n: usize)
        requires
            self.wf(),
        ensures
            n == self@.len(),
    {
        self.count
    }

    /// Whether `seq` is indexed. Suffix links play no part in this.
    pub fn contains(&self, seq: &str) -> (b: bool)
        requires
            self.wf(),
        ensures
            b == self@.contains(seq@),
    {
        let mut cur: usize = 0;
        for c in it: seq.chars()
            invariant
                it.seq() == seq@,
                self.wf(),
                live(self.nodes@, cur as int),
                self.paths@[cur as int] == seq@.take(it.index()),
        {
            let ghost at = it.index();
            assert(c == seq@[at]);
            match self.nodes[cur].get_child(c) {
                None => {
                    proof {
                        if self@.contains(seq@) {
                            let j = choose|j: int| holds(self.nodes@, self.paths@, j, seq@);
                            assert(self.paths@[cur as int].push(c) =~= seq@.take(at + 1));
                            lemma_no_child(self.nodes@, self.paths@, cur as int, c, j);
                        }
                    }
                    return false;
                },
                Some(next) => {
                    proof {
                        lemma_child(self.nodes@, self.paths@, cur as int, c);
                        assert(self.paths@[cur as int].push(c) =~= seq@.take(at + 1));
                    }
                    cur = next;
                },
            }
        }
        let b = self.nodes[cur].is_word();
        proof {
            assert(seq@.take(seq@.len() as int) =~= seq@);
            if b {
                assert(holds(self.nodes@, self.paths@, cur as int, seq@));
            }
            if self@.contains(seq@) {
                let j = choose|j: int| holds(self.nodes@, self.paths@, j, seq@);
                assert(j == cur);
            }
        }
        b
    }

    /// A set that holds the words of `slice` and is ready to be searched.
    pub fn aho_corasick(slice: &[&str]) -> (r: Result<Self, ParseWeakError>)
        ensures
            r matches Ok(set) && set.wf() && set.linked() && set@ == with_words(
                Set::<Seq<char>>::empty(),
                texts(slice@),
            ),
    {
        let mut dict_set = DictSet::new();
        dict_set.insert_all(slice);
        dict_set.link_suffixes()?;
        Ok(dict_set)
    }

    /// The nodes, those that have been pruned among them, each at its index.
    pub closed spec fn arena(&self) -> Seq<DictNode> {
        self.nodes@
    }

    /// Whether `i` is a node of the trie: the root, which is node 0, or a node
    /// with a parent.
    pub open spec fn is_node(&self, i: int) -> bool {
        0 <= i < self.arena().len() && (i == 0 || self.arena()[i].parent is Some)
    }

    /// The node that the suffix link of node `i` leads to.
    pub open spec fn suffix(&self, i: int) -> int {
        self.arena()[i].suffix->0 as int
    }

    /// The string that leads from the root to node `i`.
    pub closed spec fn path(&self, i: int) -> Seq<char> {
        self.paths@[i]
    }

    /// The number of characters on the way from the root to node `i`.
    pub open spec fn depth(&self, i: int) -> nat {
        self.path(i).len()
    }

    /// Whether at most `hops` suffix links lead from node `i` to the root.
    pub open spec fn reaches_root(&self, i: int, hops: nat) -> bool
        decreases hops,
    {
        i == 0 || (hops > 0 && self.reaches_root(self.suffix(i), (hops - 1) as nat))
    }

    /// More hops than are needed lead to the root as well.
    proof fn lemma_more_hops(&self, i: int, hops: nat, more: nat)
        requires
            self.reaches_root(i, hops),
            hops <= more,
        ensures
            self.reaches_root(i, more),
        decreases hops,
    {
        if i != 0 {
            self.lemma_more_hops(self.suffix(i), (hops - 1) as nat, (more - 1) as nat);
        }
    }

    /// From a node that suffix links pass through, no more links than its
    /// depth lead to the root.
    proof fn lemma_chain(&self, i: int)
        requires
            self.wf(),
            self.linked(),
            self.chained@.contains(i),
        ensures
            self.reaches_root(i, self.depth(i)),
        decreases self.depth(i),
    {
        if i != 0 {
            assert(link_ok(self.nodes@, self.paths@, self.chained@, i));
            let s = self.suffix(i);
            self.lemma_chain(s);
            self.lemma_more_hops(s, self.depth(s), (self.depth(i) - 1) as nat);
        }
    }

    /// Where the suffix links fit the trie, the link of each node but the root
    /// leads to a node of smaller depth, so that no walk along the links comes
    /// back to where it was, and from each node no more links than its depth
    /// lead to the root.
    pub proof fn lemma_suffix_chain_ends(&self, i: int)
        requires
            self.wf(),
            self.linked(),
            self.is_node(i),
        ensures
            i != 0 ==> self.depth(self.suffix(i)) < self.depth(i),
            self.reaches_root(i, self.depth(i)),
    {
        assert(self.chained@.contains(i));
        self.lemma_chain(i);
        if i != 0 {
            assert(link_ok(self.nodes@, self.paths@, self.chained@, i));
        }
    }

    /// The trie holds a node for every beginning of an indexed word, for the
    /// empty string, and for nothing else: no node is kept that no word needs.
    pub proof fn lemma_nodes_are_prefixes(&self)
        requires
            self.wf(),
        ensures
            forall|p: Seq<char>| #[trigger]
                self.prefixes().contains(p) <==> (p.len() == 0 || has_prefix(self@, p)),
    {
        let nodes = self.nodes@;
        let paths = self.paths@;
        assert forall|p: Seq<char>| #[trigger]
            self.prefixes().contains(p) <==> (p.len() == 0 || has_prefix(self@, p)) by {
            if self.prefixes().contains(p) && p.len() > 0 {
                let i = choose|i: int| live(nodes, i) && #[trigger] paths[i] == p;
                assert(i != 0);
                assert(covered(nodes, paths, i));
                let j = choose|j: int| covers(nodes, paths, j, i);
                assert(holds(nodes, paths, j, paths[j]));
                assert(self@.contains(paths[j]));
            }
            if p.len() == 0 {
                assert(live(nodes, 0));
                assert(paths[0] =~= p);
            }
            if has_prefix(self@, p) {
                let v = choose|v: Seq<char>| self@.contains(v) && p.is_prefix_of(v);
                let j = choose|j: int| holds(nodes, paths, j, v);
                let a = lemma_prefix_node(nodes, paths, j, p.len() as int);
                assert(paths[a] =~= p);
            }
        }
    }

    /// The root stands for the empty string, and every other node of the trie
    /// for the string of its parent and its own character; the parent is a
    /// node of the trie and finds the node under that character.
    pub proof fn lemma_paths(&self, i: int)
        requires
            self.wf(),
            self.is_node(i),
        ensures
            i == 0 ==> self.path(i).len() == 0,
            i != 0 ==> ({
                let node = self.arena()[i];
                let p = node.parent->0 as int;
                &&& self.is_node(p)
                &&& self.path(i) == self.path(p).push(node.state)
                &&& self.arena()[p].child(node.state) == Some(i as usize)
            }),
            self.prefixes().contains(self.path(i)),
    {
        if i != 0 {
            assert(node_ok(self.nodes@, self.paths@, i));
        }
    }

    /// What a node of the trie finds under a character is a node of the trie
    /// one character further on, and names the node as its parent.
    pub proof fn lemma_children(&self, i: int, c: char)
        requires
            self.wf(),
            self.is_node(i),
            self.arena()[i].child(c) is Some,
        ensures
            ({
                let j = self.arena()[i].child(c)->0 as int;
                &&& self.is_node(j)
                &&& j != 0
                &&& self.arena()[j].parent == Some(i as usize)
                &&& self.arena()[j].state == c
                &&& self.path(j) == self.path(i).push(c)
            }),
    {
        lemma_child(self.nodes@, self.paths@, i, c);
    }

    /// A word is indexed where a node of the trie stands for it and is marked
    /// as a word, and the mark holds the word.
    pub proof fn lemma_words(&self, i: int)
        requires
            self.wf(),
            self.is_node(i),
        ensures
            self@.contains(self.path(i)) <==> self.arena()[i].output is Yes,
            self.arena()[i].output matches Word::Yes(w) ==> w@ == self.path(i),
    {
        let nodes = self.nodes@;
        let paths = self.paths@;
        if nodes[i].output is Yes {
            assert(holds(nodes, paths, i, paths[i]));
            assert(i != 0);
            assert(node_ok(nodes, paths, i));
        }
        if self@.contains(paths[i]) {
            let j = choose|j: int| holds(nodes, paths, j, paths[i]);
            assert(live(nodes, i) && live(nodes, j));
            assert(j == i);
        }
    }

    /// Where the suffix links fit the trie, the link of a node leads to a node
    /// whose string is a shorter end of the node's string, and no node of the
    /// trie has a longer string that is one.
    pub proof fn lemma_suffix_is_longest(&self, i: int, m: int)
        requires
            self.wf(),
            self.linked(),
            self.is_node(i),
            i != 0,
            self.is_node(m),
            self.path(m).is_suffix_of(self.path(i)),
            self.path(m).len() < self.path(i).len(),
        ensures
            self.path(self.suffix(i)).is_suffix_of(self.path(i)),
            self.path(m).len() <= self.path(self.suffix(i)).len(),
    {
        assert(self.chained@.contains(i));
        assert(link_ok(self.nodes@, self.paths@, self.chained@, i));
        assert(shorter(self.nodes@, self.paths@, m, i));
    }

    /// The indexed words are finitely many.
    pub proof fn lemma_finite(&self)
        requires
            self.wf(),
        ensures
            self@.finite(),
    {
    }
}

impl TryUpgrade<DictNode> for WeakPtr {
    type Error = ParseWeakError;

    type Owner = DictSet;

    /// The node that the link names in the arena of `owner`.
    fn try_upgrade<'a>(&self, owner: &'a DictSet) -> (r: Result<&'a DictNode, ParseWeakError>)
        ensures
            match resolve(*self, owner.arena()) {
                Some(node) => r == Ok::<&DictNode, ParseWeakError>(&node),
                None => r is Err,
            },
    {
        match *self {
            Some(i) => {
                if i < owner.nodes.len() {
                    Ok(&owner.nodes[i])
                } else {
                    Err(ParseWeakError)
                }
            },
            None => Err(ParseWeakError),
        }
    }
}

impl TryLink for WeakPtr {
    type Error = ParseWeakError;

    type Owner = DictSet;

    /// The parent link of the node that the link names in the arena of
    /// `owner`.
    fn try_parent(&self, owner: &DictSet) -> (r: Result<WeakPtr, ParseWeakError>)
        ensures
            match resolve(*self, owner.arena()) {
                Some(node) if node.parent is Some => r == Ok::<WeakPtr, ParseWeakError>(node.parent),
                _ => r is Err,
            },
    {
        match self.try_upgrade(owner) {
            Ok(node) => match node.parent {
                Some(parent) => Ok(Some(parent)),
                None => Err(ParseWeakError),
            },
            Err(error) => Err(error),
        }
    }

    /// The suffix link of the node that the link names in the arena of
    /// `owner`.
    fn try_suffix(&self, owner: &DictSet) -> (r: Result<WeakPtr, ParseWeakError>)
        ensures
            match resolve(*self, owner.arena()) {
                Some(node) if node.suffix is Some => r == Ok::<WeakPtr, ParseWeakError>(node.suffix),
                _ => r is Err,
            },
    {
        match self.try_upgrade(owner) {
            Ok(node) => match node.suffix {
                Some(suffix) => Ok(Some(suffix)),
                None => Err(ParseWeakError),
            },
            Err(error) => Err(error),
        }
    }
}

} // verus!
