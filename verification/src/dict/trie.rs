//! What it means for an arena of nodes to hold a trie, and which words the
//! trie holds.

use vstd::set_lib::lemma_int_range;
use vstd::set_lib::lemma_len_subset;
use vstd::set_lib::set_int_range;
use crate::dict::node::{DictNode, Word};
use vstd::prelude::*;

verus! {

/// Whether node `i` is part of the trie: the root, or a node with a parent.
pub(crate) open spec fn live(nodes: Seq<DictNode>, i: int) -> bool {
    0 <= i < nodes.len() && (i == 0 || nodes[i].parent is Some)
}

/// What holds of every node but the root.
pub(crate) open spec fn node_ok(nodes: Seq<DictNode>, paths: Seq<Seq<char>>, i: int) -> bool {
    let n = nodes[i];
    &&& !(n.output is Root)
    &&& match n.parent {
        Some(p) => {
            &&& p < nodes.len()
            &&& live(nodes, p as int)
            &&& nodes[p as int].child(n.state) matches Some(j)
            &&& j == i
            &&& paths[i] == paths[p as int].push(n.state)
            &&& (n.output matches Word::Yes(w) ==> w@ == paths[i])
        },
        None => n.children@.is_empty() && n.output is No,
    }
}

/// Every child of node `i` names `i` as its parent and is found under its own
/// character.
pub(crate) open spec fn kids_ok(nodes: Seq<DictNode>, i: int) -> bool {
    forall|k: u32| #[trigger]
        nodes[i].children@.contains_key(k) ==> {
            let j = nodes[i].children@[k];
            &&& 1 <= j < nodes.len()
            &&& nodes[j as int].parent matches Some(p)
            &&& p == i
            &&& nodes[j as int].state as u32 == k
        }
}

/// The arena holds a tree: parents and children agree, every node's string is
/// its parent's with one character more, and no two nodes of the trie have the
/// same string.
pub(crate) open spec fn shape(nodes: Seq<DictNode>, paths: Seq<Seq<char>>) -> bool {
    &&& nodes.len() >= 1
    &&& paths.len() == nodes.len()
    &&& nodes[0].output is Root
    &&& nodes[0].parent is None
    &&& paths[0].len() == 0
    &&& forall|i: int| 1 <= i < nodes.len() ==> #[trigger] node_ok(nodes, paths, i)
    &&& forall|i: int| 0 <= i < nodes.len() ==> #[trigger] kids_ok(nodes, i)
    &&& forall|i: int, j: int|
        #![trigger live(nodes, i), live(nodes, j)]
        live(nodes, i) && live(nodes, j) && paths[i] == paths[j] ==> i == j
}

/// Node `i` is part of the trie and marks the end of the word `w`.
pub(crate) open spec fn holds(
    nodes: Seq<DictNode>,
    paths: Seq<Seq<char>>,
    i: int,
    w: Seq<char>,
) -> bool {
    live(nodes, i) && nodes[i].output is Yes && paths[i] == w
}

/// The words that the trie marks.
pub(crate) open spec fn words(nodes: Seq<DictNode>, paths: Seq<Seq<char>>) -> Set<Seq<char>> {
    Set::new(|w: Seq<char>| exists|i: int| #[trigger] holds(nodes, paths, i, w))
}

/// The nodes that mark the end of a word.
pub(crate) open spec fn word_nodes(nodes: Seq<DictNode>) -> Set<int> {
    Set::new(|i: int| live(nodes, i) && nodes[i].output is Yes)
}

/// Node `j` marks a word that the string of node `i` begins.
pub(crate) open spec fn covers(
    nodes: Seq<DictNode>,
    paths: Seq<Seq<char>>,
    j: int,
    i: int,
) -> bool {
    live(nodes, j) && nodes[j].output is Yes && paths[i].is_prefix_of(paths[j])
}

/// The string of node `i` begins some word of the trie.
pub(crate) open spec fn covered(nodes: Seq<DictNode>, paths: Seq<Seq<char>>, i: int) -> bool {
    exists|j: int| #[trigger] covers(nodes, paths, j, i)
}

/// No node of the trie but the root is there for nothing.
pub(crate) open spec fn minimal(nodes: Seq<DictNode>, paths: Seq<Seq<char>>) -> bool {
    forall|i: int| 1 <= i && live(nodes, i) ==> #[trigger] covered(nodes, paths, i)
}

/// The counter is the number of words.
pub(crate) open spec fn counted(nodes: Seq<DictNode>, paths: Seq<Seq<char>>, count: usize) -> bool {
    &&& word_nodes(nodes).finite()
    &&& word_nodes(nodes).len() == count
    &&& words(nodes, paths).finite()
    &&& words(nodes, paths).len() == count
}

/// The node of the trie whose string is the first `k` characters of the string
/// of node `j`.
pub(crate) proof fn lemma_prefix_node(
    nodes: Seq<DictNode>,
    paths: Seq<Seq<char>>,
    j: int,
    k: int,
) -> (a: int)
    requires
        shape(nodes, paths),
        live(nodes, j),
        0 <= k <= paths[j].len(),
    ensures
        live(nodes, a),
        paths[a] == paths[j].take(k),
    decreases paths[j].len(),
{
    if k == paths[j].len() {
        assert(paths[j].take(k) =~= paths[j]);
        j
    } else {
        assert(j != 0);
        assert(node_ok(nodes, paths, j));
        let p = nodes[j].parent->0 as int;
        let a = lemma_prefix_node(nodes, paths, p, k);
        assert(paths[p].take(k) =~= paths[j].take(k));
        a
    }
}

/// A child lies one character below its parent.
pub(crate) proof fn lemma_child(nodes: Seq<DictNode>, paths: Seq<Seq<char>>, p: int, c: char)
    requires
        shape(nodes, paths),
        live(nodes, p),
        nodes[p].child(c) is Some,
    ensures
        ({
            let j = nodes[p].child(c)->0 as int;
            &&& 1 <= j < nodes.len()
            &&& live(nodes, j)
            &&& nodes[j].parent matches Some(q)
            &&& q == p
            &&& nodes[j].state == c
            &&& paths[j] == paths[p].push(c)
        }),
{
    let j = nodes[p].child(c)->0 as int;
    assert(kids_ok(nodes, p));
    assert(nodes[p].children@.contains_key(c as u32));
    assert(nodes[j].state as u32 == c as u32);
    assert(node_ok(nodes, paths, j));
}

/// Where a node has no child for a character, the trie holds no string that
/// goes on with that character.
pub(crate) proof fn lemma_no_child(
    nodes: Seq<DictNode>,
    paths: Seq<Seq<char>>,
    p: int,
    c: char,
    j: int,
)
    requires
        shape(nodes, paths),
        live(nodes, p),
        nodes[p].child(c) is None,
        live(nodes, j),
    ensures
        !paths[p].push(c).is_prefix_of(paths[j]),
{
    if paths[p].push(c).is_prefix_of(paths[j]) {
        let k = paths[p].len() as int + 1;
        let a = lemma_prefix_node(nodes, paths, j, k);
        assert(paths[a] =~= paths[p].push(c));
        assert(a != 0);
        assert(node_ok(nodes, paths, a));
        let q = nodes[a].parent->0 as int;
        assert(paths[q] =~= paths[a].drop_last());
        assert(paths[q] =~= paths[p]);
        assert(nodes[a].state == paths[a].last());
        assert(q == p);
    }
}

/// The nodes that mark words are nodes of the arena other than the root.
pub(crate) proof fn lemma_word_nodes_bound(nodes: Seq<DictNode>, paths: Seq<Seq<char>>, extra: int)
    requires
        shape(nodes, paths),
        1 <= extra < nodes.len(),
    ensures
        word_nodes(nodes).insert(extra).finite(),
        word_nodes(nodes).insert(extra).len() <= nodes.len() - 1,
{
    let all = set_int_range(1, nodes.len() as int);
    lemma_int_range(1, nodes.len() as int);
    assert(word_nodes(nodes).insert(extra).subset_of(all));
    lemma_len_subset(word_nodes(nodes).insert(extra), all);
}

} // verus!
