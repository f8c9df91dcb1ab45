//! What it means for the suffix links of a trie to fit it.

use crate::dict::node::DictNode;
use crate::dict::trie::{
    covered, covers, holds, kids_ok, live, minimal, node_ok, shape, word_nodes, words,
};
use crate::dict::walk::among;
use vstd::prelude::*;

verus! {

/// Node `m` is part of the trie, and its string is a shorter end of the string
/// of node `i`.
pub(crate) open spec fn shorter(
    nodes: Seq<DictNode>,
    paths: Seq<Seq<char>>,
    m: int,
    i: int,
) -> bool {
    live(nodes, m) && paths[m].is_suffix_of(paths[i]) && paths[m].len() < paths[i].len()
}

/// Node `s` is the node of `among` whose string is the longest shorter end of
/// the string of node `i` that the trie holds.
pub(crate) open spec fn best_link(
    nodes: Seq<DictNode>,
    paths: Seq<Seq<char>>,
    among: Set<int>,
    i: int,
    s: int,
) -> bool {
    &&& among.contains(s)
    &&& paths[s].is_suffix_of(paths[i])
    &&& paths[s].len() < paths[i].len()
    &&& forall|m: int| #[trigger] shorter(nodes, paths, m, i) ==> paths[m].len() <= paths[s].len()
}

/// The suffix link of node `i` leads where it should.
pub(crate) open spec fn link_ok(
    nodes: Seq<DictNode>,
    paths: Seq<Seq<char>>,
    among: Set<int>,
    i: int,
) -> bool {
    nodes[i].suffix matches Some(s) && best_link(nodes, paths, among, i, s as int)
}

/// Every node of `among` but the root has its suffix link, and `among` holds
/// the whole trie.
pub(crate) open spec fn links_ok(
    nodes: Seq<DictNode>,
    paths: Seq<Seq<char>>,
    among: Set<int>,
) -> bool {
    &&& among.contains(0)
    &&& forall|i: int| live(nodes, i) ==> #[trigger] among.contains(i)
    &&& forall|i: int| #[trigger] among.contains(i) ==> 0 <= i < nodes.len()
    &&& forall|i: int, j: int|
        #![trigger among.contains(i), among.contains(j)]
        among.contains(i) && among.contains(j) && paths[i] == paths[j] ==> i == j
    &&& forall|i: int| among.contains(i) && i != 0 ==> #[trigger] link_ok(nodes, paths, among, i)
}

/// A best link stays one when no node joins the trie and more nodes may be
/// passed through.
pub(crate) proof fn lemma_best_frame(
    pre: Seq<DictNode>,
    nodes: Seq<DictNode>,
    paths: Seq<Seq<char>>,
    among: Set<int>,
    wider: Set<int>,
    i: int,
    s: int,
)
    requires
        pre.len() == nodes.len(),
        forall|m: int| live(nodes, m) ==> live(pre, m),
        among.subset_of(wider),
        best_link(pre, paths, among, i, s),
    ensures
        best_link(nodes, paths, wider, i, s),
{
    assert forall|m: int| #[trigger] shorter(nodes, paths, m, i) implies paths[m].len()
        <= paths[s].len() by {
        assert(shorter(pre, paths, m, i));
    }
}

/// Links that held before hold after a change that touches no suffix link and
/// adds no node to the trie.
pub(crate) proof fn lemma_links_frame(
    pre: Seq<DictNode>,
    nodes: Seq<DictNode>,
    paths: Seq<Seq<char>>,
    among: Set<int>,
)
    requires
        pre.len() == nodes.len(),
        forall|i: int| 0 <= i < pre.len() ==> pre[i].suffix == nodes[i].suffix,
        forall|i: int| live(nodes, i) ==> live(pre, i),
        links_ok(pre, paths, among),
    ensures
        links_ok(nodes, paths, among),
{
    assert forall|i: int| among.contains(i) && i != 0 implies #[trigger] link_ok(
        nodes,
        paths,
        among,
        i,
    ) by {
        assert(link_ok(pre, paths, among, i));
        lemma_best_frame(pre, nodes, paths, among, among, i, pre[i].suffix->0 as int);
    }
}

/// The arena `nodes` is the arena `pre` with other suffix links.
pub(crate) open spec fn relinked(pre: Seq<DictNode>, nodes: Seq<DictNode>) -> bool {
    &&& nodes.len() == pre.len()
    &&& forall|i: int|
        0 <= i < pre.len() ==> (#[trigger] nodes[i]).state == pre[i].state && nodes[i].output
            == pre[i].output && nodes[i].parent == pre[i].parent && nodes[i].children@
            == pre[i].children@
}

/// Other suffix links change neither the tree nor its words.
pub(crate) proof fn lemma_relinked(pre: Seq<DictNode>, nodes: Seq<DictNode>, paths: Seq<Seq<char>>)
    requires
        relinked(pre, nodes),
        shape(pre, paths),
    ensures
        shape(nodes, paths),
        words(nodes, paths) == words(pre, paths),
        word_nodes(nodes) == word_nodes(pre),
        minimal(pre, paths) ==> minimal(nodes, paths),
        forall|i: int| live(nodes, i) == live(pre, i),
{
    assert forall|i: int| live(nodes, i) == live(pre, i) by {
        if 0 <= i < pre.len() {
            assert(nodes[i].state == pre[i].state);
        }
    }
    assert forall|i: int| 1 <= i < nodes.len() implies #[trigger] node_ok(nodes, paths, i) by {
        assert(node_ok(pre, paths, i));
        assert(nodes[i].state == pre[i].state);
        if pre[i].parent is Some {
            let p = pre[i].parent->0 as int;
            assert(nodes[p].state == pre[p].state);
        }
    }
    assert forall|i: int| 0 <= i < nodes.len() implies #[trigger] kids_ok(nodes, i) by {
        assert(kids_ok(pre, i));
        assert(nodes[i].state == pre[i].state);
        assert forall|k: u32| #[trigger] nodes[i].children@.contains_key(k) implies ({
            let j = nodes[i].children@[k];
            &&& 1 <= j < nodes.len()
            &&& nodes[j as int].parent matches Some(p)
            &&& p == i
            &&& nodes[j as int].state as u32 == k
        }) by {
            let j = pre[i].children@[k];
            assert(pre[i].children@.contains_key(k));
            assert(nodes[j as int].state == pre[j as int].state);
        }
    }
    assert(nodes[0].state == pre[0].state);
    assert forall|i: int, w: Seq<char>| holds(nodes, paths, i, w) <==> holds(pre, paths, i, w) by {
        if 0 <= i < pre.len() {
            assert(nodes[i].state == pre[i].state);
        }
    }
    assert(words(nodes, paths) =~= words(pre, paths));
    assert forall|i: int| word_nodes(nodes).contains(i) <==> word_nodes(pre).contains(i) by {
        if 0 <= i < pre.len() {
            assert(nodes[i].state == pre[i].state);
        }
    }
    assert(word_nodes(nodes) =~= word_nodes(pre));
    if minimal(pre, paths) {
        assert forall|i: int| 1 <= i && live(nodes, i) implies
            #[trigger] covered(nodes, paths, i) by {
            assert(covered(pre, paths, i));
            let j = choose|j: int| covers(pre, paths, j, i);
            assert(nodes[j].state == pre[j].state);
            assert(covers(nodes, paths, j, i));
        }
    }
}

/// Node `m` is part of the trie, and its string is an end of `text`.
pub(crate) open spec fn ends(
    nodes: Seq<DictNode>,
    paths: Seq<Seq<char>>,
    m: int,
    text: Seq<char>,
) -> bool {
    live(nodes, m) && paths[m].is_suffix_of(text)
}

/// Node `cur` is the node of the trie with the longest string that is an end
/// of `text`.
pub(crate) open spec fn deepest(
    nodes: Seq<DictNode>,
    paths: Seq<Seq<char>>,
    cur: int,
    text: Seq<char>,
) -> bool {
    &&& ends(nodes, paths, cur, text)
    &&& forall|m: int| #[trigger] ends(nodes, paths, m, text) ==> paths[m].len() <= paths[cur].len()
}

/// Node `m` is part of the trie, has a child for `c`, and its string is an end
/// of `text`.
pub(crate) open spec fn steps(
    nodes: Seq<DictNode>,
    paths: Seq<Seq<char>>,
    m: int,
    text: Seq<char>,
    c: char,
) -> bool {
    live(nodes, m) && nodes[m].child(c) is Some && paths[m].is_suffix_of(text)
}

/// A word that ends a text has a node, and that node's string ends the text.
pub(crate) proof fn lemma_word_ends(
    nodes: Seq<DictNode>,
    paths: Seq<Seq<char>>,
    text: Seq<char>,
    end: int,
    len: int,
) -> (j: int)
    requires
        0 <= len <= end <= text.len(),
        words(nodes, paths).contains(text.subrange(end - len, end)),
    ensures
        ends(nodes, paths, j, text.take(end)),
        nodes[j].output is Yes,
        paths[j] == text.subrange(end - len, end),
{
    let w = text.subrange(end - len, end);
    let j = choose|j: int| holds(nodes, paths, j, w);
    assert(w =~= text.take(end).subrange(end - len, end));
    j
}

} // verus!
