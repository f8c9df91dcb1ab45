//! Removal of words, and the pruning of nodes that no word needs any more.

use crate::adt::stack::Stack;
use crate::linked_list::list::LinkedList;
use crate::dict::dict_set::{DictSet, DictSetError};
use crate::dict::links::{lemma_links_frame, links_ok};
use crate::dict::model::{has_prefix, without_word};
use crate::dict::node::{DictNode, Word};
use crate::dict::trie::{
    counted, covered, covers, holds, kids_ok, lemma_child, lemma_no_child, lemma_prefix_node,
    live, minimal, node_ok, shape, word_nodes, words,
};
use vstd::prelude::*;

verus! {

broadcast use crate::dict::dict_set::group_dict_set;

/// Node `i` is one of the first `k` nodes below the root on the way `trail`.
spec fn on_trail(trail: Seq<int>, k: int, i: int) -> bool {
    exists|t: int| 1 <= t <= k && #[trigger] trail[t] == i
}

/// The first `k` steps of `trail` lead from the root along `word`.
spec fn trail_ok(
    nodes: Seq<DictNode>,
    paths: Seq<Seq<char>>,
    trail: Seq<int>,
    word: Seq<char>,
    k: int,
) -> bool {
    &&& 0 <= k < trail.len()
    &&& trail[0] == 0
    &&& forall|t: int|
        0 <= t <= k ==> live(nodes, #[trigger] trail[t]) && paths[trail[t]] == word.take(t)
}

/// Every node of the trie but the root is needed for a word, or lies on the
/// first `k` steps of `trail`.
spec fn nearly_minimal(
    nodes: Seq<DictNode>,
    paths: Seq<Seq<char>>,
    trail: Seq<int>,
    k: int,
) -> bool {
    forall|i: int|
        1 <= i && live(nodes, i) ==> #[trigger] covered(nodes, paths, i) || on_trail(trail, k, i)
}

/// The arena `nodes` is the arena `pre` with the childless node `d` cut off
/// from its parent.
spec fn cut(pre: Seq<DictNode>, nodes: Seq<DictNode>, d: int) -> bool {
    &&& nodes.len() == pre.len()
    &&& 1 <= d < pre.len()
    &&& pre[d].parent is Some
    &&& pre[d].output is No
    &&& nodes[d].parent is None
    &&& forall|i: int|
        0 <= i < pre.len() ==> (#[trigger] nodes[i]).state == pre[i].state && nodes[i].output
            == pre[i].output && nodes[i].suffix == pre[i].suffix
    &&& forall|i: int| 0 <= i < pre.len() && i != d ==>
        (#[trigger] nodes[i]).parent == pre[i].parent
}

/// Cutting off a node that marks no word leaves the words as they were.
proof fn lemma_cut_words(pre: Seq<DictNode>, nodes: Seq<DictNode>, paths: Seq<Seq<char>>, d: int)
    requires
        cut(pre, nodes, d),
    ensures
        words(nodes, paths) == words(pre, paths),
        word_nodes(nodes) == word_nodes(pre),
        forall|i: int| live(nodes, i) == (live(pre, i) && i != d),
        forall|i: int, j: int| covers(pre, paths, j, i) ==> covers(nodes, paths, j, i),
{
    assert forall|i: int| live(nodes, i) == (live(pre, i) && i != d) by {
        if 0 <= i < pre.len() {
            assert(nodes[i].state == pre[i].state);
        }
    }
    assert forall|i: int, w: Seq<char>| holds(nodes, paths, i, w) <==> holds(pre, paths, i, w) by {
        if 0 <= i < pre.len() {
            assert(nodes[i].state == pre[i].state);
        }
    }
    assert(words(nodes, paths) =~= words(pre, paths));
    assert forall|i: int| word_nodes(nodes).contains(i) <==> word_nodes(pre).contains(i) by {
        if 0 <= i < pre.len() {
            assert(nodes[i].state == pre[i].state);
        }
    }
    assert(word_nodes(nodes) =~= word_nodes(pre));
    assert forall|i: int, j: int| covers(pre, paths, j, i) implies covers(nodes, paths, j, i) by {
        assert(nodes[j].state == pre[j].state);
    }
}

/// Once the walk up the trail has come to the root, to a word or to a node
/// that still has a child, nothing is left in the trie that no word needs.
proof fn lemma_settled(
    nodes: Seq<DictNode>,
    paths: Seq<Seq<char>>,
    trail: Seq<int>,
    word: Seq<char>,
    k: int,
)
    requires
        shape(nodes, paths),
        trail_ok(nodes, paths, trail, word, k),
        k <= word.len(),
        nearly_minimal(nodes, paths, trail, k),
        k == 0 || nodes[trail[k]].output is Yes || !nodes[trail[k]].children@.is_empty(),
    ensures
        minimal(nodes, paths),
{
    let p = trail[k];
    assert(live(nodes, p));
    if k > 0 {
        // a node that marks a word and lies at or below the end of the walk
        let top: int;
        if nodes[p].output is Yes {
            top = p;
            assert(paths[p].is_prefix_of(paths[p]));
        } else {
            let key = choose|key: u32| nodes[p].children@.dom().contains(key);
            assert(kids_ok(nodes, p));
            assert(nodes[p].children@.contains_key(key));
            let j = nodes[p].children@[key] as int;
            assert(node_ok(nodes, paths, j));
            assert(live(nodes, j));
            assert(paths[j].len() == k + 1);
            assert(covered(nodes, paths, j) || on_trail(trail, k, j));
            if on_trail(trail, k, j) {
                let t = choose|t: int| 1 <= t <= k && trail[t] == j;
                assert(paths[trail[t]] == word.take(t));
            }
            top = choose|top: int| covers(nodes, paths, top, j);
            assert(paths[p] =~= paths[j].drop_last());
            assert(paths[p].is_prefix_of(paths[top]));
        }
        assert forall|i: int| 1 <= i && live(nodes, i) implies
            #[trigger] covered(nodes, paths, i) by {
            if !covered(nodes, paths, i) {
                assert(on_trail(trail, k, i));
                let t = choose|t: int| 1 <= t <= k && trail[t] == i;
                assert(paths[i] == word.take(t));
                assert(paths[p] == word.take(k));
                assert(paths[i] =~= paths[p].take(t));
                assert(paths[i].is_prefix_of(paths[top]));
                assert(covers(nodes, paths, top, i));
            }
        }
    } else {
        assert forall|i: int| 1 <= i && live(nodes, i) implies
            #[trigger] covered(nodes, paths, i) by {
            if !covered(nodes, paths, i) {
                assert(on_trail(trail, k, i));
            }
        }
    }
}

impl DictSet {
    /// Cuts the childless node `d`, which marks no word, off from its parent,
    /// and returns the parent.
    fn detach(&mut self, d: usize) -> (p: usize)
        requires
            shape(old(self).nodes@, old(self).paths@),
            1 <= d < old(self).nodes@.len(),
            live(old(self).nodes@, d as int),
            old(self).nodes@[d as int].children@.is_empty(),
            old(self).nodes@[d as int].output is No,
        ensures
            shape(final(self).nodes@, final(self).paths@),
            cut(old(self).nodes@, final(self).nodes@, d as int),
            old(self).nodes@[d as int].parent == Some(p),
            live(final(self).nodes@, p as int),
            final(self).paths@ == old(self).paths@,
            final(self).count == old(self).count,
            final(self).linked == old(self).linked,
            final(self).chained == old(self).chained,
            forall|key: u32|
                final(self).nodes@[p as int].children@.contains_key(key) ==> {
                    &&& #[trigger] old(self).nodes@[p as int].children@.contains_key(key)
                    &&& key != old(self).nodes@[d as int].state as u32
                },
    {
        proof {
            assert(node_ok(self.nodes@, self.paths@, d as int));
        }
        let p = self.nodes[d].parent.unwrap();
        let state = self.nodes[d].state;
        self.nodes[p].remove_child(state);
        self.nodes[d].parent = None;
        proof {
            let pre = old(self).nodes@;
            let nodes = self.nodes@;
            let paths = self.paths@;
            assert(p != d) by {
                assert(pre[p as int].children@.contains_key(state as u32));
            }
            assert(cut(pre, nodes, d as int));
            lemma_cut_words(pre, nodes, paths, d as int);
            assert forall|i: int| 1 <= i < nodes.len() implies
                #[trigger] node_ok(nodes, paths, i) by {
                assert(node_ok(pre, paths, i));
                if i != d && pre[i].parent is Some {
                    let q = pre[i].parent->0 as int;
                    assert(pre[q].children@.contains_key(pre[i].state as u32));
                    assert(q != d);
                    if q == p {
                        assert(node_ok(pre, paths, d as int));
                        assert(pre[p as int].child(pre[d as int].state) == Some(d));
                        assert(pre[p as int].child(pre[i].state)->0 == i);
                        assert(pre[i].state as u32 != state as u32);
                    }
                }
            }
            assert forall|i: int| 0 <= i < nodes.len() implies #[trigger] kids_ok(nodes, i) by {
                assert(kids_ok(pre, i));
                assert forall|k: u32| #[trigger]
                    nodes[i].children@.contains_key(k) implies ({
                    let j = nodes[i].children@[k];
                    &&& 1 <= j < nodes.len()
                    &&& nodes[j as int].parent matches Some(q)
                    &&& q == i
                    &&& nodes[j as int].state as u32 == k
                }) by {
                    assert(pre[i].children@.contains_key(k));
                    let j = pre[i].children@[k];
                    assert(nodes[i].children@[k] == j);
                    if j == d {
                        assert(i == p);
                        assert(k == state as u32);
                    }
                }
            }
        }
        p
    }

    /// Takes `word` out of the index, and with it every node that only `word`
    /// needed. The suffix links stay as good as they were. Where `word` is not
    /// indexed, nothing changes and the error is returned.
    pub fn remove(&mut self, word: &str) -> (r: Result<(), DictSetError>)
        requires
            old(self).wf(),
        ensures
            final(self).wf(),
            final(self).linked() == old(self).linked(),
            old(self)@.contains(word@) ==>
                r is Ok && final(self)@ == without_word(old(self)@, word@),
            !old(self)@.contains(word@) ==> r is Err && *final(self) == *old(self),
            forall|i: int| #[trigger]
                final(self).is_node(i) <==> {
                    &&& old(self).is_node(i)
                    &&& i == 0 || has_prefix(final(self)@, old(self).path(i))
                },
            forall|i: int| #[trigger] final(self).path(i) == old(self).path(i),
            final(self).arena().len() == old(self).arena().len(),
            forall|i: int|
                0 <= i < old(self).arena().len() ==> {
                    (#[trigger] final(self).arena()[i]).suffix == old(self).arena()[i].suffix
                },
    {
        let ghost pre = self.nodes@;
        let ghost paths = self.paths@;
        // the walk never holds more nodes than the word has characters
        let limit = word.unicode_len();
        let mut stack: LinkedList<usize> = LinkedList::new();
        let ghost mut trail: Seq<int> = Seq::empty().push(0int);
        let mut cur: usize = 0;
        proof {
            assert(paths[0] =~= word@.take(0));
        }
        for c in it: word.chars()
            invariant
                it.seq() == word@,
                limit == word@.len(),
                *self == *old(self),
                self.wf(),
                pre == self.nodes@,
                paths == self.paths@,
                live(pre, cur as int),
                stack.wf(),
                stack@.len() == it.index(),
                trail.len() == it.index() + 1,
                trail_ok(pre, paths, trail, word@, it.index()),
                trail[it.index()] == cur,
                forall|m: int| 0 <= m < stack@.len() ==>
                    #[trigger] stack@[m] == trail[it.index() - m],
        {
            let ghost at = it.index();
            assert(c == word@[at]);
            assert(paths[cur as int] == word@.take(at));
            assert(paths[cur as int].push(c) =~= word@.take(at + 1));
            match self.nodes[cur].get_child(c) {
                None => {
                    proof {
                        if self@.contains(word@) {
                            let j = choose|j: int| holds(pre, paths, j, word@);
                            lemma_no_child(pre, paths, cur as int, c, j);
                        }
                        self.lemma_nodes_are_prefixes();
                        assert forall|i: int| #[trigger] self.is_node(i) implies i == 0
                            || has_prefix(self@, self.path(i)) by {
                            self.lemma_paths(i);
                        }
                    }
                    return Err(DictSetError);
                },
                Some(next) => {
                    proof {
                        lemma_child(pre, paths, cur as int, c);
                    }
                    cur = next;
                    let ghost below = stack@;
                    Stack::push(&mut stack, cur);
                    proof {
                        let longer = trail.push(cur as int);
                        assert forall|t: int| 0 <= t <= at + 1 implies
                            live(pre, #[trigger] longer[t])
                            && paths[longer[t]] == word@.take(t) by {
                            if t <= at {
                                assert(longer[t] == trail[t]);
                            }
                        }
                        assert forall|m: int| 0 <= m < stack@.len() implies #[trigger] stack@[m]
                            == longer[at + 1 - m] by {
                            if m > 0 {
                                assert(stack@[m] == below[m - 1]);
                            }
                        }
                        trail = longer;
                    }
                },
            }
        }
        let ghost len = word@.len() as int;
        proof {
            assert(word@.take(len) =~= word@);
            assert(paths[cur as int] == word@);
        }
        if !self.nodes[cur].is_word() {
            proof {
                if self@.contains(word@) {
                    let j = choose|j: int| holds(pre, paths, j, word@);
                    assert(j == cur);
                }
                self.lemma_nodes_are_prefixes();
                assert forall|i: int| #[trigger] self.is_node(i) implies i == 0
                    || has_prefix(self@, self.path(i)) by {
                    self.lemma_paths(i);
                }
            }
            return Err(DictSetError);
        }
        proof {
            assert(holds(pre, paths, cur as int, word@));
            assert(word_nodes(pre).contains(cur as int));
            assert(cur != 0);
            assert(node_ok(pre, paths, cur as int));
        }
        self.nodes[cur].output = Word::No;
        self.count = self.count - 1;
        let ghost bare = self.nodes@;
        proof {
            assert forall|i: int| live(bare, i) == live(pre, i) by {}
            assert forall|i: int| 1 <= i < bare.len() implies
                #[trigger] node_ok(bare, paths, i) by {
                assert(node_ok(pre, paths, i));
            }
            assert forall|i: int| 0 <= i < bare.len() implies #[trigger] kids_ok(bare, i) by {
                assert(kids_ok(pre, i));
            }
            assert(shape(bare, paths));
            let fewer = words(pre, paths).remove(word@);
            assert forall|w: Seq<char>| words(bare, paths).contains(w) <==> fewer.contains(w) by {
                if words(bare, paths).contains(w) {
                    let i = choose|i: int| holds(bare, paths, i, w);
                    assert(holds(pre, paths, i, w));
                    if w == word@ {
                        assert(i == cur);
                    }
                }
                if words(pre, paths).contains(w) && w != word@ {
                    let i = choose|i: int| holds(pre, paths, i, w);
                    assert(holds(bare, paths, i, w));
                }
            }
            assert(words(bare, paths) =~= words(pre, paths).remove(word@));
            assert(word_nodes(bare) =~= word_nodes(pre).remove(cur as int));
            assert forall|t: int| 0 <= t <= len implies
                live(bare, #[trigger] trail[t]) && paths[trail[t]] == word@.take(t) by {}
            assert forall|i: int| 1 <= i && live(bare, i) implies #[trigger] covered(bare, paths, i)
                || on_trail(trail, len, i) by {
                assert(covered(pre, paths, i));
                let j = choose|j: int| covers(pre, paths, j, i);
                if j == cur {
                    let t = paths[i].len() as int;
                    assert(paths[i] =~= word@.take(t));
                    assert(live(pre, trail[t]));
                    assert(trail[t] == i);
                    assert(t >= 1) by {
                        if t == 0 {
                            assert(trail[0] == 0);
                        }
                    }
                } else {
                    assert(covers(bare, paths, j, i));
                }
            }
            if self.linked {
                lemma_links_frame(pre, bare, paths, self.chained@);
            }
        }
        let mut pruning = self.nodes[cur].children.is_empty();
        let ghost mut k: int = len;
        proof {
            if !pruning {
                lemma_settled(bare, paths, trail, word@, len);
            }
        }
        while pruning
            invariant
                shape(self.nodes@, self.paths@),
                self.paths@ == paths,
                self.nodes@.len() == pre.len(),
                self.count == old(self).count - 1,
                self.linked == old(self).linked,
                self.chained == old(self).chained,
                words(self.nodes@, paths) == words(bare, paths),
                word_nodes(self.nodes@) == word_nodes(bare),
                self.linked ==> links_ok(self.nodes@, paths, self.chained@),
                shape(pre, paths),
                forall|i: int| live(self.nodes@, i) ==> live(pre, i),
                forall|i: int| 0 <= i < pre.len() ==>
                    (#[trigger] self.nodes@[i]).suffix == pre[i].suffix,
                trail.len() == len + 1,
                0 <= k <= len,
                len == word@.len(),
                trail_ok(self.nodes@, paths, trail, word@, k),
                nearly_minimal(self.nodes@, paths, trail, k),
                stack.wf(),
                stack@.len() == k,
                forall|m: int| 0 <= m < stack@.len() ==> #[trigger] stack@[m] == trail[k - m],
                pruning ==> k >= 1 && self.nodes@[trail[k]].children@.is_empty()
                    && self.nodes@[trail[k]].output is No,
                !pruning ==> minimal(self.nodes@, paths),
            decreases k + if pruning { 1int } else { 0 },
        {
            let ghost before = self.nodes@;
            let ghost above = stack@;
            match Stack::pop(&mut stack) {
                None => {
                    pruning = false;
                },
                Some(d) => {
                    assert(d == trail[k]);
                    assert(d != 0) by {
                        assert(paths[d as int] == word@.take(k));
                        assert(paths[0].len() == 0);
                    }
                    let p = self.detach(d);
                    proof {
                        let nodes = self.nodes@;
                        lemma_cut_words(before, nodes, paths, d as int);
                        assert(node_ok(before, paths, d as int));
                        assert(paths[p as int] =~= word@.take(k - 1)) by {
                            assert(paths[d as int] == word@.take(k));
                            assert(paths[p as int] =~= paths[d as int].drop_last());
                        }
                        assert(live(before, p as int));
                        assert(live(before, trail[k - 1]));
                        assert(p == trail[k - 1]);
                        assert forall|t: int| 0 <= t <= k - 1 implies
                            live(nodes, #[trigger] trail[t])
                            && paths[trail[t]] == word@.take(t) by {
                            assert(live(before, trail[t]));
                            if trail[t] == d {
                                assert(word@.take(t).len() == word@.take(k).len());
                            }
                        }
                        assert forall|i: int| 1 <= i && live(nodes, i) implies #[trigger] covered(
                            nodes,
                            paths,
                            i,
                        ) || on_trail(trail, k - 1, i) by {
                            assert(covered(before, paths, i) || on_trail(trail, k, i));
                            if covered(before, paths, i) {
                                let j = choose|j: int| covers(before, paths, j, i);
                                assert(covers(nodes, paths, j, i));
                            } else {
                                let t = choose|t: int| 1 <= t <= k && trail[t] == i;
                                assert(t != k);
                                assert(trail[t] == i);
                            }
                        }
                        if self.linked {
                            lemma_links_frame(before, nodes, paths, self.chained@);
                        }
                        assert forall|m: int| 0 <= m < stack@.len() implies #[trigger] stack@[m]
                            == trail[k - 1 - m] by {
                            assert(stack@[m] == above[m + 1]);
                        }
                        k = k - 1;
                    }
                    let stop = self.nodes[p].is_root() || self.nodes[p].is_word()
                        || !self.nodes[p].children.is_empty();
                    proof {
                        let nodes = self.nodes@;
                        if stop {
                            assert(nodes[p as int].output is Root ==> p == 0) by {
                                if p != 0 {
                                    assert(node_ok(nodes, paths, p as int));
                                }
                            }
                            lemma_settled(nodes, paths, trail, word@, k);
                        } else {
                            assert(p != 0);
                            assert(k >= 1) by {
                                if k == 0 {
                                    assert(trail[0] == 0);
                                }
                            }
                        }
                    }
                    pruning = !stop;
                },
            }
        }
        proof {
            assert(self@ == without_word(old(self)@, word@));
            assert(counted(self.nodes@, self.paths@, self.count));
            let nodes = self.nodes@;
            assert forall|i: int| #[trigger] self.is_node(i) <==> old(self).is_node(i) && (i == 0
                || has_prefix(self@, old(self).path(i))) by {
                if live(nodes, i) && i != 0 {
                    assert(covered(nodes, paths, i));
                    let j = choose|j: int| covers(nodes, paths, j, i);
                    assert(holds(nodes, paths, j, paths[j]));
                    assert(self@.contains(paths[j]));
                }
                if live(pre, i) && i != 0 && has_prefix(self@, paths[i]) {
                    let v = choose|v: Seq<char>| self@.contains(v) && paths[i].is_prefix_of(v);
                    let j = choose|j: int| holds(nodes, paths, j, v);
                    let a = lemma_prefix_node(nodes, paths, j, paths[i].len() as int);
                    assert(paths[a] =~= paths[i]);
                    assert(live(pre, a));
                    assert(a == i);
                }
                if i == 0 {
                    assert(live(nodes, 0));
                }
            }
        }
        Ok(())
    }
}

} // verus!
