//! Insertion of words.

use crate::dict::dict_set::DictSet;
use crate::dict::links::lemma_links_frame;
use crate::dict::model::{has_prefix, texts, with_word, with_words};
use crate::dict::node::{DictNode, Word};
use crate::dict::trie::{
    covered, covers, holds, kids_ok, lemma_child, lemma_no_child, lemma_word_nodes_bound, live,
    node_ok, shape, word_nodes, words,
};
use vstd::prelude::*;

verus! {

broadcast use crate::dict::dict_set::group_dict_set;

/// Two nodes that differ at most in their children.
spec fn same_links(a: DictNode, b: DictNode) -> bool {
    a.state == b.state && a.output == b.output && a.parent == b.parent && a.suffix == b.suffix
}

/// The arena `nodes` is the arena `pre` with nodes added for beginnings of
/// `word`, none of them a word yet.
spec fn extends(
    pre: Seq<DictNode>,
    pre_paths: Seq<Seq<char>>,
    nodes: Seq<DictNode>,
    paths: Seq<Seq<char>>,
    word: Seq<char>,
) -> bool {
    &&& pre.len() <= nodes.len()
    &&& pre_paths.len() == pre.len()
    &&& paths.len() == nodes.len()
    &&& forall|i: int|
        0 <= i < pre.len() ==> #[trigger] same_links(pre[i], nodes[i]) && paths[i] == pre_paths[i]
    &&& forall|i: int|
        pre.len() <= i < nodes.len() ==>
            (#[trigger] nodes[i]).output is No && nodes[i].parent is Some
            && paths[i].is_prefix_of(word)
}

/// Added nodes that are no words leave the words as they were.
proof fn lemma_extends_words(
    pre: Seq<DictNode>,
    pre_paths: Seq<Seq<char>>,
    nodes: Seq<DictNode>,
    paths: Seq<Seq<char>>,
    word: Seq<char>,
)
    requires
        extends(pre, pre_paths, nodes, paths, word),
    ensures
        words(nodes, paths) == words(pre, pre_paths),
        word_nodes(nodes) == word_nodes(pre),
        forall|i: int| 0 <= i < pre.len() ==> live(nodes, i) == live(pre, i),
        forall|i: int| 0 <= i < pre.len() && covered(pre, pre_paths, i) ==>
            covered(nodes, paths, i),
{
    assert forall|i: int| 0 <= i < pre.len() implies live(nodes, i) == live(pre, i) by {
        assert(same_links(pre[i], nodes[i]));
    }
    assert forall|i: int, w: Seq<char>| holds(nodes, paths, i, w) <==>
        holds(pre, pre_paths, i, w) by {
        if 0 <= i < pre.len() {
            assert(same_links(pre[i], nodes[i]));
        }
    }
    assert(words(nodes, paths) =~= words(pre, pre_paths));
    assert forall|i: int| word_nodes(nodes).contains(i) <==> word_nodes(pre).contains(i) by {
        if 0 <= i < pre.len() {
            assert(same_links(pre[i], nodes[i]));
        }
    }
    assert(word_nodes(nodes) =~= word_nodes(pre));
    assert forall|i: int| 0 <= i < pre.len() && covered(pre, pre_paths, i) implies covered(
        nodes,
        paths,
        i,
    ) by {
        let j = choose|j: int| covers(pre, pre_paths, j, i);
        assert(same_links(pre[j], nodes[j]));
        assert(same_links(pre[i], nodes[i]));
        assert(covers(nodes, paths, j, i));
    }
}

impl DictSet {
    /// Adds a node for the child of `cur` that `c` leads to.
    fn grow(&mut self, cur: usize, c: char) -> (id: usize)
        requires
            shape(old(self).nodes@, old(self).paths@),
            live(old(self).nodes@, cur as int),
            old(self).nodes@[cur as int].child(c) is None,
        ensures
            id == old(self).nodes@.len(),
            final(self).nodes@.len() == id + 1,
            shape(final(self).nodes@, final(self).paths@),
            final(self).paths@ == old(self).paths@.push(old(self).paths@[cur as int].push(c)),
            forall|i: int| 0 <= i < id ==>
                #[trigger] same_links(old(self).nodes@[i], final(self).nodes@[i]),
            final(self).nodes@[id as int].output is No,
            final(self).nodes@[id as int].parent == Some(cur),
            final(self).nodes@[id as int].children@.is_empty(),
            final(self).count == old(self).count,
            final(self).linked == old(self).linked,
            final(self).chained == old(self).chained,
    {
        let id = self.nodes.len();
        let mut child = DictNode::new(c);
        child.parent = Some(cur);
        self.nodes.push(child);
        self.nodes[cur].add_child(c, id);
        proof {
            let pre = old(self).nodes@;
            let pre_paths = old(self).paths@;
            self.paths@ = pre_paths.push(pre_paths[cur as int].push(c));
            let nodes = self.nodes@;
            let paths = self.paths@;
            assert(nodes[id as int].children@.is_empty());
            assert forall|i: int| 0 <= i < id implies #[trigger] same_links(pre[i], nodes[i]) by {}
            assert forall|i: int| 0 <= i < nodes.len() implies live(nodes, i) == (i == id || live(
                pre,
                i,
            )) by {
                if i < id {
                    assert(same_links(pre[i], nodes[i]));
                }
            }
            assert forall|i: int| 1 <= i < nodes.len() implies
                #[trigger] node_ok(nodes, paths, i) by {
                if i < id {
                    assert(node_ok(pre, pre_paths, i));
                    assert(same_links(pre[i], nodes[i]));
                    if pre[i].parent is Some {
                        let p = pre[i].parent->0 as int;
                        assert(same_links(pre[p], nodes[p]));
                        if p == cur {
                            assert(pre[cur as int].children@.contains_key(pre[i].state as u32));
                        }
                        assert(nodes[p].child(nodes[i].state) == pre[p].child(pre[i].state));
                    }
                }
            }
            assert forall|i: int| 0 <= i < nodes.len() implies #[trigger] kids_ok(nodes, i) by {
                if i < id {
                    assert(kids_ok(pre, i));
                    assert forall|k: u32| #[trigger]
                        nodes[i].children@.contains_key(k) implies ({
                        let j = nodes[i].children@[k];
                        &&& 1 <= j < nodes.len()
                        &&& nodes[j as int].parent matches Some(p)
                        &&& p == i
                        &&& nodes[j as int].state as u32 == k
                    }) by {
                        let j = nodes[i].children@[k];
                        if i == cur && k == c as u32 {
                        } else {
                            assert(pre[i].children@.contains_key(k));
                            assert(same_links(pre[j as int], nodes[j as int]));
                        }
                    }
                }
            }
            assert forall|a: int, b: int|
                #![trigger live(nodes, a), live(nodes, b)]
                live(nodes, a) && live(nodes, b) && paths[a] == paths[b] implies a == b by {
                if a == id && b != id {
                    lemma_no_child(pre, pre_paths, cur as int, c, b);
                    assert(pre_paths[cur as int].push(c) =~= paths[b]);
                }
                if b == id && a != id {
                    lemma_no_child(pre, pre_paths, cur as int, c, a);
                    assert(pre_paths[cur as int].push(c) =~= paths[a]);
                }
            }
        }
        id
    }

    /// Indexes `word`. The empty word is never indexed: inserting it changes
    /// nothing. Where the trie had to grow for `word`, its suffix links no
    /// longer fit, and `link_suffixes` has to run before the next search.
    pub fn insert(&mut self, word: &str)
        requires
            old(self).wf(),
        ensures
            final(self).wf(),
            final(self)@ == with_word(old(self)@, word@),
            final(self).linked() == (old(self).linked() && (word@.len() == 0 || has_prefix(
                old(self)@,
                word@,
            ))),
            forall|i: int| #[trigger]
                old(self).is_node(i) ==> {
                    &&& final(self).is_node(i)
                    &&& final(self).path(i) == old(self).path(i)
                },
            forall|i: int| #[trigger]
                final(self).is_node(i) && !old(self).is_node(i) ==> {
                    final(self).path(i).is_prefix_of(word@)
                },
            forall|i: int|
                0 <= i < old(self).arena().len() ==> {
                    (#[trigger] final(self).arena()[i]).suffix == old(self).arena()[i].suffix
                },
    {
        let ghost pre = self.nodes@;
        let ghost pre_paths = self.paths@;
        let base = self.nodes.len();
        let mut cur: usize = 0;
        for c in it: word.chars()
            invariant
                it.seq() == word@,
                old(self).wf(),
                pre == old(self).nodes@,
                pre_paths == old(self).paths@,
                base == pre.len(),
                shape(self.nodes@, self.paths@),
                extends(pre, pre_paths, self.nodes@, self.paths@, word@),
                live(self.nodes@, cur as int),
                self.paths@[cur as int] == word@.take(it.index()),
                self.count == old(self).count,
                self.linked == old(self).linked,
                self.chained == old(self).chained,
                self.nodes@.len() == base ==> self.nodes@ == pre,
                self.nodes@.len() > base ==> {
                    &&& cur == self.nodes@.len() - 1
                    &&& self.nodes@[cur as int].children@.is_empty()
                    &&& !has_prefix(words(pre, pre_paths), word@)
                },
        {
            let ghost at = it.index();
            assert(c == word@[at]);
            assert(self.paths@[cur as int].push(c) =~= word@.take(at + 1));
            match self.nodes[cur].get_child(c) {
                Some(next) => {
                    proof {
                        lemma_child(self.nodes@, self.paths@, cur as int, c);
                        assert(self.nodes@[cur as int].children@.contains_key(c as u32));
                    }
                    cur = next;
                },
                None => {
                    proof {
                        if self.nodes@.len() == base {
                            assert forall|w: Seq<char>| #[trigger]
                                words(pre, pre_paths).contains(w) implies
                                    !word@.is_prefix_of(w) by {
                                let j = choose|j: int| holds(pre, pre_paths, j, w);
                                lemma_no_child(pre, pre_paths, cur as int, c, j);
                                assert(same_links(pre[cur as int], self.nodes@[cur as int]));
                                if word@.is_prefix_of(w) {
                                    assert(word@.take(at + 1) =~= w.subrange(0, at + 1));
                                    assert(pre_paths[cur as int].push(c).is_prefix_of(w));
                                }
                            }
                        }
                    }
                    let ghost before = self.nodes@;
                    let id = self.grow(cur, c);
                    proof {
                        assert forall|i: int| 0 <= i < pre.len() implies #[trigger] same_links(
                            pre[i],
                            self.nodes@[i],
                        ) && self.paths@[i] == pre_paths[i] by {
                            assert(same_links(pre[i], before[i]));
                            assert(same_links(before[i], self.nodes@[i]));
                        }
                        assert forall|i: int| pre.len() <= i < self.nodes@.len() implies (
                        #[trigger] self.nodes@[i]).output is No && self.nodes@[i].parent is Some
                            && self.paths@[i].is_prefix_of(word@) by {
                            if i < id {
                                assert(same_links(before[i], self.nodes@[i]));
                            }
                        }
                    }
                    cur = id;
                },
            }
        }
        proof {
            assert(word@.take(word@.len() as int) =~= word@);
            lemma_extends_words(pre, pre_paths, self.nodes@, self.paths@, word@);
        }
        let created = self.nodes.len() > base;
        let ghost mid = self.nodes@;
        let ghost paths = self.paths@;
        let mut fresh = false;
        if cur != 0 {
            if let Word::No = self.nodes[cur].output {
                fresh = true;
            }
        }
        if fresh {
            proof {
                lemma_word_nodes_bound(mid, paths, cur as int);
                assert(!word_nodes(mid).contains(cur as int));
            }
            self.count = self.count + 1;
            self.nodes[cur].output = Word::Yes(word.to_owned());
        }
        if created {
            self.linked = false;
        }
        proof {
            let nodes = self.nodes@;
            assert(paths[cur as int] == word@);
            assert(cur == 0 <==> word@.len() == 0) by {
                assert(live(mid, 0));
                assert(paths[0].len() == 0);
                if word@.len() == 0 && cur != 0 {
                    assert(paths[cur as int] =~= paths[0]);
                }
            }
            assert forall|i: int| 0 <= i < nodes.len() implies live(nodes, i) == live(mid, i) by {}
            if fresh {
                assert forall|i: int| 1 <= i < nodes.len() implies
                    #[trigger] node_ok(nodes, paths, i) by {
                    assert(node_ok(mid, paths, i));
                }
                assert forall|i: int| 0 <= i < nodes.len() implies #[trigger] kids_ok(nodes, i) by {
                    assert(kids_ok(mid, i));
                }
                assert(shape(nodes, paths));
                let more = words(mid, paths).insert(word@);
                assert forall|w: Seq<char>| words(nodes, paths).contains(w) <==> more.contains(w) by {
                    if words(nodes, paths).contains(w) {
                        let i = choose|i: int| holds(nodes, paths, i, w);
                        if i != cur {
                            assert(holds(mid, paths, i, w));
                        }
                    }
                    if words(mid, paths).contains(w) {
                        let i = choose|i: int| holds(mid, paths, i, w);
                        assert(holds(nodes, paths, i, w));
                    }
                    if w == word@ {
                        assert(holds(nodes, paths, cur as int, w));
                    }
                }
                assert(words(nodes, paths) =~= words(mid, paths).insert(word@));
                assert(word_nodes(nodes) =~= word_nodes(mid).insert(cur as int));
                assert(!words(mid, paths).contains(word@)) by {
                    if words(mid, paths).contains(word@) {
                        let i = choose|i: int| holds(mid, paths, i, word@);
                        assert(i == cur);
                    }
                }
            } else {
                assert(nodes == mid);
                if cur != 0 {
                    assert(node_ok(mid, paths, cur as int));
                    assert(holds(mid, paths, cur as int, word@));
                    assert(words(mid, paths).insert(word@) =~= words(mid, paths));
                }
            }
            assert forall|i: int| 1 <= i && live(nodes, i) implies
                #[trigger] covered(nodes, paths, i) by {
                if i < base {
                    assert(covered(pre, pre_paths, i));
                    let j = choose|j: int| covers(pre, pre_paths, j, i);
                    assert(same_links(pre[j], mid[j]));
                    assert(same_links(pre[i], mid[i]));
                    assert(live(mid, j));
                    assert(covers(nodes, paths, j, i));
                } else {
                    assert(mid[i].output is No);
                    assert(fresh);
                    assert(covers(nodes, paths, cur as int, i));
                }
            }
            assert forall|i: int| #[trigger] old(self).is_node(i) implies
                self.is_node(i) && self.path(i) == old(self).path(i) by {
                assert(same_links(pre[i], mid[i]));
            }
            assert forall|i: int| #[trigger] self.is_node(i) && !old(self).is_node(i) implies
                self.path(i).is_prefix_of(word@) by {
                if i < base {
                    assert(same_links(pre[i], mid[i]));
                } else {
                    assert(mid[i].output is No);
                }
            }
            assert forall|i: int| 0 <= i < pre.len() implies (#[trigger] self.arena()[i]).suffix
                == pre[i].suffix by {
                assert(same_links(pre[i], mid[i]));
            }
            if created {
                assert(cur != 0);
                assert(!has_prefix(old(self)@, word@));
            }
            if !created {
                assert forall|i: int| 0 <= i < paths.len() implies paths[i] == pre_paths[i] by {
                    assert(same_links(pre[i], mid[i]));
                }
                assert(paths =~= pre_paths);
                if word@.len() > 0 {
                    assert(covered(pre, pre_paths, cur as int));
                    let j = choose|j: int| covers(pre, pre_paths, j, cur as int);
                    assert(holds(pre, pre_paths, j, pre_paths[j]));
                    assert(words(pre, pre_paths).contains(pre_paths[j]));
                    assert(word@.is_prefix_of(pre_paths[j]));
                    assert(has_prefix(old(self)@, word@));
                }
                if self.linked {
                    lemma_links_frame(pre, nodes, paths, self.chained@);
                }
            }
        }
    }

    /// Indexes every word of `slice`. The order of the words makes no
    /// difference to what is indexed.
    pub fn insert_all(&mut self, slice: &[&str])
        requires
            old(self).wf(),
        ensures
            final(self).wf(),
            final(self)@ == with_words(old(self)@, texts(slice@)),
            final(self).linked() == (old(self).linked() && forall|k: int|
                0 <= k < slice@.len() ==> (#[trigger] slice@[k])@.len() == 0 || has_prefix(
                    old(self)@,
                    slice@[k]@,
                )),
    {
        let ghost first = self@;
        let ghost list = texts(slice@);
        let mut i: usize = 0;
        proof {
            assert(self@ =~= with_words(first, list.take(0)));
        }
        while i < slice.len()
            invariant
                i <= slice.len(),
                first == old(self)@,
                list == texts(slice@),
                self.wf(),
                self@ == with_words(first, list.take(i as int)),
                self.linked() == (old(self).linked() && forall|k: int|
                    0 <= k < i ==> (#[trigger] slice@[k])@.len() == 0
                        || has_prefix(first, slice@[k]@)),
            decreases slice.len() - i,
        {
            let ghost before = self@;
            let ghost fit = self.linked();
            let word = slice[i];
            self.insert(word);
            proof {
                let w = word@;
                assert(list[i as int] == w);
                assert forall|x: Seq<char>| with_word(before, w).contains(x) <==> with_words(
                    first,
                    list.take(i + 1),
                ).contains(x) by {
                    if list.take(i as int).contains(x) {
                        let k = choose|k: int| 0 <= k < i && list.take(i as int)[k] == x;
                        assert(list.take(i + 1)[k] == x);
                    }
                    let longer = list.take(i + 1);
                    if longer.contains(x) {
                        let k = choose|k: int| 0 <= k < longer.len() && longer[k] == x;
                        if k < i {
                            assert(list.take(i as int)[k] == x);
                        }
                    }
                    if x == w {
                        assert(list.take(i + 1)[i as int] == w);
                    }
                }
                assert(self@ =~= with_words(first, list.take(i + 1)));
                if fit && w.len() > 0 && has_prefix(before, w) {
                    let v = choose|v: Seq<char>| before.contains(v) && w.is_prefix_of(v);
                    if !first.contains(v) {
                        let k = choose|k: int| 0 <= k < i && list.take(i as int)[k] == v;
                        assert(slice@[k]@ == v);
                        let u = choose|u: Seq<char>| first.contains(u) && v.is_prefix_of(u);
                        assert(w.is_prefix_of(u));
                    }
                    assert(has_prefix(first, w));
                }
                if w.len() > 0 && has_prefix(first, w) {
                    let v = choose|v: Seq<char>| first.contains(v) && w.is_prefix_of(v);
                    assert(before.contains(v));
                }
            }
            i = i + 1;
        }
        proof {
            assert(list.take(slice@.len() as int) =~= list);
        }
    }
}

} // verus!
