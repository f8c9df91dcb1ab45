//! The walk through a trie level by level, on which the suffix links are
//! computed and the nodes are listed.

use crate::dict::links::{lemma_best_frame, lemma_relinked, link_ok, links_ok, relinked};
use crate::dict::model::lemma_concat_distinct;
use crate::dict::node::DictNode;
use crate::dict::trie::{kids_ok, lemma_prefix_node, live, node_ok, shape};
use vstd::prelude::*;

verus! {

/// The root and the nodes of `done`.
pub(crate) open spec fn among(done: Seq<usize>) -> Set<int> {
    Set::new(|i: int| i == 0 || exists|k: int| 0 <= k < done.len() && #[trigger] done[k] == i)
}

/// Some node of `work` lies on the way from the root to node `m`.
pub(crate) open spec fn waits(paths: Seq<Seq<char>>, work: Seq<usize>, m: int) -> bool {
    exists|k: int| 0 <= k < work.len() && paths[#[trigger] work[k] as int].is_prefix_of(paths[m])
}

/// Where a walk through the trie level by level stands: the nodes of `done`
/// have been visited, the nodes of `work` are next, in this order, and every
/// other node lies below one of `work`. Where the walk is `linking`, the nodes
/// of `done` have their suffix links.
pub(crate) open spec fn walk_ok(
    nodes: Seq<DictNode>,
    paths: Seq<Seq<char>>,
    done: Seq<usize>,
    work: Seq<usize>,
    linking: bool,
) -> bool {
    &&& (done + work).no_duplicates()
    &&& forall|k: int|
        0 <= k < (done + work).len() ==> 1 <= #[trigger] (done + work)[k] < nodes.len() && live(
            nodes,
            (done + work)[k] as int,
        )
    &&& linking ==> forall|k: int|
        0 <= k < done.len() ==> link_ok(nodes, paths, among(done), #[trigger] done[k] as int)
    &&& forall|a: int, b: int|
        0 <= a <= b < done.len() ==>
            paths[#[trigger] done[a] as int].len() <= paths[#[trigger] done[b] as int].len()
    &&& forall|a: int, b: int|
        0 <= a <= b < work.len() ==>
            paths[#[trigger] work[a] as int].len() <= paths[#[trigger] work[b] as int].len()
    &&& forall|k: int|
        0 <= k < work.len() ==>
            paths[#[trigger] work[k] as int].len() <= paths[work[0] as int].len() + 1
    &&& forall|k: int|
        0 <= k < done.len() && work.len() > 0 ==> paths[#[trigger] done[k] as int].len()
            <= paths[work[0] as int].len()
    &&& forall|k: int|
        0 <= k < work.len() ==> ((#[trigger] nodes[work[k] as int]).parent matches Some(p) && among(
            done,
        ).contains(p as int))
    &&& forall|m: int| 1 <= m && live(nodes, m) ==>
        among(done).contains(m) || #[trigger] waits(paths, work, m)
}

/// Node `m` is part of the trie, has a child for `c`, and its string is a
/// shorter end of the string of node `p`.
pub(crate) open spec fn candidate(
    nodes: Seq<DictNode>,
    paths: Seq<Seq<char>>,
    m: int,
    p: int,
    c: char,
) -> bool {
    live(nodes, m) && nodes[m].child(c) is Some && paths[m].is_suffix_of(paths[p]) && paths[m].len()
        < paths[p].len()
}

/// The nodes of a walk are nodes of the trie other than the root.
pub(crate) proof fn lemma_walk_members(
    nodes: Seq<DictNode>,
    paths: Seq<Seq<char>>,
    done: Seq<usize>,
    work: Seq<usize>,
    linking: bool,
)
    requires
        walk_ok(nodes, paths, done, work, linking),
    ensures
        forall|k: int| 0 <= k < done.len() ==>
            1 <= #[trigger] done[k] < nodes.len() && live(nodes, done[k] as int),
        forall|k: int| 0 <= k < work.len() ==>
            1 <= #[trigger] work[k] < nodes.len() && live(nodes, work[k] as int),
{
    assert forall|k: int| 0 <= k < done.len() implies 1 <= #[trigger] done[k] < nodes.len() && live(
        nodes,
        done[k] as int,
    ) by {
        assert((done + work)[k] == done[k]);
    }
    assert forall|k: int| 0 <= k < work.len() implies 1 <= #[trigger] work[k] < nodes.len() && live(
        nodes,
        work[k] as int,
    ) by {
        assert((done + work)[done.len() + k] == work[k]);
    }
}

/// Nodes with shorter strings than the next node of the walk have their links.
pub(crate) proof fn lemma_shorter_done(
    nodes: Seq<DictNode>,
    paths: Seq<Seq<char>>,
    done: Seq<usize>,
    work: Seq<usize>,
    m: int,
)
    requires
        walk_ok(nodes, paths, done, work, true),
        work.len() > 0,
        live(nodes, m),
        paths[m].len() < paths[work[0] as int].len(),
    ensures
        among(done).contains(m),
{
    if m != 0 && !among(done).contains(m) {
        assert(waits(paths, work, m));
        let k = choose|k: int| 0 <= k < work.len() && paths[work[k] as int].is_prefix_of(paths[m]);
        assert(paths[work[0] as int].len() <= paths[work[k] as int].len());
    }
}

/// A node of `done` is a node of the trie with its link.
pub(crate) proof fn lemma_done_node(
    nodes: Seq<DictNode>,
    paths: Seq<Seq<char>>,
    done: Seq<usize>,
    work: Seq<usize>,
    i: int,
)
    requires
        shape(nodes, paths),
        walk_ok(nodes, paths, done, work, true),
        among(done).contains(i),
    ensures
        0 <= i < nodes.len(),
        live(nodes, i),
        i != 0 ==> link_ok(nodes, paths, among(done), i),
{
    lemma_walk_members(nodes, paths, done, work, true);
    if i != 0 {
        let k = choose|k: int| 0 <= k < done.len() && done[k] == i;
        assert(1 <= done[k] < nodes.len());
    }
}

/// The walk starts with the children of the root.
pub(crate) proof fn lemma_walk_start(
    nodes: Seq<DictNode>,
    paths: Seq<Seq<char>>,
    firsts: Seq<usize>,
    linking: bool,
)
    requires
        shape(nodes, paths),
        DictNode::lists(nodes[0].children@, firsts),
    ensures
        walk_ok(nodes, paths, Seq::<usize>::empty(), firsts, linking),
        forall|k: int| 0 <= k < firsts.len() ==>
            (#[trigger] nodes[firsts[k] as int]).parent == Some(0usize),
{
    let done = Seq::<usize>::empty();
    let keys = choose|keys: Seq<u32>|
        {
            &&& keys.no_duplicates()
            &&& keys.to_set() == nodes[0].children@.dom()
            &&& keys.len() == firsts.len()
            &&& forall|k: int| 0 <= k < firsts.len() ==>
                firsts[k] == nodes[0].children@[#[trigger] keys[k]]
        };
    assert(done + firsts =~= firsts);
    assert(kids_ok(nodes, 0));
    assert(live(nodes, 0));
    assert forall|k: int| 0 <= k < firsts.len() implies
        1 <= #[trigger] firsts[k] < nodes.len() && live(
        nodes,
        firsts[k] as int,
    ) && nodes[firsts[k] as int].parent == Some(0usize) && nodes[firsts[k] as int].state as u32
        == keys[k] && paths[firsts[k] as int].len() == 1 by {
        assert(keys.to_set().contains(keys[k]));
        assert(nodes[0].children@.contains_key(keys[k]));
        assert(node_ok(nodes, paths, firsts[k] as int));
    }
    assert forall|a: int, b: int|
        0 <= a < firsts.len() && 0 <= b < firsts.len() && a != b implies firsts[a]
        != firsts[b] by {
        assert(nodes[firsts[a] as int].state as u32 == keys[a]);
        assert(nodes[firsts[b] as int].state as u32 == keys[b]);
    }
    assert forall|m: int| 1 <= m && live(nodes, m) implies
        among(done).contains(m) || #[trigger] waits(
        paths,
        firsts,
        m,
    ) by {
        assert(paths[m].len() >= 1) by {
            if paths[m].len() == 0 {
                assert(paths[m] =~= paths[0]);
            }
        }
        let a = lemma_prefix_node(nodes, paths, m, 1);
        assert(a != 0);
        assert(node_ok(nodes, paths, a));
        let q = nodes[a].parent->0 as int;
        assert(paths[q] =~= paths[0]) by {
            assert(paths[q] =~= paths[a].drop_last());
        }
        assert(q == 0);
        assert(nodes[0].children@.contains_key(nodes[a].state as u32));
        assert(keys.to_set().contains(nodes[a].state as u32));
        let k = choose|k: int| 0 <= k < keys.len() && keys[k] == nodes[a].state as u32;
        assert(firsts[k] == a);
        assert(paths[firsts[k] as int].is_prefix_of(paths[m]));
    }
}

/// One step of the walk: the first node of `work` has got its link, and its
/// children `kids` join the end of `work`.
pub(crate) proof fn lemma_walk_step(
    pre: Seq<DictNode>,
    nodes: Seq<DictNode>,
    paths: Seq<Seq<char>>,
    done: Seq<usize>,
    work: Seq<usize>,
    kids: Seq<usize>,
    linking: bool,
)
    requires
        shape(pre, paths),
        walk_ok(pre, paths, done, work, linking),
        work.len() > 0,
        relinked(pre, nodes),
        forall|i: int| 0 <= i < pre.len() && i != work[0] ==>
            (#[trigger] nodes[i]).suffix == pre[i].suffix,
        linking ==> link_ok(nodes, paths, among(done.push(work[0])), work[0] as int),
        DictNode::lists(nodes[work[0] as int].children@, kids),
    ensures
        walk_ok(nodes, paths, done.push(work[0]), work.drop_first() + kids, linking),
{
    let n = work[0];
    let rest = work.drop_first();
    let done2 = done.push(n);
    let work2 = rest + kids;
    lemma_relinked(pre, nodes, paths);
    lemma_walk_members(pre, paths, done, work, linking);
    assert(1 <= work[0] < nodes.len());
    let keys = choose|keys: Seq<u32>|
        {
            &&& keys.no_duplicates()
            &&& keys.to_set() == nodes[n as int].children@.dom()
            &&& keys.len() == kids.len()
            &&& forall|k: int| 0 <= k < kids.len() ==>
                kids[k] == nodes[n as int].children@[#[trigger] keys[k]]
        };
    assert((done + work)[done.len() as int] == n);
    assert(live(nodes, n as int));
    assert(kids_ok(nodes, n as int));
    assert(among(done).subset_of(among(done2))) by {
        assert forall|i: int| among(done).contains(i) implies among(done2).contains(i) by {
            if i != 0 {
                let k = choose|k: int| 0 <= k < done.len() && done[k] == i;
                assert(done2[k] == i);
            }
        }
    }
    assert(among(done2).contains(n as int)) by {
        assert(done2[done.len() as int] == n);
    }
    // what the children are
    assert forall|k: int| 0 <= k < kids.len() implies 1 <= #[trigger] kids[k] < nodes.len() && live(
        nodes,
        kids[k] as int,
    ) && nodes[kids[k] as int].parent == Some(n) && nodes[kids[k] as int].state as u32 == keys[k]
        && paths[kids[k] as int].len() == paths[n as int].len() + 1 by {
        assert(keys.to_set().contains(keys[k]));
        assert(nodes[n as int].children@.contains_key(keys[k]));
        assert(node_ok(nodes, paths, kids[k] as int));
    }
    // nothing twice
    assert(kids.no_duplicates()) by {
        assert forall|a: int, b: int|
            0 <= a < kids.len() && 0 <= b < kids.len() && a != b implies kids[a] != kids[b] by {
            assert(nodes[kids[a] as int].state as u32 == keys[a]);
            assert(nodes[kids[b] as int].state as u32 == keys[b]);
        }
    }
    assert forall|i: int, j: int| 0 <= i < (done + work).len() && 0 <= j < kids.len() implies (done
        + work)[i] != kids[j] by {
        let x = (done + work)[i];
        if x == kids[j] {
            if i < done.len() {
                assert(x == done[i]);
                assert(paths[done[i] as int].len() <= paths[work[0] as int].len());
            } else {
                let k = i - done.len();
                assert(x == work[k]);
                assert(pre[work[k] as int].parent matches Some(p)
                    && among(done).contains(p as int));
                assert(nodes[work[k] as int].state == pre[work[k] as int].state);
                let at = choose|at: int| 0 <= at < done.len() && done[at] == n;
                assert((done + work)[at] == n);
            }
        }
    }
    lemma_concat_distinct(done + work, kids);
    assert(done2 + work2 =~= (done + work) + kids);
    assert forall|k: int| 0 <= k < (done2 + work2).len() implies 1 <= #[trigger] (done2 + work2)[k]
        < nodes.len() && live(nodes, (done2 + work2)[k] as int) by {
        if k < (done + work).len() {
            assert((done2 + work2)[k] == (done + work)[k]);
        } else {
            assert((done2 + work2)[k] == kids[k - (done + work).len()]);
        }
    }
    // links
    assert forall|k: int| linking && 0 <= k < done2.len() implies link_ok(
        nodes,
        paths,
        among(done2),
        #[trigger] done2[k] as int,
    ) by {
        if k < done.len() {
            let i = done[k] as int;
            assert(done2[k] == done[k]);
            assert(link_ok(pre, paths, among(done), i));
            assert((done + work)[k] == done[k]);
            assert(i != n);
            assert(nodes[i].suffix == pre[i].suffix);
            lemma_best_frame(pre, nodes, paths, among(done), among(done2), i, pre[i].suffix->0 as int);
        }
    }
    // order
    assert forall|a: int, b: int| 0 <= a <= b < done2.len() implies
        paths[#[trigger] done2[a] as int].len() <= paths[#[trigger] done2[b] as int].len() by {
        if b < done.len() {
            assert(done2[a] == done[a] && done2[b] == done[b]);
        } else if a < done.len() {
            assert(done2[a] == done[a]);
            assert(paths[done[a] as int].len() <= paths[work[0] as int].len());
        }
    }
    assert forall|k: int| 0 <= k < work2.len() implies
        paths[n as int].len() <= paths[#[trigger] work2[k] as int].len()
        <= paths[n as int].len() + 1 by {
        if k < rest.len() {
            assert(work2[k] == work[k + 1]);
            assert(paths[work[0] as int].len() <= paths[work[k + 1] as int].len());
        } else {
            assert(work2[k] == kids[k - rest.len()]);
        }
    }
    assert forall|a: int, b: int| 0 <= a <= b < work2.len() implies
        paths[#[trigger] work2[a] as int].len() <= paths[#[trigger] work2[b] as int].len() by {
        if b < rest.len() {
            assert(work2[a] == work[a + 1] && work2[b] == work[b + 1]);
        } else {
            assert(work2[b] == kids[b - rest.len()]);
        }
    }
    assert forall|k: int| 0 <= k < done2.len() && work2.len() > 0 implies
        paths[#[trigger] done2[k] as int].len() <= paths[work2[0] as int].len() by {
        if k < done.len() {
            assert(done2[k] == done[k]);
        }
    }
    // parents
    assert forall|k: int| 0 <= k < work2.len() implies
        ((#[trigger] nodes[work2[k] as int]).parent matches Some(
        p,
    ) && among(done2).contains(p as int)) by {
        if k < rest.len() {
            assert(work2[k] == work[k + 1]);
            assert(pre[work[k + 1] as int].parent matches Some(p)
                && among(done).contains(p as int));
            assert(nodes[work[k + 1] as int].state == pre[work[k + 1] as int].state);
        } else {
            assert(work2[k] == kids[k - rest.len()]);
        }
    }
    // every other node lies below a node of the work
    assert forall|m: int| 1 <= m && live(nodes, m) implies
        among(done2).contains(m) || #[trigger] waits(
        paths,
        work2,
        m,
    ) by {
        if !among(done).contains(m) && m != n {
            assert(waits(paths, work, m));
            let k = choose|k: int| 0 <= k < work.len()
                && paths[work[k] as int].is_prefix_of(paths[m]);
            if k > 0 {
                assert(work2[k - 1] == work[k]);
            } else {
                assert(paths[n as int].len() < paths[m].len()) by {
                    if paths[n as int].len() == paths[m].len() {
                        assert(paths[n as int] =~= paths[m]);
                    }
                }
                let a = lemma_prefix_node(nodes, paths, m, paths[n as int].len() as int + 1);
                assert(a != 0) by {
                    assert(paths[0].len() == 0);
                }
                assert(node_ok(nodes, paths, a));
                let q = nodes[a].parent->0 as int;
                assert(paths[q] =~= paths[n as int]) by {
                    assert(paths[q] =~= paths[a].drop_last());
                }
                assert(q == n);
                assert(nodes[n as int].children@.contains_key(nodes[a].state as u32));
                assert(keys.to_set().contains(nodes[a].state as u32));
                let at = choose|at: int| 0 <= at < keys.len() && keys[at] == nodes[a].state as u32;
                assert(kids[at] == a);
                assert(work2[rest.len() + at] == kids[at]);
                assert(paths[work2[rest.len() + at] as int].is_prefix_of(paths[m]));
            }
        }
    }
}

/// When no work is left, the walk has visited every node of the trie but the
/// root, each once.
pub(crate) proof fn lemma_walk_all(
    nodes: Seq<DictNode>,
    paths: Seq<Seq<char>>,
    done: Seq<usize>,
    linking: bool,
)
    requires
        shape(nodes, paths),
        walk_ok(nodes, paths, done, Seq::<usize>::empty(), linking),
    ensures
        done.no_duplicates(),
        forall|k: int| 0 <= k < done.len() ==> 1 <= #[trigger] done[k] < nodes.len(),
        forall|i: int| live(nodes, i) <==> #[trigger] among(done).contains(i),
{
    let none = Seq::<usize>::empty();
    assert(done + none =~= done);
    lemma_walk_members(nodes, paths, done, none, linking);
    assert forall|i: int| live(nodes, i) <==> #[trigger] among(done).contains(i) by {
        if live(nodes, i) && i != 0 && !among(done).contains(i) {
            assert(waits(paths, none, i));
        }
        if among(done).contains(i) && i != 0 {
            let k = choose|k: int| 0 <= k < done.len() && done[k] == i;
            assert(1 <= done[k] < nodes.len());
        }
    }
}

/// When no work is left, every node of the trie has its link.
pub(crate) proof fn lemma_walk_end(nodes: Seq<DictNode>, paths: Seq<Seq<char>>, done: Seq<usize>)
    requires
        shape(nodes, paths),
        walk_ok(nodes, paths, done, Seq::<usize>::empty(), true),
    ensures
        links_ok(nodes, paths, among(done)),
{
    let none = Seq::<usize>::empty();
    let all = among(done);
    lemma_walk_all(nodes, paths, done, true);
    assert forall|i: int, j: int|
        #![trigger all.contains(i), all.contains(j)]
        all.contains(i) && all.contains(j) && paths[i] == paths[j] implies i == j by {
        assert(live(nodes, i) && live(nodes, j));
    }
    assert forall|i: int| all.contains(i) && i != 0 implies
        #[trigger] link_ok(nodes, paths, all, i) by {
        lemma_done_node(nodes, paths, done, none, i);
    }
}

} // verus!
