//! Computation of the suffix links.

use crate::adt::queue::Queue;
use crate::linked_list::list::LinkedList;
use crate::dict::dict_set::DictSet;
use crate::dict::error::ParseWeakError;
use crate::dict::links::{best_link, lemma_best_frame, lemma_relinked, link_ok, relinked, shorter};
use crate::dict::model::{
    lemma_distinct_bounded, lemma_suffix_chain, lemma_suffix_last, lemma_suffix_push,
    lemma_suffix_trans,
};
use crate::dict::trie::{kids_ok, lemma_child, live, node_ok, shape};
use crate::dict::walk::{
    among, candidate, lemma_done_node, lemma_shorter_done, lemma_walk_all, lemma_walk_end,
    lemma_walk_members, lemma_walk_start, lemma_walk_step, walk_ok,
};
use vstd::prelude::*;

verus! {

broadcast use crate::dict::dict_set::group_dict_set;

/// Puts `items` at the end of `queue`, in their order.
fn enqueue(queue: &mut LinkedList<usize>, items: &Vec<usize>)
    requires
        old(queue).wf(),
        old(queue)@.len() + items@.len() < usize::MAX,
    ensures
        final(queue).wf(),
        final(queue)@ == old(queue)@ + items@,
{
    let ghost waiting = queue@;
    let mut at: usize = 0;
    proof {
        assert(queue@ =~= waiting + items@.take(0));
    }
    while at < items.len()
        invariant
            at <= items.len(),
            queue.wf(),
            queue@ == waiting + items@.take(at as int),
            waiting.len() + items@.len() < usize::MAX,
        decreases items.len() - at,
    {
        Queue::offer(queue, items[at]);
        at = at + 1;
        proof {
            assert(queue@ =~= waiting + items@.take(at as int));
        }
    }
    proof {
        assert(items@.take(items@.len() as int) =~= items@);
    }
}

impl DictSet {
    /// The node that the suffix link of `n` has to lead to, found from the
    /// link of the parent of `n`. The parent is not the root, and it and every
    /// node with a shorter string than `n` has its link already.
    fn find_link(
        &self,
        n: usize,
        Ghost(done): Ghost<Seq<usize>>,
        Ghost(work): Ghost<Seq<usize>>,
    ) -> (target: usize)
        requires
            shape(self.nodes@, self.paths@),
            walk_ok(self.nodes@, self.paths@, done, work, true),
            work.len() > 0,
            work[0] == n,
            self.nodes@[n as int].parent matches Some(p) && p != 0,
        ensures
            target < self.nodes@.len(),
            best_link(self.nodes@, self.paths@, among(done), n as int, target as int),
    {
        let ghost nodes = self.nodes@;
        let ghost paths = self.paths@;
        proof {
            lemma_walk_members(nodes, paths, done, work, true);
            assert(node_ok(nodes, paths, n as int));
            assert(nodes[work[0] as int].parent matches Some(q) && among(done).contains(q as int));
        }
        let p = self.nodes[n].parent.unwrap();
        let c = self.nodes[n].state;
        proof {
            lemma_done_node(nodes, paths, done, work, p as int);
            assert(link_ok(nodes, paths, among(done), p as int));
        }
        let mut link = self.nodes[p].suffix.unwrap();
        proof {
            lemma_done_node(nodes, paths, done, work, link as int);
            assert forall|m: int| #[trigger] candidate(nodes, paths, m, p as int, c) implies
                paths[m].len() <= paths[link as int].len() by {
                assert(shorter(nodes, paths, m, p as int));
            }
        }
        while !self.nodes[link].is_root() && !self.nodes[link].has_child(c)
            invariant
                nodes == self.nodes@,
                paths == self.paths@,
                shape(nodes, paths),
                walk_ok(nodes, paths, done, work, true),
                p < nodes.len(),
                link < nodes.len(),
                live(nodes, link as int),
                among(done).contains(link as int),
                paths[link as int].is_suffix_of(paths[p as int]),
                paths[link as int].len() < paths[p as int].len(),
                forall|m: int| #[trigger]
                    candidate(nodes, paths, m, p as int, c) ==>
                        paths[m].len() <= paths[link as int].len(),
            decreases paths[link as int].len(),
        {
            proof {
                assert(link != 0);
                lemma_done_node(nodes, paths, done, work, link as int);
                assert(link_ok(nodes, paths, among(done), link as int));
            }
            let next = self.nodes[link].suffix.unwrap();
            proof {
                lemma_done_node(nodes, paths, done, work, next as int);
                lemma_suffix_trans(paths[next as int], paths[link as int], paths[p as int]);
                assert forall|m: int| #[trigger] candidate(nodes, paths, m, p as int, c) implies
                    paths[m].len() <= paths[next as int].len() by {
                    if paths[m].len() == paths[link as int].len() {
                        assert(paths[m] =~= paths[link as int]);
                        assert(m == link);
                    } else {
                        lemma_suffix_chain(paths[m], paths[link as int], paths[p as int]);
                        assert(shorter(nodes, paths, m, link as int));
                    }
                }
            }
            link = next;
        }
        let target = match self.nodes[link].get_child(c) {
            Some(below) => below,
            None => 0,
        };
        proof {
            let s = target as int;
            assert(paths[n as int] == paths[p as int].push(c));
            assert(paths[0].len() == 0);
            assert(live(nodes, 0));
            if nodes[link as int].child(c) is Some {
                lemma_child(nodes, paths, link as int, c);
                lemma_suffix_push(paths[link as int], paths[p as int], c);
                lemma_shorter_done(nodes, paths, done, work, s);
            } else {
                assert(link == 0) by {
                    if link != 0 {
                        assert(node_ok(nodes, paths, link as int));
                    }
                }
                assert(paths[0] =~= paths[n as int].subrange(
                    paths[n as int].len() as int,
                    paths[n as int].len() as int,
                ));
            }
            assert forall|m: int| #[trigger] shorter(nodes, paths, m, n as int) implies
                paths[m].len() <= paths[s].len() by {
                if paths[m].len() > 0 {
                    lemma_suffix_last(paths[m], paths[p as int], c);
                    assert(m != 0);
                    assert(node_ok(nodes, paths, m));
                    let q = nodes[m].parent->0 as int;
                    assert(paths[q] =~= paths[m].drop_last());
                    assert(nodes[m].state == paths[m].last());
                    assert(candidate(nodes, paths, q, p as int, c));
                    if nodes[link as int].child(c) is None {
                        assert(paths[q] =~= paths[0]);
                        assert(q == 0);
                    }
                }
            }
        }
        target
    }

    /// Gives node `n`, the next of the walk, its suffix link `target`, and
    /// puts the children of `n` at the end of the queue.
    fn settle(
        &mut self,
        n: usize,
        target: usize,
        queue: &mut LinkedList<usize>,
        Ghost(done): Ghost<Seq<usize>>,
        Ghost(ahead): Ghost<Seq<usize>>,
    )
        requires
            shape(old(self).nodes@, old(self).paths@),
            old(queue).wf(),
            walk_ok(old(self).nodes@, old(self).paths@, done, seq![n] + ahead + old(queue)@, true),
            best_link(old(self).nodes@, old(self).paths@, among(done.push(n)), n as int, target as int),
        ensures
            relinked(old(self).nodes@, final(self).nodes@),
            shape(final(self).nodes@, final(self).paths@),
            final(self).paths@ == old(self).paths@,
            final(self).count == old(self).count,
            final(self).linked == old(self).linked,
            final(self).chained == old(self).chained,
            final(queue).wf(),
            walk_ok(final(self).nodes@, final(self).paths@, done.push(n), ahead
                + final(queue)@, true),
            final(queue)@.len() >= old(queue)@.len(),
            forall|k: int|
                0 <= k < final(queue)@.len() ==>
                    (k < old(queue)@.len() && #[trigger] final(queue)@[k] == old(
                    queue,
                )@[k]) || final(self).nodes@[final(queue)@[k] as int].parent == Some(n),
            1 <= n < old(self).nodes@.len(),
            done.len() + 1 < old(self).nodes@.len(),
    {
        let ghost pre = self.nodes@;
        let ghost paths = self.paths@;
        let ghost work = seq![n] + ahead + queue@;
        let ghost waiting = queue@;
        let size = self.nodes.len();
        proof {
            lemma_walk_members(pre, paths, done, work, true);
            assert(work[0] == n);
        }
        self.nodes[n].suffix = Some(target);
        let kids = self.nodes[n].get_children();
        proof {
            let nodes = self.nodes@;
            let done2 = done.push(n);
            let work2 = ahead + (waiting + kids@);
            assert(relinked(pre, nodes));
            lemma_relinked(pre, nodes, paths);
            lemma_best_frame(pre, nodes, paths, among(done2), among(done2), n as int, target as int);
            assert(link_ok(nodes, paths, among(done2), n as int));
            lemma_walk_step(pre, nodes, paths, done, work, kids@, true);
            assert(work.drop_first() + kids@ =~= work2);
            lemma_distinct_bounded(done2 + work2, nodes.len() as int);
            assert((done2 + work2).len() == done.len() + 1 + ahead.len() + waiting.len()
                + kids@.len());
            assert forall|k: int| 0 <= k < kids@.len() implies
                (#[trigger] nodes[kids@[k] as int]).parent == Some(n) by {
                assert(work2[ahead.len() + waiting.len() + k] == kids@[k]);
                let keys = choose|keys: Seq<u32>|
                    {
                        &&& keys.no_duplicates()
                        &&& keys.to_set() == nodes[n as int].children@.dom()
                        &&& keys.len() == kids@.len()
                        &&& forall|k: int|
                            0 <= k < kids@.len() ==>
                                kids@[k] == nodes[n as int].children@[#[trigger] keys[k]]
                    };
                assert(keys.to_set().contains(keys[k]));
                assert(nodes[n as int].children@.contains_key(keys[k]));
                assert(kids_ok(nodes, n as int));
            }
        }
        enqueue(queue, &kids);
        proof {
            assert forall|k: int| 0 <= k < queue@.len() implies
                (k < waiting.len() && #[trigger] queue@[k]
                == waiting[k]) || self.nodes@[queue@[k] as int].parent == Some(n) by {
                if k >= waiting.len() {
                    assert(queue@[k] == kids@[k - waiting.len()]);
                    assert(self.nodes@[kids@[k - waiting.len()] as int].parent == Some(n));
                }
            }
        }
    }

    /// Computes every suffix link anew, level by level from the root down, so
    /// that the set can be searched. On a well-formed set this cannot fail.
    pub fn link_suffixes(&mut self) -> (r: Result<(), ParseWeakError>)
        requires
            old(self).wf(),
        ensures
            final(self).wf(),
            final(self)@ == old(self)@,
            final(self).linked(),
            r is Ok,
            final(self).arena().len() == old(self).arena().len(),
            forall|i: int|
                0 <= i < old(self).arena().len() ==> {
                    let was = old(self).arena()[i];
                    let is = #[trigger] final(self).arena()[i];
                    &&& is.state == was.state
                    &&& is.output == was.output
                    &&& is.parent == was.parent
                    &&& is.children@ == was.children@
                },
            forall|i: int| #[trigger] final(self).path(i) == old(self).path(i),
    {
        let ghost pre = self.nodes@;
        let ghost paths = self.paths@;
        let mut queue: LinkedList<usize> = LinkedList::new();
        let ghost mut done: Seq<usize> = Seq::empty();
        let firsts = self.nodes[0].get_children();
        proof {
            lemma_walk_start(pre, paths, firsts@, true);
            assert(firsts@.skip(0) + queue@ =~= firsts@);
        }
        let mut a: usize = 0;
        while a < firsts.len()
            invariant
                a <= firsts.len(),
                shape(pre, paths),
                shape(self.nodes@, paths),
                self.paths@ == paths,
                relinked(pre, self.nodes@),
                self.count == old(self).count,
                queue.wf(),
                done.len() < self.nodes@.len(),
                walk_ok(self.nodes@, paths, done, firsts@.skip(a as int) + queue@, true),
                forall|k: int| 0 <= k < firsts.len() ==>
                    (#[trigger] pre[firsts@[k] as int]).parent == Some(0usize),
                forall|k: int|
                    0 <= k < queue@.len() ==>
                        ((#[trigger] self.nodes@[queue@[k] as int]).parent matches Some(p)
                        && p != 0),
            decreases firsts.len() - a,
        {
            let n = firsts[a];
            let ghost nodes = self.nodes@;
            let ghost ahead = firsts@.skip(a as int + 1);
            let ghost waiting = queue@;
            proof {
                assert(firsts@.skip(a as int) + queue@ =~= seq![n] + ahead + queue@);
                lemma_walk_members(nodes, paths, done, seq![n] + ahead + queue@, true);
                assert((seq![n] + ahead + queue@)[0] == n);
                assert(pre[firsts@[a as int] as int].parent == Some(0usize));
                assert(nodes[n as int].state == pre[n as int].state);
                assert(node_ok(nodes, paths, n as int));
                assert(paths[0].len() == 0);
                assert(paths[0] =~= paths[n as int].subrange(
                    paths[n as int].len() as int,
                    paths[n as int].len() as int,
                ));
                assert(best_link(nodes, paths, among(done.push(n)), n as int, 0));
            }
            self.settle(n, 0, &mut queue, Ghost(done), Ghost(ahead));
            proof {
                done = done.push(n);
                assert(ahead + queue@ =~= firsts@.skip(a as int + 1) + queue@);
                assert forall|k: int| 0 <= k < queue@.len() implies
                    ((#[trigger] self.nodes@[queue@[k] as int]).parent matches Some(
                    p,
                ) && p != 0) by {
                    if k < waiting.len() && queue@[k] == waiting[k] {
                        assert(nodes[waiting[k] as int].parent matches Some(p) && p != 0);
                        lemma_walk_members(self.nodes@, paths, done, ahead + queue@, true);
                        assert((ahead + queue@)[ahead.len() + k] == queue@[k]);
                        assert(self.nodes@[queue@[k] as int].state
                            == nodes[queue@[k] as int].state);
                    }
                }
            }
            a = a + 1;
        }
        proof {
            assert(firsts@.skip(a as int) + queue@ =~= queue@);
        }
        loop
            invariant
                shape(pre, paths),
                shape(self.nodes@, paths),
                self.paths@ == paths,
                relinked(pre, self.nodes@),
                self.count == old(self).count,
                queue.wf(),
                walk_ok(self.nodes@, paths, done, queue@, true),
                done.len() < self.nodes@.len(),
                forall|k: int|
                    0 <= k < queue@.len() ==>
                        ((#[trigger] self.nodes@[queue@[k] as int]).parent matches Some(p)
                        && p != 0),
            ensures
                queue@.len() == 0,
            decreases self.nodes@.len() - done.len(),
        {
            let ghost nodes = self.nodes@;
            let ghost work = queue@;
            match Queue::poll(&mut queue) {
                None => {
                    break ;
                },
                Some(n) => {
                    let ghost waiting = queue@;
                    proof {
                        assert(nodes[work[0] as int].parent matches Some(p) && p != 0);
                        assert(seq![n] + Seq::<usize>::empty() + queue@ =~= work);
                    }
                    let target = self.find_link(n, Ghost(done), Ghost(work));
                    proof {
                        assert(among(done).subset_of(among(done.push(n)))) by {
                            assert forall|i: int| among(done).contains(i) implies
                                among(done.push(n)).contains(
                                i,
                            ) by {
                                if i != 0 {
                                    let k = choose|k: int| 0 <= k < done.len() && done[k] == i;
                                    assert(done.push(n)[k] == i);
                                }
                            }
                        }
                        lemma_best_frame(
                            nodes,
                            nodes,
                            paths,
                            among(done),
                            among(done.push(n)),
                            n as int,
                            target as int,
                        );
                    }
                    self.settle(n, target, &mut queue, Ghost(done), Ghost(Seq::empty()));
                    proof {
                        done = done.push(n);
                        assert(Seq::<usize>::empty() + queue@ =~= queue@);
                        assert forall|k: int| 0 <= k < queue@.len() implies
                            ((#[trigger] self.nodes@[queue@[k] as int]).parent matches Some(
                            p,
                        ) && p != 0) by {
                            if k < waiting.len() && queue@[k] == waiting[k] {
                                assert(waiting[k] == work[k + 1]);
                                assert(nodes[work[k + 1] as int].parent matches Some(p) && p != 0);
                                lemma_walk_members(self.nodes@, paths, done, queue@, true);
                                assert(self.nodes@[queue@[k] as int].state
                                    == nodes[queue@[k] as int].state);
                            }
                        }
                    }
                },
            }
        }
        proof {
            assert(queue@ =~= Seq::<usize>::empty());
            lemma_walk_end(self.nodes@, paths, done);
            lemma_relinked(pre, self.nodes@, paths);
            self.chained@ = among(done);
        }
        self.linked = true;
        Ok(())
    }

    /// The nodes of the trie, each once, level by level from the root down.
    pub fn breadth_first(&self) -> (order: Vec<usize>)
        requires
            self.wf(),
        ensures
            order@.len() > 0,
            order@[0] == 0,
            order@.no_duplicates(),
            forall|i: int|
                self.is_node(i) <==> exists|k: int|
                    0 <= k < order@.len() && #[trigger] order@[k] == i,
            forall|a: int, b: int|
                0 <= a <= b < order@.len() ==> {
                    self.depth(#[trigger] order@[a] as int) <= self.depth(
                        #[trigger] order@[b] as int,
                    )
                },
    {
        let ghost nodes = self.nodes@;
        let ghost paths = self.paths@;
        let size = self.nodes.len();
        let mut order: Vec<usize> = Vec::new();
        order.push(0);
        let mut queue: LinkedList<usize> = LinkedList::new();
        let ghost mut done: Seq<usize> = Seq::empty();
        let firsts = self.nodes[0].get_children();
        proof {
            lemma_walk_start(nodes, paths, firsts@, false);
            lemma_distinct_bounded(done + firsts@, size as int);
            assert(done + firsts@ =~= firsts@);
        }
        enqueue(&mut queue, &firsts);
        proof {
            assert(queue@ =~= firsts@);
            assert(order@ =~= seq![0usize] + done);
        }
        loop
            invariant
                nodes == self.nodes@,
                paths == self.paths@,
                size == nodes.len(),
                shape(nodes, paths),
                queue.wf(),
                walk_ok(nodes, paths, done, queue@, false),
                order@ == seq![0usize] + done,
                done.len() < size,
            ensures
                queue@.len() == 0,
            decreases size - done.len(),
        {
            let ghost work = queue@;
            match Queue::poll(&mut queue) {
                None => {
                    break ;
                },
                Some(n) => {
                    proof {
                        lemma_walk_members(nodes, paths, done, work, false);
                    }
                    order.push(n);
                    let kids = self.nodes[n].get_children();
                    proof {
                        lemma_walk_step(nodes, nodes, paths, done, work, kids@, false);
                        assert(work.drop_first() + kids@ =~= queue@ + kids@);
                        lemma_distinct_bounded(done.push(n) + (queue@ + kids@), size as int);
                        assert(order@ =~= seq![0usize] + done.push(n));
                        done = done.push(n);
                    }
                    enqueue(&mut queue, &kids);
                },
            }
        }
        proof {
            assert(queue@ =~= Seq::<usize>::empty());
            lemma_walk_all(nodes, paths, done, false);
            let none = Seq::<usize>::empty();
            assert forall|a: int, b: int|
                0 <= a < order@.len() && 0 <= b < order@.len() && a != b implies order@[a]
                != order@[b] by {
                if a > 0 {
                    assert(order@[a] == done[a - 1]);
                }
                if b > 0 {
                    assert(order@[b] == done[b - 1]);
                }
            }
            assert forall|i: int| self.is_node(i) <==> exists|k: int|
                0 <= k < order@.len() && #[trigger] order@[k] == i by {
                assert(self.is_node(i) == live(nodes, i));
                if live(nodes, i) {
                    assert(among(done).contains(i));
                    if i != 0 {
                        let k = choose|k: int| 0 <= k < done.len() && done[k] == i;
                        assert(order@[k + 1] == i);
                    } else {
                        assert(order@[0] == i);
                    }
                }
                if exists|k: int| 0 <= k < order@.len() && #[trigger] order@[k] == i {
                    let k = choose|k: int| 0 <= k < order@.len() && #[trigger] order@[k] == i;
                    if k > 0 {
                        assert(done[k - 1] == i);
                        assert(among(done).contains(i));
                    } else {
                        assert(live(nodes, 0));
                    }
                }
            }
            assert forall|a: int, b: int| 0 <= a <= b < order@.len() implies self.depth(
                #[trigger] order@[a] as int,
            ) <= self.depth(#[trigger] order@[b] as int) by {
                if a > 0 {
                    assert(order@[a] == done[a - 1] && order@[b] == done[b - 1]);
                    assert(paths[done[a - 1] as int].len() <= paths[done[b - 1] as int].len());
                } else {
                    assert(paths[0].len() == 0);
                }
            }
        }
        order
    }
}

} // verus!
