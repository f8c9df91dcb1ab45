//! The search for every indexed word in a text.

use crate::dict::dict_set::DictSet;
use crate::dict::error::ParseWeakError;
use crate::dict::links::{deepest, ends, lemma_word_ends, link_ok, links_ok, shorter, steps};
use crate::dict::model::{
    all_matches, lemma_matches_skip, lemma_suffix_chain, lemma_suffix_last, lemma_suffix_push,
    lemma_suffix_trans, matches_ending, matches_upto, reported,
};
use crate::dict::node::Word;
use crate::dict::trie::{holds, lemma_child, live, node_ok, shape};
use vstd::prelude::*;

verus! {

broadcast use crate::dict::dict_set::group_dict_set;

impl DictSet {
    /// Moves on by the character `c`: from the node with the longest string
    /// that ends `text` to the node with the longest string that ends `text`
    /// and `c`.
    fn advance(&self, cur: usize, c: char, Ghost(text): Ghost<Seq<char>>) -> (next: usize)
        requires
            self.wf(),
            self.linked,
            deepest(self.nodes@, self.paths@, cur as int, text),
        ensures
            deepest(self.nodes@, self.paths@, next as int, text.push(c)),
    {
        let ghost nodes = self.nodes@;
        let ghost paths = self.paths@;
        let ghost all = self.chained@;
        let mut cur = cur;
        proof {
            assert forall|m: int| #[trigger] steps(nodes, paths, m, text, c) implies paths[m].len()
                <= paths[cur as int].len() by {
                assert(ends(nodes, paths, m, text));
            }
        }
        while !self.nodes[cur].is_root() && !self.nodes[cur].has_child(c)
            invariant
                nodes == self.nodes@,
                paths == self.paths@,
                shape(nodes, paths),
                links_ok(nodes, paths, all),
                all.contains(cur as int),
                cur < nodes.len(),
                paths[cur as int].is_suffix_of(text),
                forall|m: int| #[trigger]
                    steps(nodes, paths, m, text, c) ==> paths[m].len() <= paths[cur as int].len(),
            decreases paths[cur as int].len(),
        {
            proof {
                assert(cur != 0);
                assert(link_ok(nodes, paths, all, cur as int));
            }
            let next = self.nodes[cur].suffix.unwrap();
            proof {
                lemma_suffix_trans(paths[next as int], paths[cur as int], text);
                assert forall|m: int| #[trigger] steps(nodes, paths, m, text, c) implies
                    paths[m].len() <= paths[next as int].len() by {
                    assert(all.contains(m));
                    if paths[m].len() == paths[cur as int].len() {
                        assert(paths[m] =~= paths[cur as int]);
                        assert(m == cur);
                    } else {
                        lemma_suffix_chain(paths[m], paths[cur as int], text);
                        assert(shorter(nodes, paths, m, cur as int));
                    }
                }
            }
            cur = next;
        }
        let next = match self.nodes[cur].get_child(c) {
            Some(below) => below,
            None => cur,
        };
        proof {
            let more = text.push(c);
            assert(live(nodes, 0));
            assert(all.contains(0));
            assert(paths[0].len() == 0);
            assert(live(nodes, cur as int)) by {
                if cur != 0 {
                    assert(node_ok(nodes, paths, cur as int));
                    assert(nodes[cur as int].children@.contains_key(c as u32));
                }
            }
            if nodes[cur as int].child(c) is Some {
                lemma_child(nodes, paths, cur as int, c);
                lemma_suffix_push(paths[cur as int], text, c);
            } else {
                assert(cur == 0) by {
                    if cur != 0 {
                        assert(node_ok(nodes, paths, cur as int));
                    }
                }
                assert(paths[0] =~= more.subrange(more.len() as int, more.len() as int));
            }
            assert forall|m: int| #[trigger] ends(nodes, paths, m, more) implies paths[m].len()
                <= paths[next as int].len() by {
                if paths[m].len() > 0 {
                    lemma_suffix_last(paths[m], text, c);
                    assert(m != 0);
                    assert(node_ok(nodes, paths, m));
                    let q = nodes[m].parent->0 as int;
                    assert(paths[q] =~= paths[m].drop_last());
                    assert(nodes[m].state == paths[m].last());
                    assert(steps(nodes, paths, q, text, c));
                    if nodes[cur as int].child(c) is None {
                        assert(paths[q] =~= paths[0]);
                        assert(all.contains(q));
                        assert(q == 0);
                    }
                }
            }
        }
        next
    }

    /// Adds to `found` the words that end where the first `end` characters of
    /// `text` end, the longest first, by a walk along the suffix links from
    /// `cur`, the node with the longest string that ends there.
    fn report(
        &self,
        cur: usize,
        end: usize,
        found: &mut Vec<(usize, String)>,
        Ghost(text): Ghost<Seq<char>>,
    )
        requires
            self.wf(),
            self.linked,
            1 <= end <= text.len(),
            deepest(self.nodes@, self.paths@, cur as int, text.take(end as int)),
            reported(old(found)@) == matches_upto(self@, text, end - 1),
        ensures
            reported(final(found)@) == matches_upto(self@, text, end as int),
    {
        let ghost nodes = self.nodes@;
        let ghost paths = self.paths@;
        let ghost all = self.chained@;
        let ghost seen = text.take(end as int);
        let ghost goal = matches_upto(self@, text, end as int);
        let mut check = cur;
        proof {
            assert forall|len: int| paths[cur as int].len() < len <= end implies !self@.contains(
                #[trigger] text.subrange(end - len, end as int),
            ) by {
                if self@.contains(text.subrange(end - len, end as int)) {
                    let j = lemma_word_ends(nodes, paths, text, end as int, len);
                    assert(ends(nodes, paths, j, seen));
                }
            }
            lemma_matches_skip(self@, text, end as int, end as int, paths[cur as int].len() as int);
        }
        while !self.nodes[check].is_root()
            invariant
                nodes == self.nodes@,
                paths == self.paths@,
                seen == text.take(end as int),
                1 <= end <= text.len(),
                goal == matches_upto(self@, text, end as int),
                shape(nodes, paths),
                links_ok(nodes, paths, all),
                all.contains(check as int),
                check < nodes.len(),
                paths[check as int].is_suffix_of(seen),
                reported(found@) + matches_ending(self@, text, end as int, paths[check as int].len() as int)
                    == goal,
            decreases paths[check as int].len(),
        {
            let ghost len = paths[check as int].len() as int;
            let ghost was = found@;
            let ghost w = text.subrange(end - len, end as int);
            proof {
                assert(check != 0);
                assert(link_ok(nodes, paths, all, check as int));
                assert(node_ok(nodes, paths, check as int));
                assert(len >= 1) by {
                    assert(all.contains(0));
                    if len == 0 {
                        assert(paths[check as int] =~= paths[0]);
                    }
                }
                assert(paths[check as int] =~= w);
            }
            match &self.nodes[check].output {
                Word::Yes(word) => {
                    proof {
                        assert(live(nodes, check as int));
                        assert(holds(nodes, paths, check as int, w));
                    }
                    let size = word.as_str().unicode_len();
                    found.push((end - size, word.clone()));
                    proof {
                        assert(reported(found@) =~= reported(was) + seq![(end - len, w)]);
                    }
                },
                _ => {
                    proof {
                        if self@.contains(w) {
                            let j = choose|j: int| holds(nodes, paths, j, w);
                            assert(all.contains(j));
                            assert(j == check);
                        }
                    }
                },
            }
            let next = self.nodes[check].suffix.unwrap();
            proof {
                let short = paths[next as int].len() as int;
                lemma_suffix_trans(paths[next as int], paths[check as int], seen);
                assert forall|k: int| short < k <= len - 1 implies !self@.contains(
                    #[trigger] text.subrange(end - k, end as int),
                ) by {
                    if self@.contains(text.subrange(end - k, end as int)) {
                        let j = lemma_word_ends(nodes, paths, text, end as int, k);
                        lemma_suffix_chain(paths[j], paths[check as int], seen);
                        assert(shorter(nodes, paths, j, check as int));
                    }
                }
                lemma_matches_skip(self@, text, end as int, len - 1, short);
                let here = if self@.contains(w) {
                    seq![(end - len, w)]
                } else {
                    Seq::<(int, Seq<char>)>::empty()
                };
                assert(matches_ending(self@, text, end as int, len) == here + matches_ending(
                    self@,
                    text,
                    end as int,
                    len - 1,
                ));
                assert(reported(found@) =~= reported(was) + here);
                assert(reported(found@) + matches_ending(self@, text, end as int, short)
                    =~= reported(was)
                    + (here + matches_ending(self@, text, end as int, len - 1)));
            }
            check = next;
        }
        proof {
            assert(check == 0) by {
                if check != 0 {
                    assert(node_ok(nodes, paths, check as int));
                }
            }
            assert(paths[0].len() == 0);
            assert(reported(found@) =~= goal);
        }
    }

    /// Finds every occurrence of every indexed word in `pat`, in one pass. Each
    /// is given with the index of its first character, counted in characters.
    /// They come in the order in which they end, and those that end at the
    /// same place the longest first. Where the suffix links do not fit the
    /// trie, nothing is searched and the error is returned.
    pub fn search(&self, pat: &str) -> (r: Result<Vec<(usize, String)>, ParseWeakError>)
        requires
            self.wf(),
        ensures
            self.linked() <==> r is Ok,
            r matches Ok(found) ==> reported(found@) == all_matches(self@, pat@),
    {
        if !self.linked {
            return Err(ParseWeakError);
        }
        let size = pat.unicode_len();
        let mut found: Vec<(usize, String)> = Vec::new();
        let mut cur: usize = 0;
        let mut end: usize = 0;
        proof {
            assert(reported(found@) =~= matches_upto(self@, pat@, 0));
            assert(live(self.nodes@, 0));
            assert(self.paths@[0] =~= pat@.take(0));
            assert(pat@.take(0).is_suffix_of(pat@.take(0)));
            assert forall|m: int| #[trigger] ends(self.nodes@, self.paths@, m, pat@.take(0)) implies
                self.paths@[m].len() <= self.paths@[0].len() by {}
        }
        for c in it: pat.chars()
            invariant
                it.seq() == pat@,
                size == pat@.len(),
                end == it.index(),
                self.wf(),
                self.linked,
                deepest(self.nodes@, self.paths@, cur as int, pat@.take(end as int)),
                reported(found@) == matches_upto(self@, pat@, end as int),
        {
            proof {
                assert(pat@.take(end as int).push(c) =~= pat@.take(end + 1));
            }
            cur = self.advance(cur, c, Ghost(pat@.take(end as int)));
            end = end + 1;
            self.report(cur, end, &mut found, Ghost(pat@));
        }
        Ok(found)
    }
}

} // verus!
