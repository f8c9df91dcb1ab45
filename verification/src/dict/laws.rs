//! What holds of inserting, removing and matching, whatever the words and the
//! texts are.

use crate::dict::model::{
    all_matches, matches_ending, matches_upto, with_word, with_words, without_word, Occurrence,
};
use vstd::prelude::*;

verus! {

/// A word that has been inserted is indexed, and stays indexed when any other
/// word is inserted after it. This holds of every word but the empty one,
/// which is never indexed.
pub proof fn lemma_inserted_word_stays(words: Set<Seq<char>>, word: Seq<char>, other: Seq<char>)
    requires
        word.len() > 0,
    ensures
        with_word(words, word).contains(word),
        with_word(with_word(words, word), other).contains(word),
{
}

/// Inserting a word changes nothing for any other word.
pub proof fn lemma_insert_keeps_others(words: Set<Seq<char>>, word: Seq<char>, other: Seq<char>)
    requires
        other != word,
    ensures
        with_word(words, word).contains(other) == words.contains(other),
{
}

/// A word that has been removed is no longer indexed, so that removing it
/// once more finds nothing to remove.
pub proof fn lemma_removed_word_is_gone(words: Set<Seq<char>>, word: Seq<char>)
    ensures
        !without_word(words, word).contains(word),
        without_word(without_word(words, word), word) == without_word(words, word),
{
    assert(without_word(without_word(words, word), word) =~= without_word(words, word));
}

/// Removing a word changes nothing for any other word, be it longer,
/// shorter, or a sibling of the removed one.
pub proof fn lemma_remove_keeps_others(words: Set<Seq<char>>, word: Seq<char>, other: Seq<char>)
    requires
        other != word,
    ensures
        without_word(words, word).contains(other) == words.contains(other),
{
}

/// Inserting a word adds one to the number of words where the word is new and
/// not empty, and nothing otherwise.
pub proof fn lemma_insert_counts(words: Set<Seq<char>>, word: Seq<char>)
    requires
        words.finite(),
    ensures
        with_word(words, word).finite(),
        with_word(words, word).len() == words.len() + if word.len() > 0 && !words.contains(word) {
            1int
        } else {
            0
        },
{
}

/// Removing a word takes one from the number of words where the word was
/// indexed, and nothing otherwise.
pub proof fn lemma_remove_counts(words: Set<Seq<char>>, word: Seq<char>)
    requires
        words.finite(),
    ensures
        without_word(words, word).finite(),
        without_word(words, word).len() == words.len() - if words.contains(word) {
            1int
        } else {
            0
        },
{
}

/// What a list of words indexes depends on the words that occur in it, not on
/// how often or where they occur. So a list and the same list without its
/// duplicates give sets with the same words and the same matches in any text.
pub proof fn lemma_duplicates_do_not_matter(
    list: Seq<Seq<char>>,
    unique: Seq<Seq<char>>,
    text: Seq<char>,
)
    requires
        unique.no_duplicates(),
        unique.to_set() == list.to_set(),
    ensures
        with_words(Set::empty(), unique) == with_words(Set::empty(), list),
        all_matches(with_words(Set::empty(), unique), text) == all_matches(
            with_words(Set::empty(), list),
            text,
        ),
{
    assert forall|w: Seq<char>| unique.contains(w) == list.contains(w) by {
        assert(unique.to_set().contains(w) == unique.contains(w));
        assert(list.to_set().contains(w) == list.contains(w));
    }
    assert(with_words(Set::empty(), unique) =~= with_words(Set::empty(), list));
}

/// Inserting the words of a list one by one gives what inserting the list
/// gives.
pub proof fn lemma_insert_all_is_insert(
    words: Set<Seq<char>>,
    list: Seq<Seq<char>>,
    word: Seq<char>,
)
    ensures
        with_words(words, list.push(word)) == with_word(with_words(words, list), word),
{
    assert forall|w: Seq<char>| list.push(word).contains(w) <==>
        (list.contains(w) || w == word) by {
        if list.contains(w) {
            let k = choose|k: int| 0 <= k < list.len() && list[k] == w;
            assert(list.push(word)[k] == w);
        }
        if w == word {
            assert(list.push(word)[list.len() as int] == w);
        }
        if list.push(word).contains(w) {
            let k = choose|k: int| 0 <= k < list.push(word).len() && list.push(word)[k] == w;
            if k < list.len() {
                assert(list[k] == w);
            }
        }
    }
    let both = with_words(words, list.push(word));
    let one = with_words(words, list);
    assert forall|w: Seq<char>| both.contains(w) <==> with_word(one, word).contains(w) by {
        assert(list.push(word).contains(w) <==> (list.contains(w) || w == word));
    }
    assert(both =~= with_word(one, word));
}

/// Whether the word `w` stands in `text` from index `start` on.
pub open spec fn occurs(text: Seq<char>, start: int, w: Seq<char>) -> bool {
    0 <= start && start + w.len() <= text.len() && text.subrange(start, start + w.len()) == w
}

/// What the occurrences that end at one place and have at most `len`
/// characters are.
pub proof fn lemma_matches_ending(
    words: Set<Seq<char>>,
    text: Seq<char>,
    end: int,
    len: int,
    found: Occurrence,
)
    requires
        0 <= len <= end <= text.len(),
    ensures
        matches_ending(words, text, end, len).contains(found) <==> (words.contains(found.1) && 1
            <= found.1.len() <= len && found.0 + found.1.len() == end && occurs(
            text,
            found.0,
            found.1,
        )),
    decreases len,
{
    if len > 0 {
        let w = text.subrange(end - len, end);
        let here = if words.contains(w) {
            seq![(end - len, w)]
        } else {
            Seq::<Occurrence>::empty()
        };
        let rest = matches_ending(words, text, end, len - 1);
        lemma_matches_ending(words, text, end, len - 1, found);
        assert(matches_ending(words, text, end, len) == here + rest);
        lemma_contains_concat(here, rest, found);
        if here.contains(found) {
            assert(here[0] == found);
        }
        if words.contains(found.1) && found.1.len() == len && found.0 + len == end && occurs(
            text,
            found.0,
            found.1,
        ) {
            assert(found.1 == w);
            assert(here[0] == found);
        }
    }
}

/// An item is in two sequences put together where it is in one of them.
proof fn lemma_contains_concat(a: Seq<Occurrence>, b: Seq<Occurrence>, x: Occurrence)
    ensures
        (a + b).contains(x) <==> (a.contains(x) || b.contains(x)),
{
    if a.contains(x) {
        let k = choose|k: int| 0 <= k < a.len() && a[k] == x;
        assert((a + b)[k] == x);
    }
    if b.contains(x) {
        let k = choose|k: int| 0 <= k < b.len() && b[k] == x;
        assert((a + b)[a.len() + k] == x);
    }
    if (a + b).contains(x) {
        let k = choose|k: int| 0 <= k < (a + b).len() && (a + b)[k] == x;
        if k < a.len() {
            assert(a[k] == x);
        } else {
            assert(b[k - a.len()] == x);
        }
    }
}

/// What the occurrences in the first `end` characters of a text are.
pub proof fn lemma_matches_upto(words: Set<Seq<char>>, text: Seq<char>, end: int, found: Occurrence)
    requires
        0 <= end <= text.len(),
    ensures
        matches_upto(words, text, end).contains(found) <==>
            (words.contains(found.1) && found.1.len()
            >= 1 && found.0 + found.1.len() <= end && occurs(text, found.0, found.1)),
    decreases end,
{
    if end > 0 {
        lemma_matches_upto(words, text, end - 1, found);
        lemma_matches_ending(words, text, end, end, found);
        lemma_contains_concat(
            matches_upto(words, text, end - 1),
            matches_ending(words, text, end, end),
            found,
        );
    }
}

/// Matching is complete and exact: a word is reported at a place if and only
/// if it is an indexed word, is not empty, and stands in the text at that
/// place.
pub proof fn lemma_matches_are_occurrences(
    words: Set<Seq<char>>,
    text: Seq<char>,
    found: Occurrence,
)
    ensures
        all_matches(words, text).contains(found) <==> (words.contains(found.1) && found.1.len() >= 1
            && occurs(text, found.0, found.1)),
{
    lemma_matches_upto(words, text, text.len() as int, found);
}

} // verus!
