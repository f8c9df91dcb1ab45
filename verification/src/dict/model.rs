//! The words of a set and the occurrences of words in a text, as plain
//! mathematics: what the contracts of the set speak of.

use vstd::prelude::*;

verus! {

/// Whether `p` is the beginning of some word of `words`.
pub open spec fn has_prefix(words: Set<Seq<char>>, p: Seq<char>) -> bool {
    exists|w: Seq<char>| #[trigger] words.contains(w) && p.is_prefix_of(w)
}

/// The words after `word` has been indexed. The empty word is never indexed.
pub open spec fn with_word(words: Set<Seq<char>>, word: Seq<char>) -> Set<Seq<char>> {
    if word.len() > 0 {
        words.insert(word)
    } else {
        words
    }
}

/// The words after every word of `list` has been indexed.
pub open spec fn with_words(words: Set<Seq<char>>, list: Seq<Seq<char>>) -> Set<Seq<char>> {
    Set::new(|w: Seq<char>| words.contains(w) || (w.len() > 0 && list.contains(w)))
}

/// The strings of a list of string slices.
pub open spec fn texts(list: Seq<&str>) -> Seq<Seq<char>> {
    list.map_values(|w: &str| w@)
}

/// The words after `word` has been taken out.
pub open spec fn without_word(words: Set<Seq<char>>, word: Seq<char>) -> Set<Seq<char>> {
    words.remove(word)
}

/// An occurrence of a word in a text: the index of its first character, and
/// the word.
pub type Occurrence = (int, Seq<char>);

/// The occurrences of words of `words` in `text` that end just before `end` and
/// have at most `len` characters, the longest first.
pub open spec fn matches_ending(words: Set<Seq<char>>, text: Seq<char>, end: int, len: int) -> Seq<
    Occurrence,
>
    decreases len,
{
    if len <= 0 {
        Seq::empty()
    } else {
        let w = text.subrange(end - len, end);
        let here = if words.contains(w) {
            seq![(end - len, w)]
        } else {
            Seq::empty()
        };
        here + matches_ending(words, text, end, len - 1)
    }
}

/// The occurrences of words of `words` in the first `end` characters of `text`:
/// by the place where they end, and among those that end at one place the
/// longest first.
pub open spec fn matches_upto(words: Set<Seq<char>>, text: Seq<char>, end: int) -> Seq<Occurrence>
    decreases end,
{
    if end <= 0 {
        Seq::empty()
    } else {
        matches_upto(words, text, end - 1) + matches_ending(words, text, end, end)
    }
}

/// Every occurrence of a word of `words` in `text`, in the order in which a
/// reader of the text sees them end.
pub open spec fn all_matches(words: Set<Seq<char>>, text: Seq<char>) -> Seq<Occurrence> {
    matches_upto(words, text, text.len() as int)
}

/// What a list of found occurrences says: for each, where it starts and which
/// word it is.
pub open spec fn reported(found: Seq<(usize, String)>) -> Seq<Occurrence> {
    found.map_values(|m: (usize, String)| (m.0 as int, m.1@))
}

/// Lengths between `lo` and `hi` at which no word ends add nothing.
pub(crate) proof fn lemma_matches_skip(
    words: Set<Seq<char>>,
    text: Seq<char>,
    end: int,
    hi: int,
    lo: int,
)
    requires
        0 <= lo <= hi <= end <= text.len(),
        forall|len: int| lo < len <= hi ==>
            !words.contains(#[trigger] text.subrange(end - len, end)),
    ensures
        matches_ending(words, text, end, hi) == matches_ending(words, text, end, lo),
    decreases hi - lo,
{
    if lo < hi {
        assert(!words.contains(text.subrange(end - hi, end)));
        lemma_matches_skip(words, text, end, hi - 1, lo);
        assert(matches_ending(words, text, end, hi) =~= matches_ending(words, text, end, hi - 1));
    }
}

/// Of two ends of one string, the shorter is an end of the longer.
pub(crate) proof fn lemma_suffix_chain(a: Seq<char>, b: Seq<char>, x: Seq<char>)
    requires
        a.is_suffix_of(x),
        b.is_suffix_of(x),
        a.len() <= b.len(),
    ensures
        a.is_suffix_of(b),
{
    assert(a =~= b.subrange(b.len() - a.len(), b.len() as int));
}

/// An end of an end is an end.
pub(crate) proof fn lemma_suffix_trans(a: Seq<char>, b: Seq<char>, x: Seq<char>)
    requires
        a.is_suffix_of(b),
        b.is_suffix_of(x),
    ensures
        a.is_suffix_of(x),
{
    assert(a =~= x.subrange(x.len() - a.len(), x.len() as int));
}

/// An end stays an end when both strings go on with the same character.
pub(crate) proof fn lemma_suffix_push(v: Seq<char>, w: Seq<char>, c: char)
    requires
        v.is_suffix_of(w),
    ensures
        v.push(c).is_suffix_of(w.push(c)),
{
    assert(v.push(c) =~= w.push(c).subrange(w.push(c).len() - v.push(c).len(), w.push(c).len() as int));
}

/// A nonempty end of a string that stops with `c` stops with `c` too, and
/// what comes before is an end of what comes before.
pub(crate) proof fn lemma_suffix_last(a: Seq<char>, w: Seq<char>, c: char)
    requires
        a.is_suffix_of(w.push(c)),
        a.len() > 0,
    ensures
        a.last() == c,
        a.drop_last().is_suffix_of(w),
{
    let x = w.push(c);
    assert(a[a.len() - 1] == x.subrange(x.len() - a.len(), x.len() as int)[a.len() - 1]);
    assert(a.drop_last() =~= w.subrange(w.len() - a.drop_last().len(), w.len() as int));
}

/// A sequence without repetition is the longer for another such sequence
/// that shares no item with it.
pub(crate) proof fn lemma_concat_distinct(x: Seq<usize>, y: Seq<usize>)
    requires
        x.no_duplicates(),
        y.no_duplicates(),
        forall|i: int, j: int| 0 <= i < x.len() && 0 <= j < y.len() ==> x[i] != y[j],
    ensures
        (x + y).no_duplicates(),
{
    let all = x + y;
    assert forall|i: int, j: int| 0 <= i < all.len() && 0 <= j < all.len() && i != j implies all[i]
        != all[j] by {
        if i < x.len() && j < x.len() {
            assert(all[i] == x[i] && all[j] == x[j]);
        } else if i >= x.len() && j >= x.len() {
            assert(all[i] == y[i - x.len()] && all[j] == y[j - x.len()]);
        } else if i < x.len() {
            assert(all[i] == x[i] && all[j] == y[j - x.len()]);
        } else {
            assert(all[j] == x[j] && all[i] == y[i - x.len()]);
        }
    }
}

/// Different numbers from 1 up to, but not including, `hi` are fewer than `hi`.
pub(crate) proof fn lemma_distinct_bounded(s: Seq<usize>, hi: int)
    requires
        s.no_duplicates(),
        forall|k: int| 0 <= k < s.len() ==> 1 <= #[trigger] s[k] < hi,
    ensures
        s.len() == 0 || s.len() < hi,
    decreases hi,
{
    if s.len() > 0 {
        assert(1 <= s[0] < hi);
        if exists|k: int| 0 <= k < s.len() && s[k] == hi - 1 {
            let k = choose|k: int| 0 <= k < s.len() && s[k] == hi - 1;
            let rest = s.remove(k);
            assert forall|i: int| 0 <= i < rest.len() implies 1 <= #[trigger] rest[i] < hi - 1 by {
                if i < k {
                    assert(rest[i] == s[i]);
                } else {
                    assert(rest[i] == s[i + 1]);
                }
            }
            assert forall|i: int, j: int|
                0 <= i < rest.len() && 0 <= j < rest.len() && i != j implies rest[i]
                != rest[j] by {
                let si = if i < k { i } else { i + 1 };
                let sj = if j < k { j } else { j + 1 };
                assert(rest[i] == s[si] && rest[j] == s[sj]);
            }
            lemma_distinct_bounded(rest, hi - 1);
        } else {
            assert forall|i: int| 0 <= i < s.len() implies 1 <= #[trigger] s[i] < hi - 1 by {}
            lemma_distinct_bounded(s, hi - 1);
        }
    }
}

} // verus!
