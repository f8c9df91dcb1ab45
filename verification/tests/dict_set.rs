use dict_matcher::dict::dict_set::{DictSet, DictSetError};
use dict_matcher::dict::error::ParseWeakError;

fn found(pairs: &[(usize, &str)]) -> Vec<(usize, String)> {
    pairs.iter().map(|(start, word)| (*start, word.to_string())).collect()
}

#[test]
fn new_set_is_empty() {
    let set = DictSet::new();
    assert_eq!(set.word_count(), 0);
    assert!(!set.contains("a"));
    assert!(!set.contains(""));
}

#[test]
fn new_set_can_be_searched() {
    let set = DictSet::new();
    assert_eq!(set.search("anything at all").unwrap(), found(&[]));
}

#[test]
fn inserted_word_is_contained() {
    let mut set = DictSet::new();
    set.insert("hold");
    assert!(set.contains("hold"));
    assert_eq!(set.word_count(), 1);
}

#[test]
fn inserted_word_stays_after_other_inserts() {
    let mut set = DictSet::new();
    set.insert("game");
    set.insert("gamete");
    set.insert("ga");
    set.insert("horizon");
    assert!(set.contains("game"));
    assert!(set.contains("gamete"));
    assert!(set.contains("ga"));
    assert!(set.contains("horizon"));
}

#[test]
fn beginnings_of_words_are_not_words() {
    let mut set = DictSet::new();
    set.insert("gamete");
    assert!(!set.contains("g"));
    assert!(!set.contains("game"));
    assert!(!set.contains("gametes"));
    assert!(!set.contains("amete"));
}

#[test]
fn inserting_twice_counts_once() {
    let mut set = DictSet::new();
    set.insert("hold");
    set.insert("hold");
    assert_eq!(set.word_count(), 1);
    set.insert("household");
    assert_eq!(set.word_count(), 2);
    set.insert("hold");
    assert_eq!(set.word_count(), 2);
}

#[test]
fn empty_word_is_never_indexed() {
    let mut set = DictSet::new();
    set.insert("");
    assert_eq!(set.word_count(), 0);
    assert!(!set.contains(""));
    assert!(matches!(set.remove(""), Err(DictSetError)));
    set.insert("a");
    set.insert("");
    assert_eq!(set.word_count(), 1);
    assert!(!set.contains(""));
}

#[test]
fn insert_all_indexes_every_word() {
    let words = ["gamete", "game", "household", "hold", "horizon", "endgame"];
    let mut set = DictSet::new();
    set.insert_all(&words);
    for word in words {
        assert!(set.contains(word));
    }
    assert_eq!(set.word_count(), 6);
}

#[test]
fn insert_all_does_not_depend_on_order() {
    let mut one = DictSet::new();
    one.insert_all(&["he", "she", "his", "hers"]);
    let mut other = DictSet::new();
    other.insert_all(&["hers", "his", "she", "he"]);
    for word in ["he", "she", "his", "hers", "h", "her", "sh", ""] {
        assert_eq!(one.contains(word), other.contains(word));
    }
    assert_eq!(one.word_count(), other.word_count());
}

#[test]
fn removed_word_is_gone_and_cannot_be_removed_again() {
    let mut set = DictSet::new();
    set.insert("hold");
    assert!(set.remove("hold").is_ok());
    assert!(!set.contains("hold"));
    assert!(matches!(set.remove("hold"), Err(DictSetError)));
    assert_eq!(set.word_count(), 0);
}

#[test]
fn removing_an_unknown_word_fails_and_changes_nothing() {
    let mut set = DictSet::new();
    set.insert_all(&["game", "gamete"]);
    assert!(set.remove("gam").is_err());
    assert!(set.remove("gamer").is_err());
    assert!(set.remove("xyz").is_err());
    assert!(set.remove("gametes").is_err());
    assert!(set.contains("game"));
    assert!(set.contains("gamete"));
    assert_eq!(set.word_count(), 2);
}

#[test]
fn word_count_follows_inserts_and_removes() {
    let mut set = DictSet::new();
    set.insert("a");
    set.insert("ab");
    set.insert("abc");
    set.insert("ab");
    assert_eq!(set.word_count(), 3);
    set.remove("ab").unwrap();
    assert_eq!(set.word_count(), 2);
    assert!(set.remove("ab").is_err());
    assert_eq!(set.word_count(), 2);
    set.insert("ab");
    assert_eq!(set.word_count(), 3);
}

#[test]
fn removing_the_shorter_word_keeps_the_longer() {
    let mut set = DictSet::new();
    set.insert_all(&["game", "gamete"]);
    set.remove("game").unwrap();
    assert!(!set.contains("game"));
    assert!(set.contains("gamete"));
    assert_eq!(set.word_count(), 1);
}

#[test]
fn removing_the_longer_word_keeps_the_shorter() {
    let mut set = DictSet::new();
    set.insert_all(&["game", "gamete"]);
    set.remove("gamete").unwrap();
    assert!(set.contains("game"));
    assert!(!set.contains("gamete"));
    assert!(!set.contains("gamet"));
    set.insert("gamete");
    assert!(set.contains("gamete"));
    assert!(set.contains("game"));
}

#[test]
fn removing_a_word_keeps_its_siblings() {
    let mut set = DictSet::new();
    set.insert_all(&["gamete", "gamer", "gate", "hold"]);
    set.remove("gamete").unwrap();
    assert!(!set.contains("gamete"));
    assert!(set.contains("gamer"));
    assert!(set.contains("gate"));
    assert!(set.contains("hold"));
    set.remove("gamer").unwrap();
    assert!(set.contains("gate"));
    set.remove("gate").unwrap();
    assert!(set.contains("hold"));
    assert_eq!(set.word_count(), 1);
}

#[test]
fn removing_the_last_word_empties_the_set() {
    let mut set = DictSet::new();
    set.insert("horizon");
    set.remove("horizon").unwrap();
    assert_eq!(set.word_count(), 0);
    assert!(!set.contains("horizon"));
    set.insert("horizon");
    assert!(set.contains("horizon"));
}

#[test]
fn walk_through_of_the_demonstration() {
    let words = ["gamete", "game", "household", "hold", "horizon", "endgame"];
    let mut set = DictSet::new();
    set.insert_all(&words);
    for word in words {
        assert!(set.contains(word));
    }
    set.remove("game").unwrap();
    for word in words {
        assert_eq!(set.contains(word), word != "game");
    }
}

#[test]
fn search_reports_overlapping_words_in_order() {
    let set = DictSet::aho_corasick(&["he", "she", "his", "hers"]).unwrap();
    let matches = set.search("ahishers").unwrap();
    assert_eq!(matches, found(&[(1, "his"), (3, "she"), (4, "he"), (4, "hers")]));
}

#[test]
fn search_reports_words_that_end_together_longest_first() {
    let set = DictSet::aho_corasick(&["c", "bc", "abc", "b"]).unwrap();
    let matches = set.search("abc").unwrap();
    assert_eq!(matches, found(&[(1, "b"), (0, "abc"), (1, "bc"), (2, "c")]));
}

#[test]
fn search_reports_every_repetition() {
    let set = DictSet::aho_corasick(&["aa"]).unwrap();
    assert_eq!(set.search("aaaa").unwrap(), found(&[(0, "aa"), (1, "aa"), (2, "aa")]));
}

#[test]
fn search_finds_nothing_where_nothing_is() {
    let set = DictSet::aho_corasick(&["hold", "horizon"]).unwrap();
    assert_eq!(set.search("").unwrap(), found(&[]));
    assert_eq!(set.search("hol horizo").unwrap(), found(&[]));
}

#[test]
fn search_in_a_sentence() {
    let words = ["gamete", "game", "household", "hold", "horizon", "endgame"];
    let set = DictSet::aho_corasick(&words).unwrap();
    let text = "The soldiers could barely hold off the orcs until they saw the cavalry charging in from the horizon. The endgame was near.";
    let matches = set.search(text).unwrap();
    assert_eq!(
        matches,
        found(&[(26, "hold"), (92, "horizon"), (105, "endgame"), (108, "game")])
    );
    for (start, word) in matches {
        assert_eq!(&text[start..start + word.len()], word);
    }
}

#[test]
fn search_counts_characters_not_bytes() {
    let set = DictSet::aho_corasick(&["é", "né", "z"]).unwrap();
    let matches = set.search("ééné z").unwrap();
    assert_eq!(matches, found(&[(0, "é"), (1, "é"), (2, "né"), (3, "é"), (5, "z")]));
}

#[test]
fn search_needs_links() {
    let mut set = DictSet::new();
    set.insert("he");
    assert!(matches!(set.search("he"), Err(ParseWeakError)));
    assert!(set.link_suffixes().is_ok());
    assert_eq!(set.search("he").unwrap(), found(&[(0, "he")]));
}

#[test]
fn insert_that_grows_the_trie_asks_for_new_links() {
    let mut set = DictSet::aho_corasick(&["ab"]).unwrap();
    set.insert("b");
    assert!(set.search("ab").is_err());
    set.link_suffixes().unwrap();
    assert_eq!(set.search("ab").unwrap(), found(&[(0, "ab"), (1, "b")]));
}

#[test]
fn insert_of_a_beginning_keeps_the_links() {
    let mut set = DictSet::aho_corasick(&["hers", "she"]).unwrap();
    set.insert("he");
    set.insert("sh");
    set.insert("");
    set.insert("she");
    assert_eq!(
        set.search("shers").unwrap(),
        found(&[(0, "sh"), (0, "she"), (1, "he"), (1, "hers")])
    );
}

#[test]
fn remove_keeps_the_links() {
    let mut set = DictSet::aho_corasick(&["ab", "b", "bc", "abcd"]).unwrap();
    set.remove("b").unwrap();
    assert_eq!(set.search("abcd").unwrap(), found(&[(0, "ab"), (1, "bc"), (0, "abcd")]));
    set.remove("bc").unwrap();
    assert_eq!(set.search("abcd").unwrap(), found(&[(0, "ab"), (0, "abcd")]));
    set.remove("abcd").unwrap();
    assert_eq!(set.search("abcd").unwrap(), found(&[(0, "ab")]));
    set.remove("ab").unwrap();
    assert_eq!(set.search("abcd").unwrap(), found(&[]));
}

#[test]
fn links_can_be_computed_again() {
    let mut set = DictSet::aho_corasick(&["he", "she"]).unwrap();
    set.remove("he").unwrap();
    set.insert("his");
    set.link_suffixes().unwrap();
    set.link_suffixes().unwrap();
    assert_eq!(set.search("this she").unwrap(), found(&[(1, "his"), (5, "she")]));
}

#[test]
fn removed_and_inserted_again_word_is_found() {
    let mut set = DictSet::aho_corasick(&["ab", "b"]).unwrap();
    set.remove("b").unwrap();
    set.insert("b");
    assert!(set.search("ab").is_err());
    set.link_suffixes().unwrap();
    assert_eq!(set.search("ab").unwrap(), found(&[(0, "ab"), (1, "b")]));
}

#[test]
fn duplicates_in_the_list_do_not_matter() {
    let with = DictSet::aho_corasick(&["he", "she", "he", "hers", "she", "he"]).unwrap();
    let without = DictSet::aho_corasick(&["he", "she", "hers"]).unwrap();
    assert_eq!(with.word_count(), without.word_count());
    for word in ["he", "she", "hers", "her", "h", "s", "his"] {
        assert_eq!(with.contains(word), without.contains(word));
    }
    for text in ["ushers", "hehe", "", "she sells seashells"] {
        assert_eq!(with.search(text).unwrap(), without.search(text).unwrap());
    }
}

#[test]
fn aho_corasick_of_no_words() {
    let set = DictSet::aho_corasick(&[]).unwrap();
    assert_eq!(set.word_count(), 0);
    assert_eq!(set.search("abc").unwrap(), found(&[]));
}

#[test]
fn aho_corasick_skips_the_empty_word() {
    let set = DictSet::aho_corasick(&["", "a"]).unwrap();
    assert_eq!(set.word_count(), 1);
    assert_eq!(set.search("aa").unwrap(), found(&[(0, "a"), (1, "a")]));
}

#[test]
fn errors_have_names() {
    assert_eq!(DictSetError.to_string(), "DictSetError");
    assert_eq!(ParseWeakError.to_string(), "ParseWeakError");
}
