use dict_matcher::dict::dict_set::DictSet;
use dict_matcher::dict::error::{ParseWeakError, TryUpgrade};
use dict_matcher::dict::node::{DictNode, TryLink};

fn node(set: &DictSet, id: usize) -> &DictNode {
    Some(id).try_upgrade(set).expect("a node of the arena")
}

/// The string that leads from the root to a node, read off the parent links.
fn path(set: &DictSet, id: usize) -> String {
    let mut chars = Vec::new();
    let mut at = id;
    while let Some(parent) = node(set, at).parent {
        chars.push(node(set, at).state);
        at = parent;
    }
    assert_eq!(at, 0);
    chars.iter().rev().collect()
}

fn paths_in_order(set: &DictSet) -> Vec<String> {
    set.breadth_first().into_iter().map(|id| path(set, id)).collect()
}

fn sorted(mut list: Vec<String>) -> Vec<String> {
    list.sort();
    list
}

fn strings(list: &[&str]) -> Vec<String> {
    list.iter().map(|s| s.to_string()).collect()
}

#[test]
fn empty_trie_has_only_the_root() {
    let set = DictSet::new();
    assert_eq!(set.breadth_first(), vec![0]);
    assert!(node(&set, 0).is_root());
    assert_eq!(node(&set, 0).state, '\0');
}

#[test]
fn trie_holds_the_beginnings_of_its_words() {
    let mut set = DictSet::new();
    set.insert_all(&["he", "she", "his", "hers"]);
    assert_eq!(
        sorted(paths_in_order(&set)),
        sorted(strings(&["", "h", "he", "her", "hers", "hi", "his", "s", "sh", "she"]))
    );
}

#[test]
fn breadth_first_goes_level_by_level() {
    let mut set = DictSet::new();
    set.insert_all(&["he", "she", "his", "hers"]);
    let order = set.breadth_first();
    assert_eq!(order[0], 0);
    let lengths: Vec<usize> = order.iter().map(|id| path(&set, *id).chars().count()).collect();
    assert_eq!(lengths, vec![0, 1, 1, 2, 2, 2, 3, 3, 3, 4]);
    let mut ids = order.clone();
    ids.sort();
    ids.dedup();
    assert_eq!(ids.len(), order.len());
}

#[test]
fn word_nodes_hold_their_words() {
    let mut set = DictSet::new();
    set.insert_all(&["he", "hers"]);
    for id in set.breadth_first() {
        let here = path(&set, id);
        let node = node(&set, id);
        assert_eq!(node.is_word(), here == "he" || here == "hers");
        assert_eq!(node.is_root(), id == 0);
    }
}

#[test]
fn inserting_keeps_the_nodes_that_are_there() {
    let mut set = DictSet::new();
    set.insert("game");
    let before: Vec<(usize, String)> =
        set.breadth_first().into_iter().map(|id| (id, path(&set, id))).collect();
    set.insert("gamete");
    set.insert("ga");
    set.insert("hold");
    for (id, was) in before {
        assert_eq!(path(&set, id), was);
    }
    assert_eq!(set.breadth_first().len(), 1 + 6 + 4);
}

#[test]
fn pruning_takes_only_what_no_word_needs() {
    let mut set = DictSet::new();
    set.insert_all(&["game", "gamete"]);
    set.remove("gamete").unwrap();
    assert_eq!(paths_in_order(&set), strings(&["", "g", "ga", "gam", "game"]));
    set.insert("gamete");
    set.remove("game").unwrap();
    assert_eq!(
        paths_in_order(&set),
        strings(&["", "g", "ga", "gam", "game", "gamet", "gamete"])
    );
    set.remove("gamete").unwrap();
    assert_eq!(paths_in_order(&set), strings(&[""]));
}

#[test]
fn pruning_stops_where_the_way_forks() {
    let mut set = DictSet::new();
    set.insert_all(&["gamete", "gamer", "gate"]);
    set.remove("gamete").unwrap();
    assert_eq!(
        sorted(paths_in_order(&set)),
        sorted(strings(&["", "g", "ga", "gam", "game", "gamer", "gat", "gate"]))
    );
    set.remove("gamer").unwrap();
    assert_eq!(sorted(paths_in_order(&set)), sorted(strings(&["", "g", "ga", "gat", "gate"])));
}

#[test]
fn suffix_links_name_the_longest_shorter_end() {
    let set = DictSet::aho_corasick(&["he", "she", "his", "hers"]).unwrap();
    let mut seen = 0;
    for id in set.breadth_first() {
        if id == 0 {
            continue;
        }
        let here = path(&set, id);
        let link = node(&set, id).suffix.expect("a suffix link");
        let expected = match here.as_str() {
            "h" | "s" | "he" | "hi" | "her" => "",
            "sh" => "h",
            "she" => "he",
            "his" | "hers" => "s",
            other => panic!("no such node: {}", other),
        };
        assert_eq!(path(&set, link), expected);
        seen += 1;
    }
    assert_eq!(seen, 9);
}

#[test]
fn suffix_links_lead_to_the_root() {
    let words = ["gamete", "game", "household", "hold", "horizon", "endgame", "amen", "men"];
    let set = DictSet::aho_corasick(&words).unwrap();
    for id in set.breadth_first() {
        let mut at = id;
        let mut hops = 0;
        let mut length = path(&set, at).chars().count();
        while at != 0 {
            at = node(&set, at).suffix.expect("a suffix link");
            let shorter = path(&set, at).chars().count();
            assert!(shorter < length);
            length = shorter;
            hops += 1;
        }
        assert!(hops <= path(&set, id).chars().count());
    }
}

#[test]
fn links_are_found_or_fail() {
    let mut set = DictSet::new();
    set.insert("a");
    assert_eq!(Some(1).try_upgrade(&set).unwrap().state, 'a');
    assert!(matches!(None.try_upgrade(&set), Err(ParseWeakError)));
    assert!(matches!(Some(2).try_upgrade(&set), Err(ParseWeakError)));
    assert!(matches!(Some(usize::MAX).try_upgrade(&set), Err(ParseWeakError)));
}

#[test]
fn parent_and_suffix_are_followed_or_fail() {
    let set = DictSet::aho_corasick(&["ab", "b"]).unwrap();
    let order = set.breadth_first();
    for id in order {
        let here = path(&set, id);
        if id == 0 {
            assert!(matches!(Some(id).try_parent(&set), Err(ParseWeakError)));
            assert!(matches!(Some(id).try_suffix(&set), Err(ParseWeakError)));
            continue;
        }
        let parent = Some(id).try_parent(&set).unwrap().expect("a parent");
        let suffix = Some(id).try_suffix(&set).unwrap().expect("a suffix link");
        let mut stem = here.clone();
        stem.pop();
        assert_eq!(path(&set, parent), stem);
        assert_eq!(path(&set, suffix), if here == "ab" { "b" } else { "" });
    }
    assert!(matches!(None.try_parent(&set), Err(ParseWeakError)));
    assert!(matches!(Some(100).try_suffix(&set), Err(ParseWeakError)));
}

#[test]
fn unlinked_nodes_have_no_suffix() {
    let mut set = DictSet::new();
    set.insert("a");
    assert!(matches!(Some(1).try_suffix(&set), Err(ParseWeakError)));
    assert_eq!(Some(1).try_parent(&set).unwrap(), Some(0));
}
