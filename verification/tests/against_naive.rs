use dict_matcher::dict::dict_set::DictSet;

/// A small generator of numbers that gives the same numbers on every run.
struct Numbers(u64);

impl Numbers {
    fn next(&mut self, below: u64) -> u64 {
        self.0 = self.0.wrapping_mul(6364136223846793005).wrapping_add(1442695040888963407);
        (self.0 >> 33) % below
    }

    fn word(&mut self, letters: &[char], longest: u64) -> String {
        let length = 1 + self.next(longest);
        (0..length).map(|_| letters[self.next(letters.len() as u64) as usize]).collect()
    }
}

/// Every occurrence of a word of `words` in `text`, by the place where it
/// ends, the longest first, found by trying every place and every length.
fn occurrences(words: &[String], text: &str) -> Vec<(usize, String)> {
    let chars: Vec<char> = text.chars().collect();
    let mut found = Vec::new();
    for end in 1..=chars.len() {
        for start in 0..end {
            let piece: String = chars[start..end].iter().collect();
            if words.contains(&piece) {
                found.push((start, piece));
            }
        }
    }
    found
}

fn check(seed: u64, letters: &[char], count: usize, longest: u64, text_length: u64) {
    let mut numbers = Numbers(seed);
    let words: Vec<String> = (0..count).map(|_| numbers.word(letters, longest)).collect();
    let list: Vec<&str> = words.iter().map(|w| w.as_str()).collect();
    let mut set = DictSet::aho_corasick(&list).unwrap();
    let text: String =
        (0..text_length).map(|_| letters[numbers.next(letters.len() as u64) as usize]).collect();
    assert_eq!(set.search(&text).unwrap(), occurrences(&words, &text));

    let mut distinct = words.clone();
    distinct.sort();
    distinct.dedup();
    assert_eq!(set.word_count(), distinct.len());

    // take every other word out again, and look once more
    let mut left = Vec::new();
    for (index, word) in distinct.iter().enumerate() {
        if index % 2 == 0 {
            assert!(set.remove(word).is_ok());
            assert!(!set.contains(word));
        } else {
            left.push(word.clone());
        }
    }
    assert_eq!(set.word_count(), left.len());
    for word in &left {
        assert!(set.contains(word));
    }
    assert_eq!(set.search(&text).unwrap(), occurrences(&left, &text));

    // put some back, link again, and look once more
    for (index, word) in distinct.iter().enumerate() {
        if index % 4 == 0 {
            set.insert(word);
            left.push(word.clone());
        }
    }
    set.link_suffixes().unwrap();
    assert_eq!(set.search(&text).unwrap(), occurrences(&left, &text));
    assert_eq!(set.word_count(), left.len());
}

#[test]
fn search_agrees_with_trying_every_place_on_two_letters() {
    for seed in 0..20 {
        check(seed, &['a', 'b'], 12, 5, 200);
    }
}

#[test]
fn search_agrees_with_trying_every_place_on_four_letters() {
    for seed in 100..120 {
        check(seed, &['a', 'b', 'c', 'é'], 40, 6, 300);
    }
}

#[test]
fn search_agrees_with_trying_every_place_on_long_words() {
    for seed in 200..210 {
        check(seed, &['x', 'y', 'z'], 25, 12, 400);
    }
}

#[test]
fn many_words_and_a_long_text() {
    let mut numbers = Numbers(7);
    let letters = ['a', 'b', 'c', 'd', 'e', 'f', 'g', 'h'];
    let words: Vec<String> = (0..3000).map(|_| numbers.word(&letters, 8)).collect();
    let list: Vec<&str> = words.iter().map(|w| w.as_str()).collect();
    let set = DictSet::aho_corasick(&list).unwrap();
    let text: String = (0..20000).map(|_| letters[numbers.next(8) as usize]).collect();
    let found = set.search(&text).unwrap();
    let chars: Vec<char> = text.chars().collect();
    let mut last_end = 0;
    for (start, word) in &found {
        let end = start + word.chars().count();
        let piece: String = chars[*start..end].iter().collect();
        assert_eq!(&piece, word);
        assert!(set.contains(word));
        assert!(end >= last_end);
        last_end = end;
    }
    let nodes = set.breadth_first();
    assert_eq!(nodes[0], 0);
    assert!(nodes.len() > words.len() / 2);
}
