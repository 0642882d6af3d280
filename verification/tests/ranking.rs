use anagrammer::dictionary::index_words;
use anagrammer::ranking::{rank, ranked_anagrams, score};

fn strings(words: &[&str]) -> Vec<String> {
    words.iter().map(|w| w.to_string()).collect()
}

#[test]
fn score_of_known_pairs() {
    assert_eq!(score("12345678", "56783421"), 4);
    assert_eq!(score("listen", "listen"), 1);
    assert_eq!(score("listen", "enlist"), 2);
    assert_eq!(score("listen", "silent"), 5);
    assert_eq!(score("listen", "tinsel"), 6);
    assert_eq!(score("dormitory", "dirty room"), 13);
    assert_eq!(score("dormitory", "dirty moor"), 11);
    assert_eq!(score("a b", "ba"), 2);
    assert_eq!(score("abc", "xyz"), 1);
    assert_eq!(score("abc", ""), 1);
    assert_eq!(score("", ""), 1);
}

#[test]
fn rank_puts_the_highest_score_first() {
    let phrases = strings(&["listen", "silent", "enlist", "tinsel"]);
    assert_eq!(rank("listen", &phrases, 10), vec!["tinsel", "silent", "enlist", "listen"]);
    let phrases = strings(&["dirty moor", "dirty room"]);
    assert_eq!(rank("dormitory", &phrases, 10), vec!["dirty room", "dirty moor"]);
}

#[test]
fn rank_keeps_the_order_of_equal_scores() {
    let phrases = strings(&["tinsel", "listen", "inlets", "enlist", "listen", "tinsel"]);
    assert_eq!(
        rank("listen", &phrases, 10),
        vec!["tinsel", "inlets", "tinsel", "enlist", "listen", "listen"]
    );
}

#[test]
fn rank_returns_at_most_the_limit() {
    let phrases = strings(&["listen", "silent", "enlist", "tinsel"]);
    assert!(rank("listen", &phrases, 0).is_empty());
    assert_eq!(rank("listen", &phrases, 1), vec!["tinsel"]);
    assert_eq!(rank("listen", &phrases, 3), vec!["tinsel", "silent", "enlist"]);
    assert_eq!(rank("listen", &phrases, 4).len(), 4);
    assert_eq!(rank("listen", &phrases, usize::MAX).len(), 4);
}

#[test]
fn rank_of_nothing() {
    assert!(rank("listen", &Vec::new(), 10).is_empty());
    assert!(rank("", &Vec::new(), 0).is_empty());
    assert_eq!(rank("", &strings(&["", "a"]), 5), vec!["", "a"]);
}

#[test]
fn ranked_anagrams_of_listen() {
    let index = index_words(&strings(&["enlist", "silent", "google", "tinsel", "listen"]), 4);
    assert_eq!(
        ranked_anagrams("listen", &index, 1, 10),
        vec!["tinsel", "silent", "enlist", "listen"]
    );
    assert_eq!(ranked_anagrams("Listen", &index, 5, 2).len(), 2);
    assert!(ranked_anagrams("listen", &index, 0, 10).is_empty());
    assert!(ranked_anagrams("listen", &index, 1, 0).is_empty());
    assert!(ranked_anagrams("xyz", &index, 3, 10).is_empty());
}

#[test]
fn ranked_anagrams_of_two_words() {
    let index = index_words(&strings(&["dirty", "room", "moor", "dorm", "story"]), 4);
    assert_eq!(ranked_anagrams("dormitory", &index, 2, 10), vec!["dirty room", "dirty moor"]);
    assert_eq!(ranked_anagrams("dormitory", &index, 2, 1), vec!["dirty room"]);
    assert!(ranked_anagrams("dormitory", &index, 1, 10).is_empty());
}
