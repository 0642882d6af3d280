use anagrammer::charlist::CharList;
use anagrammer::dictionary::{
    all_phrases, fingerprint, index_words, turn_into_strings, DictionaryIndex,
};
use anagrammer::search::{anagram, filter_and_sort_candidates, filter_candidates, try_one_word};

fn lists(words: &[&str]) -> Vec<CharList> {
    words.iter().map(|w| CharList::from_string(w)).collect()
}

fn refs(lists: &Vec<CharList>) -> Vec<&CharList> {
    lists.iter().collect()
}

fn lines(words: &[&str]) -> Vec<String> {
    words.iter().map(|w| w.to_string()).collect()
}

fn phrases(goal: &str, dictionary: &[&str], minimum: usize, depth: usize) -> Vec<String> {
    let index = index_words(&lines(dictionary), minimum);
    let goal = fingerprint(goal);
    let keys = index.keys();
    let candidates = filter_and_sort_candidates(&goal, &keys[..]);
    let mut all = Vec::new();
    for a in anagram(&goal, candidates, depth) {
        all.extend(turn_into_strings(&a, &index).unwrap());
    }
    all
}

fn sorted(mut v: Vec<String>) -> Vec<String> {
    v.sort();
    v
}

#[test]
fn one_key_for_three_words() {
    let index = index_words(&lines(&["abc", "bca", "cab", "xyz"]), 1);
    let goal = fingerprint("abc");
    let keys = index.keys();
    assert_eq!(keys.len(), 2);
    let candidates = filter_and_sort_candidates(&goal, &keys[..]);
    let found = anagram(&goal, candidates, 1);
    assert_eq!(found.len(), 1);
    assert_eq!(found[0].len(), 1);
    assert!(*found[0][0] == CharList::from_string("abc"));
    let strings = turn_into_strings(&found[0], &index).unwrap();
    assert_eq!(sorted(strings), vec!["abc", "bca", "cab"]);
}

#[test]
fn listen_gives_silent() {
    let all = phrases("listen", &["enlist", "silent", "google", "tinsel"], 4, 1);
    assert!(all.contains(&"silent".to_string()));
    assert_eq!(all, vec!["enlist", "silent", "tinsel"]);
}

#[test]
fn goal_is_taken_in_lowercase() {
    assert_eq!(phrases("Listen", &["Silent"], 4, 1), vec!["Silent"]);
    assert!(fingerprint("LISTEN") == CharList::from_string("listen"));
    assert!(fingerprint("LISTEN") != CharList::from_string("LISTEN"));
}

#[test]
fn two_word_anagrams() {
    let all = phrases("dormitory", &["dirty", "room", "moor", "dorm", "story"], 4, 2);
    assert_eq!(all, vec!["dirty room", "dirty moor"]);
    // one word is not enough
    assert!(phrases("dormitory", &["dirty", "room", "moor"], 4, 1).is_empty());
}

#[test]
fn no_anagram_twice_in_another_order() {
    let words = lists(&["ab", "cd", "ef", "abcd", "cdef", "abef"]);
    let goal = CharList::from_string("abcdef");
    let candidates = filter_and_sort_candidates(&goal, &refs(&words)[..]);
    let found = anagram(&goal, candidates, 3);
    let mut seen: Vec<Vec<String>> = Vec::new();
    for a in &found {
        let mut names: Vec<String> = a.iter().map(|c| format!("{:?}", c)).collect();
        names.sort();
        assert!(!seen.contains(&names));
        seen.push(names);
    }
    // ab+cd+ef, abcd+ef, cdef+ab, abef+cd
    assert_eq!(found.len(), 4);
}

#[test]
fn every_anagram_has_the_letters_of_the_goal() {
    let words = lists(&["a", "b", "ab", "aab", "ba", "bb", "abb", "c"]);
    let goal = CharList::from_string("aabb");
    let candidates = filter_and_sort_candidates(&goal, &refs(&words)[..]);
    for depth in 0..5 {
        let found = anagram(&goal, refs(&words), depth);
        let pruned = anagram(&goal, candidates.clone(), depth);
        for a in found.iter().chain(pruned.iter()) {
            assert!(a.len() >= 1 && a.len() <= depth);
            let mut sum = CharList::new();
            for c in a {
                sum = CharList::combine(sum, CharList::from_string(&format_entries(c)));
            }
            assert!(sum == goal);
        }
    }
}

fn format_entries(c: &CharList) -> String {
    let mut s = String::new();
    for e in c.list() {
        for _ in 0..e.count {
            s.push(e.letter);
        }
    }
    s
}

#[test]
fn depth_caps_the_number_of_words() {
    let words = lists(&["a"]);
    let goal = CharList::from_string("aaa");
    assert!(anagram(&goal, refs(&words), 0).is_empty());
    assert!(anagram(&goal, refs(&words), 1).is_empty());
    assert!(anagram(&goal, refs(&words), 2).is_empty());
    let found = anagram(&goal, refs(&words), 3);
    assert_eq!(found.len(), 1);
    assert_eq!(found[0].len(), 3);
    assert_eq!(anagram(&goal, refs(&words), 5).len(), 1);
}

#[test]
fn no_candidates_no_anagrams() {
    let goal = CharList::from_string("abc");
    assert!(anagram(&goal, Vec::new(), 3).is_empty());
    let words = lists(&["xyz"]);
    assert!(anagram(&goal, refs(&words), 3).is_empty());
    assert!(phrases("ab", &["abcd", "bacd"], 4, 5).is_empty());
}

#[test]
fn try_one_word_begins_with_the_first_candidate() {
    let words = lists(&["ab", "cd", "abcd"]);
    let goal = CharList::from_string("abcd");
    let found = try_one_word(&goal, &refs(&words)[..], 2);
    assert_eq!(found.len(), 1);
    assert!(*found[0][0] == CharList::from_string("ab"));
    assert!(*found[0][1] == CharList::from_string("cd"));
    let found = try_one_word(&goal, &refs(&words)[2..], 2);
    assert_eq!(found.len(), 1);
    assert_eq!(found[0].len(), 1);
    let found = try_one_word(&goal, &refs(&words)[1..], 2);
    assert!(found.is_empty());
    let found = try_one_word(&goal, &refs(&words)[..], 1);
    assert!(found.is_empty());
}

#[test]
fn filter_candidates_keeps_what_fits() {
    let words = lists(&["abc", "abcd", "b", "bb", "", "ca", "abcc"]);
    let goal = CharList::from_string("abc");
    let kept = filter_candidates(&goal, &refs(&words)[..]);
    let expected = lists(&["abc", "b", "", "ca"]);
    assert_eq!(kept, refs(&expected));
}

#[test]
fn filter_and_sort_candidates_puts_the_longest_first() {
    let words = lists(&["b", "abc", "zz", "ca", "a", "abcd", "cab", "ab", ""]);
    let goal = CharList::from_string("abc");
    let kept = filter_and_sort_candidates(&goal, &refs(&words)[..]);
    // those of one length keep their order
    let expected = lists(&["abc", "cab", "ca", "ab", "b", "a", ""]);
    assert_eq!(kept, refs(&expected));
}

#[test]
fn index_groups_words_by_their_letters() {
    let index = index_words(&lines(&["Abc", "xyz", "bca", "abc", "CAB", "bca", "zyx"]), 3);
    let keys = index.keys();
    assert_eq!(keys.len(), 2);
    assert!(*keys[0] == CharList::from_string("abc"));
    assert!(*keys[1] == CharList::from_string("xyz"));
    let abc = index.expand(&CharList::from_string("cba")).unwrap();
    assert_eq!(abc, &vec!["Abc", "bca", "abc", "CAB"]);
    let xyz = index.expand(keys[1]).unwrap();
    assert_eq!(xyz, &vec!["xyz", "zyx"]);
    assert!(index.expand(&CharList::from_string("abcd")).is_none());
    assert!(index.expand(&CharList::new()).is_none());
}

#[test]
fn index_counts_the_minimum_length_in_bytes() {
    // a word of exactly the minimum length is taken
    let index = index_words(&lines(&["abc", "abcd", "abcde", ""]), 4);
    assert_eq!(index.keys().len(), 2);
    assert!(index.expand(&CharList::from_string("abc")).is_none());
    assert!(index.expand(&CharList::from_string("abcd")).is_some());
    // two characters of two bytes each make four bytes
    let index = index_words(&lines(&["\u{e9}\u{e9}", "ab"]), 4);
    assert_eq!(index.keys().len(), 1);
    assert!(index.expand(&CharList::from_string("\u{e9}\u{e9}")).is_some());
    // with no minimum the empty line is a word
    let index = index_words(&lines(&["", "a", ""]), 0);
    assert_eq!(index.keys().len(), 2);
    assert_eq!(index.expand(&CharList::new()).unwrap(), &vec![""]);
}

#[test]
fn insert_files_a_word_once() {
    let mut index = DictionaryIndex::new();
    assert!(index.keys().is_empty());
    index.insert("Tea".to_string());
    index.insert("eat".to_string());
    index.insert("Tea".to_string());
    index.insert("tea".to_string());
    index.insert("x".to_string());
    assert_eq!(index.keys().len(), 2);
    assert_eq!(index.expand(&fingerprint("ate")).unwrap(), &vec!["Tea", "eat", "tea"]);
    assert_eq!(index.expand(&fingerprint("X")).unwrap(), &vec!["x"]);
}

#[test]
fn turn_into_strings_of_nothing() {
    let index = index_words(&lines(&["abc"]), 1);
    let none: Vec<&CharList> = Vec::new();
    assert!(turn_into_strings(&none, &index).is_none());
}

#[test]
fn turn_into_strings_gives_every_choice_of_words() {
    let index = index_words(&lines(&["ab", "ba", "cd", "dc", "e"]), 1);
    let ab = CharList::from_string("ab");
    let cd = CharList::from_string("cd");
    let e = CharList::from_string("e");
    assert_eq!(turn_into_strings(&[&ab], &index).unwrap(), vec!["ab", "ba"]);
    assert_eq!(
        turn_into_strings(&[&ab, &cd], &index).unwrap(),
        vec!["ab cd", "ab dc", "ba cd", "ba dc"]
    );
    assert_eq!(
        turn_into_strings(&[&cd, &e, &ab], &index).unwrap(),
        vec!["cd e ab", "cd e ba", "dc e ab", "dc e ba"]
    );
    assert_eq!(
        turn_into_strings(&[&ab, &ab], &index).unwrap(),
        vec!["ab ab", "ab ba", "ba ab", "ba ba"]
    );
}

#[test]
fn anagram_emits_the_shared_key_itself() {
    let k = CharList::from_string("abc");
    let x = CharList::from_string("xyz");
    let goal = CharList::from_string("abc");
    let words = vec![&k, &x];
    let found = anagram(&goal, words, 1);
    assert_eq!(found.len(), 1);
    assert_eq!(found, vec![vec![&k]]);
    assert_eq!(found[0][0].length(), 3);
    assert_eq!(found[0][0].list(), k.list());
}

#[test]
fn anagram_emits_the_one_candidate_of_silent() {
    let k = CharList::from_string("silent");
    let goal = CharList::from_string("listen");
    let found = anagram(&goal, vec![&k], 1);
    assert_eq!(found, vec![vec![&k]]);
    let index = index_words(&lines(&["silent"]), 4);
    assert_eq!(turn_into_strings(&found[0], &index).unwrap(), vec!["silent"]);
}

#[test]
fn try_one_word_gives_the_first_candidate_alone_for_the_goal() {
    let w = CharList::from_string("abc");
    let other = CharList::from_string("ab");
    let goal = CharList::from_string("cab");
    let found = try_one_word(&goal, &[&w, &other], 3);
    assert_eq!(found, vec![vec![&w]]);
    // a first candidate that does not fit gives nothing
    let miss = CharList::from_string("abd");
    assert!(try_one_word(&goal, &[&miss, &w], 3).is_empty());
    // with one word to spend, a first candidate that is not the goal gives nothing
    assert!(try_one_word(&goal, &[&other, &w], 1).is_empty());
    // every anagram begins with the first candidate
    let c = CharList::from_string("c");
    for a in try_one_word(&goal, &[&other, &c, &w], 3) {
        assert!(*a[0] == other);
    }
}

fn letters(c: &CharList) -> String {
    format_entries(c)
}

fn combinations(n: usize, size: usize, from: usize, acc: &mut Vec<usize>, out: &mut Vec<Vec<usize>>) {
    if acc.len() == size {
        out.push(acc.clone());
        return;
    }
    for i in from..n {
        acc.push(i);
        combinations(n, size, i, acc, out);
        acc.pop();
    }
}

#[test]
fn the_search_misses_no_combination() {
    let pool = lists(&["a", "b", "ab", "ba2", "aab", "bb", "abb", "c", "aabb", "abab1"]);
    let goal = CharList::from_string("aabb");
    for depth in 1..5 {
        let found = anagram(&goal, refs(&pool), depth);
        let mut seen: Vec<Vec<String>> = Vec::new();
        for a in &found {
            let mut names: Vec<String> = a.iter().map(|c| letters(c)).collect();
            names.sort();
            seen.push(names);
        }
        let mut expected = 0;
        for size in 1..=depth {
            let mut all = Vec::new();
            combinations(pool.len(), size, 0, &mut Vec::new(), &mut all);
            for combination in all {
                let mut joined = String::new();
                for i in &combination {
                    joined.push_str(&letters(&pool[*i]));
                }
                if CharList::from_string(&joined) == goal {
                    let mut names: Vec<String> =
                        combination.iter().map(|i| letters(&pool[*i])).collect();
                    names.sort();
                    assert!(seen.contains(&names));
                    expected += 1;
                }
            }
        }
        // and it finds each of them once
        assert_eq!(found.len(), expected);
    }
}

#[test]
fn sorted_candidates_never_grow_longer() {
    let words = lists(&["b", "abc", "zz", "ca", "a", "abcd", "cab", "ab", "", "bca", "c"]);
    let goal = CharList::from_string("abcc");
    let kept = filter_and_sort_candidates(&goal, &refs(&words)[..]);
    for pair in kept.windows(2) {
        assert!(pair[0].length() >= pair[1].length());
    }
    assert_eq!(kept.len(), 9);
}

#[test]
fn all_phrases_goes_anagram_by_anagram() {
    let index = index_words(&lines(&["ab", "ba", "cd", "dc", "abcd"]), 1);
    let ab = CharList::from_string("ab");
    let cd = CharList::from_string("cd");
    let abcd = CharList::from_string("abcd");
    let anagrams = vec![vec![&abcd], vec![&ab, &cd]];
    assert_eq!(
        all_phrases(&anagrams, &index),
        vec!["abcd", "ab cd", "ab dc", "ba cd", "ba dc"]
    );
    assert!(all_phrases(&Vec::new(), &index).is_empty());
    let nothing: Vec<Vec<&CharList>> = vec![Vec::new()];
    assert!(all_phrases(&nothing, &index).is_empty());
}
