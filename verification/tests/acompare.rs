use anagrammer::acompare;
use anagrammer::acompare::Transposition;

fn refs(ts: &Vec<Transposition>) -> Vec<&Transposition> {
    ts.iter().map(|t| t).collect::<Vec<_>>()
}

fn score(s1: &str, s2: &str) -> usize {
    let ts = acompare::get_transpositions(s1.to_string(), s2.to_string());
    acompare::greedy_score(&refs(&ts))
}

#[test]
fn basic_transposition() {
    let ts = acompare::get_transpositions("abc".to_string(), "bca".to_string());
    assert!(ts[0] == Transposition { start: 0, destination: 2, span: 1 });
    assert!(ts[1] == Transposition { start: 1, destination: 0, span: 1 });
    assert!(ts[2] == Transposition { start: 1, destination: 0, span: 2 });
    assert!(ts[3] == Transposition { start: 2, destination: 1, span: 1 });
}

#[test]
fn covers() {
    let ts = acompare::get_transpositions("abc".to_string(), "bca".to_string());
    assert!(!acompare::covers(&ts[0], &ts[1]));
    assert!(!acompare::covers(&ts[0], &ts[2]));
    assert!(!acompare::covers(&ts[0], &ts[3]));
    assert!(acompare::covers(&ts[1], &ts[2]));
    assert!(!acompare::covers(&ts[1], &ts[3]));
    assert!(acompare::covers(&ts[2], &ts[3]));
    assert!(!acompare::covers(&ts[1], &ts[0]));
    assert!(!acompare::covers(&ts[2], &ts[0]));
    assert!(!acompare::covers(&ts[3], &ts[0]));
    assert!(acompare::covers(&ts[2], &ts[1]));
    assert!(!acompare::covers(&ts[3], &ts[1]));
    assert!(acompare::covers(&ts[3], &ts[2]));
}

#[test]
fn maximum_overlap() {
    let ts = acompare::get_transpositions("abcdabda".to_string(), "dabdacba".to_string());
    let pts = ts.iter().map(|t| t).collect::<Vec<_>>();
    let v = acompare::maximum_overlap(&pts);
    assert!(v.len() == 10);
}

#[test]
fn greedy() {
    let ts = acompare::get_transpositions("12345678".to_string(), "56783421".to_string());
    let pts = ts.iter().map(|t| t).collect::<Vec<_>>();
    let c = acompare::greedy_score(&pts);
    assert!(c == 4);
}

#[test]
fn transpositions_are_exactly_four() {
    let ts = acompare::get_transpositions("abc".to_string(), "bca".to_string());
    assert_eq!(
        ts,
        vec![
            Transposition { start: 0, destination: 2, span: 1 },
            Transposition { start: 1, destination: 0, span: 1 },
            Transposition { start: 1, destination: 0, span: 2 },
            Transposition { start: 2, destination: 1, span: 1 },
        ]
    );
}

#[test]
fn transpositions_of_a_phrase_with_itself() {
    let ts = acompare::get_transpositions("aa".to_string(), "aa".to_string());
    assert_eq!(
        ts,
        vec![
            Transposition { start: 0, destination: 0, span: 1 },
            Transposition { start: 0, destination: 1, span: 1 },
            Transposition { start: 0, destination: 0, span: 2 },
            Transposition { start: 1, destination: 0, span: 1 },
            Transposition { start: 1, destination: 1, span: 1 },
        ]
    );
}

#[test]
fn transpositions_ignore_spaces() {
    let plain = acompare::get_transpositions("abc".to_string(), "bca".to_string());
    let spaced = acompare::get_transpositions(" a b c".to_string(), "bc  a ".to_string());
    assert_eq!(plain, spaced);
    assert_eq!(spaced.len(), 4);
}

#[test]
fn transpositions_count_characters_not_bytes() {
    let ts = acompare::get_transpositions("\u{e9}a".to_string(), "a\u{e9}".to_string());
    assert_eq!(
        ts,
        vec![
            Transposition { start: 0, destination: 1, span: 1 },
            Transposition { start: 1, destination: 0, span: 1 },
        ]
    );
}

#[test]
fn transpositions_against_a_shorter_string() {
    let ts = acompare::get_transpositions("abc".to_string(), "ab".to_string());
    assert_eq!(
        ts,
        vec![
            Transposition { start: 0, destination: 0, span: 1 },
            Transposition { start: 0, destination: 0, span: 2 },
            Transposition { start: 1, destination: 1, span: 1 },
        ]
    );
}

#[test]
fn transpositions_against_a_longer_string() {
    // a destination must leave room for the run in the first string too
    let ts = acompare::get_transpositions("ab".to_string(), "xxab".to_string());
    assert!(ts.is_empty());
    let ts = acompare::get_transpositions("ab".to_string(), "bxa".to_string());
    assert_eq!(ts, vec![Transposition { start: 1, destination: 0, span: 1 }]);
}

#[test]
fn transpositions_of_empty_strings() {
    assert!(acompare::get_transpositions("".to_string(), "".to_string()).is_empty());
    assert!(acompare::get_transpositions("  ".to_string(), "abc".to_string()).is_empty());
    assert!(acompare::get_transpositions("abc".to_string(), "".to_string()).is_empty());
}

#[test]
fn covers_needs_both_ranges_to_overlap() {
    let a = Transposition { start: 1, destination: 0, span: 2 };
    let b = Transposition { start: 2, destination: 1, span: 1 };
    assert!(acompare::covers(&a, &b));
    let c = Transposition { start: 0, destination: 2, span: 1 };
    let d = Transposition { start: 1, destination: 0, span: 1 };
    assert!(!acompare::covers(&c, &d));
    // the ranges in the first string overlap, those in the second do not
    let e = Transposition { start: 0, destination: 0, span: 2 };
    let f = Transposition { start: 1, destination: 5, span: 2 };
    assert!(!acompare::covers(&e, &f));
    assert!(!acompare::covers(&f, &e));
    // and the other way round
    let g = Transposition { start: 7, destination: 1, span: 2 };
    assert!(!acompare::covers(&e, &g));
    assert!(!acompare::covers(&g, &e));
}

#[test]
fn covers_is_reflexive_and_symmetric_but_not_transitive() {
    let a = Transposition { start: 0, destination: 0, span: 2 };
    let b = Transposition { start: 1, destination: 1, span: 2 };
    let c = Transposition { start: 2, destination: 2, span: 2 };
    assert!(acompare::covers(&a, &a));
    assert!(acompare::covers(&a, &b) && acompare::covers(&b, &a));
    assert!(acompare::covers(&b, &c) && acompare::covers(&c, &b));
    assert!(!acompare::covers(&a, &c));
}

#[test]
fn covers_near_the_largest_numbers() {
    let a = Transposition { start: usize::MAX, destination: usize::MAX, span: usize::MAX };
    let b = Transposition { start: usize::MAX - 1, destination: usize::MAX - 1, span: 1 };
    assert!(acompare::covers(&a, &a));
    assert!(!acompare::covers(&a, &b));
    let c = Transposition { start: usize::MAX - 1, destination: usize::MAX - 1, span: 2 };
    assert!(acompare::covers(&a, &c));
    assert!(acompare::covers(&c, &a));
}

#[test]
fn a_run_without_span_covers_nothing() {
    let a = Transposition { start: 1, destination: 1, span: 0 };
    let b = Transposition { start: 0, destination: 0, span: 3 };
    assert!(!acompare::covers(&a, &a));
    assert!(acompare::covers(&a, &b) == acompare::covers(&b, &a));
}

#[test]
fn maximum_overlap_of_nothing() {
    let none: Vec<&Transposition> = Vec::new();
    assert!(acompare::maximum_overlap(&none).is_empty());
}

#[test]
fn maximum_overlap_takes_the_first_of_equals() {
    // two runs far apart: each covers itself only, the first one is taken out
    let a = Transposition { start: 0, destination: 0, span: 1 };
    let b = Transposition { start: 5, destination: 5, span: 1 };
    let v = vec![&a, &b];
    let left = acompare::maximum_overlap(&v);
    assert_eq!(left, vec![&b]);
}

#[test]
fn maximum_overlap_keeps_the_order() {
    let ts = acompare::get_transpositions("12345678".to_string(), "56783421".to_string());
    let left = acompare::maximum_overlap(&refs(&ts));
    let expected = vec![
        Transposition { start: 0, destination: 7, span: 1 },
        Transposition { start: 1, destination: 6, span: 1 },
        Transposition { start: 2, destination: 4, span: 1 },
        Transposition { start: 2, destination: 4, span: 2 },
        Transposition { start: 3, destination: 5, span: 1 },
    ];
    assert_eq!(left, refs(&expected));
}

#[test]
fn score_of_nothing_is_one() {
    let none: Vec<&Transposition> = Vec::new();
    assert_eq!(acompare::greedy_score(&none), 1);
    assert_eq!(score("", ""), 1);
    assert_eq!(score("abc", "xyz"), 1);
}

#[test]
fn score_of_a_phrase_with_itself_is_one() {
    assert_eq!(score("a", "a"), 1);
    assert_eq!(score("aa", "aa"), 1);
    assert_eq!(score("listen", "listen"), 1);
    assert_eq!(score("abcabcabc", "abcabcabc"), 1);
    assert_eq!(score("a gentleman", "a gentleman"), 1);
}

#[test]
fn score_of_a_rearrangement_is_at_least_two() {
    assert_eq!(score("ab", "ba"), 2);
    assert!(score("listen", "silent") >= 2);
    assert_eq!(score("listen", "silent"), 5);
    assert!(score("aab", "aba") >= 2);
    assert!(score("abcdabda", "dabdacba") >= 2);
}

#[test]
fn score_ignores_spaces() {
    let plain = score("12345678", "56783421");
    assert_eq!(plain, 4);
    assert_eq!(score("1234 5678", "56783421"), plain);
    assert_eq!(score("12345678", " 5678 34 21 "), plain);
    assert_eq!(score("1 2 3 4 5 6 7 8", "5 6 7 8 3 4 2 1"), plain);
    assert_eq!(score("elegant man", "a gentleman"), score("elegantman", "agentleman"));
}

#[test]
fn is_not_space_tells_spaces_apart() {
    assert!(!acompare::is_not_space(' '));
    assert!(acompare::is_not_space('a'));
    assert!(acompare::is_not_space('\t'));
    assert!(acompare::is_not_space('\u{a0}'));
}
