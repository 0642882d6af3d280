use anagrammer::charcount::CharCount;
use anagrammer::charlist::{CharList, MatchResult};

#[test]
fn combine_same() {
    let l1: CharList = CharList::init(CharCount {
        letter: 'a',
        count: 2,
    });
    let l2: CharList = CharList::init(CharCount {
        letter: 'a',
        count: 3,
    });
    let l3: CharList = CharList::combine(l1, l2);
    assert!(l3.list().len() == 1);
    assert!(l3.list().get(0).unwrap().letter == 'a');
    assert!(l3.list().get(0).unwrap().count == 5);
}

#[test]
fn combine_different() {
    let l1: CharList = CharList::init(CharCount {
        letter: 'b',
        count: 3,
    });
    let l2: CharList = CharList::init(CharCount {
        letter: 'a',
        count: 2,
    });
    let l3: CharList = CharList::combine(l1, l2);
    assert!(l3.list().len() == 2);
    assert!(l3.list().get(0).unwrap().letter == 'a');
    assert!(l3.list().get(0).unwrap().count == 2);
    assert!(l3.list().get(1).unwrap().letter == 'b');
    assert!(l3.list().get(1).unwrap().count == 3);
}

#[test]
fn combine_into_middle() {
    let l1: CharList = CharList::init(CharCount {
        letter: 'c',
        count: 3,
    });
    let l2: CharList = CharList::init(CharCount {
        letter: 'a',
        count: 2,
    });
    let l3: CharList = CharList::combine(l1, l2);
    let l4: CharList = CharList::init(CharCount {
        letter: 'b',
        count: 1,
    });
    let l5: CharList = CharList::combine(l4, l3);

    assert!(l5.list().len() == 3);
    assert!(l5.list().get(0).unwrap().letter == 'a');
    assert!(l5.list().get(0).unwrap().count == 2);
    assert!(l5.list().get(1).unwrap().letter == 'b');
    assert!(l5.list().get(1).unwrap().count == 1);
    assert!(l5.list().get(2).unwrap().letter == 'c');
    assert!(l5.list().get(2).unwrap().count == 3);
}

#[test]
fn from_string() {
    let l: CharList = CharList::from_string("01102010221");
    assert!(l.list().len() == 3);
    assert!(l.list().get(0).unwrap().letter == '0');
    assert!(l.list().get(0).unwrap().count == 4);
    assert!(l.list().get(1).unwrap().letter == '1');
    assert!(l.list().get(1).unwrap().count == 4);
    assert!(l.list().get(2).unwrap().letter == '2');
    assert!(l.list().get(2).unwrap().count == 3);
    assert_eq!(l.length(), 11);
}

#[test]
fn subtract_nomatch_atall() {
    let b: CharList = CharList::from_string("abcde");
    let s: CharList = CharList::from_string("f");
    let m: MatchResult = CharList::subtract(&b, &s);
    assert!(m == MatchResult::NoMatch);
}

#[test]
fn subtract_nomatch_intheend() {
    let b: CharList = CharList::from_string("abcde");
    let s: CharList = CharList::from_string("abf");
    let m: MatchResult = CharList::subtract(&b, &s);
    assert!(m == MatchResult::NoMatch);
}

#[test]
fn subtract_nomatch_intheveryend() {
    let b: CharList = CharList::from_string("abcde");
    let s: CharList = CharList::from_string("abcdef");
    let m: MatchResult = CharList::subtract(&b, &s);
    assert!(m == MatchResult::NoMatch);
}

#[test]
fn subtract_fullmatch() {
    let b: CharList = CharList::from_string("abcde");
    let s: CharList = CharList::from_string("ebcda");
    let m: MatchResult = CharList::subtract(&b, &s);
    assert!(m == MatchResult::FullMatch);
}

#[test]
fn subtract_partialmatch() {
    let b: CharList = CharList::from_string("abcdef");
    let s: CharList = CharList::from_string("ebcda");
    let m: MatchResult = CharList::subtract(&b, &s);
    assert!(m == MatchResult::PartialMatch(CharList::from_string("f")));
}

#[test]
fn filter() {
    let b: CharList = CharList::from_string("abcdef");
    let s: CharList = CharList::from_string("ebcda");
    let m = CharList::filter(&b, &s);
    assert!(m);
}

fn entries(l: &CharList) -> Vec<(char, usize)> {
    l.list().iter().map(|c| (c.letter, c.count)).collect()
}

#[test]
fn new_list_is_empty() {
    let l = CharList::new();
    assert_eq!(l.length(), 0);
    assert!(l.list().is_empty());
    assert!(l == CharList::from_string(""));
}

#[test]
fn char_count_new_counts_one() {
    let c = CharCount::new('q');
    assert_eq!(c.letter, 'q');
    assert_eq!(c.count, 1);
}

#[test]
fn init_holds_its_entry() {
    let l = CharList::init(CharCount { letter: 'z', count: 7 });
    assert_eq!(entries(&l), vec![('z', 7)]);
    assert_eq!(l.length(), 7);
}

#[test]
fn from_string_counts_every_character() {
    let l = CharList::from_string("01102010221");
    assert_eq!(entries(&l), vec![('0', 4), ('1', 4), ('2', 3)]);
    assert_eq!(l.length(), 11);
    // nothing is filtered: spaces, digits and signs count like letters
    let l = CharList::from_string("a b-a!");
    assert_eq!(entries(&l), vec![(' ', 1), ('!', 1), ('-', 1), ('a', 2), ('b', 1)]);
    assert_eq!(l.length(), 6);
    // the length is in characters, not bytes
    let l = CharList::from_string("\u{e9}t\u{e9}");
    assert_eq!(entries(&l), vec![('t', 1), ('\u{e9}', 2)]);
    assert_eq!(l.length(), 3);
    // case is kept
    let l = CharList::from_string("Aa");
    assert_eq!(entries(&l), vec![('A', 1), ('a', 1)]);
}

#[test]
fn from_string_is_strictly_ascending() {
    for s in ["the quick brown fox", "zyxwvutsrqponmlkjihgfedcba", "aaaa", "", "mississippi"] {
        let l = CharList::from_string(s);
        let e = entries(&l);
        for w in e.windows(2) {
            assert!(w[0].0 < w[1].0);
        }
        assert!(e.iter().all(|x| x.1 >= 1));
        assert_eq!(l.length(), s.chars().count());
        assert_eq!(e.iter().map(|x| x.1).sum::<usize>(), s.chars().count());
    }
}

#[test]
fn combine_adds_lengths() {
    let l = CharList::combine(CharList::from_string("hello"), CharList::from_string("world"));
    assert_eq!(l.length(), 10);
    assert_eq!(
        entries(&l),
        vec![('d', 1), ('e', 1), ('h', 1), ('l', 3), ('o', 2), ('r', 1), ('w', 1)]
    );
    assert!(l == CharList::from_string("helloworld"));
}

#[test]
fn combine_with_the_empty_list() {
    let a = CharList::combine(CharList::new(), CharList::from_string("abc"));
    let b = CharList::combine(CharList::from_string("abc"), CharList::new());
    assert!(a == CharList::from_string("abc"));
    assert!(b == CharList::from_string("abc"));
    assert!(CharList::combine(CharList::new(), CharList::new()) == CharList::new());
}

#[test]
fn combine_commutes() {
    for (a, b) in [("abc", "bcd"), ("", "x"), ("zzz", "aaa"), ("listen", "silent"), ("ab", "ab")] {
        let ab = CharList::combine(CharList::from_string(a), CharList::from_string(b));
        let ba = CharList::combine(CharList::from_string(b), CharList::from_string(a));
        assert!(ab == ba);
    }
}

#[test]
fn subtract_undoes_combine() {
    for (a, b) in [("abc", "def"), ("abc", "abc"), ("a", "zzz"), ("", "q"), ("mno", "n")] {
        let ab = CharList::combine(CharList::from_string(a), CharList::from_string(b));
        let m = CharList::subtract(&ab, &CharList::from_string(a));
        assert!(m == MatchResult::PartialMatch(CharList::from_string(b)));
    }
    for a in ["abc", "", "zz"] {
        let ab = CharList::combine(CharList::from_string(a), CharList::new());
        let m = CharList::subtract(&ab, &CharList::from_string(a));
        assert!(m == MatchResult::FullMatch);
    }
}

#[test]
fn subtract_finds_no_match_for_a_missing_letter() {
    let big = CharList::from_string("abcde");
    for small in ["f", "abf", "abcdef", "0", "aab", "ee"] {
        let m = CharList::subtract(&big, &CharList::from_string(small));
        assert!(m == MatchResult::NoMatch);
        assert!(!CharList::filter(&big, &CharList::from_string(small)));
    }
    assert!(CharList::subtract(&CharList::new(), &CharList::from_string("a")) == MatchResult::NoMatch);
}

#[test]
fn subtract_leaves_the_remainder() {
    let m = CharList::subtract(&CharList::from_string("aabbbc"), &CharList::from_string("abb"));
    match m {
        MatchResult::PartialMatch(rest) => {
            assert_eq!(entries(&rest), vec![('a', 1), ('b', 1), ('c', 1)]);
            assert_eq!(rest.length(), 3);
        }
        _ => panic!("a remainder is owed"),
    }
    let m = CharList::subtract(&CharList::from_string("abc"), &CharList::new());
    assert!(m == MatchResult::PartialMatch(CharList::from_string("abc")));
    assert!(CharList::subtract(&CharList::new(), &CharList::new()) == MatchResult::FullMatch);
}

#[test]
fn subtract_keeps_its_operands() {
    let big = CharList::from_string("abcdef");
    let small = CharList::from_string("ebcda");
    let _ = CharList::subtract(&big, &small);
    assert!(big == CharList::from_string("abcdef"));
    assert!(small == CharList::from_string("abcde"));
}

#[test]
fn filter_agrees_with_subtract() {
    let words = ["", "a", "ab", "ba", "abc", "aab", "xyz", "cab", "abcd", "bb"];
    for big in words {
        for small in words {
            let b = CharList::from_string(big);
            let s = CharList::from_string(small);
            let matched = CharList::subtract(&b, &s) != MatchResult::NoMatch;
            assert_eq!(CharList::filter(&b, &s), matched);
        }
    }
}

#[test]
fn same_letters_tells_lists_apart() {
    let a = CharList::from_string("listen");
    assert!(a.same_letters(&CharList::from_string("silent")));
    assert!(!a.same_letters(&CharList::from_string("listens")));
    assert!(!a.same_letters(&CharList::from_string("listem")));
    assert!(!a.same_letters(&CharList::from_string("liiten")));
    assert!(CharList::new().same_letters(&CharList::from_string("")));
    assert!(!CharList::new().same_letters(&a));
}
