//! The ranking of the phrases that were found: the more a phrase rearranges
//! the goal, the earlier it comes.

use crate::acompare::{
    get_transpositions, greedy_score, spec_greedy_score, transpositions_of, values, Transposition,
};
use crate::dictionary::{
    all_keys_of, all_phrases, fingerprint, letters_of_word, spec_all_phrases, texts,
    DictionaryIndex, IndexModel,
};
use crate::search::{
    all_from, anagram, filter_and_sort_candidates, spec_anagram, spec_filter_and_sort_candidates,
    views,
};
use crate::seq_facts::{lemma_concat_contains, lemma_filter_take};
use vstd::prelude::*;

verus! {

/// The score of a phrase against the goal, spaces ignored in both.
pub open spec fn spec_score(goal: Seq<char>, phrase: Seq<char>) -> nat {
    spec_greedy_score(transpositions_of(goal, phrase))
}

/// The test "scores `n` against `goal`".
pub open spec fn has_score(goal: Seq<char>, n: nat) -> spec_fn(Seq<char>) -> bool {
    |phrase: Seq<char>| spec_score(goal, phrase) == n
}

/// The highest score among the phrases; zero where there is none.
pub open spec fn highest_score(goal: Seq<char>, phrases: Seq<Seq<char>>) -> nat
    decreases phrases.len(),
{
    if phrases.len() == 0 {
        0
    } else {
        let before = highest_score(goal, phrases.drop_last());
        let last = spec_score(goal, phrases.last());
        if last > before {
            last
        } else {
            before
        }
    }
}

/// The phrases that score at most `highest`, the highest score first.
/// Phrases of one score keep their order.
pub open spec fn by_score_down(goal: Seq<char>, phrases: Seq<Seq<char>>, highest: nat) -> Seq<
    Seq<char>,
>
    decreases highest,
{
    if highest == 0 {
        phrases.filter(has_score(goal, 0))
    } else {
        phrases.filter(has_score(goal, highest)) + by_score_down(
            goal,
            phrases,
            (highest - 1) as nat,
        )
    }
}

/// The first `limit` members of `s`, or all of them where there are fewer.
pub open spec fn first_of(s: Seq<Seq<char>>, limit: nat) -> Seq<Seq<char>> {
    if limit < s.len() {
        s.take(limit as int)
    } else {
        s
    }
}

/// The first `limit` of the phrases when they are put in the order of their
/// scores, the highest first, phrases of one score in the order in which
/// they came.
pub open spec fn spec_rank(goal: Seq<char>, phrases: Seq<Seq<char>>, limit: nat) -> Seq<Seq<char>> {
    first_of(by_score_down(goal, phrases, highest_score(goal, phrases)), limit)
}

/// The anagrams of `goal` from the words of `index`, at most `depth` words
/// each, written out as phrases: the first `limit` of them by falling score.
pub open spec fn spec_ranked_anagrams(goal: Seq<char>, index: IndexModel, depth: nat, limit: nat) -> Seq<
    Seq<char>,
> {
    let letters = letters_of_word(goal);
    let candidates = spec_filter_and_sort_candidates(letters, index.keys);
    spec_rank(goal, spec_all_phrases(index, spec_anagram(letters, candidates, depth)), limit)
}

/// How far `phrase` rearranges `goal`: the greedy score of the runs that the
/// two share, spaces ignored.
pub fn score(goal: &str, phrase: &str) -> (r: usize)
    ensures
        r == spec_score(goal@, phrase@),
{
    let ts = get_transpositions(goal.to_owned(), phrase.to_owned());
    let n = ts.len();
    let mut pts: Vec<&Transposition> = Vec::new();
    let mut i: usize = 0;
    proof {
        assert(values(pts@) =~= ts@.take(0));
    }
    while i < n
        invariant
            n == ts.len(),
            i <= n,
            values(pts@) == ts@.take(i as int),
        decreases n - i,
    {
        let ghost before = pts@;
        pts.push(&ts[i]);
        i = i + 1;
        proof {
            assert(values(pts@) =~= values(before).push(ts@[i - 1]));
            assert(ts@.take(i as int) =~= ts@.take(i - 1).push(ts@[i - 1]));
        }
    }
    proof {
        assert(ts@.take(n as int) =~= ts@);
    }
    greedy_score(&pts)
}

/// Ranks the phrases against the goal and returns the first `limit` of them:
/// the highest score first, phrases of one score in the order in which they
/// came.
pub fn rank(goal: &str, phrases: &Vec<String>, limit: usize) -> (r: Vec<String>)
    ensures
        texts(r@) == spec_rank(goal@, texts(phrases@), limit as nat),
{
    let ghost ps = texts(phrases@);
    let n = phrases.len();
    // the score of every phrase, and the highest of them
    let mut counts: Vec<usize> = Vec::new();
    let mut highest: usize = 0;
    let mut i: usize = 0;
    proof {
        assert(ps.take(0) =~= Seq::empty());
    }
    while i < n
        invariant
            n == phrases.len(),
            ps == texts(phrases@),
            i <= n,
            counts@.len() == i,
            forall|k: int| 0 <= k < i ==> counts@[k] == spec_score(goal@, #[trigger] ps[k]),
            highest == highest_score(goal@, ps.take(i as int)),
        decreases n - i,
    {
        let count = score(goal, phrases[i].as_str());
        counts.push(count);
        proof {
            assert(ps.take(i + 1).drop_last() =~= ps.take(i as int));
            assert(ps.take(i + 1).last() == ps[i as int]);
        }
        if count > highest {
            highest = count;
        }
        i = i + 1;
    }
    proof {
        assert(ps.take(n as int) =~= ps);
    }
    let ghost top = highest as nat;
    let mut out: Vec<String> = Vec::new();
    let ghost mut full: Seq<Seq<char>> = Seq::empty();
    let mut level = highest;
    proof {
        assert(full + by_score_down(goal@, ps, level as nat) =~= by_score_down(goal@, ps, top));
    }
    loop
        invariant_except_break
            full + by_score_down(goal@, ps, level as nat) == by_score_down(goal@, ps, top),
        invariant
            n == phrases.len(),
            ps == texts(phrases@),
            counts@.len() == n,
            forall|k: int| 0 <= k < n ==> counts@[k] == spec_score(goal@, #[trigger] ps[k]),
            texts(out@) == first_of(full, limit as nat),
        ensures
            full == by_score_down(goal@, ps, top),
            texts(out@) == first_of(full, limit as nat),
        decreases level,
    {
        let ghost higher = full;
        let mut k: usize = 0;
        proof {
            assert(ps.take(0) =~= Seq::empty());
            reveal(Seq::filter);
            assert(full =~= higher + ps.take(0).filter(has_score(goal@, level as nat)));
        }
        while k < n
            invariant
                n == phrases.len(),
                ps == texts(phrases@),
                k <= n,
                counts@.len() == n,
                forall|j: int| 0 <= j < n ==> counts@[j] == spec_score(goal@, #[trigger] ps[j]),
                full == higher + ps.take(k as int).filter(has_score(goal@, level as nat)),
                texts(out@) == first_of(full, limit as nat),
            decreases n - k,
        {
            proof {
                lemma_filter_take(ps, has_score(goal@, level as nat), k as int);
            }
            if counts[k] == level {
                let ghost before = out@;
                let ghost shorter = full;
                proof {
                    full = full.push(ps[k as int]);
                }
                if out.len() < limit {
                    let copy = phrases[k].clone();
                    out.push(copy);
                    proof {
                        assert(copy@ == ps[k as int]);
                        assert(texts(out@) =~= texts(before).push(ps[k as int]));
                    }
                } else {
                    proof {
                        assert(shorter.len() >= limit);
                        assert(full.take(limit as int) =~= shorter.take(limit as int));
                    }
                }
                proof {
                    assert(texts(out@) =~= first_of(full, limit as nat));
                }
            }
            k = k + 1;
            proof {
                assert(full =~= higher + ps.take(k as int).filter(
                    has_score(goal@, level as nat),
                ));
            }
        }
        proof {
            assert(ps.take(n as int) =~= ps);
        }
        if level == 0 {
            proof {
                assert(full =~= by_score_down(goal@, ps, top));
            }
            break ;
        }
        level = level - 1;
        proof {
            assert(full + by_score_down(goal@, ps, level as nat) =~= higher + (ps.filter(
                has_score(goal@, (level + 1) as nat),
            ) + by_score_down(goal@, ps, level as nat)));
        }
    }
    out
}

/// Finds the anagrams of `goal` among the words of the index, with at most
/// `maximum_words` words each, writes them out as phrases and returns the
/// first `maximum_anagrams` of these, the most rearranged first.
pub fn ranked_anagrams(
    goal: &str,
    words: &DictionaryIndex,
    maximum_words: usize,
    maximum_anagrams: usize,
) -> (r: Vec<String>)
    requires
        words.wf(),
    ensures
        texts(r@) == spec_ranked_anagrams(
            goal@,
            words@,
            maximum_words as nat,
            maximum_anagrams as nat,
        ),
{
    let letters = fingerprint(goal);
    let keys = words.keys();
    let candidates = filter_and_sort_candidates(&letters, keys.as_slice());
    let ghost pool = candidates@;
    let anagrams = anagram(&letters, candidates, maximum_words);
    proof {
        // every word of an anagram is a candidate, and so a key of the index
        assert forall|i: int| 0 <= i < anagrams@.len() implies all_keys_of(
            words@,
            views(#[trigger] anagrams@[i]@),
        ) by {
            let a = anagrams@[i]@;
            assert(all_from(a, pool));
            assert forall|k: int| 0 <= k < a.len() implies words@.keys.contains(
                #[trigger] views(a)[k],
            ) by {
                assert(pool.contains(a[k]));
                let j = choose|j: int| 0 <= j < pool.len() && pool[j] == a[k];
                assert(keys@.contains(pool[j]));
                let at = choose|at: int| 0 <= at < keys@.len() && keys@[at] == a[k];
                assert(views(keys@)[at] == a[k]@);
            }
        }
    }
    let all_anagrams = all_phrases(&anagrams, words);
    rank(goal, &all_anagrams, maximum_anagrams)
}

/// No phrase scores higher than the highest score.
pub proof fn lemma_highest_score(goal: Seq<char>, phrases: Seq<Seq<char>>, k: int)
    requires
        0 <= k < phrases.len(),
    ensures
        spec_score(goal, phrases[k]) <= highest_score(goal, phrases),
    decreases phrases.len(),
{
    if k < phrases.len() - 1 {
        lemma_highest_score(goal, phrases.drop_last(), k);
        assert(phrases.drop_last()[k] == phrases[k]);
    }
}

/// `by_score_down` is in order: no member scores more than `highest`, and
/// none comes before one that scores more. Every member is one of the
/// phrases.
pub proof fn lemma_by_score_ordered(goal: Seq<char>, phrases: Seq<Seq<char>>, highest: nat)
    ensures
        forall|k: int|
            0 <= k < by_score_down(goal, phrases, highest).len() ==> spec_score(
                goal,
                #[trigger] by_score_down(goal, phrases, highest)[k],
            ) <= highest && phrases.contains(by_score_down(goal, phrases, highest)[k]),
        forall|i: int, j: int|
            0 <= i < j < by_score_down(goal, phrases, highest).len() ==> spec_score(
                goal,
                #[trigger] by_score_down(goal, phrases, highest)[i],
            ) >= spec_score(goal, #[trigger] by_score_down(goal, phrases, highest)[j]),
    decreases highest,
{
    let a = phrases.filter(has_score(goal, highest));
    let r = by_score_down(goal, phrases, highest);
    assert forall|k: int| 0 <= k < a.len() implies spec_score(goal, #[trigger] a[k]) == highest
        && phrases.contains(a[k]) by {
        phrases.lemma_filter_pred(has_score(goal, highest), k);
        assert(a.contains(a[k]));
        phrases.lemma_filter_contains_rev(has_score(goal, highest), a[k]);
    }
    if highest > 0 {
        lemma_by_score_ordered(goal, phrases, (highest - 1) as nat);
        let b = by_score_down(goal, phrases, (highest - 1) as nat);
        assert forall|k: int| 0 <= k < r.len() implies spec_score(goal, #[trigger] r[k])
            <= highest && phrases.contains(r[k]) && (k < a.len() ==> spec_score(goal, r[k])
            == highest) by {
            if k < a.len() {
                assert(r[k] == a[k]);
            } else {
                assert(r[k] == b[k - a.len()]);
            }
        }
        assert forall|i: int, j: int| 0 <= i < j < r.len() implies spec_score(
            goal,
            #[trigger] r[i],
        ) >= spec_score(goal, #[trigger] r[j]) by {
            if i >= a.len() {
                assert(r[i] == b[i - a.len()]);
                assert(r[j] == b[j - a.len()]);
            }
        }
    }
}

/// `by_score_down` keeps every phrase that scores at most `highest`.
pub proof fn lemma_by_score_keeps(
    goal: Seq<char>,
    phrases: Seq<Seq<char>>,
    highest: nat,
    k: int,
)
    requires
        0 <= k < phrases.len(),
        spec_score(goal, phrases[k]) <= highest,
    ensures
        by_score_down(goal, phrases, highest).contains(phrases[k]),
    decreases highest,
{
    let a = phrases.filter(has_score(goal, highest));
    if spec_score(goal, phrases[k]) == highest {
        assert(has_score(goal, highest)(phrases[k]));
        phrases.lemma_filter_contains(has_score(goal, highest), k);
        if highest > 0 {
            lemma_concat_contains(a, by_score_down(goal, phrases, (highest - 1) as nat), phrases[k]);
        }
    } else {
        lemma_by_score_keeps(goal, phrases, (highest - 1) as nat, k);
        lemma_concat_contains(a, by_score_down(goal, phrases, (highest - 1) as nat), phrases[k]);
    }
}

/// The ranking is in the order of falling scores, each of its members is
/// one of the phrases, and with a limit that is high enough every phrase is
/// in it.
pub proof fn lemma_rank(goal: Seq<char>, phrases: Seq<Seq<char>>, limit: nat)
    ensures
        spec_rank(goal, phrases, limit).len() <= limit,
        forall|i: int, j: int|
            0 <= i < j < spec_rank(goal, phrases, limit).len() ==> spec_score(
                goal,
                #[trigger] spec_rank(goal, phrases, limit)[i],
            ) >= spec_score(goal, #[trigger] spec_rank(goal, phrases, limit)[j]),
        forall|k: int|
            0 <= k < spec_rank(goal, phrases, limit).len() ==> phrases.contains(
                #[trigger] spec_rank(goal, phrases, limit)[k],
            ),
        forall|k: int|
            0 <= k < phrases.len() ==> by_score_down(
                goal,
                phrases,
                highest_score(goal, phrases),
            ).contains(#[trigger] phrases[k]),
{
    let top = highest_score(goal, phrases);
    let sorted = by_score_down(goal, phrases, top);
    lemma_by_score_ordered(goal, phrases, top);
    let r = spec_rank(goal, phrases, limit);
    assert forall|k: int| 0 <= k < r.len() implies r[k] == sorted[k] by {}
    assert forall|k: int| 0 <= k < phrases.len() implies sorted.contains(
        #[trigger] phrases[k],
    ) by {
        lemma_highest_score(goal, phrases, k);
        lemma_by_score_keeps(goal, phrases, top, k);
    }
}

} // verus!
