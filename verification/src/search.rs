//! The search for anagrams: sequences of candidate words whose letters,
//! taken together, are the letters of the goal.

use crate::charlist::{difference, CharList, Difference, MatchResult};
use crate::seq_facts::{lemma_concat_contains, lemma_filter_take};
use vstd::multiset::Multiset;
use vstd::prelude::*;
use vstd::slice::slice_subrange;

verus! {

/// The multisets of letters that a run of lists stands for.
pub open spec fn views(v: Seq<&CharList>) -> Seq<Multiset<char>> {
    v.map_values(|c: &CharList| c@)
}

/// The sequences of multisets that a run of anagrams stands for.
pub open spec fn sequences(r: Seq<Vec<&CharList>>) -> Seq<Seq<Multiset<char>>> {
    r.map_values(|v: Vec<&CharList>| views(v@))
}

/// Whether every list of the run is well-formed.
pub open spec fn all_wf(v: Seq<&CharList>) -> bool {
    forall|i: int| 0 <= i < v.len() ==> (#[trigger] v[i]).wf()
}

/// Whether every list of the run is one of `pool`.
pub open spec fn all_from(v: Seq<&CharList>, pool: Seq<&CharList>) -> bool {
    forall|k: int| 0 <= k < v.len() ==> pool.contains(#[trigger] v[k])
}

/// Whether an anagram begins with the first candidate and is made of
/// candidates, all of them well-formed.
pub open spec fn made_from_first(x: Seq<&CharList>, candidates: Seq<&CharList>) -> bool {
    &&& x.len() >= 1
    &&& candidates.len() >= 1
    &&& x[0] == candidates[0]
    &&& all_from(x, candidates)
    &&& all_wf(x)
}

/// The test "is no longer than `goal` and has all its letters from `goal`".
pub open spec fn fits(goal: Multiset<char>) -> spec_fn(Multiset<char>) -> bool {
    |c: Multiset<char>| c.len() <= goal.len() && c.subset_of(goal)
}

/// The test "has `n` letters".
pub open spec fn has_length(n: nat) -> spec_fn(Multiset<char>) -> bool {
    |c: Multiset<char>| c.len() == n
}

/// The candidates that fit into `goal`, in their order.
pub open spec fn spec_filter_candidates(goal: Multiset<char>, candidates: Seq<Multiset<char>>) -> Seq<
    Multiset<char>,
> {
    candidates.filter(fits(goal))
}

/// The members of `s` that have at most `longest` letters, the longest
/// first. Members of one length keep their order.
pub open spec fn by_length_down(s: Seq<Multiset<char>>, longest: nat) -> Seq<Multiset<char>>
    decreases longest,
{
    if longest == 0 {
        s.filter(has_length(0))
    } else {
        s.filter(has_length(longest)) + by_length_down(s, (longest - 1) as nat)
    }
}

/// The candidates that fit into `goal`, the longest first. Candidates of one
/// length keep their order.
pub open spec fn spec_filter_and_sort_candidates(
    goal: Multiset<char>,
    candidates: Seq<Multiset<char>>,
) -> Seq<Multiset<char>> {
    by_length_down(spec_filter_candidates(goal, candidates), goal.len())
}

/// Each of `tails` with `word` put in front.
pub open spec fn prefixed(word: Multiset<char>, tails: Seq<Seq<Multiset<char>>>) -> Seq<
    Seq<Multiset<char>>,
> {
    tails.map_values(|t: Seq<Multiset<char>>| seq![word] + t)
}

/// The anagrams of `goal` that begin with the first candidate and go on with
/// candidates from the same run, at most `depth` words in all.
pub open spec fn spec_try_one_word(
    goal: Multiset<char>,
    candidates: Seq<Multiset<char>>,
    depth: nat,
) -> Seq<Seq<Multiset<char>>>
    decreases depth, 0nat, 0nat,
{
    if candidates.len() == 0 || depth == 0 {
        Seq::empty()
    } else {
        match difference(goal, candidates[0]) {
            Difference::NoMatch => Seq::empty(),
            Difference::FullMatch => seq![seq![candidates[0]]],
            Difference::PartialMatch(rest) => prefixed(
                candidates[0],
                spec_anagram(
                    rest,
                    spec_filter_and_sort_candidates(rest, candidates),
                    (depth - 1) as nat,
                ),
            ),
        }
    }
}

/// The anagrams that begin with one of the first `n` words, by that word.
pub open spec fn spec_anagram_upto(
    goal: Multiset<char>,
    words: Seq<Multiset<char>>,
    depth: nat,
    n: nat,
) -> Seq<Seq<Multiset<char>>>
    decreases depth, 1nat, n,
{
    if depth == 0 || n == 0 || n > words.len() {
        Seq::empty()
    } else {
        spec_anagram_upto(goal, words, depth, (n - 1) as nat) + spec_try_one_word(
            goal,
            words.skip(n - 1),
            depth,
        )
    }
}

/// The anagrams of `goal` from `words`, at most `depth` words each: for every
/// word in turn, those that begin with it and go on with words from it
/// onwards.
pub open spec fn spec_anagram(goal: Multiset<char>, words: Seq<Multiset<char>>, depth: nat) -> Seq<
    Seq<Multiset<char>>,
>
    decreases depth, 2nat, 0nat,
{
    spec_anagram_upto(goal, words, depth, words.len())
}

/// Keeps the candidates that are no longer than `goal` and have all their
/// letters from it.
pub fn filter_candidates<'a>(goal: &CharList, candidates: &[&'a CharList]) -> (r: Vec<
    &'a CharList,
>)
    requires
        goal.wf(),
        all_wf(candidates@),
    ensures
        views(r@) == spec_filter_candidates(goal@, views(candidates@)),
        all_wf(r@),
        all_from(r@, candidates@),
{
    let mut x: Vec<&'a CharList> = Vec::new();
    let n = candidates.len();
    let mut i: usize = 0;
    proof {
        assert(views(candidates@).take(0) =~= Seq::empty());
        assert(views(x@) =~= Seq::empty());
        reveal(Seq::filter);
    }
    while i < n
        invariant
            n == candidates.len(),
            i <= n,
            goal.wf(),
            all_wf(candidates@),
            all_wf(x@),
            all_from(x@, candidates@),
            views(x@) == views(candidates@).take(i as int).filter(fits(goal@)),
        decreases n - i,
    {
        let c = candidates[i];
        let ghost before = x@;
        proof {
            lemma_filter_take(views(candidates@), fits(goal@), i as int);
        }
        if c.length() <= goal.length() && CharList::filter(goal, c) {
            x.push(c);
            proof {
                assert(views(x@) =~= views(before).push(c@));
                assert(candidates@[i as int] == c);
                assert forall|k: int| 0 <= k < x@.len() implies candidates@.contains(
                    #[trigger] x@[k],
                ) by {
                    if k < before.len() {
                        assert(x@[k] == before[k]);
                    }
                }
            }
        }
        i = i + 1;
    }
    proof {
        assert(views(candidates@).take(n as int) =~= views(candidates@));
    }
    x
}

/// Keeps the candidates that fit into `goal` and puts the longest first.
/// Candidates of one length keep their order.
pub fn filter_and_sort_candidates<'a>(goal: &CharList, candidates: &[&'a CharList]) -> (r: Vec<
    &'a CharList,
>)
    requires
        goal.wf(),
        all_wf(candidates@),
    ensures
        views(r@) == spec_filter_and_sort_candidates(goal@, views(candidates@)),
        all_wf(r@),
        all_from(r@, candidates@),
{
    let x = filter_candidates(goal, candidates);
    let ghost xs = views(x@);
    let n = x.len();
    // sort longest candidates to the front, this lessens the amount of backtracking
    let mut out: Vec<&'a CharList> = Vec::new();
    let mut length = goal.length();
    proof {
        assert(views(out@) + by_length_down(xs, length as nat) =~= by_length_down(
            xs,
            goal@.len(),
        ));
    }
    loop
        invariant_except_break
            views(out@) + by_length_down(xs, length as nat) == by_length_down(xs, goal@.len()),
        invariant
            xs == views(x@),
            n == x.len(),
            all_wf(x@),
            all_wf(out@),
            all_from(x@, candidates@),
            all_from(out@, candidates@),
        ensures
            views(out@) == by_length_down(xs, goal@.len()),
        decreases length,
    {
        let ghost longer = out@;
        let mut k: usize = 0;
        proof {
            assert(xs.take(0) =~= Seq::empty());
            reveal(Seq::filter);
            assert(views(out@) =~= views(longer) + xs.take(0).filter(has_length(length as nat)));
        }
        while k < n
            invariant
                xs == views(x@),
                n == x.len(),
                k <= n,
                all_wf(x@),
                all_wf(out@),
                all_from(x@, candidates@),
                all_from(out@, candidates@),
                views(out@) == views(longer) + xs.take(k as int).filter(
                    has_length(length as nat),
                ),
            decreases n - k,
        {
            let ghost before = out@;
            proof {
                lemma_filter_take(xs, has_length(length as nat), k as int);
            }
            if x[k].length() == length {
                out.push(x[k]);
                proof {
                    assert(views(out@) =~= views(before).push(xs[k as int]));
                    assert(candidates@.contains(x@[k as int]));
                    assert forall|j: int| 0 <= j < out@.len() implies candidates@.contains(
                        #[trigger] out@[j],
                    ) by {
                        if j < before.len() {
                            assert(out@[j] == before[j]);
                        }
                    }
                }
            }
            k = k + 1;
            proof {
                assert(views(out@) =~= views(longer) + xs.take(k as int).filter(
                    has_length(length as nat),
                ));
            }
        }
        proof {
            assert(xs.take(n as int) =~= xs);
        }
        if length == 0 {
            proof {
                assert(views(out@) =~= by_length_down(xs, goal@.len()));
            }
            break ;
        }
        length = length - 1;
        proof {
            assert(views(out@) + by_length_down(xs, length as nat) =~= views(longer) + (xs.filter(
                has_length((length + 1) as nat),
            ) + by_length_down(xs, length as nat)));
        }
    }
    out
}

/// The anagrams of `goal` that begin with the first candidate: that word
/// alone where it has just the letters of `goal`, and else, where it fits,
/// that word followed by every anagram of what is left, made of the
/// candidates that still fit and with one word less to spend.
pub fn try_one_word<'a>(
    goal: &CharList,
    candidates: &[&'a CharList],
    iteration_level: usize,
) -> (r: Vec<Vec<&'a CharList>>)
    requires
        goal.wf(),
        all_wf(candidates@),
        candidates@.len() > 0,
        iteration_level > 0,
    ensures
        sequences(r@) == spec_try_one_word(goal@, views(candidates@), iteration_level as nat),
        forall|i: int| 0 <= i < r@.len() ==> made_from_first((#[trigger] r@[i])@, candidates@),
        forall|i: int| 0 <= i < r@.len() ==> all_wf(#[trigger] r@[i]@),
        forall|i: int| 0 <= i < r@.len() ==> (#[trigger] r@[i])@.len() <= iteration_level,
    decreases iteration_level, 0nat,
{
    let mut results: Vec<Vec<&'a CharList>> = Vec::new();
    let word = candidates[0];
    let m = CharList::subtract(goal, word);
    match m {
        MatchResult::NoMatch => {
            proof {
                assert(sequences(results@) =~= Seq::empty());
            }
        },
        MatchResult::FullMatch => {
            // add to results
            let mut only: Vec<&'a CharList> = Vec::new();
            only.push(word);
            results.push(only);
            proof {
                assert(views(only@) =~= seq![word@]);
                assert(candidates@[0] == word);
                assert(made_from_first(only@, candidates@));
                assert(sequences(results@) =~= seq![seq![word@]]);
            }
        },
        MatchResult::PartialMatch(remains) => {
            let fitting = filter_and_sort_candidates(&remains, candidates);
            let new_anagrams = anagram(&remains, fitting, iteration_level - 1);
            let ghost tails = sequences(new_anagrams@);
            let n = new_anagrams.len();
            let mut k: usize = 0;
            proof {
                assert(sequences(results@) =~= prefixed(word@, tails.take(0)));
            }
            while k < n
                invariant
                    n == new_anagrams.len(),
                    k <= n,
                    tails == sequences(new_anagrams@),
                    sequences(results@) == prefixed(word@, tails.take(k as int)),
                    candidates@.len() > 0,
                    word == candidates@[0],
                    word.wf(),
                    all_from(fitting@, candidates@),
                    forall|i: int|
                        0 <= i < new_anagrams@.len() ==> all_from(
                            (#[trigger] new_anagrams@[i])@,
                            fitting@,
                        ) && all_wf(new_anagrams@[i]@),
                    forall|i: int|
                        0 <= i < results@.len() ==> made_from_first(
                            (#[trigger] results@[i])@,
                            candidates@,
                        ),
                decreases n - k,
            {
                let news = &new_anagrams[k];
                let mut first: Vec<&'a CharList> = Vec::new();
                first.push(word);
                let m = news.len();
                let mut j: usize = 0;
                proof {
                    assert(views(first@) =~= seq![word@] + views(news@).take(0));
                    assert(first@[0] == word);
                    assert(made_from_first(first@, candidates@));
                }
                while j < m
                    invariant
                        m == news.len(),
                        j <= m,
                        views(first@) == seq![word@] + views(news@).take(j as int),
                        all_from(news@, fitting@),
                        all_wf(news@),
                        all_from(fitting@, candidates@),
                        made_from_first(first@, candidates@),
                    decreases m - j,
                {
                    let ghost shorter = first@;
                    first.push(news[j]);
                    j = j + 1;
                    proof {
                        let added = news@[j - 1];
                        assert(fitting@.contains(added));
                        let at = choose|at: int| 0 <= at < fitting@.len() && fitting@[at] == added;
                        assert(candidates@.contains(fitting@[at]));
                        assert forall|a: int| 0 <= a < first@.len() implies candidates@.contains(
                            #[trigger] first@[a],
                        ) && first@[a].wf() by {
                            if a < shorter.len() {
                                assert(first@[a] == shorter[a]);
                            }
                        }
                        assert(first@[0] == shorter[0]);
                        assert(views(first@) =~= views(shorter).push(news@[j - 1]@));
                        assert(views(news@).take(j as int) =~= views(news@).take(j - 1).push(
                            news@[j - 1]@,
                        ));
                        assert(views(first@) =~= seq![word@] + views(news@).take(j as int));
                    }
                }
                proof {
                    assert(views(news@).take(m as int) =~= views(news@));
                    assert(tails[k as int] == views(news@));
                }
                let ghost before = results@;
                results.push(first);
                k = k + 1;
                proof {
                    assert forall|i: int| 0 <= i < results@.len() implies made_from_first(
                        (#[trigger] results@[i])@,
                        candidates@,
                    ) by {
                        if i < before.len() {
                            assert(results@[i] == before[i]);
                        }
                    }
                    assert(sequences(results@) =~= sequences(before).push(views(first@)));
                    assert(tails.take(k as int) =~= tails.take(k - 1).push(tails[k - 1]));
                    assert(prefixed(word@, tails.take(k as int)) =~= prefixed(
                        word@,
                        tails.take(k - 1),
                    ).push(seq![word@] + tails[k - 1]));
                }
            }
            proof {
                assert(tails.take(n as int) =~= tails);
            }
        },
    }
    proof {
        lemma_try_one_word(goal@, views(candidates@), iteration_level as nat);
        assert forall|i: int| 0 <= i < results@.len() implies (#[trigger] results@[i])@.len()
            <= iteration_level by {
            assert(sequences(results@)[i] == views(results@[i]@));
        }
    }
    results
}

/// All anagrams of `goal` that can be made of `words` with at most
/// `iteration_level` words each. Every word is tried as the first one, with
/// only the words from it onwards to follow it, so that no anagram comes
/// twice with its words in another order.
pub fn anagram<'a>(goal: &CharList, words: Vec<&'a CharList>, iteration_level: usize) -> (r: Vec<
    Vec<&'a CharList>,
>)
    requires
        goal.wf(),
        all_wf(words@),
    ensures
        sequences(r@) == spec_anagram(goal@, views(words@), iteration_level as nat),
        forall|i: int| 0 <= i < r@.len() ==> all_from((#[trigger] r@[i])@, words@),
        forall|i: int| 0 <= i < r@.len() ==> all_wf(#[trigger] r@[i]@),
        forall|i: int| 0 <= i < r@.len() ==> 1 <= (#[trigger] r@[i])@.len() <= iteration_level,
    decreases iteration_level, 1nat,
{
    let mut results: Vec<Vec<&'a CharList>> = Vec::new();
    if iteration_level == 0 {
        proof {
            assert(sequences(results@) =~= Seq::empty());
        }
        return results;
    }
    let n = words.len();
    let mut index: usize = 0;
    proof {
        assert(sequences(results@) =~= Seq::empty());
    }
    while index < n
        invariant
            n == words.len(),
            index <= n,
            iteration_level > 0,
            goal.wf(),
            all_wf(words@),
            sequences(results@) == spec_anagram_upto(
                goal@,
                views(words@),
                iteration_level as nat,
                index as nat,
            ),
            forall|i: int|
                0 <= i < results@.len() ==> all_from((#[trigger] results@[i])@, words@) && all_wf(
                    results@[i]@,
                ),
        decreases n - index,
    {
        let rest = slice_subrange(words.as_slice(), index, n);
        proof {
            assert(views(rest@) =~= views(words@).skip(index as int));
        }
        let mut found = try_one_word(goal, rest, iteration_level);
        let ghost before = results@;
        let ghost added = found@;
        results.append(&mut found);
        index = index + 1;
        proof {
            assert(sequences(results@) =~= sequences(before) + sequences(added));
            assert forall|i: int| 0 <= i < results@.len() implies all_from(
                (#[trigger] results@[i])@,
                words@,
            ) && all_wf(results@[i]@) by {
                if i < before.len() {
                    assert(results@[i] == before[i]);
                } else {
                    let x = added[i - before.len()];
                    assert(results@[i] == x);
                    assert(made_from_first(x@, rest@));
                    assert forall|k: int| 0 <= k < x@.len() implies words@.contains(
                        #[trigger] x@[k],
                    ) by {
                        assert(rest@.contains(x@[k]));
                        let at = choose|at: int| 0 <= at < rest@.len() && rest@[at] == x@[k];
                        assert(words@[index - 1 + at] == x@[k]);
                    }
                }
            }
        }
    }
    proof {
        assert forall|i: int| 0 <= i < results@.len() implies 1 <= (#[trigger] results@[i])@.len()
            <= iteration_level by {
            lemma_anagram_sound(goal@, views(words@), iteration_level as nat, i);
            assert(sequences(results@)[i] == views(results@[i]@));
        }
    }
    results
}

/// The letters of all the words of a sequence, taken together.
pub open spec fn sum_of(x: Seq<Multiset<char>>) -> Multiset<char>
    decreases x.len(),
{
    if x.len() == 0 {
        Multiset::empty()
    } else {
        x[0].add(sum_of(x.skip(1)))
    }
}

/// What holds of every anagram that begins with the first candidate: it has
/// at least one word and at most `depth`, it begins with the first candidate,
/// its words are candidates, and their letters are those of `goal`.
pub open spec fn is_anagram_from(
    x: Seq<Multiset<char>>,
    goal: Multiset<char>,
    candidates: Seq<Multiset<char>>,
    depth: nat,
) -> bool {
    &&& 1 <= x.len() <= depth
    &&& candidates.len() > 0
    &&& x[0] == candidates[0]
    &&& forall|k: int| 0 <= k < x.len() ==> candidates.contains(#[trigger] x[k])
    &&& sum_of(x) == goal
}

/// Filtering keeps a sequence free of duplicates, and every member that it
/// keeps is a member of the sequence.
pub proof fn lemma_filter_distinct<A>(s: Seq<A>, p: spec_fn(A) -> bool)
    requires
        s.no_duplicates(),
    ensures
        s.filter(p).no_duplicates(),
        forall|k: int| 0 <= k < s.filter(p).len() ==> s.contains(#[trigger] s.filter(p)[k]) && p(
            s.filter(p)[k],
        ),
    decreases s.len(),
{
    reveal(Seq::filter);
    if s.len() > 0 {
        let front = s.drop_last();
        assert(front.no_duplicates());
        lemma_filter_distinct(front, p);
        let f = front.filter(p);
        assert forall|k: int| 0 <= k < f.len() implies s.contains(#[trigger] f[k]) && f[k]
            != s.last() by {
            assert(front.contains(f[k]));
            let j = choose|j: int| 0 <= j < front.len() && front[j] == f[k];
            assert(s[j] == f[k]);
        }
        if p(s.last()) {
            assert(s[s.len() - 1] == s.last());
        }
    }
}

/// The members of `by_length_down` are the members of `s` that have at most
/// `longest` letters, and none comes twice where none does in `s`.
pub proof fn lemma_by_length_down(s: Seq<Multiset<char>>, longest: nat)
    requires
        s.no_duplicates(),
    ensures
        by_length_down(s, longest).no_duplicates(),
        forall|k: int|
            0 <= k < by_length_down(s, longest).len() ==> s.contains(
                #[trigger] by_length_down(s, longest)[k],
            ) && by_length_down(s, longest)[k].len() <= longest,
    decreases longest,
{
    lemma_filter_distinct(s, has_length(longest));
    if longest > 0 {
        lemma_by_length_down(s, (longest - 1) as nat);
        let a = s.filter(has_length(longest));
        let b = by_length_down(s, (longest - 1) as nat);
        assert forall|i: int, j: int| 0 <= i < a.len() && 0 <= j < b.len() implies a[i]
            != b[j] by {
            assert(has_length(longest)(a[i]));
            assert(b[j].len() <= longest - 1);
        }
        vstd::seq_lib::lemma_no_dup_in_concat(a, b);
    }
}

/// The candidates that are kept and sorted are candidates that fit, and none
/// comes twice where none did before.
pub proof fn lemma_filter_and_sort(goal: Multiset<char>, candidates: Seq<Multiset<char>>)
    requires
        candidates.no_duplicates(),
    ensures
        spec_filter_and_sort_candidates(goal, candidates).no_duplicates(),
        forall|k: int|
            0 <= k < spec_filter_and_sort_candidates(goal, candidates).len()
                ==> candidates.contains(
                #[trigger] spec_filter_and_sort_candidates(goal, candidates)[k],
            ),
{
    let f = spec_filter_candidates(goal, candidates);
    lemma_filter_distinct(candidates, fits(goal));
    lemma_by_length_down(f, goal.len());
    let r = spec_filter_and_sort_candidates(goal, candidates);
    assert forall|k: int| 0 <= k < r.len() implies candidates.contains(#[trigger] r[k]) by {
        assert(f.contains(r[k]));
        let j = choose|j: int| 0 <= j < f.len() && f[j] == r[k];
        assert(candidates.contains(f[j]));
    }
}

/// The same without the premise that no candidate comes twice: the
/// candidates that are kept and sorted are candidates.
pub proof fn lemma_filter_and_sort_members(goal: Multiset<char>, candidates: Seq<Multiset<char>>)
    ensures
        forall|k: int|
            0 <= k < spec_filter_and_sort_candidates(goal, candidates).len()
                ==> candidates.contains(
                #[trigger] spec_filter_and_sort_candidates(goal, candidates)[k],
            ),
{
    let f = spec_filter_candidates(goal, candidates);
    let r = spec_filter_and_sort_candidates(goal, candidates);
    lemma_by_length_members(f, goal.len());
    assert forall|k: int| 0 <= k < r.len() implies candidates.contains(#[trigger] r[k]) by {
        assert(f.contains(r[k]));
        candidates.lemma_filter_contains_rev(fits(goal), r[k]);
    }
}

/// Every member of `by_length_down` is a member of `s`.
pub proof fn lemma_by_length_members(s: Seq<Multiset<char>>, longest: nat)
    ensures
        forall|k: int|
            0 <= k < by_length_down(s, longest).len() ==> s.contains(
                #[trigger] by_length_down(s, longest)[k],
            ),
    decreases longest,
{
    let a = s.filter(has_length(longest));
    let r = by_length_down(s, longest);
    assert forall|k: int| 0 <= k < a.len() implies s.contains(#[trigger] a[k]) by {
        assert(a.contains(a[k]));
        s.lemma_filter_contains_rev(has_length(longest), a[k]);
    }
    if longest > 0 {
        lemma_by_length_members(s, (longest - 1) as nat);
        let b = by_length_down(s, (longest - 1) as nat);
        assert forall|k: int| 0 <= k < r.len() implies s.contains(#[trigger] r[k]) by {
            if k < a.len() {
                assert(r[k] == a[k]);
            } else {
                assert(r[k] == b[k - a.len()]);
            }
        }
    }
}

/// Every anagram that `try_one_word` finds begins with the first candidate,
/// is made of candidates, has at most `depth` words, and has the letters of
/// `goal`.
pub proof fn lemma_try_one_word(goal: Multiset<char>, candidates: Seq<Multiset<char>>, depth: nat)
    ensures
        forall|i: int|
            0 <= i < spec_try_one_word(goal, candidates, depth).len() ==> is_anagram_from(
                #[trigger] spec_try_one_word(goal, candidates, depth)[i],
                goal,
                candidates,
                depth,
            ),
    decreases depth, 0nat, 0nat,
{
    let found = spec_try_one_word(goal, candidates, depth);
    if candidates.len() == 0 || depth == 0 {
    } else {
        let word = candidates[0];
        match difference(goal, word) {
            Difference::NoMatch => {},
            Difference::FullMatch => {
                let x = seq![word];
                assert(x.skip(1) =~= Seq::empty());
                assert(sum_of(x.skip(1)) =~= Multiset::empty());
                assert(word =~= goal);
                assert(sum_of(x) =~= goal);
                assert(is_anagram_from(x, goal, candidates, depth));
            },
            Difference::PartialMatch(rest) => {
                let fitting = spec_filter_and_sort_candidates(rest, candidates);
                let tails = spec_anagram_upto(rest, fitting, (depth - 1) as nat, fitting.len());
                assert(tails == spec_anagram(rest, fitting, (depth - 1) as nat));
                lemma_anagram_upto(rest, fitting, (depth - 1) as nat, fitting.len());
                lemma_filter_and_sort_members(rest, candidates);
                assert forall|i: int| 0 <= i < found.len() implies is_anagram_from(
                    #[trigger] found[i],
                    goal,
                    candidates,
                    depth,
                ) by {
                    let t = tails[i];
                    let x = seq![word] + t;
                    assert(found[i] == x);
                    let m = choose|m: int|
                        0 <= m < fitting.len() && is_anagram_from(
                            t,
                            rest,
                            fitting.skip(m),
                            (depth - 1) as nat,
                        );
                    assert(x.skip(1) =~= t);
                    assert(sum_of(t) == rest);
                    assert(x[0] == word);
                    assert(word.add(rest) =~= goal);
                    assert(sum_of(x) =~= goal);
                    assert forall|k: int| 0 <= k < x.len() implies candidates.contains(
                        #[trigger] x[k],
                    ) by {
                        if k > 0 {
                            assert(x[k] == t[k - 1]);
                            assert(fitting.skip(m).contains(t[k - 1]));
                            let j = choose|j: int|
                                0 <= j < fitting.skip(m).len() && fitting.skip(m)[j] == t[k - 1];
                            assert(fitting[m + j] == t[k - 1]);
                            assert(candidates.contains(fitting[m + j]));
                        } else {
                            assert(candidates[0] == x[0]);
                        }
                    }
                }
            },
        }
    }
}

/// Every anagram among those of the first `n` words begins with one of
/// these words, is made of the words from that one onwards, has at most
/// `depth` words, and has the letters of `goal`.
pub proof fn lemma_anagram_upto(
    goal: Multiset<char>,
    words: Seq<Multiset<char>>,
    depth: nat,
    n: nat,
)
    requires
        n <= words.len(),
    ensures
        forall|i: int|
            0 <= i < spec_anagram_upto(goal, words, depth, n).len() ==> exists|m: int|
                0 <= m < n && is_anagram_from(
                    #[trigger] spec_anagram_upto(goal, words, depth, n)[i],
                    goal,
                    words.skip(m),
                    depth,
                ),
    decreases depth, 1nat, n,
{
    let all = spec_anagram_upto(goal, words, depth, n);
    if depth == 0 || n == 0 {
    } else {
        let before = spec_anagram_upto(goal, words, depth, (n - 1) as nat);
        let found = spec_try_one_word(goal, words.skip(n - 1), depth);
        lemma_anagram_upto(goal, words, depth, (n - 1) as nat);
        lemma_try_one_word(goal, words.skip(n - 1), depth);
        assert forall|i: int| 0 <= i < all.len() implies exists|m: int|
            0 <= m < n && is_anagram_from(#[trigger] all[i], goal, words.skip(m), depth) by {
            if i < before.len() {
                assert(all[i] == before[i]);
                let m = choose|m: int|
                    0 <= m < n - 1 && is_anagram_from(before[i], goal, words.skip(m), depth);
                assert(is_anagram_from(all[i], goal, words.skip(m), depth));
            } else {
                assert(all[i] == found[i - before.len()]);
                assert(is_anagram_from(all[i], goal, words.skip(n - 1), depth));
            }
        }
    }
}

/// Every anagram that the search gives has the letters of the goal, taken
/// all its words together; it has at least one word and at most `depth`; and
/// each of its words is one of `words`.
pub proof fn lemma_anagram_sound(
    goal: Multiset<char>,
    words: Seq<Multiset<char>>,
    depth: nat,
    i: int,
)
    requires
        0 <= i < spec_anagram(goal, words, depth).len(),
    ensures
        sum_of(spec_anagram(goal, words, depth)[i]) == goal,
        1 <= spec_anagram(goal, words, depth)[i].len() <= depth,
        forall|k: int|
            0 <= k < spec_anagram(goal, words, depth)[i].len() ==> words.contains(
                #[trigger] spec_anagram(goal, words, depth)[i][k],
            ),
{
    let x = spec_anagram_upto(goal, words, depth, words.len())[i];
    lemma_anagram_upto(goal, words, depth, words.len());
    let m = choose|m: int|
        0 <= m < words.len() && is_anagram_from(x, goal, words.skip(m), depth);
    assert forall|k: int| 0 <= k < x.len() implies words.contains(#[trigger] x[k]) by {
        assert(words.skip(m).contains(x[k]));
        let j = choose|j: int| 0 <= j < words.skip(m).len() && words.skip(m)[j] == x[k];
        assert(words[m + j] == x[k]);
    }
}

/// Putting the same word in front of two sequences that are not made of the
/// same words gives two sequences that are not made of the same words.
proof fn lemma_prefix_keeps_apart(
    word: Multiset<char>,
    t: Seq<Multiset<char>>,
    u: Seq<Multiset<char>>,
)
    requires
        t.to_multiset() != u.to_multiset(),
    ensures
        (seq![word] + t).to_multiset() != (seq![word] + u).to_multiset(),
{
    broadcast use vstd::multiset::group_multiset_axioms;

    assert(seq![word] + t =~= t.insert(0, word));
    assert(seq![word] + u =~= u.insert(0, word));
    vstd::seq_lib::to_multiset_insert(t, 0, word);
    vstd::seq_lib::to_multiset_insert(u, 0, word);
    if t.to_multiset().insert(word) == u.to_multiset().insert(word) {
        assert forall|c: Multiset<char>| t.to_multiset().count(c) == u.to_multiset().count(
            c,
        ) by {
            assert(t.to_multiset().insert(word).count(c) == u.to_multiset().insert(word).count(
                c,
            ));
        }
        assert(t.to_multiset() =~= u.to_multiset());
    }
}

/// No two of the anagrams that begin with the first candidate are made of
/// the same words, where no candidate comes twice.
pub proof fn lemma_try_one_word_distinct(
    goal: Multiset<char>,
    candidates: Seq<Multiset<char>>,
    depth: nat,
)
    requires
        candidates.no_duplicates(),
    ensures
        forall|i: int, j: int|
            0 <= i < j < spec_try_one_word(goal, candidates, depth).len() ==> (
            #[trigger] spec_try_one_word(goal, candidates, depth)[i]).to_multiset() != (
            #[trigger] spec_try_one_word(goal, candidates, depth)[j]).to_multiset(),
    decreases depth, 0nat, 0nat,
{
    let found = spec_try_one_word(goal, candidates, depth);
    if candidates.len() == 0 || depth == 0 {
    } else {
        let word = candidates[0];
        match difference(goal, word) {
            Difference::NoMatch => {},
            Difference::FullMatch => {},
            Difference::PartialMatch(rest) => {
                let fitting = spec_filter_and_sort_candidates(rest, candidates);
                let tails = spec_anagram_upto(rest, fitting, (depth - 1) as nat, fitting.len());
                assert(tails == spec_anagram(rest, fitting, (depth - 1) as nat));
                lemma_filter_and_sort(rest, candidates);
                lemma_anagram_upto_distinct(rest, fitting, (depth - 1) as nat, fitting.len());
                assert forall|i: int, j: int| 0 <= i < j < found.len() implies (
                #[trigger] found[i]).to_multiset() != (#[trigger] found[j]).to_multiset() by {
                    assert(found[i] == seq![word] + tails[i]);
                    assert(found[j] == seq![word] + tails[j]);
                    lemma_prefix_keeps_apart(word, tails[i], tails[j]);
                }
            },
        }
    }
}

/// No two of the anagrams that begin with one of the first `n` words are
/// made of the same words, where no word comes twice.
pub proof fn lemma_anagram_upto_distinct(
    goal: Multiset<char>,
    words: Seq<Multiset<char>>,
    depth: nat,
    n: nat,
)
    requires
        words.no_duplicates(),
        n <= words.len(),
    ensures
        forall|i: int, j: int|
            0 <= i < j < spec_anagram_upto(goal, words, depth, n).len() ==> (
            #[trigger] spec_anagram_upto(goal, words, depth, n)[i]).to_multiset() != (
            #[trigger] spec_anagram_upto(goal, words, depth, n)[j]).to_multiset(),
    decreases depth, 1nat, n,
{
    let all = spec_anagram_upto(goal, words, depth, n);
    if depth == 0 || n == 0 {
    } else {
        let before = spec_anagram_upto(goal, words, depth, (n - 1) as nat);
        let rest = words.skip(n - 1);
        let found = spec_try_one_word(goal, rest, depth);
        lemma_anagram_upto_distinct(goal, words, depth, (n - 1) as nat);
        assert(rest.no_duplicates());
        lemma_try_one_word_distinct(goal, rest, depth);
        lemma_anagram_upto(goal, words, depth, (n - 1) as nat);
        lemma_try_one_word(goal, rest, depth);
        assert forall|i: int, j: int| 0 <= i < j < all.len() implies (#[trigger] all[i]).to_multiset()
            != (#[trigger] all[j]).to_multiset() by {
            if j < before.len() {
                assert(all[i] == before[i] && all[j] == before[j]);
                assert(before[i].to_multiset() != before[j].to_multiset());
            } else if i >= before.len() {
                assert(all[i] == found[i - before.len()]);
                assert(all[j] == found[j - before.len()]);
                assert(found[i - before.len()].to_multiset() != found[j
                    - before.len()].to_multiset());
            } else {
                // an anagram of an earlier word holds that word; one of this word does not
                let x = before[i];
                let y = found[j - before.len()];
                assert(all[i] == x && all[j] == y);
                let m = choose|m: int|
                    0 <= m < n - 1 && is_anagram_from(x, goal, words.skip(m), depth);
                let w = words[m];
                assert(x[0] == words.skip(m)[0]);
                assert(x.contains(w));
                assert(is_anagram_from(y, goal, rest, depth));
                if y.contains(w) {
                    let k = choose|k: int| 0 <= k < y.len() && y[k] == w;
                    assert(rest.contains(y[k]));
                    let a = choose|a: int| 0 <= a < rest.len() && rest[a] == w;
                    assert(words[n - 1 + a] == words[m]);
                    assert(false);
                }
                x.to_multiset_ensures();
                y.to_multiset_ensures();
                assert(x.to_multiset().count(w) > 0);
                assert(y.to_multiset().count(w) == 0);
            }
        }
    }
}

/// No anagram that the search gives is another one with its words in
/// another order, nor the same one again, where no word comes twice among
/// `words`.
pub proof fn lemma_anagram_distinct(
    goal: Multiset<char>,
    words: Seq<Multiset<char>>,
    depth: nat,
    i: int,
    j: int,
)
    requires
        words.no_duplicates(),
        0 <= i < j < spec_anagram(goal, words, depth).len(),
    ensures
        spec_anagram(goal, words, depth)[i].to_multiset() != spec_anagram(
            goal,
            words,
            depth,
        )[j].to_multiset(),
{
    let all = spec_anagram_upto(goal, words, depth, words.len());
    lemma_anagram_upto_distinct(goal, words, depth, words.len());
    assert(all[i].to_multiset() != all[j].to_multiset());
}

/// The letters of a word of a sequence are among the letters of the whole
/// sequence.
pub proof fn lemma_member_in_sum(x: Seq<Multiset<char>>, k: int)
    requires
        0 <= k < x.len(),
    ensures
        x[k].subset_of(sum_of(x)),
    decreases x.len(),
{
    broadcast use vstd::multiset::group_multiset_axioms;

    if k > 0 {
        lemma_member_in_sum(x.skip(1), k - 1);
        assert(x.skip(1)[k - 1] == x[k]);
    }
}

/// The letters of a sequence are those of one of its words and of the
/// sequence without that word.
pub proof fn lemma_sum_remove(x: Seq<Multiset<char>>, p: int)
    requires
        0 <= p < x.len(),
    ensures
        sum_of(x) == x[p].add(sum_of(x.remove(p))),
    decreases x.len(),
{
    broadcast use vstd::multiset::group_multiset_axioms;

    if p == 0 {
        assert(x.remove(0) =~= x.skip(1));
    } else {
        let t = x.skip(1);
        lemma_sum_remove(t, p - 1);
        let y = x.remove(p);
        assert(y.skip(1) =~= t.remove(p - 1));
        assert(y[0] == x[0]);
        assert(t[p - 1] == x[p]);
        assert(sum_of(x) =~= x[p].add(sum_of(y)));
    }
}

/// A multiset has no more members than one that holds it.
pub proof fn lemma_subset_len(a: Multiset<char>, b: Multiset<char>)
    requires
        a.subset_of(b),
    ensures
        a.len() <= b.len(),
{
    broadcast use vstd::multiset::group_multiset_axioms;

    assert(b =~= a.add(b.sub(a)));
}

/// `by_length_down` keeps every member that has at most `longest` letters.
pub proof fn lemma_by_length_keeps(s: Seq<Multiset<char>>, longest: nat, c: Multiset<char>)
    requires
        s.contains(c),
        c.len() <= longest,
    ensures
        by_length_down(s, longest).contains(c),
    decreases longest,
{
    let a = s.filter(has_length(longest));
    if c.len() == longest {
        let i = choose|i: int| 0 <= i < s.len() && s[i] == c;
        assert(has_length(longest)(s[i]));
        s.lemma_filter_contains(has_length(longest), i);
        if longest > 0 {
            lemma_concat_contains(a, by_length_down(s, (longest - 1) as nat), c);
        }
    } else {
        lemma_by_length_keeps(s, (longest - 1) as nat, c);
        lemma_concat_contains(a, by_length_down(s, (longest - 1) as nat), c);
    }
}

/// Filtering and sorting keeps every candidate that has its letters from
/// `goal`.
pub proof fn lemma_filter_and_sort_keeps(
    goal: Multiset<char>,
    candidates: Seq<Multiset<char>>,
    c: Multiset<char>,
)
    requires
        candidates.contains(c),
        c.subset_of(goal),
    ensures
        spec_filter_and_sort_candidates(goal, candidates).contains(c),
{
    lemma_subset_len(c, goal);
    let i = choose|i: int| 0 <= i < candidates.len() && candidates[i] == c;
    assert(fits(goal)(candidates[i]));
    candidates.lemma_filter_contains(fits(goal), i);
    lemma_by_length_keeps(spec_filter_candidates(goal, candidates), goal.len(), c);
}

/// The first of the words that occurs in `x`, where word `n` does.
proof fn lemma_first_word_used(words: Seq<Multiset<char>>, x: Seq<Multiset<char>>, n: int) -> (m:
    int)
    requires
        0 <= n < words.len(),
        x.contains(words[n]),
    ensures
        0 <= m <= n,
        x.contains(words[m]),
        forall|j: int| 0 <= j < m ==> !x.contains(#[trigger] words[j]),
    decreases n,
{
    if exists|j: int| 0 <= j < n && x.contains(#[trigger] words[j]) {
        let j = choose|j: int| 0 <= j < n && x.contains(#[trigger] words[j]);
        lemma_first_word_used(words, x, j)
    } else {
        n
    }
}

/// What the search finds for one of the first `n` words as the first word
/// is among what it finds for these words.
pub proof fn lemma_anagram_upto_includes(
    goal: Multiset<char>,
    words: Seq<Multiset<char>>,
    depth: nat,
    n: nat,
    m: int,
    i: int,
)
    requires
        0 <= m < n <= words.len(),
        depth > 0,
        0 <= i < spec_try_one_word(goal, words.skip(m), depth).len(),
    ensures
        exists|j: int|
            0 <= j < spec_anagram_upto(goal, words, depth, n).len() && #[trigger] spec_anagram_upto(
                goal,
                words,
                depth,
                n,
            )[j] == spec_try_one_word(goal, words.skip(m), depth)[i],
    decreases n,
{
    let all = spec_anagram_upto(goal, words, depth, n);
    let before = spec_anagram_upto(goal, words, depth, (n - 1) as nat);
    let found = spec_try_one_word(goal, words.skip(n - 1), depth);
    if m == n - 1 {
        assert(all[before.len() + i] == found[i]);
    } else {
        lemma_anagram_upto_includes(goal, words, depth, (n - 1) as nat, m, i);
        let j = choose|j: int|
            0 <= j < before.len() && #[trigger] before[j] == spec_try_one_word(
                goal,
                words.skip(m),
                depth,
            )[i];
        assert(all[j] == before[j]);
    }
}

/// The search misses nothing: every way to make the letters of `goal` out
/// of at most `depth` of the words, none of them without letters, is found,
/// in some order of its words.
pub proof fn lemma_anagram_complete(
    goal: Multiset<char>,
    words: Seq<Multiset<char>>,
    depth: nat,
    x: Seq<Multiset<char>>,
)
    requires
        1 <= x.len() <= depth,
        forall|k: int| 0 <= k < x.len() ==> words.contains(#[trigger] x[k]) && x[k].len() > 0,
        sum_of(x) == goal,
    ensures
        exists|i: int|
            0 <= i < spec_anagram(goal, words, depth).len() && (#[trigger] spec_anagram(
                goal,
                words,
                depth,
            )[i]).to_multiset() == x.to_multiset(),
    decreases depth,
{
    broadcast use vstd::multiset::group_multiset_axioms;

    let all = spec_anagram_upto(goal, words, depth, words.len());
    assert(all == spec_anagram(goal, words, depth));
    // the first of the words that `x` uses
    assert(words.contains(x[0]));
    let n0 = choose|n: int| 0 <= n < words.len() && words[n] == x[0];
    assert(x.contains(words[n0]));
    let m = lemma_first_word_used(words, x, n0);
    let w = words[m];
    let p = choose|p: int| 0 <= p < x.len() && x[p] == w;
    let others = x.remove(p);
    let cands = words.skip(m);
    lemma_sum_remove(x, p);
    assert forall|k: int| 0 <= k < others.len() implies cands.contains(#[trigger] others[k])
        && others[k].len() > 0 by {
        let kk = if k < p { k } else { k + 1 };
        assert(others[k] == x[kk]);
        assert(words.contains(x[kk]));
        let j = choose|j: int| 0 <= j < words.len() && words[j] == x[kk];
        assert(x.contains(words[j]));
        assert(j >= m);
        assert(cands[j - m] == x[kk]);
    }
    let found = spec_try_one_word(goal, cands, depth);
    assert(cands[0] == w);
    assert(w.subset_of(goal));
    x.to_multiset_ensures();
    vstd::seq_lib::to_multiset_remove(x, p);
    assert(x.to_multiset().count(w) > 0);
    assert(others.to_multiset().insert(w) =~= x.to_multiset());
    if others.len() == 0 {
        assert(sum_of(others) =~= Multiset::<char>::empty());
        assert(goal =~= w);
        assert(found =~= seq![seq![w]]);
        assert(x =~= seq![w]);
        assert(found[0].to_multiset() == x.to_multiset());
        lemma_anagram_upto_includes(goal, words, depth, words.len(), m, 0);
    } else {
        lemma_member_in_sum(others, 0);
        let c = others[0].choose();
        assert(others[0].count(c) > 0);
        assert(goal.count(c) > w.count(c));
        assert(!goal.subset_of(w));
        let rest = goal.sub(w);
        assert(rest =~= sum_of(others));
        assert(difference(goal, w) == Difference::PartialMatch(rest));
        let fitting = spec_filter_and_sort_candidates(rest, cands);
        assert forall|k: int| 0 <= k < others.len() implies fitting.contains(
            #[trigger] others[k],
        ) && others[k].len() > 0 by {
            lemma_member_in_sum(others, k);
            lemma_filter_and_sort_keeps(rest, cands, others[k]);
        }
        lemma_anagram_complete(rest, fitting, (depth - 1) as nat, others);
        let tails = spec_anagram(rest, fitting, (depth - 1) as nat);
        let at = choose|i: int|
            0 <= i < tails.len() && (#[trigger] tails[i]).to_multiset() == others.to_multiset();
        assert(found == prefixed(w, tails));
        assert(found[at] == seq![w] + tails[at]);
        assert(seq![w] + tails[at] =~= tails[at].insert(0, w));
        vstd::seq_lib::to_multiset_insert(tails[at], 0, w);
        assert(found[at].to_multiset() == x.to_multiset());
        lemma_anagram_upto_includes(goal, words, depth, words.len(), m, at);
    }
}

/// `by_length_down` is in order: no member has more than `longest` letters,
/// and none comes before a longer one.
pub proof fn lemma_by_length_ordered(s: Seq<Multiset<char>>, longest: nat)
    ensures
        forall|k: int|
            0 <= k < by_length_down(s, longest).len() ==> (#[trigger] by_length_down(
                s,
                longest,
            )[k]).len() <= longest,
        forall|i: int, j: int|
            0 <= i < j < by_length_down(s, longest).len() ==> (#[trigger] by_length_down(
                s,
                longest,
            )[i]).len() >= (#[trigger] by_length_down(s, longest)[j]).len(),
    decreases longest,
{
    let a = s.filter(has_length(longest));
    let r = by_length_down(s, longest);
    assert forall|k: int| 0 <= k < a.len() implies (#[trigger] a[k]).len() == longest by {
        s.lemma_filter_pred(has_length(longest), k);
    }
    if longest > 0 {
        lemma_by_length_ordered(s, (longest - 1) as nat);
        let b = by_length_down(s, (longest - 1) as nat);
        assert forall|k: int| 0 <= k < r.len() implies (#[trigger] r[k]).len() <= longest && (k
            < a.len() ==> r[k].len() == longest) by {
            if k < a.len() {
                assert(r[k] == a[k]);
            } else {
                assert(r[k] == b[k - a.len()]);
            }
        }
        assert forall|i: int, j: int| 0 <= i < j < r.len() implies (#[trigger] r[i]).len() >= (
        #[trigger] r[j]).len() by {
            if i >= a.len() {
                assert(r[i] == b[i - a.len()]);
                assert(r[j] == b[j - a.len()]);
            }
        }
    }
}

} // verus!
