//! How differently two phrases order the same letters: the runs of
//! characters that both share, and a greedy count of how many of those runs
//! it takes to account for all of them. Spaces are ignored throughout.

use crate::seq_facts::{
    lemma_concat_contains, lemma_filter_all, lemma_filter_full, lemma_filter_none,
    lemma_filter_shrinks, lemma_filter_take,
};
use substring::Substring;
use vstd::prelude::*;

verus! {

/// A run of `span` characters that stands at `start` in one string and at
/// `destination` in the other.
#[derive(PartialEq, Eq, Debug, Clone, Copy, Structural)]
pub struct Transposition {
    pub start: usize,
    pub destination: usize,
    pub span: usize,
}

/// Whether the ranges `[a, a + k)` and `[b, b + m)` share a position.
pub open spec fn ranges_overlap(a: int, k: int, b: int, m: int) -> bool {
    a < b + m && b < a + k
}

/// One transposition covers another when their ranges in the first string
/// overlap and their ranges in the second string overlap too.
pub open spec fn spec_covers(t1: Transposition, t2: Transposition) -> bool {
    &&& ranges_overlap(t1.start as int, t1.span as int, t2.start as int, t2.span as int)
    &&& ranges_overlap(
        t1.destination as int,
        t1.span as int,
        t2.destination as int,
        t2.span as int,
    )
}

/// The test "covers `t`".
pub open spec fn covering(t: Transposition) -> spec_fn(Transposition) -> bool {
    |u: Transposition| spec_covers(u, t)
}

/// The test "is not covered by `t`".
pub open spec fn not_covered_by(t: Transposition) -> spec_fn(Transposition) -> bool {
    |u: Transposition| !spec_covers(t, u)
}

/// How many members of `s` cover `t`.
pub open spec fn cover_count(s: Seq<Transposition>, t: Transposition) -> nat {
    s.filter(covering(t)).len()
}

/// Whether `s[k]` is the member that a greedy step picks: none has a higher
/// cover count, and all before it have a lower one.
pub open spec fn is_chosen(s: Seq<Transposition>, k: int) -> bool {
    &&& 0 <= k < s.len()
    &&& forall|j: int| 0 <= j < s.len() ==> cover_count(s, #[trigger] s[j]) <= cover_count(s, s[k])
    &&& forall|j: int| 0 <= j < k ==> cover_count(s, #[trigger] s[j]) < cover_count(s, s[k])
}

/// The index of the member that a greedy step picks from a non-empty `s`.
pub open spec fn chosen(s: Seq<Transposition>) -> int {
    choose|k: int| is_chosen(s, k)
}

/// One greedy step: what is left of `s` when everything that the chosen
/// member covers is taken out. The order of what is left is kept.
pub open spec fn spec_maximum_overlap(s: Seq<Transposition>) -> Seq<Transposition> {
    if s.len() == 0 {
        s
    } else {
        s.filter(not_covered_by(s[chosen(s)]))
    }
}

/// The greedy score: one, and one more for every greedy step that leaves
/// something behind. (A step on transpositions with a span takes at least
/// the chosen member out; the second test only makes the definition total.)
pub open spec fn spec_greedy_score(s: Seq<Transposition>) -> nat
    decreases s.len(),
{
    let rest = spec_maximum_overlap(s);
    if rest.len() == 0 || rest.len() >= s.len() {
        1
    } else {
        1 + spec_greedy_score(rest)
    }
}

/// The transpositions that a vector of references points to.
pub open spec fn values(v: Seq<&Transposition>) -> Seq<Transposition> {
    v.map_values(|t: &Transposition| *t)
}

/// Whether every member has a span of at least one.
pub open spec fn all_spans_positive(s: Seq<Transposition>) -> bool {
    forall|i: int| 0 <= i < s.len() ==> (#[trigger] s[i]).span >= 1
}

/// The test "is no space".
pub open spec fn not_space() -> spec_fn(char) -> bool {
    |c: char| c != ' '
}

/// A string without its spaces.
pub open spec fn without_spaces(s: Seq<char>) -> Seq<char> {
    s.filter(not_space())
}

/// The characters of `s` from index `start` up to, not including, index
/// `end`, as far as `s` reaches: nothing where `end <= start`, and a range
/// that ends with `s` where `s` is too short.
pub open spec fn char_range(s: Seq<char>, start: int, end: int) -> Seq<char> {
    if end <= start {
        Seq::empty()
    } else {
        let from = if start < s.len() { start } else { s.len() as int };
        let to = if end < s.len() { end } else { s.len() as int };
        s.subrange(from, to)
    }
}

/// Whether the `span` characters of `a` from `start` are the `span`
/// characters of `b` from `destination`. The run must fit into `a` at both
/// places, and into `b`.
pub open spec fn shared_run(a: Seq<char>, b: Seq<char>, start: int, destination: int, span: int) -> bool {
    &&& span >= 1
    &&& 0 <= start
    &&& start + span <= a.len()
    &&& 0 <= destination
    &&& destination + span <= a.len()
    &&& destination + span <= b.len()
    &&& a.subrange(start, start + span) == b.subrange(destination, destination + span)
}

/// The transposition with these three numbers.
pub open spec fn transposition(start: nat, destination: nat, span: nat) -> Transposition {
    Transposition { start: start as usize, destination: destination as usize, span: span as usize }
}

/// The shared runs of `span` characters from `start`, with a destination
/// below `limit`, by ascending destination.
pub open spec fn runs_at(a: Seq<char>, b: Seq<char>, start: nat, span: nat, limit: nat) -> Seq<
    Transposition,
>
    decreases limit,
{
    if limit == 0 {
        Seq::empty()
    } else {
        let before = runs_at(a, b, start, span, (limit - 1) as nat);
        if shared_run(a, b, start as int, limit - 1, span as int) {
            before.push(transposition(start, (limit - 1) as nat, span))
        } else {
            before
        }
    }
}

/// The shared runs from `start` that are at most `spans` long: the shorter
/// ones first, and those of one length by ascending destination.
pub open spec fn runs_from(a: Seq<char>, b: Seq<char>, start: nat, spans: nat) -> Seq<
    Transposition,
>
    decreases spans,
{
    if spans == 0 {
        Seq::empty()
    } else {
        runs_from(a, b, start, (spans - 1) as nat) + runs_at(
            a,
            b,
            start,
            spans,
            (a.len() - spans + 1) as nat,
        )
    }
}

/// The shared runs that start below `starts`, by ascending start.
pub open spec fn runs(a: Seq<char>, b: Seq<char>, starts: nat) -> Seq<Transposition>
    decreases starts,
{
    if starts == 0 {
        Seq::empty()
    } else {
        runs(a, b, (starts - 1) as nat) + runs_from(
            a,
            b,
            (starts - 1) as nat,
            (a.len() - (starts - 1)) as nat,
        )
    }
}

/// Every run of characters of `a` that also stands in `b`, once for each
/// place where it stands there: ordered by where the run starts in `a`, then
/// by its length, then by where it stands in `b`. Neither string holds
/// spaces.
pub open spec fn spec_transpositions(a: Seq<char>, b: Seq<char>) -> Seq<Transposition> {
    runs(a, b, a.len())
}

/// The transpositions between two phrases, spaces ignored.
pub open spec fn transpositions_of(s1: Seq<char>, s2: Seq<char>) -> Seq<Transposition> {
    spec_transpositions(without_spaces(s1), without_spaces(s2))
}

fn overlap(a: usize, k: usize, b: usize, m: usize) -> (r: bool)
    ensures
        r == ranges_overlap(a as int, k as int, b as int, m as int),
{
    if a <= b {
        b - a < k && (a < b || m > 0)
    } else {
        a - b < m
    }
}

/// Whether `t1` covers `t2`.
pub fn covers(t1: &Transposition, t2: &Transposition) -> (r: bool)
    ensures
        r == spec_covers(*t1, *t2),
{
    overlap(t1.start, t1.span, t2.start, t2.span) && overlap(
        t1.destination,
        t1.span,
        t2.destination,
        t2.span,
    )
}

/// One greedy step: finds the member that covers, and is covered by, the most
/// members (the first of them, where several do), and returns the members
/// that it does not cover, in their order. Of nothing, nothing is left.
pub fn maximum_overlap<'a>(ts: &Vec<&'a Transposition>) -> (r: Vec<&'a Transposition>)
    ensures
        values(r@) == spec_maximum_overlap(values(ts@)),
{
    let n = ts.len();
    let ghost s = values(ts@);
    let mut out: Vec<&'a Transposition> = Vec::new();
    if n == 0 {
        proof {
            assert(values(out@) =~= s);
        }
        return out;
    }
    // figure out the one transposition with the most overlaps
    let mut max_count: usize = 0;
    let mut max_index: usize = 0;
    let mut i: usize = 0;
    while i < n
        invariant
            n == ts.len(),
            s == values(ts@),
            0 < n,
            i <= n,
            i > 0 ==> max_index < i,
            i > 0 ==> max_count == cover_count(s, s[max_index as int]),
            forall|j: int| 0 <= j < i ==> cover_count(s, #[trigger] s[j]) <= max_count,
            forall|j: int| 0 <= j < max_index ==> cover_count(s, #[trigger] s[j]) < max_count,
        decreases n - i,
    {
        let t = ts[i];
        let mut count: usize = 0;
        let mut j: usize = 0;
        while j < n
            invariant
                n == ts.len(),
                s == values(ts@),
                i < n,
                j <= n,
                *t == s[i as int],
                count == s.take(j as int).filter(covering(*t)).len(),
                count <= j,
            decreases n - j,
        {
            proof {
                lemma_filter_take(s, covering(*t), j as int);
            }
            if covers(ts[j], t) {
                count = count + 1;
            }
            j = j + 1;
        }
        proof {
            assert(s.take(n as int) =~= s);
        }
        if i == 0 || count > max_count {
            max_count = count;
            max_index = i;
        }
        i = i + 1;
    }
    proof {
        assert(is_chosen(s, max_index as int));
        lemma_chosen_unique(s, max_index as int);
    }
    let max_t = ts[max_index];
    let mut k: usize = 0;
    while k < n
        invariant
            n == ts.len(),
            s == values(ts@),
            k <= n,
            max_index < n,
            *max_t == s[max_index as int],
            values(out@) == s.take(k as int).filter(not_covered_by(*max_t)),
        decreases n - k,
    {
        let ghost before = out@;
        proof {
            lemma_filter_take(s, not_covered_by(*max_t), k as int);
        }
        if !covers(max_t, ts[k]) {
            out.push(ts[k]);
            proof {
                assert(values(out@) =~= values(before).push(s[k as int]));
            }
        }
        k = k + 1;
    }
    proof {
        assert(s.take(n as int) =~= s);
    }
    out
}

/// The greedy score of a set of transpositions: how many greedy steps it
/// takes to leave nothing, and one where there is nothing to begin with.
pub fn greedy_score(v: &Vec<&Transposition>) -> (r: usize)
    requires
        all_spans_positive(values(v@)),
    ensures
        r == spec_greedy_score(values(v@)),
{
    let mut count: usize = 1;
    proof {
        lemma_step(values(v@));
    }
    let mut news = maximum_overlap(v);
    while news.len() != 0
        invariant
            all_spans_positive(values(news@)),
            news.len() != 0 ==> count + news.len() <= v.len(),
            news.len() == 0 ==> spec_greedy_score(values(v@)) == count,
            news.len() != 0 ==> spec_greedy_score(values(v@)) == count + spec_greedy_score(
                values(news@),
            ),
        decreases news.len(),
    {
        proof {
            lemma_step(values(news@));
        }
        count = count + 1;
        news = maximum_overlap(&news);
    }
    count
}

/// Whether `c` is anything but a space.
pub fn is_not_space(c: char) -> (r: bool)
    ensures
        r == not_space()(c),
{
    c != ' '
}

/// `String::retain` of the standard library, keeping what is no space: it
/// removes the characters that fail the test and keeps the others in their
/// order.
#[verifier::external_body]
fn strip_spaces(s: &mut String)
    ensures
        final(s)@ == without_spaces(old(s)@),
{
    s.retain(is_not_space)
}

/// `substring` of the crate of that name: the characters from index `start`
/// up to index `end`, counted in characters. An empty range gives the empty
/// string, and a range that reaches beyond the end of `s` is cut off there.
#[verifier::external_body]
fn char_substring<'a>(s: &'a str, start: usize, end: usize) -> (r: &'a str)
    ensures
        r@ == char_range(s@, start as int, end as int),
{
    s.substring(start, end)
}

/// `==` on string slices: whether both hold the same characters.
#[verifier::external_body]
fn same_text(a: &str, b: &str) -> (r: bool)
    ensures
        r == (a@ == b@),
{
    a == b
}

/// Finds every run of characters of `s1` that also stands in `s2`, spaces
/// ignored in both, and returns one transposition for each place where it
/// stands there.
pub fn get_transpositions(s1: String, s2: String) -> (r: Vec<Transposition>)
    ensures
        r@ == transpositions_of(s1@, s2@),
        all_spans_positive(r@),
{
    // strip spaces from the two strings
    let mut s1 = s1;
    let mut s2 = s2;
    strip_spaces(&mut s1);
    strip_spaces(&mut s2);
    let ghost a = s1@;
    let ghost b = s2@;

    let mut transpositions: Vec<Transposition> = Vec::new();

    // do for all substrings of s1
    let l1 = s1.as_str().unicode_len();
    let mut start: usize = 0;
    while start < l1
        invariant
            a == s1@,
            b == s2@,
            l1 == a.len(),
            start <= l1,
            transpositions@ == runs(a, b, start as nat),
            all_spans_positive(transpositions@),
        decreases l1 - start,
    {
        let ghost done = transpositions@;
        let mut end: usize = start;
        while end < l1
            invariant
                a == s1@,
                b == s2@,
                l1 == a.len(),
                start <= end <= l1,
                start < l1,
                transpositions@ == done + runs_from(a, b, start as nat, (end - start) as nat),
                all_spans_positive(transpositions@),
            decreases l1 - end,
        {
            let ghost shorter = transpositions@;
            let span = end - start;
            let mut destination: usize = 0;
            while destination < l1 - span
                invariant
                    a == s1@,
                    b == s2@,
                    l1 == a.len(),
                    start <= end < l1,
                    span == end - start,
                    destination <= l1 - span,
                    transpositions@ == shorter + runs_at(
                        a,
                        b,
                        start as nat,
                        (span + 1) as nat,
                        destination as nat,
                    ),
                    all_spans_positive(transpositions@),
                decreases l1 - span - destination,
            {
                let piece = char_substring(s1.as_str(), start, end + 1);
                let other = char_substring(s2.as_str(), destination, destination + span + 1);
                proof {
                    lemma_range_is_run(a, b, start as int, destination as int, span + 1);
                }
                if same_text(piece, other) {
                    let t = Transposition { start, destination, span: span + 1 };
                    transpositions.push(t);
                }
                destination = destination + 1;
                proof {
                    assert(transpositions@ =~= shorter + runs_at(
                        a,
                        b,
                        start as nat,
                        (span + 1) as nat,
                        destination as nat,
                    ));
                }
            }
            end = end + 1;
            proof {
                assert(transpositions@ =~= done + runs_from(
                    a,
                    b,
                    start as nat,
                    (end - start) as nat,
                ));
            }
        }
        start = start + 1;
        proof {
            assert(transpositions@ =~= runs(a, b, start as nat));
        }
    }
    transpositions
}

/// Comparing the range of `a` with the cut-off range of `b` tells whether the
/// run is shared.
proof fn lemma_range_is_run(a: Seq<char>, b: Seq<char>, start: int, destination: int, span: int)
    requires
        span >= 1,
        0 <= start,
        start + span <= a.len(),
        0 <= destination,
        destination + span <= a.len(),
    ensures
        char_range(a, start, start + span) == a.subrange(start, start + span),
        (char_range(a, start, start + span) == char_range(b, destination, destination + span))
            == shared_run(a, b, start, destination, span),
{
    let x = char_range(a, start, start + span);
    let y = char_range(b, destination, destination + span);
    assert(x.len() == span);
    if destination + span <= b.len() {
        assert(y == b.subrange(destination, destination + span));
    } else {
        assert(y.len() < span);
    }
}

/// At most one member is the chosen one.
proof fn lemma_chosen_unique(s: Seq<Transposition>, a: int)
    requires
        is_chosen(s, a),
    ensures
        is_chosen(s, chosen(s)),
        chosen(s) == a,
{
    let c = chosen(s);
    if c < a {
        assert(cover_count(s, s[c]) < cover_count(s, s[a]));
        assert(cover_count(s, s[a]) <= cover_count(s, s[c]));
    } else if a < c {
        assert(cover_count(s, s[a]) < cover_count(s, s[c]));
        assert(cover_count(s, s[c]) <= cover_count(s, s[a]));
    }
}

/// A greedy step on transpositions that all have a span leaves fewer of
/// them, all with a span.
pub proof fn lemma_step(s: Seq<Transposition>)
    requires
        all_spans_positive(s),
    ensures
        all_spans_positive(spec_maximum_overlap(s)),
        s.len() > 0 ==> spec_maximum_overlap(s).len() < s.len(),
        s.len() == 0 ==> spec_maximum_overlap(s).len() == 0,
{
    if s.len() > 0 {
        lemma_chosen_exists(s);
        let k = chosen(s);
        let p = not_covered_by(s[k]);
        assert(spec_covers(s[k], s[k]));
        lemma_filter_shrinks(s, p, k);
        let rest = s.filter(p);
        assert forall|i: int| 0 <= i < rest.len() implies (#[trigger] rest[i]).span >= 1 by {
            assert(rest.contains(rest[i]));
            s.lemma_filter_contains_rev(p, rest[i]);
        }
    }
}

/// A non-empty sequence has a chosen member.
pub proof fn lemma_chosen_exists(s: Seq<Transposition>)
    requires
        s.len() > 0,
    ensures
        is_chosen(s, chosen(s)),
{
    let k = lemma_first_max(s, s.len() as int);
    assert(is_chosen(s, k));
}

/// Among the first `n` members there is one whose cover count none of them
/// exceeds and none before it reaches.
proof fn lemma_first_max(s: Seq<Transposition>, n: int) -> (k: int)
    requires
        0 < n <= s.len(),
    ensures
        0 <= k < n,
        forall|j: int| 0 <= j < n ==> cover_count(s, #[trigger] s[j]) <= cover_count(s, s[k]),
        forall|j: int| 0 <= j < k ==> cover_count(s, #[trigger] s[j]) < cover_count(s, s[k]),
    decreases n,
{
    if n == 1 {
        0
    } else {
        let k = lemma_first_max(s, n - 1);
        if cover_count(s, s[n - 1]) > cover_count(s, s[k]) {
            n - 1
        } else {
            k
        }
    }
}

/// Whether `t` stands for a run that `a` and `b` share.
pub open spec fn is_run(a: Seq<char>, b: Seq<char>, t: Transposition) -> bool {
    shared_run(a, b, t.start as int, t.destination as int, t.span as int)
}

/// What `runs_at` holds: the shared runs of that start and span with a
/// destination below the limit, and each of them.
pub proof fn lemma_runs_at(a: Seq<char>, b: Seq<char>, start: nat, span: nat, limit: nat)
    requires
        a.len() <= usize::MAX,
    ensures
        forall|i: int|
            0 <= i < runs_at(a, b, start, span, limit).len() ==> {
                let t = #[trigger] runs_at(a, b, start, span, limit)[i];
                is_run(a, b, t) && t.start == start && t.span == span && t.destination < limit
            },
        forall|d: int|
            0 <= d < limit && #[trigger] shared_run(a, b, start as int, d, span as int)
                ==> runs_at(a, b, start, span, limit).contains(
                transposition(start, d as nat, span),
            ),
    decreases limit,
{
    if limit > 0 {
        let before = runs_at(a, b, start, span, (limit - 1) as nat);
        let r = runs_at(a, b, start, span, limit);
        lemma_runs_at(a, b, start, span, (limit - 1) as nat);
        let t = transposition(start, (limit - 1) as nat, span);
        assert forall|d: int|
            0 <= d < limit && #[trigger] shared_run(
                a,
                b,
                start as int,
                d,
                span as int,
            ) implies r.contains(transposition(start, d as nat, span)) by {
            if d == limit - 1 {
                assert(r[r.len() - 1] == t);
            } else {
                let u = transposition(start, d as nat, span);
                assert(before.contains(u));
                let i = choose|i: int| 0 <= i < before.len() && before[i] == u;
                assert(r[i] == u);
            }
        }
    }
}

/// What `runs_from` holds: the shared runs of that start that are at most
/// `spans` long, and each of them.
pub proof fn lemma_runs_from(a: Seq<char>, b: Seq<char>, start: nat, spans: nat)
    requires
        a.len() <= usize::MAX,
    ensures
        forall|i: int|
            0 <= i < runs_from(a, b, start, spans).len() ==> {
                let t = #[trigger] runs_from(a, b, start, spans)[i];
                is_run(a, b, t) && t.start == start && t.span <= spans
            },
        forall|d: int, k: int|
            1 <= k <= spans && #[trigger] shared_run(a, b, start as int, d, k) ==> runs_from(
                a,
                b,
                start,
                spans,
            ).contains(transposition(start, d as nat, k as nat)),
    decreases spans,
{
    if spans > 0 {
        let shorter = runs_from(a, b, start, (spans - 1) as nat);
        let limit = (a.len() - spans + 1) as nat;
        let longest = runs_at(a, b, start, spans, limit);
        let r = runs_from(a, b, start, spans);
        lemma_runs_from(a, b, start, (spans - 1) as nat);
        lemma_runs_at(a, b, start, spans, limit);
        assert forall|i: int| 0 <= i < r.len() implies {
            let t = #[trigger] r[i];
            is_run(a, b, t) && t.start == start && t.span <= spans
        } by {
            if i < shorter.len() {
                assert(r[i] == shorter[i]);
            } else {
                assert(r[i] == longest[i - shorter.len()]);
            }
        }
        assert forall|d: int, k: int|
            1 <= k <= spans && #[trigger] shared_run(a, b, start as int, d, k) implies r.contains(
            transposition(start, d as nat, k as nat),
        ) by {
            let u = transposition(start, d as nat, k as nat);
            lemma_concat_contains(shorter, longest, u);
            if k == spans {
                assert(longest.contains(u));
            } else {
                assert(shorter.contains(u));
            }
        }
    }
}

/// What `runs` holds: the shared runs that start below `starts`, and each of
/// them.
pub proof fn lemma_runs(a: Seq<char>, b: Seq<char>, starts: nat)
    requires
        starts <= a.len() <= usize::MAX,
    ensures
        forall|i: int|
            0 <= i < runs(a, b, starts).len() ==> {
                let t = #[trigger] runs(a, b, starts)[i];
                is_run(a, b, t) && t.start < starts
            },
        forall|s: int, d: int, k: int|
            0 <= s < starts && #[trigger] shared_run(a, b, s, d, k) ==> runs(
                a,
                b,
                starts,
            ).contains(transposition(s as nat, d as nat, k as nat)),
    decreases starts,
{
    if starts > 0 {
        let earlier = runs(a, b, (starts - 1) as nat);
        let spans = (a.len() - (starts - 1)) as nat;
        let last = runs_from(a, b, (starts - 1) as nat, spans);
        let r = runs(a, b, starts);
        lemma_runs(a, b, (starts - 1) as nat);
        lemma_runs_from(a, b, (starts - 1) as nat, spans);
        assert forall|i: int| 0 <= i < r.len() implies {
            let t = #[trigger] r[i];
            is_run(a, b, t) && t.start < starts
        } by {
            if i < earlier.len() {
                assert(r[i] == earlier[i]);
            } else {
                assert(r[i] == last[i - earlier.len()]);
            }
        }
        assert forall|s: int, d: int, k: int|
            0 <= s < starts && #[trigger] shared_run(a, b, s, d, k) implies r.contains(
            transposition(s as nat, d as nat, k as nat),
        ) by {
            let u = transposition(s as nat, d as nat, k as nat);
            lemma_concat_contains(earlier, last, u);
            if s == starts - 1 {
                assert(last.contains(u));
            } else {
                assert(earlier.contains(u));
            }
        }
    }
}

/// The transpositions between two strings are the runs that they share:
/// each member is such a run, and each such run is a member.
pub proof fn lemma_transpositions(a: Seq<char>, b: Seq<char>)
    requires
        a.len() <= usize::MAX,
    ensures
        forall|i: int|
            0 <= i < spec_transpositions(a, b).len() ==> is_run(
                a,
                b,
                #[trigger] spec_transpositions(a, b)[i],
            ),
        forall|s: int, d: int, k: int| #[trigger]
            shared_run(a, b, s, d, k) ==> spec_transpositions(a, b).contains(
                transposition(s as nat, d as nat, k as nat),
            ),
        all_spans_positive(spec_transpositions(a, b)),
{
    lemma_runs(a, b, a.len());
}

/// A phrase compared with itself scores one: the run that is the whole
/// phrase covers every other.
pub proof fn lemma_same_phrase_scores_one(s: Seq<char>)
    requires
        s.len() <= usize::MAX,
    ensures
        spec_greedy_score(transpositions_of(s, s)) == 1,
{
    let a = without_spaces(s);
    s.lemma_filter_len(not_space());
    let all = spec_transpositions(a, a);
    lemma_transpositions(a, a);
    if all.len() > 0 {
        let n = a.len();
        assert(n > 0) by {
            assert(is_run(a, a, all[0]));
        }
        let full = transposition(0, 0, n);
        assert(shared_run(a, a, 0, 0, n as int));
        assert(all.contains(full));
        let at = choose|i: int| 0 <= i < all.len() && all[i] == full;
        // every member covers the whole phrase
        assert forall|i: int| 0 <= i < all.len() implies covering(full)(#[trigger] all[i]) by {
            assert(is_run(a, a, all[i]));
        }
        lemma_filter_all(all, covering(full));
        lemma_chosen_exists(all);
        let k = chosen(all);
        all.lemma_filter_len(covering(all[k]));
        assert(cover_count(all, all[at]) <= cover_count(all, all[k]));
        // so every member covers the chosen one, which leaves nothing
        lemma_filter_full(all, covering(all[k]));
        assert forall|i: int| 0 <= i < all.len() implies !not_covered_by(all[k])(
            #[trigger] all[i],
        ) by {
            assert(covering(all[k])(all[i]));
        }
        lemma_filter_none(all, not_covered_by(all[k]));
    }
}

/// A phrase compared with another arrangement of its letters scores at
/// least two: no single run accounts for all of them. The two phrases must
/// differ in more than their spaces.
pub proof fn lemma_rearranged_phrase_scores_two(s: Seq<char>, t: Seq<char>)
    requires
        s.len() <= usize::MAX,
        without_spaces(s).to_multiset() == without_spaces(t).to_multiset(),
        without_spaces(s) != without_spaces(t),
    ensures
        spec_greedy_score(transpositions_of(s, t)) >= 2,
{
    let a = without_spaces(s);
    let b = without_spaces(t);
    s.lemma_filter_len(not_space());
    a.to_multiset_ensures();
    b.to_multiset_ensures();
    let n = a.len();
    assert(b.len() == n);
    if n == 0 {
        assert(a =~= b);
    }
    let all = spec_transpositions(a, b);
    lemma_transpositions(a, b);
    // the first letter stands somewhere in the other phrase
    assert(a.contains(a[0]));
    assert(b.to_multiset().count(a[0]) > 0);
    let j0 = choose|j: int| 0 <= j < b.len() && b[j] == a[0];
    assert(a.subrange(0, 1) =~= b.subrange(j0, j0 + 1));
    assert(shared_run(a, b, 0, j0, 1));
    assert(all.contains(transposition(0, j0 as nat, 1)));
    assert(all.len() > 0);
    lemma_chosen_exists(all);
    let k = chosen(all);
    let top = all[k];
    assert(is_run(a, b, top));
    if top.span == n {
        assert(a =~= a.subrange(0, n as int));
        assert(b =~= b.subrange(0, n as int));
    }
    // a letter outside the chosen run, and the run of one letter that holds it
    let i: int = if top.start > 0 { 0 } else { top.span as int };
    assert(a.contains(a[i]));
    assert(b.to_multiset().count(a[i]) > 0);
    let j = choose|j: int| 0 <= j < b.len() && b[j] == a[i];
    assert(a.subrange(i, i + 1) =~= b.subrange(j, j + 1));
    assert(shared_run(a, b, i, j, 1));
    let other = transposition(i as nat, j as nat, 1);
    assert(all.contains(other));
    let at = choose|x: int| 0 <= x < all.len() && all[x] == other;
    assert(not_covered_by(top)(all[at]));
    all.lemma_filter_contains(not_covered_by(top), at);
    let rest = spec_maximum_overlap(all);
    assert(rest.len() > 0);
    lemma_step(all);
    assert(spec_greedy_score(rest) >= 1);
}

/// A space more or less in a phrase does not change what is left of it
/// without spaces.
pub proof fn lemma_space_is_ignored(s: Seq<char>, i: int)
    requires
        0 <= i <= s.len(),
    ensures
        without_spaces(s.insert(i, ' ')) == without_spaces(s),
{
    let p = not_space();
    let one = seq![' '];
    assert forall|k: int| 0 <= k < one.len() implies !p(#[trigger] one[k]) by {}
    lemma_filter_none(one, p);
    assert(one.filter(p) =~= Seq::<char>::empty());
    assert(s.insert(i, ' ') =~= (s.take(i) + one) + s.skip(i));
    assert(s =~= s.take(i) + s.skip(i));
    Seq::filter_distributes_over_add(s.take(i) + one, s.skip(i), p);
    Seq::filter_distributes_over_add(s.take(i), one, p);
    Seq::filter_distributes_over_add(s.take(i), s.skip(i), p);
    assert(s.take(i).filter(p) + one.filter(p) =~= s.take(i).filter(p));
}

/// The score does not change when a space is put into either phrase, nor,
/// read the other way round, when one is taken out.
pub proof fn lemma_score_ignores_spaces(s: Seq<char>, t: Seq<char>, i: int)
    requires
        0 <= i <= s.len(),
    ensures
        spec_greedy_score(transpositions_of(s.insert(i, ' '), t)) == spec_greedy_score(
            transpositions_of(s, t),
        ),
        spec_greedy_score(transpositions_of(t, s.insert(i, ' '))) == spec_greedy_score(
            transpositions_of(t, s),
        ),
{
    lemma_space_is_ignored(s, i);
}

} // verus!
