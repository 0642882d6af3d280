//! Facts about filtered sequences that the loops of this crate rest on.

use vstd::prelude::*;

verus! {

/// Filtering a prefix that is one longer: the member that was added is kept
/// if it passes the test.
pub proof fn lemma_filter_take<A>(s: Seq<A>, p: spec_fn(A) -> bool, i: int)
    requires
        0 <= i < s.len(),
    ensures
        s.take(i + 1).filter(p) == if p(s[i]) {
            s.take(i).filter(p).push(s[i])
        } else {
            s.take(i).filter(p)
        },
{
    reveal(Seq::filter);
    assert(s.take(i + 1).drop_last() =~= s.take(i));
    assert(s.take(i + 1).last() == s[i]);
}

/// A filter that some member fails gives fewer members.
pub proof fn lemma_filter_shrinks<A>(s: Seq<A>, p: spec_fn(A) -> bool, k: int)
    requires
        0 <= k < s.len(),
        !p(s[k]),
    ensures
        s.filter(p).len() < s.len(),
    decreases s.len(),
{
    reveal(Seq::filter);
    s.drop_last().lemma_filter_len(p);
    if k < s.len() - 1 {
        assert(s.drop_last()[k] == s[k]);
        lemma_filter_shrinks(s.drop_last(), p, k);
    }
}

/// A filter that every member passes changes nothing.
pub proof fn lemma_filter_all<A>(s: Seq<A>, p: spec_fn(A) -> bool)
    requires
        forall|i: int| 0 <= i < s.len() ==> p(#[trigger] s[i]),
    ensures
        s.filter(p) == s,
    decreases s.len(),
{
    reveal(Seq::filter);
    if s.len() > 0 {
        assert forall|i: int| 0 <= i < s.drop_last().len() implies p(
            #[trigger] s.drop_last()[i],
        ) by {
            assert(s.drop_last()[i] == s[i]);
        }
        lemma_filter_all(s.drop_last(), p);
        assert(s.drop_last().push(s.last()) =~= s);
    }
}

/// A filter that no member passes leaves nothing.
pub proof fn lemma_filter_none<A>(s: Seq<A>, p: spec_fn(A) -> bool)
    requires
        forall|i: int| 0 <= i < s.len() ==> !p(#[trigger] s[i]),
    ensures
        s.filter(p).len() == 0,
    decreases s.len(),
{
    reveal(Seq::filter);
    if s.len() > 0 {
        assert forall|i: int| 0 <= i < s.drop_last().len() implies !p(
            #[trigger] s.drop_last()[i],
        ) by {
            assert(s.drop_last()[i] == s[i]);
        }
        lemma_filter_none(s.drop_last(), p);
    }
}

/// A filter that keeps as many members as there are keeps them all: every
/// member passes the test.
pub proof fn lemma_filter_full<A>(s: Seq<A>, p: spec_fn(A) -> bool)
    requires
        s.filter(p).len() == s.len(),
    ensures
        forall|i: int| 0 <= i < s.len() ==> p(#[trigger] s[i]),
{
    assert forall|i: int| 0 <= i < s.len() implies p(#[trigger] s[i]) by {
        if !p(s[i]) {
            lemma_filter_shrinks(s, p, i);
        }
    }
}

/// A member of either part is a member of the whole, and the other way
/// round.
pub proof fn lemma_concat_contains<A>(x: Seq<A>, y: Seq<A>, a: A)
    ensures
        (x + y).contains(a) == (x.contains(a) || y.contains(a)),
{
    if x.contains(a) {
        let i = choose|i: int| 0 <= i < x.len() && x[i] == a;
        assert((x + y)[i] == a);
    }
    if y.contains(a) {
        let i = choose|i: int| 0 <= i < y.len() && y[i] == a;
        assert((x + y)[x.len() + i] == a);
    }
    if (x + y).contains(a) {
        let i = choose|i: int| 0 <= i < (x + y).len() && (x + y)[i] == a;
        if i < x.len() {
            assert(x[i] == a);
        } else {
            assert(y[i - x.len()] == a);
        }
    }
}

} // verus!
