use crate::charcount::CharCount;
use vstd::multiset::Multiset;
use vstd::prelude::*;

verus! {

broadcast use vstd::multiset::group_multiset_axioms;

/// `count` copies of `letter` and nothing else.
pub open spec fn repeated(letter: char, count: nat) -> Multiset<char> {
    Multiset::from_map(Map::<char, nat>::empty().insert(letter, count))
}

/// The letters that a run of entries stands for: each entry's letter, as
/// often as the entry counts it.
pub open spec fn letters_of(entries: Seq<CharCount>) -> Multiset<char>
    decreases entries.len(),
{
    if entries.len() == 0 {
        Multiset::empty()
    } else {
        letters_of(entries.drop_last()).add(
            repeated(entries.last().letter, entries.last().count as nat),
        )
    }
}

/// The one shape in which a list of counts is kept: letters strictly
/// ascending, so that none occurs twice, and no entry with a zero count.
pub open spec fn is_canonical(entries: Seq<CharCount>) -> bool {
    &&& forall|i: int| 0 <= i < entries.len() ==> (#[trigger] entries[i]).count >= 1
    &&& forall|i: int, j: int|
        0 <= i < j < entries.len() ==> (#[trigger] entries[i]).letter < (
        #[trigger] entries[j]).letter
}

/// The canonical entries that stand for the letters `m`: one entry for each
/// letter that occurs, with its count, in letter order. There is one such
/// run for every multiset that a list stands for, and no second one.
pub open spec fn entries_of(m: Multiset<char>) -> Seq<CharCount> {
    choose|e: Seq<CharCount>| is_canonical(e) && letters_of(e) == m
}

/// What subtracting one multiset of letters from another gives.
pub enum Difference {
    /// The smaller operand holds a letter more often than the bigger one.
    NoMatch,
    /// Both operands hold the same letters.
    FullMatch,
    /// The bigger operand holds the smaller one and these letters besides.
    PartialMatch(Multiset<char>),
}

/// Subtraction on multisets of letters, the model of [`CharList::subtract`].
pub open spec fn difference(big: Multiset<char>, small: Multiset<char>) -> Difference {
    if !small.subset_of(big) {
        Difference::NoMatch
    } else if big.subset_of(small) {
        Difference::FullMatch
    } else {
        Difference::PartialMatch(big.sub(small))
    }
}

/// The letters of a word as a list of counts, one entry per distinct letter,
/// in letter order.
#[derive(PartialEq, Eq, Hash, Debug)]
pub struct CharList {
    length: usize,
    list: Vec<CharCount>,
}

/// The outcome of [`CharList::subtract`].
#[derive(PartialEq, Eq, Debug)]
pub enum MatchResult {
    NoMatch,
    FullMatch,
    PartialMatch(CharList),
}

impl View for CharList {
    type V = Multiset<char>;

    /// A list is read as the multiset of letters that its entries stand for.
    open spec fn view(&self) -> Multiset<char> {
        letters_of(self.entries())
    }
}

impl View for MatchResult {
    type V = Difference;

    open spec fn view(&self) -> Difference {
        match self {
            MatchResult::NoMatch => Difference::NoMatch,
            MatchResult::FullMatch => Difference::FullMatch,
            MatchResult::PartialMatch(rest) => Difference::PartialMatch(rest@),
        }
    }
}

impl MatchResult {
    /// A remainder, where there is one, is a well-formed list.
    pub open spec fn wf(self) -> bool {
        self matches MatchResult::PartialMatch(rest) ==> rest.wf() && rest.entries()
            == entries_of(rest@)
    }
}

impl CharList {
    /// The entries, in the order in which the list holds them.
    pub closed spec fn entries(self) -> Seq<CharCount> {
        self.list@
    }

    /// The cached number of letters.
    pub closed spec fn spec_length(self) -> nat {
        self.length as nat
    }

    /// The invariant of the type: the entries are canonical, and the cached
    /// length is the number of letters that they stand for.
    pub open spec fn wf(self) -> bool {
        &&& is_canonical(self.entries())
        &&& self.spec_length() == self@.len()
    }

    /// The empty list.
    pub fn new() -> (r: CharList)
        ensures
            r.wf(),
            r@ == Multiset::<char>::empty(),
            r.entries() == Seq::<CharCount>::empty(),
            r.spec_length() == 0,
    {
        CharList { length: 0, list: Vec::new() }
    }

    /// The list with the one entry `count`.
    pub fn init(count: CharCount) -> (r: CharList)
        requires
            count.count >= 1,
        ensures
            r.wf(),
            r@ == repeated(count.letter, count.count as nat),
            r.entries() == seq![count],
            r.spec_length() == count.count,
    {
        let mut l = Vec::new();
        let length = count.count;
        l.push(count);
        proof {
            assert(l@ == Seq::<CharCount>::empty().push(count));
            lemma_letters_push(Seq::<CharCount>::empty(), count);
            lemma_repeated(count.letter, count.count as nat);
            assert(letters_of(l@) =~= repeated(count.letter, count.count as nat));
        }
        CharList { length: length, list: l }
    }

    /// Merges two lists into a new one that holds the letters of both. Where
    /// both hold a letter, the counts add.
    pub fn combine(first: CharList, second: CharList) -> (r: CharList)
        requires
            first.wf(),
            second.wf(),
            first@.len() + second@.len() <= usize::MAX,
        ensures
            r.wf(),
            r@ == first@.add(second@),
            r.entries() == entries_of(first@.add(second@)),
            r.spec_length() == first.spec_length() + second.spec_length(),
    {
        let mut result: Vec<CharCount> = Vec::new();
        let n1 = first.list.len();
        let n2 = second.list.len();
        let mut i: usize = 0;
        let mut j: usize = 0;
        while i < n1 || j < n2
            invariant
                n1 == first.list.len(),
                n2 == second.list.len(),
                i <= n1,
                j <= n2,
                first.wf(),
                second.wf(),
                first@.len() + second@.len() <= usize::MAX,
                is_canonical(result@),
                letters_of(result@) == letters_of(first.list@.take(i as int)).add(
                    letters_of(second.list@.take(j as int)),
                ),
                forall|k: int|
                    0 <= k < result.len() && i < n1 ==> (#[trigger] result@[k]).letter
                        < first.list@[i as int].letter,
                forall|k: int|
                    0 <= k < result.len() && j < n2 ==> (#[trigger] result@[k]).letter
                        < second.list@[j as int].letter,
            decreases (n1 - i) + (n2 - j),
        {
            let ghost before = result@;
            if j == n2 || (i < n1 && first.list[i].letter < second.list[j].letter) {
                // only the first list has this letter
                let cc1 = &first.list[i];
                let entry = CharCount { letter: cc1.letter, count: cc1.count };
                result.push(entry);
                proof {
                    lemma_letters_push(before, entry);
                    lemma_letters_take(first.list@, i as int);
                    assert(letters_of(result@) =~= letters_of(
                        first.list@.take(i as int + 1),
                    ).add(letters_of(second.list@.take(j as int))));
                }
                i = i + 1;
            } else if i == n1 || first.list[i].letter > second.list[j].letter {
                // only the second list has this letter
                let cc2 = &second.list[j];
                let entry = CharCount { letter: cc2.letter, count: cc2.count };
                result.push(entry);
                proof {
                    lemma_letters_push(before, entry);
                    lemma_letters_take(second.list@, j as int);
                    assert(letters_of(result@) =~= letters_of(first.list@.take(i as int)).add(
                        letters_of(second.list@.take(j as int + 1)),
                    ));
                }
                j = j + 1;
            } else {
                // both have it: the counts add
                let cc1 = &first.list[i];
                let cc2 = &second.list[j];
                proof {
                    lemma_letter_present(first.list@, i as int);
                    lemma_letter_present(second.list@, j as int);
                }
                let entry = CharCount { letter: cc1.letter, count: cc1.count + cc2.count };
                result.push(entry);
                proof {
                    lemma_letters_push(before, entry);
                    lemma_letters_take(first.list@, i as int);
                    lemma_letters_take(second.list@, j as int);
                    lemma_repeated(cc1.letter, cc1.count as nat);
                    lemma_repeated(cc1.letter, cc2.count as nat);
                    lemma_repeated(cc1.letter, entry.count as nat);
                    assert(repeated(entry.letter, entry.count as nat) =~= repeated(
                        cc1.letter,
                        cc1.count as nat,
                    ).add(repeated(cc2.letter, cc2.count as nat)));
                    assert(letters_of(result@) =~= letters_of(
                        first.list@.take(i as int + 1),
                    ).add(letters_of(second.list@.take(j as int + 1))));
                }
                i = i + 1;
                j = j + 1;
            }
        }
        proof {
            assert(first.list@.take(n1 as int) =~= first.list@);
            assert(second.list@.take(n2 as int) =~= second.list@);
        }
        proof {
            lemma_entries_of(result@);
        }
        CharList { length: first.length + second.length, list: result }
    }

    /// The list of the letters of `s`. Every character counts, whatever
    /// it is.
    pub fn from_string(s: &str) -> (r: CharList)
        ensures
            r.wf(),
            r@ == s@.to_multiset(),
            r.entries() == entries_of(s@.to_multiset()),
            r.spec_length() == s@.len(),
            forall|i: int, j: int|
                0 <= i < j < r.entries().len() ==> r.entries()[i].letter < r.entries()[j].letter,
    {
        let total = s.unicode_len();
        let mut acc = CharList::new();
        proof {
            assert(s@.take(0) =~= Seq::<char>::empty());
            s@.take(0).to_multiset_ensures();
            assert(s@.take(0).to_multiset() =~= Multiset::<char>::empty());
        }
        for c in it: s.chars()
            invariant
                acc.wf(),
                it.seq() == s@,
                acc@ == s@.take(it.index() as int).to_multiset(),
                s@.len() == total,
        {
            let ghost done = s@.take(it.index() as int);
            proof {
                done.to_multiset_ensures();
                assert(s@.take(it.index() as int + 1) =~= done.push(c));
                lemma_repeated(c, 1);
                assert(repeated(c, 1) =~= Multiset::<char>::empty().insert(c));
                assert(done.to_multiset().add(repeated(c, 1)) =~= done.to_multiset().insert(c));
            }
            let cl = CharList::init(CharCount::new(c));
            acc = CharList::combine(acc, cl);
        }
        proof {
            assert(s@.take(s@.len() as int) =~= s@);
            s@.to_multiset_ensures();
            lemma_entries_of(acc.list@);
        }
        acc
    }

    /// Takes the letters of `small` out of `big`. There is no match where
    /// `small` holds a letter more often than `big` does, a full match where
    /// both hold the same letters, and else a partial match, which carries a
    /// new list of the letters that are left. Neither operand is changed.
    pub fn subtract(big: &CharList, small: &CharList) -> (r: MatchResult)
        requires
            big.wf(),
            small.wf(),
        ensures
            r.wf(),
            r@ == difference(big@, small@),
    {
        let mut result: Vec<CharCount> = Vec::new();
        let n1 = big.list.len();
        let n2 = small.list.len();
        let mut i: usize = 0;
        let mut j: usize = 0;
        while i < n1 || j < n2
            invariant
                n1 == big.list.len(),
                n2 == small.list.len(),
                i <= n1,
                j <= n2,
                big.wf(),
                small.wf(),
                is_canonical(result@),
                letters_of(big.list@.take(i as int)) == letters_of(result@).add(
                    letters_of(small.list@.take(j as int)),
                ),
                forall|k: int|
                    0 <= k < result.len() && i < n1 ==> (#[trigger] result@[k]).letter
                        < big.list@[i as int].letter,
                forall|k: int|
                    0 <= k < i && j < n2 ==> (#[trigger] big.list@[k]).letter
                        < small.list@[j as int].letter,
            decreases (n1 - i) + (n2 - j),
        {
            let ghost before = result@;
            if i == n1 {
                // letters are left in `small` that `big` has run out of
                proof {
                    lemma_lacks(big.list@, small.list@, j as int);
                }
                return MatchResult::NoMatch;
            }
            let cc1 = &big.list[i];
            if j == n2 || cc1.letter < small.list[j].letter {
                let entry = CharCount { letter: cc1.letter, count: cc1.count };
                result.push(entry);
                proof {
                    lemma_letters_push(before, entry);
                    lemma_letters_take(big.list@, i as int);
                    assert(letters_of(big.list@.take(i as int + 1)) =~= letters_of(result@).add(
                        letters_of(small.list@.take(j as int)),
                    ));
                }
                i = i + 1;
            } else {
                let cc2 = &small.list[j];
                if cc1.letter > cc2.letter {
                    // `big` has passed a letter that `small` holds
                    proof {
                        lemma_lacks(big.list@, small.list@, j as int);
                    }
                    return MatchResult::NoMatch;
                } else if cc1.count < cc2.count {
                    proof {
                        lemma_letter_present(big.list@, i as int);
                        lemma_letter_present(small.list@, j as int);
                    }
                    return MatchResult::NoMatch;
                } else {
                    proof {
                        lemma_letters_take(big.list@, i as int);
                        lemma_letters_take(small.list@, j as int);
                        lemma_repeated(cc1.letter, cc1.count as nat);
                        lemma_repeated(cc1.letter, cc2.count as nat);
                    }
                    if cc1.count > cc2.count {
                        let entry = CharCount { letter: cc1.letter, count: cc1.count - cc2.count };
                        result.push(entry);
                        proof {
                            lemma_letters_push(before, entry);
                            lemma_repeated(cc1.letter, entry.count as nat);
                        }
                    }
                    proof {
                        assert(letters_of(big.list@.take(i as int + 1)) =~= letters_of(
                            result@,
                        ).add(letters_of(small.list@.take(j as int + 1))));
                    }
                    i = i + 1;
                    j = j + 1;
                }
            }
        }
        proof {
            assert(big.list@.take(n1 as int) =~= big.list@);
            assert(small.list@.take(n2 as int) =~= small.list@);
            assert(big@ =~= letters_of(result@).add(small@));
            assert(letters_of(result@) =~= big@.sub(small@));
        }
        if result.len() == 0 {
            MatchResult::FullMatch
        } else {
            proof {
                lemma_letter_present(result@, 0);
                lemma_entries_of(result@);
            }
            MatchResult::PartialMatch(
                CharList { length: big.length - small.length, list: result },
            )
        }
    }

    /// Whether `big` holds every letter of `small` at least as often as
    /// `small` does: whether [`CharList::subtract`] would find a match. No
    /// remainder is built.
    pub fn filter(big: &CharList, small: &CharList) -> (r: bool)
        requires
            big.wf(),
            small.wf(),
        ensures
            r == small@.subset_of(big@),
    {
        let n1 = big.list.len();
        let n2 = small.list.len();
        let mut i: usize = 0;
        let mut j: usize = 0;
        while i < n1 || j < n2
            invariant
                n1 == big.list.len(),
                n2 == small.list.len(),
                i <= n1,
                j <= n2,
                big.wf(),
                small.wf(),
                letters_of(small.list@.take(j as int)).subset_of(
                    letters_of(big.list@.take(i as int)),
                ),
                forall|k: int|
                    0 <= k < i && j < n2 ==> (#[trigger] big.list@[k]).letter
                        < small.list@[j as int].letter,
            decreases (n1 - i) + (n2 - j),
        {
            if i == n1 {
                proof {
                    lemma_lacks(big.list@, small.list@, j as int);
                }
                return false;
            }
            let cc1 = &big.list[i];
            if j == n2 || cc1.letter < small.list[j].letter {
                proof {
                    lemma_letters_take(big.list@, i as int);
                }
                i = i + 1;
            } else {
                let cc2 = &small.list[j];
                if cc1.letter > cc2.letter {
                    proof {
                        lemma_lacks(big.list@, small.list@, j as int);
                    }
                    return false;
                } else if cc1.count < cc2.count {
                    proof {
                        lemma_letter_present(big.list@, i as int);
                        lemma_letter_present(small.list@, j as int);
                    }
                    return false;
                } else {
                    proof {
                        lemma_letters_take(big.list@, i as int);
                        lemma_letters_take(small.list@, j as int);
                        lemma_repeated(cc1.letter, cc1.count as nat);
                        lemma_repeated(cc1.letter, cc2.count as nat);
                    }
                    i = i + 1;
                    j = j + 1;
                }
            }
        }
        proof {
            assert(big.list@.take(n1 as int) =~= big.list@);
            assert(small.list@.take(n2 as int) =~= small.list@);
        }
        true
    }

    /// Whether both lists hold the same letters, each as often as the other.
    pub fn same_letters(&self, other: &CharList) -> (r: bool)
        requires
            self.wf(),
            other.wf(),
        ensures
            r == (self@ == other@),
    {
        let n = self.list.len();
        if n != other.list.len() {
            proof {
                if self@ == other@ {
                    lemma_canonical_unique(self.list@, other.list@);
                }
            }
            return false;
        }
        let mut i: usize = 0;
        while i < n
            invariant
                n == self.list.len(),
                n == other.list.len(),
                i <= n,
                self.wf(),
                other.wf(),
                forall|k: int| 0 <= k < i ==> self.list@[k] == other.list@[k],
            decreases n - i,
        {
            if self.list[i].letter != other.list[i].letter || self.list[i].count
                != other.list[i].count {
                proof {
                    if self@ == other@ {
                        lemma_canonical_unique(self.list@, other.list@);
                    }
                }
                return false;
            }
            i = i + 1;
        }
        proof {
            assert(self.list@ =~= other.list@);
        }
        true
    }

    /// The number of letters in the list, each counted as often as it occurs.
    pub fn length(&self) -> (r: usize)
        requires
            self.wf(),
        ensures
            r == self@.len(),
    {
        self.length
    }

    /// The entries of the list: one per distinct letter, in letter order.
    pub fn list(&self) -> (r: &Vec<CharCount>)
        ensures
            r@ == self.entries(),
    {
        &self.list
    }
}

/// Appending an entry adds its letters.
pub proof fn lemma_letters_push(entries: Seq<CharCount>, entry: CharCount)
    ensures
        letters_of(entries.push(entry)) == letters_of(entries).add(
            repeated(entry.letter, entry.count as nat),
        ),
{
    assert(entries.push(entry).drop_last() =~= entries);
}

/// The letters of a prefix that is one entry longer are those of the prefix
/// and of that entry.
pub proof fn lemma_letters_take(entries: Seq<CharCount>, i: int)
    requires
        0 <= i < entries.len(),
    ensures
        letters_of(entries.take(i + 1)) == letters_of(entries.take(i)).add(
            repeated(entries[i].letter, entries[i].count as nat),
        ),
{
    assert(entries.take(i + 1) =~= entries.take(i).push(entries[i]));
    lemma_letters_push(entries.take(i), entries[i]);
}

/// A letter that no entry carries does not occur among the letters.
pub proof fn lemma_letter_absent(entries: Seq<CharCount>, c: char)
    requires
        forall|k: int| 0 <= k < entries.len() ==> (#[trigger] entries[k]).letter != c,
    ensures
        letters_of(entries).count(c) == 0,
    decreases entries.len(),
{
    if entries.len() > 0 {
        lemma_letter_absent(entries.drop_last(), c);
        lemma_repeated(entries.last().letter, entries.last().count as nat);
    }
}

/// Among the letters of canonical entries, the letter of an entry occurs as
/// often as that entry says.
pub proof fn lemma_letter_present(entries: Seq<CharCount>, k: int)
    requires
        is_canonical(entries),
        0 <= k < entries.len(),
    ensures
        letters_of(entries).count(entries[k].letter) == entries[k].count,
    decreases entries.len(),
{
    let front = entries.drop_last();
    let last = entries.last();
    lemma_repeated(last.letter, last.count as nat);
    if k == entries.len() - 1 {
        assert forall|m: int| 0 <= m < front.len() implies (#[trigger] front[m]).letter
            != last.letter by {
            assert(front[m] == entries[m]);
        }
        lemma_letter_absent(front, last.letter);
    } else {
        assert(is_canonical(front));
        assert(front[k] == entries[k]);
        lemma_letter_present(front, k);
    }
}

/// Canonical entries are determined by the letters that they stand for: two
/// canonical runs with the same letters are the same run. So two well-formed
/// lists with the same view hold the same entries.
pub proof fn lemma_canonical_unique(x: Seq<CharCount>, y: Seq<CharCount>)
    requires
        is_canonical(x),
        is_canonical(y),
        letters_of(x) == letters_of(y),
    ensures
        x == y,
    decreases x.len(),
{
    if x.len() == 0 {
        if y.len() > 0 {
            lemma_letter_present(y, 0);
        }
        assert(x =~= y);
    } else if y.len() == 0 {
        lemma_letter_present(x, 0);
    } else {
        let xl = x.last();
        let yl = y.last();
        lemma_letter_present(x, x.len() - 1);
        lemma_letter_present(y, y.len() - 1);
        // the last letter of each run occurs in the other, at or below its last letter
        if xl.letter != yl.letter {
            if xl.letter < yl.letter {
                assert forall|k: int| 0 <= k < x.len() implies (#[trigger] x[k]).letter
                    != yl.letter by {}
                lemma_letter_absent(x, yl.letter);
            } else {
                assert forall|k: int| 0 <= k < y.len() implies (#[trigger] y[k]).letter
                    != xl.letter by {}
                lemma_letter_absent(y, xl.letter);
            }
        }
        assert(xl == yl);
        assert(is_canonical(x.drop_last()));
        assert(is_canonical(y.drop_last()));
        lemma_repeated(xl.letter, xl.count as nat);
        assert(letters_of(x.drop_last()) =~= letters_of(x).sub(
            repeated(xl.letter, xl.count as nat),
        ));
        assert(letters_of(y.drop_last()) =~= letters_of(y).sub(
            repeated(yl.letter, yl.count as nat),
        ));
        lemma_canonical_unique(x.drop_last(), y.drop_last());
        assert(x =~= x.drop_last().push(xl));
        assert(y =~= y.drop_last().push(yl));
    }
}

/// Two well-formed lists with the same letters are equal field by field:
/// the same entries in the same order, and the same length.
pub proof fn lemma_same_letters_same_list(a: CharList, b: CharList)
    requires
        a.wf(),
        b.wf(),
        a@ == b@,
    ensures
        a.entries() == b.entries(),
        a.spec_length() == b.spec_length(),
{
    lemma_canonical_unique(a.entries(), b.entries());
}

/// Canonical entries are the canonical entries of their letters.
pub proof fn lemma_entries_of(e: Seq<CharCount>)
    requires
        is_canonical(e),
    ensures
        entries_of(letters_of(e)) == e,
{
    let m = letters_of(e);
    let c = entries_of(m);
    assert(is_canonical(e) && letters_of(e) == m);
    lemma_canonical_unique(c, e);
}

/// A well-formed list holds the canonical entries of its letters, and as
/// many letters as its length says.
pub proof fn lemma_wf_entries(a: CharList)
    requires
        a.wf(),
    ensures
        a.entries() == entries_of(a@),
        a.spec_length() == a@.len(),
{
    lemma_entries_of(a.entries());
}

/// Combining is commutative: `combine(a, b)` and `combine(b, a)` hold the
/// same letters, the same entries in the same order, and the same length.
pub proof fn lemma_combine_commutes(a: CharList, b: CharList)
    ensures
        a@.add(b@) == b@.add(a@),
        entries_of(a@.add(b@)) == entries_of(b@.add(a@)),
        a.spec_length() + b.spec_length() == b.spec_length() + a.spec_length(),
{
    assert(a@.add(b@) =~= b@.add(a@));
}

/// Subtracting one operand from a combination gives back the other: a
/// partial match whose remainder has the letters and the entries of `b`
/// where `b` has any letters, and a full match where it has none.
pub proof fn lemma_subtract_after_combine(a: CharList, b: CharList)
    requires
        b.wf(),
    ensures
        b@.len() > 0 ==> difference(a@.add(b@), a@) == Difference::PartialMatch(b@),
        b@.len() == 0 ==> difference(a@.add(b@), a@) == Difference::FullMatch,
        entries_of(a@.add(b@).sub(a@)) == b.entries(),
{
    let x = a@;
    let y = b@;
    assert(x.subset_of(x.add(y)));
    assert(x.add(y).sub(x) =~= y);
    lemma_entries_of(b.entries());
    if y.len() > 0 {
        let c = y.choose();
        assert(y.count(c) > 0);
        assert(x.add(y).count(c) > x.count(c));
        assert(!x.add(y).subset_of(x));
    } else {
        assert(y =~= Multiset::<char>::empty());
        assert(x.add(y).subset_of(x));
    }
}

/// Nothing can be subtracted that holds a letter which the bigger operand
/// lacks.
pub proof fn lemma_subtract_missing_letter(big: Multiset<char>, small: Multiset<char>, c: char)
    requires
        small.count(c) > 0,
        big.count(c) == 0,
    ensures
        difference(big, small) == Difference::NoMatch,
{
}

/// Where canonical `big` has no entry for the letter of entry `j` of canonical
/// `small`, the letters of `small` are not all among those of `big`.
proof fn lemma_lacks(big: Seq<CharCount>, small: Seq<CharCount>, j: int)
    requires
        is_canonical(big),
        is_canonical(small),
        0 <= j < small.len(),
        forall|k: int| 0 <= k < big.len() ==> (#[trigger] big[k]).letter != small[j].letter,
    ensures
        !letters_of(small).subset_of(letters_of(big)),
{
    lemma_letter_absent(big, small[j].letter);
    lemma_letter_present(small, j);
}

/// `repeated` holds its letter `count` times, no other letter, and so has
/// `count` members.
pub proof fn lemma_repeated(letter: char, count: nat)
    ensures
        repeated(letter, count).count(letter) == count,
        forall|c: char| c != letter ==> repeated(letter, count).count(c) == 0,
        repeated(letter, count).len() == count,
    decreases count,
{
    let m = Map::<char, nat>::empty().insert(letter, count);
    assert(m.dom().finite());
    assert(m.dom().contains(letter));
    assert forall|c: char| c != letter implies repeated(letter, count).count(c) == 0 by {
        assert(!m.dom().contains(c));
    }
    if count == 0 {
        assert(repeated(letter, count) =~= Multiset::<char>::empty());
    } else {
        let less = (count - 1) as nat;
        lemma_repeated(letter, less);
        let m1 = Map::<char, nat>::empty().insert(letter, less);
        assert(m1.dom().finite());
        assert(m1.dom().contains(letter));
        assert forall|c: char|
            repeated(letter, count).count(c) == repeated(letter, less).insert(letter).count(
                c,
            ) by {
            if c != letter {
                assert(!m.dom().contains(c));
                assert(!m1.dom().contains(c));
            }
        }
        assert(repeated(letter, count) =~= repeated(letter, less).insert(letter));
    }
}

} // verus!
