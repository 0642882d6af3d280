//! The dictionary index: the candidate words, grouped by the letters that
//! they are made of, and the phrases that a sequence of such groups stands
//! for.

use crate::charlist::CharList;
use crate::search::{all_wf, sequences, views};
use vstd::multiset::Multiset;
use vstd::prelude::*;
use vstd::slice::slice_subrange;
use vstd::utf8::encode_utf8;

verus! {

/// The lowercase form of a string, as `str::to_lowercase` of the standard
/// library gives it.
pub uninterp spec fn lowercase_of(s: Seq<char>) -> Seq<char>;

/// The letters by which a word is filed: those of its lowercase form.
pub open spec fn letters_of_word(word: Seq<char>) -> Multiset<char> {
    lowercase_of(word).to_multiset()
}

/// What an index holds: the keys in the order in which they came, and for
/// each key the words that are filed under it, in the order in which they
/// came.
pub struct IndexModel {
    pub keys: Seq<Multiset<char>>,
    pub buckets: Seq<Seq<Seq<char>>>,
}

impl IndexModel {
    /// No key occurs twice, no word occurs twice under its key, and every
    /// word stands under the key of its letters.
    pub open spec fn wf(self) -> bool {
        &&& self.keys.len() == self.buckets.len()
        &&& self.keys.no_duplicates()
        &&& forall|i: int| 0 <= i < self.buckets.len() ==> (#[trigger] self.buckets[i]).no_duplicates()
        &&& forall|i: int, j: int|
            0 <= i < self.buckets.len() && 0 <= j < self.buckets[i].len() ==> letters_of_word(
                #[trigger] self.buckets[i][j],
            ) == self.keys[i]
    }

    /// The words that are filed under `key`; none where there is no such key.
    pub open spec fn words_for(self, key: Multiset<char>) -> Seq<Seq<char>> {
        if self.keys.contains(key) {
            self.buckets[self.keys.index_of(key)]
        } else {
            Seq::empty()
        }
    }

    /// The index with `word` filed: under a new last key where no word with
    /// its letters was filed before, and else as the last word under its
    /// key, unless it stands there already.
    pub open spec fn insert(self, word: Seq<char>) -> IndexModel {
        let key = letters_of_word(word);
        if self.keys.contains(key) {
            let i = self.keys.index_of(key);
            if self.buckets[i].contains(word) {
                self
            } else {
                IndexModel {
                    keys: self.keys,
                    buckets: self.buckets.update(i, self.buckets[i].push(word)),
                }
            }
        } else {
            IndexModel { keys: self.keys.push(key), buckets: self.buckets.push(seq![word]) }
        }
    }
}

/// The index that holds nothing.
pub open spec fn empty_index() -> IndexModel {
    IndexModel { keys: Seq::empty(), buckets: Seq::empty() }
}

/// The index of the lines that are at least `minimum_length` bytes long in
/// UTF-8, filed one after the other.
pub open spec fn spec_index_words(lines: Seq<Seq<char>>, minimum_length: nat) -> IndexModel
    decreases lines.len(),
{
    if lines.len() == 0 {
        empty_index()
    } else {
        let before = spec_index_words(lines.drop_last(), minimum_length);
        if encode_utf8(lines.last()).len() >= minimum_length {
            before.insert(lines.last())
        } else {
            before
        }
    }
}

/// The words that a run of strings holds.
pub open spec fn texts(v: Seq<String>) -> Seq<Seq<char>> {
    v.map_values(|s: String| s@)
}

/// The buckets that a run of vectors of strings holds.
pub open spec fn all_texts(v: Seq<Vec<String>>) -> Seq<Seq<Seq<char>>> {
    v.map_values(|b: Vec<String>| texts(b@))
}

/// The multisets that a run of lists stands for.
pub open spec fn key_views(v: Seq<CharList>) -> Seq<Multiset<char>> {
    v.map_values(|c: CharList| c@)
}

/// The step from a phrase to the phrase with `word` and a space before it.
pub open spec fn joined(word: Seq<char>) -> spec_fn(Seq<char>) -> Seq<char> {
    |t: Seq<char>| word + seq![' '] + t
}

/// Every way to follow a word of `words` by a phrase of `tails`, a space
/// between the two: by the word, and for one word by the phrase.
pub open spec fn product(words: Seq<Seq<char>>, tails: Seq<Seq<char>>) -> Seq<Seq<char>>
    decreases words.len(),
{
    if words.len() == 0 {
        Seq::empty()
    } else {
        product(words.drop_last(), tails) + tails.map_values(joined(words.last()))
    }
}

/// The buckets of the keys `set`, in the order of `set`.
pub open spec fn buckets_of(index: IndexModel, set: Seq<Multiset<char>>) -> Seq<Seq<Seq<char>>> {
    set.map_values(|key: Multiset<char>| index.words_for(key))
}

/// Whether every member of `set` is a key of `index`.
pub open spec fn all_keys_of(index: IndexModel, set: Seq<Multiset<char>>) -> bool {
    forall|i: int| 0 <= i < set.len() ==> index.keys.contains(#[trigger] set[i])
}

/// The phrases that a sequence of buckets stands for: one word from each
/// bucket, in the order of the buckets, with single spaces between them.
/// The first bucket varies slowest.
pub open spec fn spec_phrases(buckets: Seq<Seq<Seq<char>>>) -> Seq<Seq<char>>
    decreases buckets.len(),
{
    if buckets.len() == 0 {
        Seq::empty()
    } else if buckets.len() == 1 {
        buckets[0]
    } else {
        product(buckets[0], spec_phrases(buckets.skip(1)))
    }
}

/// The phrases of all the anagrams, anagram by anagram.
pub open spec fn spec_all_phrases(index: IndexModel, anagrams: Seq<Seq<Multiset<char>>>) -> Seq<
    Seq<char>,
>
    decreases anagrams.len(),
{
    if anagrams.len() == 0 {
        Seq::empty()
    } else {
        spec_all_phrases(index, anagrams.drop_last()) + spec_phrases(
            buckets_of(index, anagrams.last()),
        )
    }
}

/// `str::to_lowercase` of the standard library: the lowercase form of `s`,
/// which depends on nothing but the characters of `s`.
#[verifier::external_body]
fn lowercase(s: &str) -> (r: String)
    ensures
        r@ == lowercase_of(s@),
{
    s.to_lowercase()
}

/// The list of the letters of a word, taken from its lowercase form.
pub fn fingerprint(word: &str) -> (r: CharList)
    ensures
        r.wf(),
        r@ == letters_of_word(word@),
{
    let lower = lowercase(word);
    CharList::from_string(lower.as_str())
}

/// The candidate words, grouped by their letters.
pub struct DictionaryIndex {
    keys: Vec<CharList>,
    buckets: Vec<Vec<String>>,
}

impl View for DictionaryIndex {
    type V = IndexModel;

    closed spec fn view(&self) -> IndexModel {
        IndexModel { keys: key_views(self.keys@), buckets: all_texts(self.buckets@) }
    }
}

impl DictionaryIndex {
    /// The invariant of the type: what it holds is well-formed, and so is
    /// every key.
    pub closed spec fn wf(self) -> bool {
        &&& self@.wf()
        &&& forall|i: int| 0 <= i < self.keys.len() ==> (#[trigger] self.keys@[i]).wf()
    }

    /// An index without words.
    pub fn new() -> (r: DictionaryIndex)
        ensures
            r.wf(),
            r@ == empty_index(),
    {
        let r = DictionaryIndex { keys: Vec::new(), buckets: Vec::new() };
        proof {
            assert(r@.keys =~= Seq::empty());
            assert(r@.buckets =~= Seq::empty());
        }
        r
    }

    /// Where `key` stands among the keys, or the number of keys where it
    /// does not.
    fn position(&self, key: &CharList) -> (r: usize)
        requires
            self.wf(),
            key.wf(),
        ensures
            r <= self@.keys.len(),
            r < self@.keys.len() ==> self@.keys[r as int] == key@,
            r < self@.keys.len() ==> self@.keys.contains(key@) && self@.keys.index_of(key@) == r,
            r == self@.keys.len() ==> !self@.keys.contains(key@),
    {
        let n = self.keys.len();
        let mut i: usize = 0;
        while i < n
            invariant
                n == self.keys.len(),
                i <= n,
                self.wf(),
                key.wf(),
                forall|k: int| 0 <= k < i ==> self@.keys[k] != key@,
            decreases n - i,
        {
            if self.keys[i].same_letters(key) {
                proof {
                    let ks = self@.keys;
                    assert(ks[i as int] == key@);
                    assert(ks.contains(key@));
                    let j = ks.index_of(key@);
                    assert(0 <= j < ks.len() && ks[j] == key@);
                }
                return i;
            }
            i = i + 1;
        }
        n
    }

    /// Files `word` under the key of its letters.
    pub fn insert(&mut self, word: String)
        requires
            old(self).wf(),
        ensures
            final(self).wf(),
            final(self)@ == old(self)@.insert(word@),
    {
        let key = fingerprint(word.as_str());
        let i = self.position(&key);
        let ghost before = self@;
        proof {
            lemma_insert_wf(before, word@);
        }
        if i == self.keys.len() {
            // Key does not exist. add it
            let mut bucket: Vec<String> = Vec::new();
            bucket.push(word);
            self.keys.push(key);
            self.buckets.push(bucket);
            proof {
                assert(texts(bucket@) =~= seq![word@]);
                assert(self@.keys =~= before.keys.push(key@));
                assert(self@.buckets =~= before.buckets.push(seq![word@]));
            }
        } else {
            // Key exists, append word to the value vector
            if !holds(&self.buckets[i], &word) {
                let mut bucket: Vec<String> = Vec::new();
                std::mem::swap(&mut bucket, &mut self.buckets[i]);
                bucket.push(word);
                self.buckets.set(i, bucket);
                proof {
                    assert(texts(bucket@) =~= before.buckets[i as int].push(word@));
                    assert(self@.keys =~= before.keys);
                    assert(self@.buckets =~= before.buckets.update(
                        i as int,
                        before.buckets[i as int].push(word@),
                    ));
                }
            }
        }
    }

    /// The keys, in the order in which they came.
    pub fn keys(&self) -> (r: Vec<&CharList>)
        requires
            self.wf(),
        ensures
            views(r@) == self@.keys,
            all_wf(r@),
    {
        let mut out: Vec<&CharList> = Vec::new();
        let n = self.keys.len();
        let mut i: usize = 0;
        while i < n
            invariant
                n == self.keys.len(),
                i <= n,
                self.wf(),
                all_wf(out@),
                views(out@) == self@.keys.take(i as int),
            decreases n - i,
        {
            let ghost before = out@;
            out.push(&self.keys[i]);
            i = i + 1;
            proof {
                assert(views(out@) =~= views(before).push(self.keys@[i - 1]@));
                assert(self@.keys.take(i as int) =~= self@.keys.take(i - 1).push(
                    self.keys@[i - 1]@,
                ));
            }
        }
        proof {
            assert(self@.keys.take(n as int) =~= self@.keys);
        }
        out
    }

    /// The words that are filed under `key`, in the order in which they
    /// came, where there is such a key.
    pub fn expand(&self, key: &CharList) -> (r: Option<&Vec<String>>)
        requires
            self.wf(),
            key.wf(),
        ensures
            r is Some == self@.keys.contains(key@),
            r matches Some(words) ==> texts(words@) == self@.words_for(key@),
    {
        let i = self.position(key);
        if i < self.keys.len() {
            Some(&self.buckets[i])
        } else {
            None
        }
    }
}

/// Whether `word` is one of `words`.
fn holds(words: &Vec<String>, word: &String) -> (r: bool)
    ensures
        r == texts(words@).contains(word@),
{
    let n = words.len();
    let mut i: usize = 0;
    while i < n
        invariant
            n == words.len(),
            i <= n,
            forall|k: int| 0 <= k < i ==> texts(words@)[k] != word@,
        decreases n - i,
    {
        if words[i] == *word {
            proof {
                assert(texts(words@)[i as int] == word@);
            }
            return true;
        }
        i = i + 1;
    }
    false
}

/// Files the lines that are at least `minimum_length` bytes long, one after
/// the other, each under the key of its letters.
pub fn index_words(lines: &Vec<String>, minimum_length: usize) -> (r: DictionaryIndex)
    ensures
        r.wf(),
        r@ == spec_index_words(texts(lines@), minimum_length as nat),
{
    let mut map = DictionaryIndex::new();
    let n = lines.len();
    let mut i: usize = 0;
    proof {
        assert(texts(lines@).take(0) =~= Seq::empty());
    }
    while i < n
        invariant
            n == lines.len(),
            i <= n,
            map.wf(),
            map@ == spec_index_words(texts(lines@).take(i as int), minimum_length as nat),
        decreases n - i,
    {
        let word = &lines[i];
        proof {
            assert(texts(lines@).take(i + 1).drop_last() =~= texts(lines@).take(i as int));
            assert(texts(lines@).take(i + 1).last() == word@);
        }
        if word.as_str().as_bytes().len() >= minimum_length {
            let copy = word.clone();
            proof {
                assert(copy@ == word@);
            }
            map.insert(copy);
        }
        i = i + 1;
    }
    proof {
        assert(texts(lines@).take(n as int) =~= texts(lines@));
    }
    map
}

/// The phrases that a sequence of keys stands for: every way to pick one
/// word for each key, in the order of the keys, the words joined by single
/// spaces. Of no keys there is no phrase.
pub fn turn_into_strings(set: &[&CharList], words: &DictionaryIndex) -> (r: Option<Vec<String>>)
    requires
        words.wf(),
        all_wf(set@),
        all_keys_of(words@, views(set@)),
    ensures
        r is None == (set@.len() == 0),
        r matches Some(phrases) ==> texts(phrases@) == spec_phrases(
            buckets_of(words@, views(set@)),
        ),
    decreases set@.len(),
{
    let n = set.len();
    if n == 0 {
        return None;
    }
    let first = set[0];
    let rest = slice_subrange(set, 1, n);
    let ghost buckets = buckets_of(words@, views(set@));
    proof {
        assert(views(rest@) =~= views(set@).skip(1));
        assert(buckets_of(words@, views(rest@)) =~= buckets.skip(1));
        assert(words@.keys.contains(views(set@)[0]));
        assert forall|i: int| 0 <= i < rest@.len() implies words@.keys.contains(
            #[trigger] views(rest@)[i],
        ) by {
            assert(views(rest@)[i] == views(set@)[i + 1]);
        }
    }
    let wordset = words.expand(first).unwrap();
    let ghost ws = texts(wordset@);
    let count = wordset.len();
    let mut outs: Vec<String> = Vec::new();
    match turn_into_strings(rest, words) {
        Some(trailing) => {
            let ghost tails = texts(trailing@);
            let m = trailing.len();
            let mut i: usize = 0;
            proof {
                assert(ws.take(0) =~= Seq::empty());
                assert(texts(outs@) =~= product(ws.take(0), tails));
            }
            while i < count
                invariant
                    count == wordset.len(),
                    m == trailing.len(),
                    i <= count,
                    ws == texts(wordset@),
                    tails == texts(trailing@),
                    texts(outs@) == product(ws.take(i as int), tails),
                decreases count - i,
            {
                let w = &wordset[i];
                let ghost done = texts(outs@);
                let mut j: usize = 0;
                proof {
                    assert(texts(outs@) =~= done + tails.take(0).map_values(joined(w@)));
                }
                while j < m
                    invariant
                        m == trailing.len(),
                        j <= m,
                        tails == texts(trailing@),
                        texts(outs@) == done + tails.take(j as int).map_values(joined(w@)),
                    decreases m - j,
                {
                    let s = &trailing[j];
                    let mut phrase = w.clone();
                    phrase.append(" ");
                    phrase.append(s.as_str());
                    proof {
                        reveal_strlit(" ");
                        assert(" "@ =~= seq![' ']);
                        assert(phrase@ =~= joined(w@)(s@));
                    }
                    let ghost before = outs@;
                    outs.push(phrase);
                    j = j + 1;
                    proof {
                        assert(texts(outs@) =~= texts(before).push(phrase@));
                        assert(tails.take(j as int) =~= tails.take(j - 1).push(s@));
                        assert(texts(outs@) =~= done + tails.take(j as int).map_values(
                            joined(w@),
                        ));
                    }
                }
                proof {
                    assert(tails.take(m as int) =~= tails);
                    assert(ws.take(i + 1).drop_last() =~= ws.take(i as int));
                    assert(ws.take(i + 1).last() == w@);
                }
                i = i + 1;
            }
            proof {
                assert(ws.take(count as int) =~= ws);
                assert(buckets.len() > 1);
            }
        },
        None => {
            let mut i: usize = 0;
            while i < count
                invariant
                    count == wordset.len(),
                    i <= count,
                    ws == texts(wordset@),
                    texts(outs@) == ws.take(i as int),
                decreases count - i,
            {
                let ghost before = outs@;
                let copy = wordset[i].clone();
                outs.push(copy);
                i = i + 1;
                proof {
                    assert(texts(outs@) =~= texts(before).push(copy@));
                    assert(texts(outs@) =~= ws.take(i as int));
                }
            }
            proof {
                assert(ws.take(count as int) =~= ws);
                assert(buckets.len() == 1);
            }
        },
    }
    Some(outs)
}

/// The phrases of all the anagrams that were found: for each anagram in
/// turn, every way to pick one word for each of its keys.
pub fn all_phrases(anagrams: &Vec<Vec<&CharList>>, words: &DictionaryIndex) -> (r: Vec<String>)
    requires
        words.wf(),
        forall|i: int| 0 <= i < anagrams@.len() ==> all_wf(#[trigger] anagrams@[i]@),
        forall|i: int|
            0 <= i < anagrams@.len() ==> all_keys_of(words@, views(#[trigger] anagrams@[i]@)),
    ensures
        texts(r@) == spec_all_phrases(words@, sequences(anagrams@)),
{
    let mut all_anagrams: Vec<String> = Vec::new();
    let n = anagrams.len();
    let ghost seqs = sequences(anagrams@);
    let mut i: usize = 0;
    proof {
        assert(seqs.take(0) =~= Seq::empty());
        assert(texts(all_anagrams@) =~= Seq::empty());
    }
    while i < n
        invariant
            n == anagrams.len(),
            i <= n,
            seqs == sequences(anagrams@),
            words.wf(),
            forall|i: int| 0 <= i < anagrams@.len() ==> all_wf(#[trigger] anagrams@[i]@),
            forall|i: int|
                0 <= i < anagrams@.len() ==> all_keys_of(
                    words@,
                    views(#[trigger] anagrams@[i]@),
                ),
            texts(all_anagrams@) == spec_all_phrases(words@, seqs.take(i as int)),
        decreases n - i,
    {
        let a = &anagrams[i];
        let ghost before = all_anagrams@;
        proof {
            assert(seqs.take(i + 1).drop_last() =~= seqs.take(i as int));
            assert(seqs.take(i + 1).last() == views(a@));
        }
        match turn_into_strings(a.as_slice(), words) {
            Some(strings) => {
                let mut strings = strings;
                let ghost added = strings@;
                all_anagrams.append(&mut strings);
                proof {
                    assert(texts(all_anagrams@) =~= texts(before) + texts(added));
                }
            },
            None => {
                proof {
                    assert(buckets_of(words@, views(a@)).len() == 0);
                    assert(texts(all_anagrams@) =~= texts(before) + Seq::<Seq<char>>::empty());
                }
            },
        }
        i = i + 1;
    }
    proof {
        assert(seqs.take(n as int) =~= seqs);
    }
    all_anagrams
}

/// Filing a word keeps an index well-formed.
pub proof fn lemma_insert_wf(m: IndexModel, word: Seq<char>)
    requires
        m.wf(),
    ensures
        m.insert(word).wf(),
{
    let key = letters_of_word(word);
    let r = m.insert(word);
    if m.keys.contains(key) {
        let i = m.keys.index_of(key);
        if !m.buckets[i].contains(word) {
            assert forall|a: int| 0 <= a < r.buckets.len() implies (
            #[trigger] r.buckets[a]).no_duplicates() by {
                if a == i {
                    assert(m.buckets[i].no_duplicates());
                }
            }
            assert forall|a: int, b: int|
                0 <= a < r.buckets.len() && 0 <= b < r.buckets[a].len() implies letters_of_word(
                #[trigger] r.buckets[a][b],
            ) == r.keys[a] by {
                if a == i && b < m.buckets[i].len() {
                    assert(r.buckets[a][b] == m.buckets[a][b]);
                } else if a != i {
                    assert(r.buckets[a][b] == m.buckets[a][b]);
                }
            }
        }
    } else {
        assert forall|a: int, b: int|
            0 <= a < r.buckets.len() && 0 <= b < r.buckets[a].len() implies letters_of_word(
            #[trigger] r.buckets[a][b],
        ) == r.keys[a] by {
            if a < m.buckets.len() {
                assert(r.buckets[a][b] == m.buckets[a][b]);
            }
        }
    }
}

} // verus!
