use vstd::prelude::*;

verus! {

/// A letter together with the number of times it occurs.
#[derive(PartialEq, Eq, Hash, Debug, Structural)]
pub struct CharCount {
    pub letter: char,
    pub count: usize,
}

impl CharCount {
    /// A single occurrence of `letter`.
    pub fn new(letter: char) -> (r: CharCount)
        ensures
            r.letter == letter,
            r.count == 1,
    {
        CharCount { letter: letter, count: 1 }
    }
}

} // verus!
