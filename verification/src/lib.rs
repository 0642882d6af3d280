//! Multi-word anagrams of a phrase, drawn from a word list and ranked by how
//! far each one rearranges the letters of the phrase.
//!
//! [`charlist`] keeps the letters of a word as a sorted list of counts, with
//! addition, containment and subtraction. [`dictionary`] files the candidate
//! words under the letters that they are made of. [`search`] finds the
//! sequences of candidates whose letters are those of the goal, and
//! [`dictionary::turn_into_strings`] writes each out as phrases.
//! [`acompare`] scores how differently two phrases order the same letters,
//! and [`ranking`] puts the phrases in the order of their scores.
//!
//! Reading the word list, the command line and the output are left to the
//! program that uses the crate.

pub mod acompare;
pub mod charcount;
pub mod charlist;
pub mod dictionary;
pub mod ranking;
pub mod search;
pub mod seq_facts;
