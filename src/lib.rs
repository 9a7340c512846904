//! A word-search engine for letter-grid puzzles: a prefix tree of words, a
//! backtracking search that lists every word spelled by a path of adjacent
//! tiles, the choice of a letter from similarity scores, and the pointer
//! motions that trace a word.
use vstd::prelude::*;

pub mod board;
pub mod letters;
pub mod mouse;
pub mod solver;
pub mod trie;

verus! {

} // verus!
