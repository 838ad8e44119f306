//! A Levenshtein automaton library.
//!
//! Given a pattern string `P` and a bound `k`, [`LevenshteinAutomata`]
//! answers "is the Levenshtein edit distance between `P` and an input
//! string at most `k`?" in time linear in the input.  A standalone
//! dynamic-programming routine, [`levenshtein_distance`], computes the
//! exact distance between two strings.

use vstd::prelude::*;
use vstd::std_specs::iter::IteratorSpec;

pub mod distance;
pub mod automaton;
pub(crate) mod construct;
pub mod model;
pub mod tracker;

verus! {

pub use crate::automaton::LevenshteinAutomata;
pub use crate::automaton::spec_check;
pub use crate::automaton::lemma_check_deterministic;
pub use crate::automaton::lemma_check_identity;
pub use crate::automaton::lemma_check_empty_input;
pub use crate::automaton::lemma_check_zero_budget;
pub use crate::automaton::lemma_check_length_filter;
pub use crate::distance::levenshtein_distance;
pub use crate::model::TChar;
pub use crate::tracker::TempTracker;

broadcast use vstd::string::axiom_spec_iter;

/// Collects the characters of a string slice into a vector.
pub(crate) fn chars_of(s: &str) -> (r: Vec<char>)
    ensures
        r@ == s@,
{
    let mut r: Vec<char> = Vec::new();
    for c in it: s.chars()
        invariant
            it.seq() == s@,
            r@ == it.seq().take(it.index() as int),
    {
        r.push(c);
    }
    proof {
        assert(s@.take(s@.len() as int) =~= s@);
    }
    r
}

} // verus!
