//! The language-identification oracle, consumed as a capability.

use vstd::prelude::*;

verus! {

/// A pluggable language identifier.
///
/// `predict` returns the predicted labels for a sentence, ranked best
/// first, or `None` when the oracle failed or made no prediction; the
/// pipeline treats those two outcomes alike and uses only the
/// highest-ranked label of a non-empty answer.  Confidence values are
/// not part of the interface: the pipeline never inspects them.
/// Nothing is assumed of an answer; the pipeline's contracts state what
/// holds whatever comes back.
pub trait Oracle {
    fn predict(&self, sentence: &String) -> (r: Option<Vec<String>>);
}

} // verus!
