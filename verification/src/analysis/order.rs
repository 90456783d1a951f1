//! The order of scored keys: a key is less than another where it scores
//! lower, and equal to it where the two score the same, whatever the keys
//! are.
use crate::analysis::ScoredEnigmaKey;
use core::cmp::Ordering;
use vstd::prelude::*;
use vstd::std_specs::cmp::{PartialEqSpecImpl, PartialOrdSpecImpl};

verus! {

impl PartialEq for ScoredEnigmaKey {
    fn eq(&self, other: &Self) -> (r: bool) {
        self.score() == other.score()
    }
}

impl PartialEqSpecImpl for ScoredEnigmaKey {
    open spec fn obeys_eq_spec() -> bool {
        true
    }

    open spec fn eq_spec(&self, other: &Self) -> bool {
        self@.score == other@.score
    }
}

impl PartialOrd for ScoredEnigmaKey {
    fn partial_cmp(&self, other: &Self) -> (r: Option<Ordering>) {
        if self.score() < other.score() {
            Some(Ordering::Less)
        } else if self.score() > other.score() {
            Some(Ordering::Greater)
        } else {
            Some(Ordering::Equal)
        }
    }
}

impl PartialOrdSpecImpl for ScoredEnigmaKey {
    open spec fn obeys_partial_cmp_spec() -> bool {
        true
    }

    open spec fn partial_cmp_spec(&self, other: &Self) -> Option<Ordering> {
        if self@.score < other@.score {
            Some(Ordering::Less)
        } else if self@.score > other@.score {
            Some(Ordering::Greater)
        } else {
            Some(Ordering::Equal)
        }
    }
}

} // verus!
