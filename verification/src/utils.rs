//! A payload with the score it is ranked by.
//!
//! Two entries compare as their scores do; the payloads play no part.

use core::cmp::Ordering;
use vstd::prelude::*;
use vstd::std_specs::cmp::{PartialEqSpec, PartialOrdSpec};

verus! {

/// A score and a payload. Entries are ranked by the score alone.
pub struct ScoredItem<S: Ord, A>(pub S, pub A);

impl<S: Ord, A> ScoredItem<S, A> {
    /// The payload, without its score.
    pub fn into_item(self) -> (item: A)
        ensures
            item == self.1,
    {
        self.1
    }

    /// The score and the payload.
    pub fn into_inner(self) -> (pair: (S, A))
        ensures
            pair == (self.0, self.1),
    {
        (self.0, self.1)
    }
}

impl<S: Ord, A> From<(S, A)> for ScoredItem<S, A> {
    fn from(v: (S, A)) -> (item: Self) {
        ScoredItem(v.0, v.1)
    }
}

impl<S: Ord, A> vstd::std_specs::convert::FromSpecImpl<(S, A)> for ScoredItem<S, A> {
    open spec fn obeys_from_spec() -> bool {
        true
    }

    open spec fn from_spec(v: (S, A)) -> Self {
        ScoredItem(v.0, v.1)
    }
}

impl<S: Ord, A> PartialEq for ScoredItem<S, A> {
    fn eq(&self, other: &Self) -> (same: bool) {
        self.0 == other.0
    }
}

impl<S: Ord, A> vstd::std_specs::cmp::PartialEqSpecImpl for ScoredItem<S, A> {
    open spec fn obeys_eq_spec() -> bool {
        S::obeys_eq_spec()
    }

    open spec fn eq_spec(&self, other: &Self) -> bool {
        self.0.eq_spec(&other.0)
    }
}

impl<S: Ord, A> Eq for ScoredItem<S, A> {

}

impl<S: Ord, A> PartialOrd for ScoredItem<S, A> {
    fn partial_cmp(&self, other: &Self) -> (order: Option<Ordering>) {
        self.0.partial_cmp(&other.0)
    }
}

impl<S: Ord, A> vstd::std_specs::cmp::PartialOrdSpecImpl for ScoredItem<S, A> {
    open spec fn obeys_partial_cmp_spec() -> bool {
        S::obeys_partial_cmp_spec()
    }

    open spec fn partial_cmp_spec(&self, other: &Self) -> Option<Ordering> {
        self.0.partial_cmp_spec(&other.0)
    }
}

} // verus!
