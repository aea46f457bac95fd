//! The automaton contracts and adapters under one roof, and the order of
//! costs.
pub use crate::adapters::{AutomatonDFAAdapter, BeamSearchAdapter, DFAUtf8Adapter, WeightedNFA, DFA};
use crate::adapters::{EpsilonExpandingBeamSearchAdapter, FollowEpsilonNFA};
use std::cmp::Ordering;
use vstd::prelude::*;

verus! {

/// The beam adapter that follows epsilon edges.
pub type EpsilonExpandingAdapter<Wrapped: FollowEpsilonNFA> = EpsilonExpandingBeamSearchAdapter<
    Wrapped,
>;

/// The order of two costs.
pub fn compare_weights(w1: &u64, w2: &u64) -> (o: Ordering)
    ensures
        o is Less <==> *w1 < *w2,
        o is Equal <==> *w1 == *w2,
        o is Greater <==> *w1 > *w2,
{
    if *w1 < *w2 {
        Ordering::Less
    } else if *w1 == *w2 {
        Ordering::Equal
    } else {
        Ordering::Greater
    }
}

} // verus!
