use vstd::prelude::*;

verus! {

/// How the surfers of a heat are ranked.
#[derive(Clone, Copy, Debug, PartialEq, Eq, Structural)]
pub enum HeatType {
    /// By the sum of each surfer's best waves.
    Standard,
    /// By the number of waves on which each surfer scored best.
    Call,
}

} // verus!
