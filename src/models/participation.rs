use vstd::prelude::*;

use super::lycra_color::LycraColor;
use super::surfer::Surfer;

verus! {

/// A surfer's entry in a heat, as stored.
#[derive(Clone, Copy, Debug, PartialEq, Eq, Structural)]
pub struct ParticipationCore {
    pub surfer_id: i32,
    pub heat_id: i32,
    pub lycra_color_id: i32,
    pub seed: i32,
}

/// A surfer's entry in a heat, with the surfer and jersey where known.
#[derive(Debug)]
pub struct Participation {
    pub surfer_id: i32,
    pub heat_id: i32,
    pub lycra_color_id: i32,
    pub seed: i32,
    pub surfer: Option<Surfer>,
    pub lycra_color: Option<LycraColor>,
}

} // verus!
