use vstd::prelude::*;

verus! {

/// The rule that the surfer placed `place` in heat `from_heat_id` goes on
/// to heat `to_heat_id` with seed `seed`.
#[derive(Clone, Copy, Debug, PartialEq, Eq, Structural)]
pub struct HeatAdvancementCore {
    pub to_heat_id: i32,
    pub seed: i32,
    pub from_heat_id: i32,
    pub place: i32,
}

} // verus!
