use vstd::prelude::*;

verus! {

/// Whether a heat is running.
#[derive(Clone, Copy, Debug, PartialEq, Eq, Structural)]
pub enum HeatStateType {
    Active,
    Paused,
    Inactive,
}

} // verus!
