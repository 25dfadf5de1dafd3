use vstd::prelude::*;

verus! {

/// A judge assigned to a heat.
#[derive(Clone, Copy, Debug, PartialEq, Eq, Structural)]
pub struct JudgingAssignment {
    pub judge_id: i32,
    pub heat_id: i32,
}

} // verus!
