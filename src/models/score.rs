use vstd::prelude::*;

verus! {

/// One judge's rating of one surfer on one wave of a heat.
/// `score` is a fixed-point number (see `score_computation::POINT`).
#[derive(Clone, Copy, Debug, PartialEq, Eq, Structural)]
pub struct Score {
    pub surfer_id: i32,
    pub judge_id: i32,
    pub heat_id: i32,
    pub wave: i32,
    pub score: i64,
    pub interference: bool,
    pub missed: bool,
}

/// The key of a score that is to be removed.
#[derive(Clone, Copy, Debug, PartialEq, Eq, Structural)]
pub struct DeleteScore {
    pub surfer_id: i32,
    pub judge_id: i32,
    pub heat_id: i32,
    pub wave: i32,
}

} // verus!
