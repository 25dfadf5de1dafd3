use vstd::prelude::*;

use super::heat::HeatType;
use super::result::{results_view, Result, ResultView};
use super::score::Score;
use super::user::User;
use crate::score_computation::default_heat::DefaultHeat;
use crate::score_computation::rsl_heat::RSLHeat;
use crate::score_computation::{compute_results, preliminary};

verus! {

/// The live results of a heat, before they are published.
pub struct PreliminaryResult {}

/// The preliminary results of a heat of the given type, if the heat exists.
pub open spec fn preliminary_for(
    heat_id: i32,
    heat_type: Option<HeatType>,
    judges: Seq<User>,
    scores: Seq<Score>,
    prior: Seq<ResultView>,
) -> Seq<ResultView> {
    match heat_type {
        None => seq![],
        Some(HeatType::Standard) => preliminary(heat_id, judges, scores, prior, DefaultHeat { n_best_waves: 2 }),
        Some(HeatType::Call) => preliminary(heat_id, judges, scores, prior, RSLHeat {}),
    }
}

impl PreliminaryResult {
    /// The preliminary results of heat `heat_id`, whose type is `heat_type`
    /// (`None` when there is no such heat: then there are none), from its
    /// judges, its scores and its persisted results.
    pub fn by_heat(
        heat_id: i32,
        heat_type: Option<HeatType>,
        judges: &[User],
        scores: &[Score],
        results: &[Result],
    ) -> (r: Vec<Result>)
        requires
            scores.len() <= i32::MAX,
        ensures
            results_view(r@) == preliminary_for(heat_id, heat_type, judges@, scores@, results_view(results@)),
    {
        match heat_type {
            None => {
                let r: Vec<Result> = Vec::new();
                assert(results_view(r@) =~= seq![]);
                r
            },
            Some(HeatType::Standard) => compute_results(heat_id, judges, scores, results, &DefaultHeat::default()),
            Some(HeatType::Call) => compute_results(heat_id, judges, scores, results, &RSLHeat {}),
        }
    }
}

} // verus!
