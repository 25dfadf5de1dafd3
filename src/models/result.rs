use vstd::prelude::*;

verus! {

/// One surfer's resolved score for one wave.
#[derive(Clone, Copy, Debug, PartialEq, Eq, Structural)]
pub struct WaveScore {
    pub surfer_id: i32,
    pub wave: i32,
    pub score: i64,
    pub published: bool,
}

/// One surfer's standing in a heat. `place` is zero-based; tied surfers share it.
#[derive(Debug, PartialEq)]
pub struct Result {
    pub heat_id: i32,
    pub surfer_id: i32,
    pub total_score: i128,
    pub place: i32,
    pub wave_scores: Vec<WaveScore>,
    pub published: bool,
}

/// The mathematical value of a `Result`.
pub struct ResultView {
    pub heat_id: i32,
    pub surfer_id: i32,
    pub total_score: int,
    pub place: int,
    pub wave_scores: Seq<WaveScore>,
    pub published: bool,
}

impl View for Result {
    type V = ResultView;

    open spec fn view(&self) -> ResultView {
        ResultView {
            heat_id: self.heat_id,
            surfer_id: self.surfer_id,
            total_score: self.total_score as int,
            place: self.place as int,
            wave_scores: self.wave_scores@,
            published: self.published,
        }
    }
}

/// The values of a sequence of results.
pub open spec fn results_view(v: Seq<Result>) -> Seq<ResultView> {
    v.map_values(|r: Result| r@)
}

} // verus!
