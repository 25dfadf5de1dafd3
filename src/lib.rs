// Live result computation for surf competitions: per-wave aggregation of
// judges' scores, ranking of a heat's surfers, and detection of values that
// agree with already published results (see `score_computation`).
pub mod authentication;
pub mod authorization;
pub mod models;
pub mod score_computation;
