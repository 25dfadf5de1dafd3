use vstd::prelude::*;

use super::default_heat::{best_first, best_total, score_desc, tie_break, DefaultHeat};
use super::publish::{
    lemma_lookups, lemma_mark_keeps_values, mark_all, one_result_per_surfer, one_score_per_wave,
    persisted_total, persisted_wave, same_key, same_keys, same_values,
};
use super::ranking::{
    asymmetric, indices, key_order, lemma_key_order_asymmetric, ordered, lemma_sort_elements, lemma_sort_ordered, pick, places,
    canonical, entries, entry_order, lemma_entry_order_total, lemma_present_len, lemma_sort_ignores_order,
    rank_order, ranked_results, ranks_above, scores_of, surfers, tied,
};
use super::rsl_heat::{wins_total, RSLHeat};
use super::uniqueness::{
    lemma_aggregated_shape, lemma_canonical_shape, lemma_present_shape, lemma_ranked_shape, lemma_surfers_apart,
};
use super::{aggregated, approx_eq, full_coverage, individual_score, preliminary, roster_of, ResultComputation};
use crate::models::result::{results_view, Result, ResultView, WaveScore};
use crate::models::score::Score;
use crate::models::user::User;

verus! {

/// A (surfer, wave) group whose judges are not exactly the roster, each
/// once, gets no value, however many scores it holds.
pub proof fn incomplete_coverage_has_no_value(surfer_id: i32, wave: i32, roster: Set<i32>, group: Seq<Score>)
    requires
        !full_coverage(group, roster),
    ensures
        individual_score(surfer_id, wave, roster, group) is None,
{
}

/// Each place follows from the one before it: the first is 0, a tied vector
/// shares the place before it, and any other takes its own index.
pub proof fn lemma_places_step(ks: Seq<Seq<int>>)
    ensures
        places(ks).len() == ks.len(),
        ks.len() > 0 ==> places(ks)[0] == 0,
        forall|i: int|
            0 < i < ks.len() ==> #[trigger] places(ks)[i] == if tied(ks[i - 1], ks[i]) {
                places(ks)[i - 1]
            } else {
                i
            },
    decreases ks.len(),
{
    if ks.len() > 0 {
        let p = ks.drop_last();
        lemma_places_step(p);
        assert forall|i: int| 0 < i < ks.len() implies #[trigger] places(ks)[i] == if tied(ks[i - 1], ks[i]) {
            places(ks)[i - 1]
        } else {
            i
        } by {
            if i < ks.len() - 1 {
                assert(places(ks)[i] == places(p)[i]);
                assert(places(ks)[i - 1] == places(p)[i - 1]);
                assert(ks[i] == p[i] && ks[i - 1] == p[i - 1]);
            }
        }
    }
}

/// Along the results of a heat, no surfer's tie-break vector ranks above
/// that of the surfer before it; the first place is 0, a surfer whose
/// vector is tied with the one before shares that surfer's place, and any
/// other surfer's place is its index.
pub proof fn ranking_is_ordered(
    heat_id: i32,
    p: Seq<(i32, i32, WaveScore)>,
    ids: Seq<i32>,
    totals: Seq<int>,
    keys: Seq<Seq<int>>,
)
    requires
        ids.len() == keys.len(),
        totals.len() == keys.len(),
        keys.len() <= usize::MAX,
    ensures
        ({
            let r = ranked_results(heat_id, p, ids, totals, keys);
            let order = rank_order(keys);
            let ks = pick(keys, order);
            &&& r.len() == keys.len()
            &&& ks.len() == keys.len()
            &&& forall|i: int|
                0 <= i < r.len() ==> order[i] < keys.len() && (#[trigger] r[i]).surfer_id == ids[order[i] as int]
                    && r[i].total_score == totals[order[i] as int] && ks[i] == keys[order[i] as int]
            &&& forall|i: int| 0 < i < r.len() ==> !ranks_above(#[trigger] ks[i], ks[i - 1])
            &&& r.len() > 0 ==> r[0].place == 0
            &&& forall|i: int|
                0 < i < r.len() ==> #[trigger] r[i].place == if tied(ks[i - 1], ks[i]) {
                    r[i - 1].place
                } else {
                    i
                }
        }),
{
    let order = rank_order(keys);
    lemma_sort_elements(indices(keys.len()), key_order(keys));
    lemma_key_order_asymmetric(keys);
    lemma_sort_ordered(indices(keys.len()), key_order(keys));
    let ks = pick(keys, order);
    lemma_places_step(ks);
    assert forall|i: int| 0 < i < ks.len() implies !ranks_above(#[trigger] ks[i], ks[i - 1]) by {
        assert(!key_order(keys)(order[i], order[i - 1]));
    }
    assert forall|i: int| 0 <= i < order.len() implies #[trigger] order[i] < keys.len() by {
        assert(order.contains(order[i]));
        let k = choose|k: int| 0 <= k < keys.len() && indices(keys.len())[k] == order[i];
    }
}

/// In a standard heat each surfer's wave scores are taken best first, so
/// the total sums the best ones and the tie-break vector continues with the
/// rest from best to worst.
pub proof fn standard_scores_best_first(p: Seq<(i32, i32, WaveScore)>, id: i32)
    ensures
        ordered(best_first(p, id), score_desc()),
{
    assert(asymmetric(score_desc()));
    lemma_sort_ordered(
        scores_of(p, id).map_values(|w: WaveScore| w.score),
        score_desc(),
    );
}

/// The results are a function of the inputs: two runs on the same inputs
/// give the same results, in the same order, with the same places.
pub proof fn results_are_determined<C: ResultComputation>(
    heat_id: i32,
    judges: Seq<User>,
    scores: Seq<Score>,
    prior: Seq<ResultView>,
    score_processor: C,
    first: Seq<Result>,
    second: Seq<Result>,
)
    requires
        results_view(first) == preliminary(heat_id, judges, scores, prior, score_processor),
        results_view(second) == preliminary(heat_id, judges, scores, prior, score_processor),
    ensures
        results_view(first) == results_view(second),
{
}

/// A result with another total.
pub open spec fn with_total(r: ResultView, total: int) -> ResultView {
    ResultView {
        heat_id: r.heat_id,
        surfer_id: r.surfer_id,
        total_score: total,
        place: r.place,
        wave_scores: r.wave_scores,
        published: r.published,
    }
}

/// A result whose `n`-th wave score has another value.
pub open spec fn with_wave_score(r: ResultView, n: int, score: i64) -> ResultView {
    ResultView {
        heat_id: r.heat_id,
        surfer_id: r.surfer_id,
        total_score: r.total_score,
        place: r.place,
        wave_scores: r.wave_scores.update(
            n,
            WaveScore {
                surfer_id: r.wave_scores[n].surfer_id,
                wave: r.wave_scores[n].wave,
                score,
                published: r.wave_scores[n].published,
            },
        ),
        published: r.published,
    }
}

/// The fresh results of a heat have one result per surfer, one wave score
/// per surfer and wave, and nothing published.
pub open spec fn fresh_shape(r: Seq<ResultView>) -> bool {
    &&& one_result_per_surfer(r)
    &&& one_score_per_wave(r)
    &&& forall|i: int| 0 <= i < r.len() ==> !(#[trigger] r[i]).published
    &&& forall|i: int, n: int|
        0 <= i < r.len() && 0 <= n < r[i].wave_scores.len() ==> !(#[trigger] r[i].wave_scores[n]).published
}

/// Checked against persisted results that hold their values, unique fresh
/// results are all marked published, each total and each wave score.
pub proof fn republishing_marks_everything(fresh: Seq<ResultView>, prior: Seq<ResultView>)
    requires
        one_result_per_surfer(fresh),
        one_score_per_wave(fresh),
        same_values(fresh, prior),
    ensures
        ({
            let m = mark_all(fresh, prior);
            &&& m.len() == fresh.len()
            &&& forall|i: int| 0 <= i < m.len() ==> (#[trigger] m[i]).published
            &&& forall|i: int, n: int|
                0 <= i < m.len() && 0 <= n < m[i].wave_scores.len() ==> (#[trigger] m[i].wave_scores[n]).published
        }),
{
    lemma_lookups(fresh, prior);
    let m = mark_all(fresh, prior);
    assert forall|i: int| 0 <= i < m.len() implies (#[trigger] m[i]).published by {
        assert(persisted_total(prior, fresh[i].surfer_id) == Some(prior[i].total_score));
    }
    assert forall|i: int, n: int| 0 <= i < m.len() && 0 <= n < m[i].wave_scores.len() implies (
    #[trigger] m[i].wave_scores[n]).published by {
        let w = fresh[i].wave_scores[n];
        assert(persisted_wave(prior, w.surfer_id, w.wave) == Some(prior[i].wave_scores[n].score as int));
    }
}

/// When, among persisted results that otherwise hold the values of unique
/// fresh results, the total of one surfer differs beyond the tolerance,
/// only that surfer's result is left unpublished; every other result and
/// every wave score is marked published.
pub proof fn changed_total_unpublishes_only_its_result(
    fresh: Seq<ResultView>,
    prior: Seq<ResultView>,
    i: int,
    total: int,
)
    requires
        one_result_per_surfer(fresh),
        one_score_per_wave(fresh),
        same_values(fresh, prior),
        0 <= i < fresh.len(),
        !fresh[i].published,
        !approx_eq(total, fresh[i].total_score),
    ensures
        ({
            let m = mark_all(fresh, prior.update(i, with_total(prior[i], total)));
            &&& m.len() == fresh.len()
            &&& !m[i].published
            &&& forall|j: int| 0 <= j < m.len() && j != i ==> (#[trigger] m[j]).published
            &&& forall|j: int, n: int|
                0 <= j < m.len() && 0 <= n < m[j].wave_scores.len() ==> (#[trigger] m[j].wave_scores[n]).published
        }),
{
    let changed = prior.update(i, with_total(prior[i], total));
    assert(same_keys(fresh, changed)) by {
        assert forall|j: int| 0 <= j < fresh.len() implies (#[trigger] fresh[j]).surfer_id == changed[j].surfer_id
            && fresh[j].wave_scores.len() == changed[j].wave_scores.len() by {}
        assert forall|j: int, n: int| 0 <= j < fresh.len() && 0 <= n < fresh[j].wave_scores.len() implies same_key(
            #[trigger] fresh[j].wave_scores[n],
            changed[j].wave_scores[n],
        ) by {}
    }
    lemma_lookups(fresh, changed);
    let m = mark_all(fresh, changed);
    assert forall|j: int| 0 <= j < m.len() implies (#[trigger] m[j]).published == (j != i) by {
        assert(persisted_total(changed, fresh[j].surfer_id) == Some(changed[j].total_score));
    }
    assert forall|j: int, n: int| 0 <= j < m.len() && 0 <= n < m[j].wave_scores.len() implies (
    #[trigger] m[j].wave_scores[n]).published by {
        let w = fresh[j].wave_scores[n];
        assert(persisted_wave(changed, w.surfer_id, w.wave) == Some(changed[j].wave_scores[n].score as int));
    }
}

/// When, among persisted results that otherwise hold the values of unique
/// fresh results, one wave score differs beyond the tolerance, only that
/// wave score is left unpublished; every other wave score and every result
/// is marked published.
pub proof fn changed_wave_unpublishes_only_its_wave(
    fresh: Seq<ResultView>,
    prior: Seq<ResultView>,
    i: int,
    n: int,
    score: i64,
)
    requires
        one_result_per_surfer(fresh),
        one_score_per_wave(fresh),
        same_values(fresh, prior),
        0 <= i < fresh.len(),
        0 <= n < fresh[i].wave_scores.len(),
        !fresh[i].wave_scores[n].published,
        !approx_eq(score as int, fresh[i].wave_scores[n].score as int),
    ensures
        ({
            let m = mark_all(fresh, prior.update(i, with_wave_score(prior[i], n, score)));
            &&& m.len() == fresh.len()
            &&& !m[i].wave_scores[n].published
            &&& forall|j: int| 0 <= j < m.len() ==> (#[trigger] m[j]).published
            &&& forall|j: int, k: int|
                0 <= j < m.len() && 0 <= k < m[j].wave_scores.len() && (j != i || k != n) ==> (
                #[trigger] m[j].wave_scores[k]).published
        }),
{
    let changed = prior.update(i, with_wave_score(prior[i], n, score));
    assert(same_keys(fresh, changed)) by {
        assert forall|j: int| 0 <= j < fresh.len() implies (#[trigger] fresh[j]).surfer_id == changed[j].surfer_id
            && fresh[j].wave_scores.len() == changed[j].wave_scores.len() by {}
        assert forall|j: int, k: int| 0 <= j < fresh.len() && 0 <= k < fresh[j].wave_scores.len() implies same_key(
            #[trigger] fresh[j].wave_scores[k],
            changed[j].wave_scores[k],
        ) by {
            assert(same_key(fresh[j].wave_scores[k], prior[j].wave_scores[k]));
        }
    }
    lemma_lookups(fresh, changed);
    let m = mark_all(fresh, changed);
    assert forall|j: int| 0 <= j < m.len() implies (#[trigger] m[j]).published by {
        assert(persisted_total(changed, fresh[j].surfer_id) == Some(changed[j].total_score));
    }
    assert forall|j: int, k: int| 0 <= j < m.len() && 0 <= k < m[j].wave_scores.len() implies (
    #[trigger] m[j].wave_scores[k]).published == (j != i || k != n) by {
        let w = fresh[j].wave_scores[k];
        assert(persisted_wave(changed, w.surfer_id, w.wave) == Some(changed[j].wave_scores[k].score as int));
    }
}

/// The fresh results of a standard heat are of the right shape.
pub proof fn lemma_standard_shape(c: DefaultHeat, heat_id: i32, judges: Seq<User>, scores: Seq<Score>)
    requires
        scores.len() <= usize::MAX,
    ensures
        fresh_shape(c.results_for(heat_id, aggregated(roster_of(judges), scores))),
{
    let ws = aggregated(roster_of(judges), scores);
    lemma_aggregated_shape(roster_of(judges), scores);
    lemma_canonical_shape(ws);
    lemma_present_shape(canonical(ws));
    let p = entries(ws);
    lemma_surfers_apart(p);
    let ids = surfers(p);
    lemma_ranked_shape(
        heat_id,
        p,
        ids.map_values(|id: i32| best_total(c.n_best_waves, p, id)),
        ids.map_values(|id: i32| tie_break(c.n_best_waves, p, id)),
    );
}

/// The fresh results of a call heat are of the right shape.
pub proof fn lemma_call_shape(c: RSLHeat, heat_id: i32, judges: Seq<User>, scores: Seq<Score>)
    requires
        scores.len() <= usize::MAX,
    ensures
        fresh_shape(c.results_for(heat_id, aggregated(roster_of(judges), scores))),
{
    let ws = aggregated(roster_of(judges), scores);
    lemma_aggregated_shape(roster_of(judges), scores);
    lemma_canonical_shape(ws);
    lemma_present_shape(canonical(ws));
    let p = entries(ws);
    lemma_surfers_apart(p);
    let ids = surfers(p);
    lemma_ranked_shape(
        heat_id,
        p,
        ids.map_values(|id: i32| wins_total(p, id)),
        ids.map_values(|id: i32| seq![wins_total(p, id)]),
    );
}

/// Recomputing the results of a heat against persisted results with nothing
/// changed marks every value published, for a shape-respecting strategy.
proof fn recomputing_with<C: ResultComputation>(
    c: C,
    heat_id: i32,
    judges: Seq<User>,
    scores: Seq<Score>,
    first_prior: Seq<ResultView>,
    prior: Seq<ResultView>,
)
    requires
        fresh_shape(c.results_for(heat_id, aggregated(roster_of(judges), scores))),
        same_values(preliminary(heat_id, judges, scores, first_prior, c), prior),
    ensures
        ({
            let again = preliminary(heat_id, judges, scores, prior, c);
            &&& forall|i: int| 0 <= i < again.len() ==> (#[trigger] again[i]).published
            &&& forall|i: int, n: int|
                0 <= i < again.len() && 0 <= n < again[i].wave_scores.len() ==> (
                #[trigger] again[i].wave_scores[n]).published
        }),
{
    let fresh = c.results_for(heat_id, aggregated(roster_of(judges), scores));
    lemma_mark_keeps_values(fresh, first_prior);
    lemma_same_values_trans(fresh, mark_all(fresh, first_prior), prior);
    republishing_marks_everything(fresh, prior);
}

/// A changed persisted total leaves only its surfer's result unpublished,
/// for a shape-respecting strategy.
proof fn changed_total_with<C: ResultComputation>(
    c: C,
    heat_id: i32,
    judges: Seq<User>,
    scores: Seq<Score>,
    first_prior: Seq<ResultView>,
    prior: Seq<ResultView>,
    i: int,
    total: int,
)
    requires
        fresh_shape(c.results_for(heat_id, aggregated(roster_of(judges), scores))),
        same_values(preliminary(heat_id, judges, scores, first_prior, c), prior),
        0 <= i < prior.len(),
        !approx_eq(total, prior[i].total_score),
    ensures
        ({
            let again = preliminary(heat_id, judges, scores, prior.update(i, with_total(prior[i], total)), c);
            &&& again.len() == prior.len()
            &&& !again[i].published
            &&& forall|j: int| 0 <= j < again.len() && j != i ==> (#[trigger] again[j]).published
            &&& forall|j: int, n: int|
                0 <= j < again.len() && 0 <= n < again[j].wave_scores.len() ==> (
                #[trigger] again[j].wave_scores[n]).published
        }),
{
    let fresh = c.results_for(heat_id, aggregated(roster_of(judges), scores));
    lemma_mark_keeps_values(fresh, first_prior);
    lemma_same_values_trans(fresh, mark_all(fresh, first_prior), prior);
    changed_total_unpublishes_only_its_result(fresh, prior, i, total);
}

/// A changed persisted wave score leaves only that wave score unpublished,
/// for a shape-respecting strategy.
proof fn changed_wave_with<C: ResultComputation>(
    c: C,
    heat_id: i32,
    judges: Seq<User>,
    scores: Seq<Score>,
    first_prior: Seq<ResultView>,
    prior: Seq<ResultView>,
    i: int,
    n: int,
    score: i64,
)
    requires
        fresh_shape(c.results_for(heat_id, aggregated(roster_of(judges), scores))),
        same_values(preliminary(heat_id, judges, scores, first_prior, c), prior),
        0 <= i < prior.len(),
        0 <= n < prior[i].wave_scores.len(),
        !approx_eq(score as int, prior[i].wave_scores[n].score as int),
    ensures
        ({
            let again = preliminary(heat_id, judges, scores, prior.update(i, with_wave_score(prior[i], n, score)), c);
            &&& again.len() == prior.len()
            &&& !again[i].wave_scores[n].published
            &&& forall|j: int| 0 <= j < again.len() ==> (#[trigger] again[j]).published
            &&& forall|j: int, k: int|
                0 <= j < again.len() && 0 <= k < again[j].wave_scores.len() && (j != i || k != n) ==> (
                #[trigger] again[j].wave_scores[k]).published
        }),
{
    let fresh = c.results_for(heat_id, aggregated(roster_of(judges), scores));
    lemma_mark_keeps_values(fresh, first_prior);
    lemma_same_values_trans(fresh, mark_all(fresh, first_prior), prior);
    assert(fresh[i].wave_scores.len() == prior[i].wave_scores.len());
    changed_wave_unpublishes_only_its_wave(fresh, prior, i, n, score);
}

/// Holding the same values is transitive.
pub proof fn lemma_same_values_trans(a: Seq<ResultView>, b: Seq<ResultView>, c: Seq<ResultView>)
    requires
        same_values(a, b),
        same_values(b, c),
    ensures
        same_values(a, c),
{
    assert forall|i: int| 0 <= i < a.len() implies (#[trigger] a[i]).surfer_id == c[i].surfer_id
        && a[i].wave_scores.len() == c[i].wave_scores.len() && a[i].total_score == c[i].total_score by {
        assert(b[i].surfer_id == c[i].surfer_id);
    }
    assert forall|i: int, n: int| 0 <= i < a.len() && 0 <= n < a[i].wave_scores.len() implies same_key(
        #[trigger] a[i].wave_scores[n],
        c[i].wave_scores[n],
    ) && a[i].wave_scores[n].score == c[i].wave_scores[n].score by {
        assert(b[i].wave_scores.len() == a[i].wave_scores.len());
        assert(same_key(b[i].wave_scores[n], c[i].wave_scores[n]));
        assert(b[i].wave_scores[n].score == c[i].wave_scores[n].score);
    }
}

/// Recomputing a standard heat against persisted results that hold the
/// values of an earlier run, made against any persisted results, marks
/// every total and every wave score published.
pub proof fn standard_recomputing_publishes_everything(
    c: DefaultHeat,
    heat_id: i32,
    judges: Seq<User>,
    scores: Seq<Score>,
    first_prior: Seq<ResultView>,
    prior: Seq<ResultView>,
)
    requires
        scores.len() <= usize::MAX,
        same_values(preliminary(heat_id, judges, scores, first_prior, c), prior),
    ensures
        ({
            let again = preliminary(heat_id, judges, scores, prior, c);
            &&& forall|i: int| 0 <= i < again.len() ==> (#[trigger] again[i]).published
            &&& forall|i: int, n: int|
                0 <= i < again.len() && 0 <= n < again[i].wave_scores.len() ==> (
                #[trigger] again[i].wave_scores[n]).published
        }),
{
    lemma_standard_shape(c, heat_id, judges, scores);
    recomputing_with(c, heat_id, judges, scores, first_prior, prior);
}

/// Recomputing a call heat against persisted results that hold the values
/// of an earlier run, made against any persisted results, marks every
/// total and every wave score published.
pub proof fn call_recomputing_publishes_everything(
    c: RSLHeat,
    heat_id: i32,
    judges: Seq<User>,
    scores: Seq<Score>,
    first_prior: Seq<ResultView>,
    prior: Seq<ResultView>,
)
    requires
        scores.len() <= usize::MAX,
        same_values(preliminary(heat_id, judges, scores, first_prior, c), prior),
    ensures
        ({
            let again = preliminary(heat_id, judges, scores, prior, c);
            &&& forall|i: int| 0 <= i < again.len() ==> (#[trigger] again[i]).published
            &&& forall|i: int, n: int|
                0 <= i < again.len() && 0 <= n < again[i].wave_scores.len() ==> (
                #[trigger] again[i].wave_scores[n]).published
        }),
{
    lemma_call_shape(c, heat_id, judges, scores);
    recomputing_with(c, heat_id, judges, scores, first_prior, prior);
}

/// Recomputing a standard heat against persisted results that hold the values
/// of an earlier run, made against any persisted results, except that one
/// surfer's total differs beyond the tolerance, leaves only that surfer's
/// result unpublished.
pub proof fn standard_changed_total_unpublishes_only_that_surfer(
    c: DefaultHeat,
    heat_id: i32,
    judges: Seq<User>,
    scores: Seq<Score>,
    first_prior: Seq<ResultView>,
    prior: Seq<ResultView>,
    i: int,
    total: int,
)
    requires
        scores.len() <= usize::MAX,
        same_values(preliminary(heat_id, judges, scores, first_prior, c), prior),
        0 <= i < prior.len(),
        !approx_eq(total, prior[i].total_score),
    ensures
        ({
            let again = preliminary(heat_id, judges, scores, prior.update(i, with_total(prior[i], total)), c);
            &&& again.len() == prior.len()
            &&& !again[i].published
            &&& forall|j: int| 0 <= j < again.len() && j != i ==> (#[trigger] again[j]).published
            &&& forall|j: int, n: int|
                0 <= j < again.len() && 0 <= n < again[j].wave_scores.len() ==> (
                #[trigger] again[j].wave_scores[n]).published
        }),
{
    lemma_standard_shape(c, heat_id, judges, scores);
    changed_total_with(c, heat_id, judges, scores, first_prior, prior, i, total);
}

/// Recomputing a standard heat against persisted results that hold the values
/// of an earlier run, made against any persisted results, except that one
/// wave score differs beyond the tolerance, leaves only that wave score
/// unpublished.
pub proof fn standard_changed_wave_unpublishes_only_that_wave(
    c: DefaultHeat,
    heat_id: i32,
    judges: Seq<User>,
    scores: Seq<Score>,
    first_prior: Seq<ResultView>,
    prior: Seq<ResultView>,
    i: int,
    n: int,
    score: i64,
)
    requires
        scores.len() <= usize::MAX,
        same_values(preliminary(heat_id, judges, scores, first_prior, c), prior),
        0 <= i < prior.len(),
        0 <= n < prior[i].wave_scores.len(),
        !approx_eq(score as int, prior[i].wave_scores[n].score as int),
    ensures
        ({
            let again = preliminary(heat_id, judges, scores, prior.update(i, with_wave_score(prior[i], n, score)), c);
            &&& again.len() == prior.len()
            &&& !again[i].wave_scores[n].published
            &&& forall|j: int| 0 <= j < again.len() ==> (#[trigger] again[j]).published
            &&& forall|j: int, k: int|
                0 <= j < again.len() && 0 <= k < again[j].wave_scores.len() && (j != i || k != n) ==> (
                #[trigger] again[j].wave_scores[k]).published
        }),
{
    lemma_standard_shape(c, heat_id, judges, scores);
    changed_wave_with(c, heat_id, judges, scores, first_prior, prior, i, n, score);
}

/// Recomputing a call heat against persisted results that hold the values
/// of an earlier run, made against any persisted results, except that one
/// surfer's total differs beyond the tolerance, leaves only that surfer's
/// result unpublished.
pub proof fn call_changed_total_unpublishes_only_that_surfer(
    c: RSLHeat,
    heat_id: i32,
    judges: Seq<User>,
    scores: Seq<Score>,
    first_prior: Seq<ResultView>,
    prior: Seq<ResultView>,
    i: int,
    total: int,
)
    requires
        scores.len() <= usize::MAX,
        same_values(preliminary(heat_id, judges, scores, first_prior, c), prior),
        0 <= i < prior.len(),
        !approx_eq(total, prior[i].total_score),
    ensures
        ({
            let again = preliminary(heat_id, judges, scores, prior.update(i, with_total(prior[i], total)), c);
            &&& again.len() == prior.len()
            &&& !again[i].published
            &&& forall|j: int| 0 <= j < again.len() && j != i ==> (#[trigger] again[j]).published
            &&& forall|j: int, n: int|
                0 <= j < again.len() && 0 <= n < again[j].wave_scores.len() ==> (
                #[trigger] again[j].wave_scores[n]).published
        }),
{
    lemma_call_shape(c, heat_id, judges, scores);
    changed_total_with(c, heat_id, judges, scores, first_prior, prior, i, total);
}

/// Recomputing a call heat against persisted results that hold the values
/// of an earlier run, made against any persisted results, except that one
/// wave score differs beyond the tolerance, leaves only that wave score
/// unpublished.
pub proof fn call_changed_wave_unpublishes_only_that_wave(
    c: RSLHeat,
    heat_id: i32,
    judges: Seq<User>,
    scores: Seq<Score>,
    first_prior: Seq<ResultView>,
    prior: Seq<ResultView>,
    i: int,
    n: int,
    score: i64,
)
    requires
        scores.len() <= usize::MAX,
        same_values(preliminary(heat_id, judges, scores, first_prior, c), prior),
        0 <= i < prior.len(),
        0 <= n < prior[i].wave_scores.len(),
        !approx_eq(score as int, prior[i].wave_scores[n].score as int),
    ensures
        ({
            let again = preliminary(heat_id, judges, scores, prior.update(i, with_wave_score(prior[i], n, score)), c);
            &&& again.len() == prior.len()
            &&& !again[i].wave_scores[n].published
            &&& forall|j: int| 0 <= j < again.len() ==> (#[trigger] again[j]).published
            &&& forall|j: int, k: int|
                0 <= j < again.len() && 0 <= k < again[j].wave_scores.len() && (j != i || k != n) ==> (
                #[trigger] again[j].wave_scores[k]).published
        }),
{
    lemma_call_shape(c, heat_id, judges, scores);
    changed_wave_with(c, heat_id, judges, scores, first_prior, prior, i, n, score);
}

/// Along the results of a standard heat, from the highest ranked: no surfer's
/// tie-break vector ranks above that of the surfer before it; the first
/// place is 0; a surfer whose vector is tied with the one before shares
/// that surfer's place, and any other surfer's place is its index; each
/// total is the surfer's own.
pub proof fn standard_places(c: DefaultHeat, heat_id: i32, wave_scores: Seq<(i32, i32, Option<WaveScore>)>)
    requires
        wave_scores.len() <= usize::MAX,
    ensures
        ({
            let p = entries(wave_scores);
            let r = c.results_for(heat_id, wave_scores);
            &&& r.len() == surfers(p).len()
            &&& r.len() > 0 ==> r[0].place == 0
            &&& forall|i: int| 0 <= i < r.len() ==> (#[trigger] r[i]).total_score == best_total(c.n_best_waves, p, r[i].surfer_id)
            &&& forall|i: int|
                0 < i < r.len() ==> !ranks_above(tie_break(c.n_best_waves, p, (#[trigger] r[i]).surfer_id), tie_break(c.n_best_waves, p, r[i - 1].surfer_id))
            &&& forall|i: int|
                0 < i < r.len() ==> (#[trigger] r[i]).place == if tied(tie_break(c.n_best_waves, p, r[i - 1].surfer_id), tie_break(c.n_best_waves, p, r[i].surfer_id)) {
                    r[i - 1].place
                } else {
                    i
                }
        }),
{
    let p = entries(wave_scores);
    let ids = surfers(p);
    lemma_sort_elements(wave_scores, entry_order());
    lemma_present_len(canonical(wave_scores));
    lemma_surfers_apart(p);
    let keys = ids.map_values(|id: i32| tie_break(c.n_best_waves, p, id));
    let totals = ids.map_values(|id: i32| best_total(c.n_best_waves, p, id));
    ranking_is_ordered(heat_id, p, ids, totals, keys);
}

/// The results of a standard heat do not depend on the order in which the
/// entries come: the same entries in any order give the same results, in
/// the same order, with the same places and totals.
pub proof fn standard_ignores_entry_order(
    c: DefaultHeat,
    heat_id: i32,
    first: Seq<(i32, i32, Option<WaveScore>)>,
    second: Seq<(i32, i32, Option<WaveScore>)>,
)
    requires
        first.to_multiset() == second.to_multiset(),
    ensures
        c.results_for(heat_id, first) == c.results_for(heat_id, second),
{
    lemma_entry_order_total();
    lemma_sort_ignores_order(first, second, entry_order());
}

/// Along the results of a call heat, from the highest ranked: no surfer's
/// tie-break vector ranks above that of the surfer before it; the first
/// place is 0; a surfer whose vector is tied with the one before shares
/// that surfer's place, and any other surfer's place is its index; each
/// total is the surfer's own.
pub proof fn call_places(c: RSLHeat, heat_id: i32, wave_scores: Seq<(i32, i32, Option<WaveScore>)>)
    requires
        wave_scores.len() <= usize::MAX,
    ensures
        ({
            let p = entries(wave_scores);
            let r = c.results_for(heat_id, wave_scores);
            &&& r.len() == surfers(p).len()
            &&& r.len() > 0 ==> r[0].place == 0
            &&& forall|i: int| 0 <= i < r.len() ==> (#[trigger] r[i]).total_score == wins_total(p, r[i].surfer_id)
            &&& forall|i: int|
                0 < i < r.len() ==> !ranks_above(seq![wins_total(p, (#[trigger] r[i]).surfer_id)], seq![wins_total(p, r[i - 1].surfer_id)])
            &&& forall|i: int|
                0 < i < r.len() ==> (#[trigger] r[i]).place == if tied(seq![wins_total(p, r[i - 1].surfer_id)], seq![wins_total(p, r[i].surfer_id)]) {
                    r[i - 1].place
                } else {
                    i
                }
        }),
{
    let p = entries(wave_scores);
    let ids = surfers(p);
    lemma_sort_elements(wave_scores, entry_order());
    lemma_present_len(canonical(wave_scores));
    lemma_surfers_apart(p);
    let keys = ids.map_values(|id: i32| seq![wins_total(p, id)]);
    let totals = ids.map_values(|id: i32| wins_total(p, id));
    ranking_is_ordered(heat_id, p, ids, totals, keys);
}

/// The results of a call heat do not depend on the order in which the
/// entries come: the same entries in any order give the same results, in
/// the same order, with the same places and totals.
pub proof fn call_ignores_entry_order(
    c: RSLHeat,
    heat_id: i32,
    first: Seq<(i32, i32, Option<WaveScore>)>,
    second: Seq<(i32, i32, Option<WaveScore>)>,
)
    requires
        first.to_multiset() == second.to_multiset(),
    ensures
        c.results_for(heat_id, first) == c.results_for(heat_id, second),
{
    lemma_entry_order_total();
    lemma_sort_ignores_order(first, second, entry_order());
}

} // verus!
