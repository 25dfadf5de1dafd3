use vstd::prelude::*;

use super::{approx_eq, within_tolerance};
use crate::models::result::{results_view, Result, ResultView, WaveScore};

verus! {

/// The total of the last persisted result of surfer `id`.
pub open spec fn persisted_total(prior: Seq<ResultView>, id: i32) -> Option<int>
    decreases prior.len(),
{
    if prior.len() == 0 {
        None
    } else if prior.last().surfer_id == id {
        Some(prior.last().total_score)
    } else {
        persisted_total(prior.drop_last(), id)
    }
}

/// The score of the last wave score of surfer `id` on `wave` in `ws`.
pub open spec fn last_wave_score(ws: Seq<WaveScore>, id: i32, wave: i32) -> Option<int>
    decreases ws.len(),
{
    if ws.len() == 0 {
        None
    } else if ws.last().surfer_id == id && ws.last().wave == wave {
        Some(ws.last().score as int)
    } else {
        last_wave_score(ws.drop_last(), id, wave)
    }
}

/// The score of the last persisted wave score of surfer `id` on `wave`,
/// over the wave scores of all persisted results in order.
pub open spec fn persisted_wave(prior: Seq<ResultView>, id: i32, wave: i32) -> Option<int>
    decreases prior.len(),
{
    if prior.len() == 0 {
        None
    } else {
        match last_wave_score(prior.last().wave_scores, id, wave) {
            Some(x) => Some(x),
            None => persisted_wave(prior.drop_last(), id, wave),
        }
    }
}

/// A persisted value exists and agrees with `v` within the tolerance.
pub open spec fn agrees(prev: Option<int>, v: int) -> bool {
    match prev {
        Some(x) => approx_eq(x, v),
        None => false,
    }
}

/// A wave score, marked published where a persisted one agrees with it.
pub open spec fn mark_wave(w: WaveScore, prior: Seq<ResultView>) -> WaveScore {
    WaveScore {
        surfer_id: w.surfer_id,
        wave: w.wave,
        score: w.score,
        published: w.published || agrees(persisted_wave(prior, w.surfer_id, w.wave), w.score as int),
    }
}

/// A result, marked published where a persisted total agrees with it, and its wave scores likewise.
pub open spec fn mark_result(r: ResultView, prior: Seq<ResultView>) -> ResultView {
    ResultView {
        heat_id: r.heat_id,
        surfer_id: r.surfer_id,
        total_score: r.total_score,
        place: r.place,
        wave_scores: r.wave_scores.map_values(|w: WaveScore| mark_wave(w, prior)),
        published: r.published || agrees(persisted_total(prior, r.surfer_id), r.total_score),
    }
}

/// Every fresh result marked against the persisted ones.
pub open spec fn mark_all(fresh: Seq<ResultView>, prior: Seq<ResultView>) -> Seq<ResultView> {
    fresh.map_values(|r: ResultView| mark_result(r, prior))
}

/// Two wave scores are of the same surfer and wave.
pub open spec fn same_key(x: WaveScore, y: WaveScore) -> bool {
    x.surfer_id == y.surfer_id && x.wave == y.wave
}

/// No two results are of the same surfer.
pub open spec fn one_result_per_surfer(s: Seq<ResultView>) -> bool {
    forall|a: int, b: int| 0 <= a < s.len() && 0 <= b < s.len() && a != b ==> #[trigger] s[a].surfer_id != #[trigger] s[b].surfer_id
}

/// No two wave scores, over all results, are of the same surfer and wave.
pub open spec fn one_score_per_wave(s: Seq<ResultView>) -> bool {
    forall|a: int, m: int, b: int, n: int|
        0 <= a < s.len() && 0 <= b < s.len() && 0 <= m < s[a].wave_scores.len() && 0 <= n < s[b].wave_scores.len() && (
        a != b || m != n) ==> !same_key(#[trigger] s[a].wave_scores[m], #[trigger] s[b].wave_scores[n])
}

/// Two result lists are of the same surfers and the same wave keys,
/// position by position; values and flags may differ.
pub open spec fn same_keys(a: Seq<ResultView>, b: Seq<ResultView>) -> bool {
    &&& a.len() == b.len()
    &&& forall|i: int|
        0 <= i < a.len() ==> (#[trigger] a[i]).surfer_id == b[i].surfer_id && a[i].wave_scores.len()
            == b[i].wave_scores.len()
    &&& forall|i: int, n: int|
        0 <= i < a.len() && 0 <= n < a[i].wave_scores.len() ==> same_key(
            #[trigger] a[i].wave_scores[n],
            b[i].wave_scores[n],
        )
}

/// Two result lists hold the same values: the same surfers, totals and wave
/// scores, position by position; only the published flags may differ.
pub open spec fn same_values(a: Seq<ResultView>, b: Seq<ResultView>) -> bool {
    &&& same_keys(a, b)
    &&& forall|i: int| 0 <= i < a.len() ==> (#[trigger] a[i]).total_score == b[i].total_score
    &&& forall|i: int, n: int|
        0 <= i < a.len() && 0 <= n < a[i].wave_scores.len() ==> (#[trigger] a[i].wave_scores[n]).score
            == b[i].wave_scores[n].score
}

/// Marking changes flags only.
pub proof fn lemma_mark_keeps_values(fresh: Seq<ResultView>, prior: Seq<ResultView>)
    ensures
        same_values(fresh, mark_all(fresh, prior)),
{
}

/// Persisted results with the keys of unique fresh results give, for each
/// fresh result and wave score, the persisted value at the same position.
pub proof fn lemma_lookups(fresh: Seq<ResultView>, prior: Seq<ResultView>)
    requires
        one_result_per_surfer(fresh),
        one_score_per_wave(fresh),
        same_keys(fresh, prior),
    ensures
        forall|i: int|
            0 <= i < fresh.len() ==> persisted_total(prior, (#[trigger] fresh[i]).surfer_id) == Some(
                prior[i].total_score,
            ),
        forall|i: int, n: int|
            0 <= i < fresh.len() && 0 <= n < fresh[i].wave_scores.len() ==> persisted_wave(
                prior,
                (#[trigger] fresh[i].wave_scores[n]).surfer_id,
                fresh[i].wave_scores[n].wave,
            ) == Some(prior[i].wave_scores[n].score as int),
{
    assert forall|i: int| 0 <= i < fresh.len() implies persisted_total(prior, (#[trigger] fresh[i]).surfer_id)
        == Some(prior[i].total_score) by {
        assert forall|a: int| 0 <= a < prior.len() && a != i implies #[trigger] prior[a].surfer_id
            != prior[i].surfer_id by {
            assert(fresh[a].surfer_id != fresh[i].surfer_id);
        }
        lemma_total_found(prior, i);
    }
    assert forall|i: int, n: int| 0 <= i < fresh.len() && 0 <= n < fresh[i].wave_scores.len() implies persisted_wave(
        prior,
        (#[trigger] fresh[i].wave_scores[n]).surfer_id,
        fresh[i].wave_scores[n].wave,
    ) == Some(prior[i].wave_scores[n].score as int) by {
        assert(same_key(fresh[i].wave_scores[n], prior[i].wave_scores[n]));
        assert forall|a: int, k: int|
            0 <= a < prior.len() && 0 <= k < prior[a].wave_scores.len() && (a != i || k != n) implies !same_key(
            #[trigger] prior[a].wave_scores[k],
            prior[i].wave_scores[n],
        ) by {
            assert(same_key(fresh[a].wave_scores[k], prior[a].wave_scores[k]));
            assert(!same_key(fresh[a].wave_scores[k], fresh[i].wave_scores[n]));
        }
        lemma_wave_found(prior, i, n);
    }
}

/// The total of the only result of a surfer is what the lookup finds.
pub proof fn lemma_total_found(prior: Seq<ResultView>, k: int)
    requires
        0 <= k < prior.len(),
        forall|a: int| 0 <= a < prior.len() && a != k ==> #[trigger] prior[a].surfer_id != prior[k].surfer_id,
    ensures
        persisted_total(prior, prior[k].surfer_id) == Some(prior[k].total_score),
    decreases prior.len(),
{
    if k < prior.len() - 1 {
        let p = prior.drop_last();
        assert(prior[prior.len() - 1].surfer_id != prior[k].surfer_id);
        assert forall|a: int| 0 <= a < p.len() && a != k implies #[trigger] p[a].surfer_id != p[k].surfer_id by {
            assert(p[a] == prior[a]);
        }
        lemma_total_found(p, k);
    }
}

/// The score of the only wave score of a surfer and wave in a list is what the lookup finds.
proof fn lemma_wave_in(ws: Seq<WaveScore>, m: int)
    requires
        0 <= m < ws.len(),
        forall|n: int| 0 <= n < ws.len() && n != m ==> !same_key(#[trigger] ws[n], ws[m]),
    ensures
        last_wave_score(ws, ws[m].surfer_id, ws[m].wave) == Some(ws[m].score as int),
    decreases ws.len(),
{
    if m < ws.len() - 1 {
        let p = ws.drop_last();
        assert(!same_key(ws[ws.len() - 1], ws[m]));
        assert forall|n: int| 0 <= n < p.len() && n != m implies !same_key(#[trigger] p[n], p[m]) by {
            assert(p[n] == ws[n]);
        }
        lemma_wave_in(p, m);
    }
}

/// A list without a wave score of a surfer and wave gives the lookup nothing.
proof fn lemma_wave_absent(ws: Seq<WaveScore>, x: WaveScore)
    requires
        forall|n: int| 0 <= n < ws.len() ==> !same_key(#[trigger] ws[n], x),
    ensures
        last_wave_score(ws, x.surfer_id, x.wave) is None,
    decreases ws.len(),
{
    if ws.len() > 0 {
        let p = ws.drop_last();
        assert(!same_key(ws[ws.len() - 1], x));
        assert forall|n: int| 0 <= n < p.len() implies !same_key(#[trigger] p[n], x) by {
            assert(p[n] == ws[n]);
        }
        lemma_wave_absent(p, x);
    }
}

/// The score of the only wave score of a surfer and wave, over all results, is what the lookup finds.
pub proof fn lemma_wave_found(prior: Seq<ResultView>, k: int, m: int)
    requires
        0 <= k < prior.len(),
        0 <= m < prior[k].wave_scores.len(),
        forall|a: int, n: int|
            0 <= a < prior.len() && 0 <= n < prior[a].wave_scores.len() && (a != k || n != m) ==> !same_key(
                #[trigger] prior[a].wave_scores[n],
                prior[k].wave_scores[m],
            ),
    ensures
        persisted_wave(prior, prior[k].wave_scores[m].surfer_id, prior[k].wave_scores[m].wave) == Some(
            prior[k].wave_scores[m].score as int,
        ),
    decreases prior.len(),
{
    let x = prior[k].wave_scores[m];
    let last = prior.len() - 1;
    if k == last {
        assert forall|n: int| 0 <= n < prior[k].wave_scores.len() && n != m implies !same_key(
            #[trigger] prior[k].wave_scores[n],
            prior[k].wave_scores[m],
        ) by {}
        lemma_wave_in(prior[k].wave_scores, m);
    } else {
        assert forall|n: int| 0 <= n < prior[last].wave_scores.len() implies !same_key(
            #[trigger] prior[last].wave_scores[n],
            x,
        ) by {}
        lemma_wave_absent(prior[last].wave_scores, x);
        let p = prior.drop_last();
        assert forall|a: int, n: int|
            0 <= a < p.len() && 0 <= n < p[a].wave_scores.len() && (a != k || n != m) implies !same_key(
            #[trigger] p[a].wave_scores[n],
            p[k].wave_scores[m],
        ) by {
            assert(p[a] == prior[a]);
        }
        lemma_wave_found(p, k, m);
    }
}

/// The total of the last persisted result of surfer `id`.
fn find_persisted_total(prior: &[Result], id: i32) -> (r: Option<i128>)
    ensures
        match r {
            Some(t) => persisted_total(results_view(prior@), id) == Some(t as int),
            None => persisted_total(results_view(prior@), id) is None,
        },
{
    let ghost all = results_view(prior@);
    let mut i: usize = prior.len();
    assert(all.take(i as int) =~= all);
    while i > 0
        invariant
            i <= prior.len(),
            all == results_view(prior@),
            persisted_total(all, id) == persisted_total(all.take(i as int), id),
        decreases i,
    {
        assert(all.take(i as int).drop_last() =~= all.take(i as int - 1));
        if prior[i - 1].surfer_id == id {
            return Some(prior[i - 1].total_score);
        }
        i = i - 1;
    }
    None
}

/// The score of the last wave score of surfer `id` on `wave` in one list.
fn find_wave_score(ws: &Vec<WaveScore>, id: i32, wave: i32) -> (r: Option<i64>)
    ensures
        match r {
            Some(x) => last_wave_score(ws@, id, wave) == Some(x as int),
            None => last_wave_score(ws@, id, wave) is None,
        },
{
    let mut i: usize = ws.len();
    assert(ws@.take(i as int) =~= ws@);
    while i > 0
        invariant
            i <= ws.len(),
            last_wave_score(ws@, id, wave) == last_wave_score(ws@.take(i as int), id, wave),
        decreases i,
    {
        assert(ws@.take(i as int).drop_last() =~= ws@.take(i as int - 1));
        if ws[i - 1].surfer_id == id && ws[i - 1].wave == wave {
            return Some(ws[i - 1].score);
        }
        i = i - 1;
    }
    None
}

/// The score of the last persisted wave score of surfer `id` on `wave`.
fn find_persisted_wave(prior: &[Result], id: i32, wave: i32) -> (r: Option<i64>)
    ensures
        match r {
            Some(x) => persisted_wave(results_view(prior@), id, wave) == Some(x as int),
            None => persisted_wave(results_view(prior@), id, wave) is None,
        },
{
    let ghost all = results_view(prior@);
    let mut i: usize = prior.len();
    assert(all.take(i as int) =~= all);
    while i > 0
        invariant
            i <= prior.len(),
            all == results_view(prior@),
            persisted_wave(all, id, wave) == persisted_wave(all.take(i as int), id, wave),
        decreases i,
    {
        assert(all.take(i as int).drop_last() =~= all.take(i as int - 1));
        match find_wave_score(&prior[i - 1].wave_scores, id, wave) {
            Some(x) => {
                return Some(x);
            },
            None => {},
        }
        i = i - 1;
    }
    None
}

/// Marks as published each fresh result whose total agrees, within the
/// tolerance, with the last persisted result of the same surfer, and each
/// fresh wave score that agrees with the last persisted wave score of the
/// same surfer and wave. Nothing else changes.
pub fn mark_published(fresh: Vec<Result>, prior: &[Result]) -> (r: Vec<Result>)
    ensures
        results_view(r@) == mark_all(results_view(fresh@), results_view(prior@)),
{
    let ghost pv = results_view(prior@);
    let ghost all = results_view(fresh@);
    let mut rest = fresh;
    let mut out: Vec<Result> = Vec::new();
    let mut i: usize = 0;
    let n = rest.len();
    while rest.len() > 0
        invariant
            i + rest.len() == n,
            n == all.len(),
            pv == results_view(prior@),
            results_view(rest@) == all.skip(i as int),
            results_view(out@) == mark_all(all, pv).take(i as int),
        decreases rest.len(),
    {
        let ghost rest_before = rest@;
        let r = rest.remove(0);
        assert(r@ == all[i as int]) by {
            assert(results_view(rest_before)[0] == r@);
        }
        assert(results_view(rest@) =~= all.skip(i as int + 1)) by {
            assert(rest@ =~= rest_before.remove(0));
            assert forall|j: int| 0 <= j < rest@.len() implies #[trigger] results_view(rest@)[j] == all.skip(
                i as int + 1,
            )[j] by {
                assert(rest@[j] == rest_before[j + 1]);
                assert(results_view(rest_before)[j + 1] == all.skip(i as int)[j + 1]);
            }
        }
        let Result { heat_id, surfer_id, total_score, place, wave_scores, published } = r;
        let mut marked: Vec<WaveScore> = Vec::new();
        let mut k: usize = 0;
        while k < wave_scores.len()
            invariant
                k <= wave_scores.len(),
                marked@ == wave_scores@.take(k as int).map_values(|w: WaveScore| mark_wave(w, pv)),
                pv == results_view(prior@),
            decreases wave_scores.len() - k,
        {
            let w = wave_scores[k];
            let agreed = match find_persisted_wave(prior, w.surfer_id, w.wave) {
                Some(x) => within_tolerance(x as i128, w.score as i128),
                None => false,
            };
            marked.push(WaveScore { surfer_id: w.surfer_id, wave: w.wave, score: w.score, published: w.published || agreed });
            assert(marked@ =~= wave_scores@.take(k as int + 1).map_values(|w: WaveScore| mark_wave(w, pv)));
            k = k + 1;
        }
        assert(wave_scores@.take(k as int) =~= wave_scores@);
        let agreed = match find_persisted_total(prior, surfer_id) {
            Some(t) => within_tolerance(t, total_score),
            None => false,
        };
        let m = Result { heat_id, surfer_id, total_score, place, wave_scores: marked, published: published || agreed };
        let ghost out_before = out@;
        out.push(m);
        assert(results_view(out@) =~= results_view(out_before).push(m@));
        assert(results_view(out@) =~= mark_all(all, pv).take(i as int + 1));
        i = i + 1;
    }
    assert(mark_all(all, pv).take(i as int) =~= mark_all(all, pv));
    out
}

} // verus!
