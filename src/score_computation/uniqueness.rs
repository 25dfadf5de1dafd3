use vstd::prelude::*;

use super::publish::{one_result_per_surfer, one_score_per_wave, same_key};
use super::ranking::{
    apart, canonical, entry_order, indices, key_order, lemma_sort_apart, lemma_sort_elements, present, rank_order, ranked_results,
    scores_of, surfers, wave_order, waves_of,
};
use super::{aggregated, eligible, group_keys};
use crate::models::result::WaveScore;
use crate::models::score::Score;

verus! {

/// Equal values clash.
pub open spec fn equal_clash<T>() -> spec_fn(T, T) -> bool {
    |a: T, b: T| a == b
}

/// Wave scores of the same surfer and wave clash.
pub open spec fn key_clash() -> spec_fn(WaveScore, WaveScore) -> bool {
    |a: WaveScore, b: WaveScore| same_key(a, b)
}

/// Each present entry's wave score is of the entry's surfer and wave, and unpublished.
pub open spec fn entries_keyed(p: Seq<(i32, i32, WaveScore)>) -> bool {
    forall|k: int|
        0 <= k < p.len() ==> (#[trigger] p[k]).2.surfer_id == p[k].0 && p[k].2.wave == p[k].1 && !p[k].2.published
}

/// No two entries are of the same surfer and wave.
pub open spec fn entries_apart<T>(p: Seq<(i32, i32, T)>) -> bool {
    forall|a: int, b: int|
        0 <= a < p.len() && 0 <= b < p.len() && a != b ==> (#[trigger] p[a].0, p[a].1) != (#[trigger] p[b].0, p[b].1)
}

/// Each aggregated wave score is of its entry's surfer and wave, and unpublished.
pub open spec fn aggregates_keyed(ws: Seq<(i32, i32, Option<WaveScore>)>) -> bool {
    forall|k: int|
        0 <= k < ws.len() ==> match (#[trigger] ws[k]).2 {
            Some(w) => w.surfer_id == ws[k].0 && w.wave == ws[k].1 && !w.published,
            None => true,
        }
}

/// Each surfer is listed once.
pub proof fn lemma_surfers_apart(p: Seq<(i32, i32, WaveScore)>)
    ensures
        surfers(p).len() <= p.len(),
        apart(surfers(p), equal_clash()),
        forall|j: int| 0 <= j < surfers(p).len() ==> exists|k: int| 0 <= k < p.len() && p[k].0 == #[trigger] surfers(p)[j],
    decreases p.len(),
{
    if p.len() > 0 {
        let q = p.drop_last();
        lemma_surfers_apart(q);
        let s = surfers(q);
        assert forall|j: int| 0 <= j < surfers(p).len() implies exists|k: int| 0 <= k < p.len() && p[k].0 == #[trigger] surfers(p)[j] by {
            if j < s.len() {
                let k = choose|k: int| 0 <= k < q.len() && q[k].0 == s[j];
                assert(p[k] == q[k]);
            } else {
                assert(p[p.len() - 1].0 == surfers(p)[j]);
            }
        }
        if !s.contains(p.last().0) {
            let r = surfers(p);
            assert forall|a: int, b: int| 0 <= a < r.len() && 0 <= b < r.len() && a != b implies !equal_clash()(
                #[trigger] r[a],
                #[trigger] r[b],
            ) by {
                if a < s.len() && b < s.len() {
                    assert(r[a] == s[a] && r[b] == s[b]);
                } else if a < s.len() {
                    assert(s.contains(r[a]));
                } else {
                    assert(s.contains(r[b]));
                }
            }
        }
    }
}

/// Each of a surfer's wave scores is the score of one of that surfer's entries.
pub proof fn lemma_scores_of_from(p: Seq<(i32, i32, WaveScore)>, id: i32)
    ensures
        forall|j: int|
            0 <= j < scores_of(p, id).len() ==> exists|k: int|
                0 <= k < p.len() && p[k].0 == id && p[k].2 == #[trigger] scores_of(p, id)[j],
    decreases p.len(),
{
    if p.len() > 0 {
        let q = p.drop_last();
        lemma_scores_of_from(q, id);
        assert forall|j: int| 0 <= j < scores_of(p, id).len() implies exists|k: int|
            0 <= k < p.len() && p[k].0 == id && p[k].2 == #[trigger] scores_of(p, id)[j] by {
            if j < scores_of(q, id).len() {
                let k = choose|k: int| 0 <= k < q.len() && q[k].0 == id && q[k].2 == scores_of(q, id)[j];
                assert(p[k] == q[k]);
            } else {
                assert(p[p.len() - 1].2 == scores_of(p, id)[j]);
            }
        }
    }
}

/// A surfer's wave scores are of distinct waves, and all of that surfer.
pub proof fn lemma_waves_of_shape(p: Seq<(i32, i32, WaveScore)>, id: i32)
    requires
        entries_keyed(p),
        entries_apart(p),
    ensures
        apart(waves_of(p, id), key_clash()),
        forall|j: int|
            0 <= j < waves_of(p, id).len() ==> (#[trigger] waves_of(p, id)[j]).surfer_id == id
                && !waves_of(p, id)[j].published,
{
    let s = scores_of(p, id);
    lemma_scores_of_from(p, id);
    assert(apart(s, key_clash())) by {
        assert forall|a: int, b: int| 0 <= a < s.len() && 0 <= b < s.len() && a != b implies !key_clash()(
            #[trigger] s[a],
            #[trigger] s[b],
        ) by {
            let ka = choose|k: int| 0 <= k < p.len() && p[k].0 == id && p[k].2 == s[a];
            let kb = choose|k: int| 0 <= k < p.len() && p[k].0 == id && p[k].2 == s[b];
            if ka == kb {
                lemma_scores_of_positions(p, id, a, b);
            }
        }
    }
    lemma_sort_apart(s, wave_order(), key_clash());
    lemma_sort_elements(s, wave_order());
    assert forall|j: int| 0 <= j < waves_of(p, id).len() implies (#[trigger] waves_of(p, id)[j]).surfer_id == id
        && !waves_of(p, id)[j].published by {
        assert(waves_of(p, id).contains(waves_of(p, id)[j]));
        let m = choose|m: int| 0 <= m < s.len() && s[m] == waves_of(p, id)[j];
        let k = choose|k: int| 0 <= k < p.len() && p[k].0 == id && p[k].2 == s[m];
    }
}

/// Two positions of a surfer's wave scores come from two different entries.
proof fn lemma_scores_of_positions(p: Seq<(i32, i32, WaveScore)>, id: i32, a: int, b: int)
    requires
        entries_keyed(p),
        entries_apart(p),
        0 <= a < scores_of(p, id).len(),
        0 <= b < scores_of(p, id).len(),
        a != b,
    ensures
        !same_key(scores_of(p, id)[a], scores_of(p, id)[b]),
    decreases p.len(),
{
    let q = p.drop_last();
    assert(entries_keyed(q)) by {
        assert forall|k: int| 0 <= k < q.len() implies (#[trigger] q[k]).2.surfer_id == q[k].0 && q[k].2.wave == q[k].1
            && !q[k].2.published by {
            assert(q[k] == p[k]);
        }
    }
    assert(entries_apart(q)) by {
        assert forall|x: int, y: int| 0 <= x < q.len() && 0 <= y < q.len() && x != y implies (
        #[trigger] q[x].0, q[x].1) != (#[trigger] q[y].0, q[y].1) by {
            assert(q[x] == p[x] && q[y] == p[y]);
        }
    }
    let sq = scores_of(q, id);
    if a < sq.len() && b < sq.len() {
        lemma_scores_of_positions(q, id, a, b);
    } else {
        let old_pos = if a < sq.len() { a } else { b };
        lemma_scores_of_from(q, id);
        let k = choose|k: int| 0 <= k < q.len() && q[k].0 == id && q[k].2 == sq[old_pos];
        assert(p[k] == q[k]);
        let last = p.len() - 1;
        assert(p[last].2.surfer_id == p[last].0 && p[last].2.wave == p[last].1);
        assert((p[k].0, p[k].1) != (p[last].0, p[last].1));
    }
}

/// Ranked results built from keyed, distinct entries have one result per
/// surfer, one wave score per surfer and wave, and nothing published.
pub proof fn lemma_ranked_shape(
    heat_id: i32,
    p: Seq<(i32, i32, WaveScore)>,
    totals: Seq<int>,
    keys: Seq<Seq<int>>,
)
    requires
        entries_keyed(p),
        entries_apart(p),
        surfers(p).len() == keys.len(),
        totals.len() == keys.len(),
        keys.len() <= usize::MAX,
    ensures
        ({
            let r = ranked_results(heat_id, p, surfers(p), totals, keys);
            &&& one_result_per_surfer(r)
            &&& one_score_per_wave(r)
            &&& forall|i: int| 0 <= i < r.len() ==> !(#[trigger] r[i]).published
            &&& forall|i: int, n: int|
                0 <= i < r.len() && 0 <= n < r[i].wave_scores.len() ==> !(#[trigger] r[i].wave_scores[n]).published
        }),
{
    let ids = surfers(p);
    let order = rank_order(keys);
    let r = ranked_results(heat_id, p, ids, totals, keys);
    lemma_surfers_apart(p);
    lemma_sort_elements(indices(keys.len()), key_order(keys));
    assert(apart(indices(keys.len()), equal_clash::<usize>())) by {
        let ix = indices(keys.len());
        assert forall|a: int, b: int| 0 <= a < ix.len() && 0 <= b < ix.len() && a != b implies !equal_clash::<usize>()(
            #[trigger] ix[a],
            #[trigger] ix[b],
        ) by {
            assert(ix[a] == a as usize && ix[b] == b as usize);
        }
    }
    lemma_sort_apart(indices(keys.len()), key_order(keys), equal_clash::<usize>());
    assert forall|i: int| 0 <= i < order.len() implies #[trigger] order[i] < keys.len() by {
        assert(order.contains(order[i]));
    }
    assert(one_result_per_surfer(r)) by {
        assert forall|a: int, b: int| 0 <= a < r.len() && 0 <= b < r.len() && a != b implies #[trigger] r[a].surfer_id
            != #[trigger] r[b].surfer_id by {
            assert(order[a] != order[b]);
            assert(order[a] < keys.len() && order[b] < keys.len());
            assert(!equal_clash()(ids[order[a] as int], ids[order[b] as int]));
        }
    }
    assert forall|i: int| 0 <= i < r.len() implies #[trigger] r[i].wave_scores == waves_of(p, r[i].surfer_id) by {}
    assert(one_score_per_wave(r)) by {
        assert forall|a: int, m: int, b: int, n: int|
            0 <= a < r.len() && 0 <= b < r.len() && 0 <= m < r[a].wave_scores.len() && 0 <= n < r[b].wave_scores.len()
                && (a != b || m != n) implies !same_key(#[trigger] r[a].wave_scores[m], #[trigger] r[b].wave_scores[n]) by {
            lemma_waves_of_shape(p, r[a].surfer_id);
            lemma_waves_of_shape(p, r[b].surfer_id);
            if a == b {
                assert(!key_clash()(r[a].wave_scores[m], r[a].wave_scores[n]));
            }
        }
    }
    assert forall|i: int, n: int| 0 <= i < r.len() && 0 <= n < r[i].wave_scores.len() implies !(
    #[trigger] r[i].wave_scores[n]).published by {
        lemma_waves_of_shape(p, r[i].surfer_id);
    }
}

/// Each (surfer, wave) pair is listed once.
proof fn lemma_group_keys_apart(e: Seq<Score>)
    ensures
        apart(group_keys(e), equal_clash()),
        group_keys(e).len() <= e.len(),
    decreases e.len(),
{
    if e.len() > 0 {
        let q = e.drop_last();
        lemma_group_keys_apart(q);
        let s = group_keys(q);
        let key = (e.last().surfer_id, e.last().wave);
        if !s.contains(key) {
            let r = group_keys(e);
            assert forall|a: int, b: int| 0 <= a < r.len() && 0 <= b < r.len() && a != b implies !equal_clash()(
                #[trigger] r[a],
                #[trigger] r[b],
            ) by {
                if a < s.len() && b < s.len() {
                    assert(r[a] == s[a] && r[b] == s[b]);
                } else if a < s.len() {
                    assert(s.contains(r[a]));
                } else {
                    assert(s.contains(r[b]));
                }
            }
        }
    }
}

/// The aggregated entries are of distinct (surfer, wave) pairs, and each
/// value is of its entry's surfer and wave, and unpublished.
pub proof fn lemma_aggregated_shape(roster: Set<i32>, scores: Seq<Score>)
    ensures
        aggregates_keyed(aggregated(roster, scores)),
        entries_apart(aggregated(roster, scores)),
        aggregated(roster, scores).len() <= scores.len(),
{
    let e = eligible(scores, roster);
    let ks = group_keys(e);
    let ws = aggregated(roster, scores);
    lemma_group_keys_apart(e);
    lemma_eligible_len(scores, roster);
    assert forall|a: int, b: int| 0 <= a < ws.len() && 0 <= b < ws.len() && a != b implies (
    #[trigger] ws[a].0, ws[a].1) != (#[trigger] ws[b].0, ws[b].1) by {
        assert(!equal_clash()(ks[a], ks[b]));
    }
}

proof fn lemma_eligible_len(scores: Seq<Score>, roster: Set<i32>)
    ensures
        eligible(scores, roster).len() <= scores.len(),
    decreases scores.len(),
{
    if scores.len() > 0 {
        lemma_eligible_len(scores.drop_last(), roster);
    }
}

/// The present entries keep the shape of the aggregated ones.
pub proof fn lemma_present_shape(ws: Seq<(i32, i32, Option<WaveScore>)>)
    requires
        aggregates_keyed(ws),
        entries_apart(ws),
    ensures
        entries_keyed(present(ws)),
        entries_apart(present(ws)),
        present(ws).len() <= ws.len(),
        forall|k: int|
            0 <= k < present(ws).len() ==> exists|j: int|
                0 <= j < ws.len() && ws[j].0 == (#[trigger] present(ws)[k]).0 && ws[j].1 == present(ws)[k].1,
    decreases ws.len(),
{
    if ws.len() > 0 {
        let q = ws.drop_last();
        assert(aggregates_keyed(q)) by {
            assert forall|k: int| 0 <= k < q.len() implies match (#[trigger] q[k]).2 {
                Some(w) => w.surfer_id == q[k].0 && w.wave == q[k].1 && !w.published,
                None => true,
            } by {
                assert(q[k] == ws[k]);
            }
        }
        assert(entries_apart(q)) by {
            assert forall|a: int, b: int| 0 <= a < q.len() && 0 <= b < q.len() && a != b implies (
            #[trigger] q[a].0, q[a].1) != (#[trigger] q[b].0, q[b].1) by {
                assert(q[a] == ws[a] && q[b] == ws[b]);
            }
        }
        lemma_present_shape(q);
        let pq = present(q);
        let p = present(ws);
        let last = ws.len() - 1;
        assert(ws[last] == ws.last());
        assert forall|k: int| 0 <= k < p.len() implies exists|j: int|
            0 <= j < ws.len() && ws[j].0 == (#[trigger] p[k]).0 && ws[j].1 == p[k].1 by {
            if k < pq.len() {
                assert(p[k] == pq[k]);
                let j = choose|j: int| 0 <= j < q.len() && q[j].0 == pq[k].0 && q[j].1 == pq[k].1;
                assert(ws[j] == q[j]);
            } else {
                assert(ws[last].0 == p[k].0 && ws[last].1 == p[k].1);
            }
        }
        assert(entries_keyed(p)) by {
            assert forall|k: int| 0 <= k < p.len() implies (#[trigger] p[k]).2.surfer_id == p[k].0 && p[k].2.wave
                == p[k].1 && !p[k].2.published by {
                if k < pq.len() {
                    assert(p[k] == pq[k]);
                }
            }
        }
        assert(entries_apart(p)) by {
            assert forall|a: int, b: int| 0 <= a < p.len() && 0 <= b < p.len() && a != b implies (
            #[trigger] p[a].0, p[a].1) != (#[trigger] p[b].0, p[b].1) by {
                if a < pq.len() && b < pq.len() {
                    assert(p[a] == pq[a] && p[b] == pq[b]);
                } else if a < pq.len() || b < pq.len() {
                    let old_pos = if a < pq.len() { a } else { b };
                    assert(p[old_pos] == pq[old_pos]);
                    let j = choose|j: int| 0 <= j < q.len() && q[j].0 == pq[old_pos].0 && q[j].1 == pq[old_pos].1;
                    assert(ws[j] == q[j]);
                    assert((ws[j].0, ws[j].1) != (ws[last].0, ws[last].1));
                }
            }
        }
    }
}

/// Entries of the same surfer and wave clash.
pub open spec fn entry_key_clash() -> spec_fn((i32, i32, Option<WaveScore>), (i32, i32, Option<WaveScore>)) -> bool {
    |a: (i32, i32, Option<WaveScore>), b: (i32, i32, Option<WaveScore>)| a.0 == b.0 && a.1 == b.1
}

/// Putting the entries in their fixed order keeps their shape.
pub proof fn lemma_canonical_shape(ws: Seq<(i32, i32, Option<WaveScore>)>)
    requires
        aggregates_keyed(ws),
        entries_apart(ws),
    ensures
        aggregates_keyed(canonical(ws)),
        entries_apart(canonical(ws)),
        canonical(ws).len() == ws.len(),
{
    let c = canonical(ws);
    lemma_sort_elements(ws, entry_order());
    assert(apart(ws, entry_key_clash())) by {
        assert forall|a: int, b: int| 0 <= a < ws.len() && 0 <= b < ws.len() && a != b implies !entry_key_clash()(
            #[trigger] ws[a],
            #[trigger] ws[b],
        ) by {
            assert((ws[a].0, ws[a].1) != (ws[b].0, ws[b].1));
        }
    }
    lemma_sort_apart(ws, entry_order(), entry_key_clash());
    assert forall|k: int| 0 <= k < c.len() implies match (#[trigger] c[k]).2 {
        Some(w) => w.surfer_id == c[k].0 && w.wave == c[k].1 && !w.published,
        None => true,
    } by {
        assert(c.contains(c[k]));
        let j = choose|j: int| 0 <= j < ws.len() && ws[j] == c[k];
        assert(ws[j] == c[k]);
    }
    assert forall|a: int, b: int| 0 <= a < c.len() && 0 <= b < c.len() && a != b implies (#[trigger] c[a].0, c[a].1)
        != (#[trigger] c[b].0, c[b].1) by {
        assert(!entry_key_clash()(c[a], c[b]));
    }
}

} // verus!
