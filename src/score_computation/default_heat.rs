use vstd::prelude::*;

use super::ranking::{
    collect_entries, distinct_surfers, lemma_insert_at, entries, rank_surfers, ranked_results,
    scores_of, stable_sort, surfers, wide, keys_view,
};
use super::stats::{ints, seq_sum, sum_first};
use super::ResultComputation;
use crate::models::result::{Result, ResultView, WaveScore};

verus! {

/// Standard heats: a surfer's total is the sum of the best `n_best_waves`
/// wave scores; the remaining scores, best first, break ties.
pub struct DefaultHeat {
    pub n_best_waves: usize,
}

impl Default for DefaultHeat {
    fn default() -> (r: DefaultHeat)
        ensures
            r.n_best_waves == 2,
    {
        DefaultHeat { n_best_waves: 2 }
    }
}

/// Higher scores first.
pub open spec fn score_desc() -> spec_fn(i64, i64) -> bool {
    |a: i64, b: i64| a > b
}

/// One surfer's wave scores, best first.
pub open spec fn best_first(p: Seq<(i32, i32, WaveScore)>, id: i32) -> Seq<i64> {
    stable_sort(scores_of(p, id).map_values(|w: WaveScore| w.score), score_desc())
}

/// How many of `len` waves count towards the total.
pub open spec fn counted(n_best: usize, len: int) -> int {
    if n_best < len {
        n_best as int
    } else {
        len
    }
}

/// Sum of one surfer's best `n_best` wave scores.
pub open spec fn best_total(n_best: usize, p: Seq<(i32, i32, WaveScore)>, id: i32) -> int {
    let b = ints(best_first(p, id));
    seq_sum(b.take(counted(n_best, b.len() as int)))
}

/// One surfer's tie-break vector: the total, then the other scores, best first.
pub open spec fn tie_break(n_best: usize, p: Seq<(i32, i32, WaveScore)>, id: i32) -> Seq<int> {
    let b = ints(best_first(p, id));
    seq![best_total(n_best, p, id)] + b.skip(counted(n_best, b.len() as int))
}

impl ResultComputation for DefaultHeat {
    open spec fn results_for(&self, heat_id: i32, wave_scores: Seq<(i32, i32, Option<WaveScore>)>) -> Seq<
        ResultView,
    > {
        let p = entries(wave_scores);
        let ids = surfers(p);
        ranked_results(
            heat_id,
            p,
            ids,
            ids.map_values(|id: i32| best_total(self.n_best_waves, p, id)),
            ids.map_values(|id: i32| tie_break(self.n_best_waves, p, id)),
        )
    }

    fn process_wave_scores(&self, heat_id: i32, wave_scores: &Vec<(i32, i32, Option<WaveScore>)>) -> (r: Vec<
        Result,
    >) {
        let p = collect_entries(wave_scores);
        let ids = distinct_surfers(&p);
        let mut totals: Vec<i128> = Vec::new();
        let mut keys: Vec<Vec<i128>> = Vec::new();
        let mut i: usize = 0;
        while i < ids.len()
            invariant
                i <= ids.len(),
                totals.len() == i,
                keys.len() == i,
                forall|j: int| 0 <= j < i ==> #[trigger] totals@[j] as int == best_total(self.n_best_waves, p@, ids@[j]),
                forall|j: int| 0 <= j < i ==> #[trigger] wide(keys@[j]@) == tie_break(self.n_best_waves, p@, ids@[j]),
            decreases ids.len() - i,
        {
            let best = best_scores(&p, ids[i]);
            let c = if self.n_best_waves < best.len() {
                self.n_best_waves
            } else {
                best.len()
            };
            let total = sum_first(&best, c);
            let mut key: Vec<i128> = Vec::new();
            key.push(total);
            let mut k: usize = c;
            while k < best.len()
                invariant
                    c <= k <= best.len(),
                    wide(key@) == seq![total as int] + ints(best@).subrange(c as int, k as int),
                decreases best.len() - k,
            {
                let ghost before = key@;
                key.push(best[k] as i128);
                assert(wide(key@) =~= wide(before).push(ints(best@)[k as int]));
                assert(wide(key@) =~= seq![total as int] + ints(best@).subrange(c as int, k as int + 1));
                k = k + 1;
            }
            assert(ints(best@).subrange(c as int, k as int) =~= ints(best@).skip(c as int));
            totals.push(total);
            keys.push(key);
            i = i + 1;
        }
        assert(wide(totals@) =~= ids@.map_values(|id: i32| best_total(self.n_best_waves, p@, id)));
        assert(keys_view(keys@) =~= ids@.map_values(|id: i32| tie_break(self.n_best_waves, p@, id)));
        rank_surfers(heat_id, &p, &ids, &totals, &keys)
    }
}

/// One surfer's wave scores, best first.
fn best_scores(p: &Vec<(i32, i32, WaveScore)>, id: i32) -> (r: Vec<i64>)
    ensures
        r@ == best_first(p@, id),
{
    let ghost mine = scores_of(p@, id).map_values(|w: WaveScore| w.score);
    let mut out: Vec<i64> = Vec::new();
    let mut i: usize = 0;
    while i < p.len()
        invariant
            i <= p.len(),
            mine == scores_of(p@, id).map_values(|w: WaveScore| w.score),
            out@ == stable_sort(scores_of(p@.take(i as int), id).map_values(|w: WaveScore| w.score), score_desc()),
        decreases p.len() - i,
    {
        assert(p@.take(i as int + 1).drop_last() =~= p@.take(i as int));
        if p[i].0 == id {
            let x = p[i].2.score;
            let mut q: usize = 0;
            while q < out.len() && !(x > out[q])
                invariant
                    q <= out.len(),
                    forall|j: int| 0 <= j < q ==> !score_desc()(x, #[trigger] out@[j]),
                decreases out.len() - q,
            {
                q = q + 1;
            }
            proof {
                lemma_insert_at(out@, x, score_desc(), q as int);
                let s = scores_of(p@.take(i as int + 1), id).map_values(|w: WaveScore| w.score);
                assert(s.drop_last() =~= scores_of(p@.take(i as int), id).map_values(|w: WaveScore| w.score));
                assert(s.last() == x);
            }
            out.insert(q, x);
        } else {
            assert(scores_of(p@.take(i as int + 1), id) == scores_of(p@.take(i as int), id));
        }
        i = i + 1;
    }
    assert(p@.take(i as int) =~= p@);
    out
}

} // verus!
