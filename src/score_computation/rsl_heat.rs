use vstd::prelude::*;

use super::ranking::{
    collect_entries, distinct_surfers, keys_view, entries, rank_surfers, ranked_results, surfers, wide,
};
use super::{approx_eq, within_tolerance, ResultComputation, POINT};
use crate::models::result::{Result, ResultView, WaveScore};

verus! {

/// Call heats: a surfer's total is the number of waves on which the
/// surfer's score is the best of that wave, within the tolerance, in points.
pub struct RSLHeat {}

/// The best score on wave `w` among the entries, if the wave has any.
pub open spec fn wave_best(p: Seq<(i32, i32, WaveScore)>, w: i32) -> Option<int>
    decreases p.len(),
{
    if p.len() == 0 {
        None
    } else {
        let b = wave_best(p.drop_last(), w);
        let e = p.last();
        if e.1 != w {
            b
        } else {
            match b {
                Some(m) => Some(
                    if e.2.score > m {
                        e.2.score as int
                    } else {
                        m
                    },
                ),
                None => Some(e.2.score as int),
            }
        }
    }
}

/// The entry is one of the best of its wave within `all`.
pub open spec fn wins_wave(all: Seq<(i32, i32, WaveScore)>, e: (i32, i32, WaveScore)) -> bool {
    match wave_best(all, e.1) {
        Some(m) => approx_eq(e.2.score as int, m),
        None => false,
    }
}

/// How many of the entries `q` of surfer `id` are among the best of their wave within `all`.
pub open spec fn wins_among(q: Seq<(i32, i32, WaveScore)>, all: Seq<(i32, i32, WaveScore)>, id: i32) -> int
    decreases q.len(),
{
    if q.len() == 0 {
        0
    } else {
        wins_among(q.drop_last(), all, id) + if q.last().0 == id && wins_wave(all, q.last()) {
            1int
        } else {
            0int
        }
    }
}

/// A surfer's total: the number of waves won, in points.
pub open spec fn wins_total(p: Seq<(i32, i32, WaveScore)>, id: i32) -> int {
    wins_among(p, p, id) * POINT
}

impl ResultComputation for RSLHeat {
    open spec fn results_for(&self, heat_id: i32, wave_scores: Seq<(i32, i32, Option<WaveScore>)>) -> Seq<
        ResultView,
    > {
        let p = entries(wave_scores);
        let ids = surfers(p);
        ranked_results(
            heat_id,
            p,
            ids,
            ids.map_values(|id: i32| wins_total(p, id)),
            ids.map_values(|id: i32| seq![wins_total(p, id)]),
        )
    }

    fn process_wave_scores(&self, heat_id: i32, wave_scores: &Vec<(i32, i32, Option<WaveScore>)>) -> (r: Vec<
        Result,
    >) {
        let p = collect_entries(wave_scores);
        let ids = distinct_surfers(&p);
        let mut totals: Vec<i128> = Vec::new();
        let mut keys: Vec<Vec<i128>> = Vec::new();
        let mut i: usize = 0;
        while i < ids.len()
            invariant
                i <= ids.len(),
                totals.len() == i,
                keys.len() == i,
                forall|j: int| 0 <= j < i ==> #[trigger] totals@[j] as int == wins_total(p@, ids@[j]),
                forall|j: int| 0 <= j < i ==> #[trigger] wide(keys@[j]@) == seq![wins_total(p@, ids@[j])],
            decreases ids.len() - i,
        {
            let wins = count_wins(&p, ids[i]);
            let total = wins as i128 * POINT as i128;
            let mut key: Vec<i128> = Vec::new();
            key.push(total);
            assert(wide(key@) =~= seq![wins_total(p@, ids@[i as int])]);
            totals.push(total);
            keys.push(key);
            i = i + 1;
        }
        assert(wide(totals@) =~= ids@.map_values(|id: i32| wins_total(p@, id)));
        assert(keys_view(keys@) =~= ids@.map_values(|id: i32| seq![wins_total(p@, id)]));
        rank_surfers(heat_id, &p, &ids, &totals, &keys)
    }
}

/// The best score on one wave.
fn best_on_wave(p: &Vec<(i32, i32, WaveScore)>, w: i32) -> (r: Option<i64>)
    ensures
        match r {
            Some(x) => wave_best(p@, w) == Some(x as int),
            None => wave_best(p@, w) is None,
        },
{
    let mut best: Option<i64> = None;
    let mut i: usize = 0;
    while i < p.len()
        invariant
            i <= p.len(),
            match best {
                Some(x) => wave_best(p@.take(i as int), w) == Some(x as int),
                None => wave_best(p@.take(i as int), w) is None,
            },
        decreases p.len() - i,
    {
        assert(p@.take(i as int + 1).drop_last() =~= p@.take(i as int));
        if p[i].1 == w {
            let s = p[i].2.score;
            best = match best {
                Some(m) => Some(
                    if s > m {
                        s
                    } else {
                        m
                    },
                ),
                None => Some(s),
            };
        }
        i = i + 1;
    }
    assert(p@.take(i as int) =~= p@);
    best
}

/// The number of waves that surfer `id` won.
fn count_wins(p: &Vec<(i32, i32, WaveScore)>, id: i32) -> (r: usize)
    ensures
        r as int == wins_among(p@, p@, id),
{
    let mut wins: usize = 0;
    let mut i: usize = 0;
    while i < p.len()
        invariant
            i <= p.len(),
            wins <= i,
            wins as int == wins_among(p@.take(i as int), p@, id),
        decreases p.len() - i,
    {
        assert(p@.take(i as int + 1).drop_last() =~= p@.take(i as int));
        assert(p@.take(i as int + 1).last() == p@[i as int]);
        if p[i].0 == id {
            match best_on_wave(p, p[i].1) {
                Some(b) => {
                    if within_tolerance(p[i].2.score as i128, b as i128) {
                        wins = wins + 1;
                    }
                },
                None => {},
            }
        }
        i = i + 1;
    }
    assert(p@.take(i as int) =~= p@);
    wins
}

} // verus!
