use vstd::prelude::*;

pub mod default_heat;
pub mod laws;
pub mod publish;
pub mod ranking;
pub mod rsl_heat;
pub mod stats;
pub mod uniqueness;

use crate::models::result::{results_view, Result, ResultView, WaveScore};
use crate::models::score::Score;
use crate::models::user::User;
use publish::{mark_all, mark_published};
use stats::{
    all_within, ints, lemma_div_within, lemma_min_max, lemma_sum_within, lemma_sum_without_extreme,
    min_max_values, seq_max, seq_min, seq_sum, sum_values,
};

verus! {

/// Scores are fixed-point numbers: one point is `POINT` units. Means are
/// rounded down to a whole unit.
pub const POINT: i64 = 1_000_000;

/// Two scores closer than this many units (1e-5 points) count as equal.
pub const EPSILON: i128 = 10;

/// Equality of two scores within the tolerance.
pub open spec fn approx_eq(a: int, b: int) -> bool {
    -EPSILON < a - b < EPSILON
}

/// Whether two scores are equal within the tolerance.
pub fn within_tolerance(a: i128, b: i128) -> (r: bool)
    ensures
        r == approx_eq(a as int, b as int),
{
    match a.checked_sub(b) {
        Some(d) => -EPSILON < d && d < EPSILON,
        None => false,
    }
}

/// Division rounding towards negative infinity.
pub fn div_floor(a: i128, b: i128) -> (q: i128)
    requires
        b > 0,
    ensures
        q == a / b,
{
    if a >= 0 {
        a / b
    } else {
        let q = (-(a + 1)) / b;
        proof {
            let n: int = -(a + 1);
            let bi: int = b as int;
            let qi: int = q as int;
            let m: int = n % bi;
            assert(n == qi * bi + m && 0 <= m < bi) by {
                vstd::arithmetic::div_mod::lemma_fundamental_div_mod(n, bi);
            }
            assert(a == (-qi - 1) * bi + (bi - 1 - m)) by (nonlinear_arith)
                requires n == qi * bi + m, a == -n - 1;
            vstd::arithmetic::div_mod::lemma_fundamental_div_mod_converse(a as int, bi, -qi - 1, bi - 1 - m);
        }
        -q - 1
    }
}

/// A way of ranking the surfers of a heat from their wave scores.
pub trait ResultComputation {
    /// The results that `process_wave_scores` gives.
    spec fn results_for(&self, heat_id: i32, wave_scores: Seq<(i32, i32, Option<WaveScore>)>) -> Seq<
        ResultView,
    >;

    /// Ranks the surfers of heat `heat_id` from the entries
    /// `(surfer_id, wave, wave score)`; entries without a score are skipped.
    /// The entries are first put in a fixed order of their fields, so the
    /// order in which they come does not matter.
    fn process_wave_scores(&self, heat_id: i32, wave_scores: &Vec<(i32, i32, Option<WaveScore>)>) -> (r: Vec<
        Result,
    >)
        requires
            wave_scores.len() <= i32::MAX,
        ensures
            results_view(r@) == self.results_for(heat_id, wave_scores@),
    ;
}

/// Above this many judges the lowest and the highest value are dropped.
pub const MIN_JUDGES_FOR_DROP: usize = 4;

/// The judge ids of a group of scores, in order.
pub open spec fn judges_of(g: Seq<Score>) -> Seq<i32> {
    g.map_values(|s: Score| s.judge_id)
}

/// Every judge of the roster, and no other, scored, each exactly once.
pub open spec fn full_coverage(g: Seq<Score>, roster: Set<i32>) -> bool {
    judges_of(g).to_set() == roster && g.len() == roster.len()
}

/// The values given by judges who did not miss the wave, in order.
pub open spec fn rated_values(g: Seq<Score>) -> Seq<int>
    decreases g.len(),
{
    if g.len() == 0 {
        seq![]
    } else {
        let r = rated_values(g.drop_last());
        if g.last().missed {
            r
        } else {
            r.push(g.last().score as int)
        }
    }
}

/// The rated values, followed by their mean (rounded down) once for each missed score.
pub open spec fn completed_sample(g: Seq<Score>) -> Seq<int> {
    let r = rated_values(g);
    r + Seq::new((g.len() - r.len()) as nat, |i: int| seq_sum(r) / r.len() as int)
}

/// Mean of a sample, rounded down; above `MIN_JUDGES_FOR_DROP` values, the
/// lowest and the highest value are left out first.
pub open spec fn trimmed_mean(s: Seq<int>) -> int {
    if s.len() > MIN_JUDGES_FOR_DROP {
        (seq_sum(s) - seq_min(s) - seq_max(s)) / (s.len() - 2)
    } else {
        seq_sum(s) / s.len() as int
    }
}

/// The aggregated score of one surfer on one wave, if the group can be scored.
pub open spec fn individual_score(surfer_id: i32, wave: i32, roster: Set<i32>, g: Seq<Score>) -> Option<WaveScore> {
    if !full_coverage(g, roster) || rated_values(g).len() == 0 {
        None
    } else {
        Some(WaveScore { surfer_id, wave, score: trimmed_mean(completed_sample(g)) as i64, published: false })
    }
}

/// Whether the group's judges are exactly the (duplicate-free) roster, each once.
fn covers_roster(roster: &Vec<i32>, scores: &[Score]) -> (r: bool)
    requires
        roster@.no_duplicates(),
    ensures
        r == full_coverage(scores@, roster@.to_set()),
{
    let ghost g = judges_of(scores@);
    proof {
        roster@.unique_seq_to_set();
    }
    if scores.len() != roster.len() {
        return false;
    }
    let mut i: usize = 0;
    while i < scores.len()
        invariant
            i <= scores.len(),
            g == judges_of(scores@),
            forall|a: int| 0 <= a < i ==> roster@.contains(#[trigger] g[a]),
            forall|a: int, b: int| 0 <= a < b < i ==> #[trigger] g[a] != #[trigger] g[b],
        decreases scores.len() - i,
    {
        let id = scores[i].judge_id;
        let mut found = false;
        let mut j: usize = 0;
        while j < roster.len()
            invariant
                j <= roster.len(),
                found ==> roster@.contains(id),
                !found ==> forall|a: int| 0 <= a < j ==> roster@[a] != id,
            decreases roster.len() - j,
        {
            if roster[j] == id {
                found = true;
            }
            j = j + 1;
        }
        if !found {
            proof {
                assert(!g.to_set().subset_of(roster@.to_set())) by {
                    assert(g.to_set().contains(g[i as int]));
                }
            }
            return false;
        }
        let mut k: usize = 0;
        while k < i
            invariant
                k <= i < scores.len(),
                g == judges_of(scores@),
                id == g[i as int],
                forall|a: int| 0 <= a < k ==> g[a] != id,
            decreases i - k,
        {
            if scores[k].judge_id == id {
                proof {
                    assert(g[k as int] == g[i as int]);
                    assert(!g.no_duplicates());
                    if g.to_set().len() == g.len() {
                        g.lemma_no_dup_set_cardinality();
                    }
                }
                return false;
            }
            k = k + 1;
        }
        i = i + 1;
    }
    proof {
        assert(g.no_duplicates());
        g.unique_seq_to_set();
        assert(g.to_set().subset_of(roster@.to_set())) by {
            assert forall|x: i32| g.to_set().contains(x) implies roster@.to_set().contains(x) by {
                let a = choose|a: int| 0 <= a < g.len() && g[a] == x;
                assert(roster@.contains(g[a]));
            }
        }
        vstd::set_lib::lemma_subset_equality(g.to_set(), roster@.to_set());
    }
    true
}

/// The rated values are at most as many as the scores.
proof fn lemma_rated_len(g: Seq<Score>)
    ensures
        rated_values(g).len() <= g.len(),
    decreases g.len(),
{
    if g.len() > 0 {
        lemma_rated_len(g.drop_last());
    }
}

/// Reduces the scores of one surfer on one wave to a single value.
///
/// There is no value unless the judges of `scores` are exactly those of the
/// roster `judge_ids`, each once, and at least one of them rated the wave.
/// Missed scores stand for the mean of the rated ones; above
/// `MIN_JUDGES_FOR_DROP` judges the lowest and highest value are dropped
/// before the mean is taken. The value lies between the least and the
/// greatest rated value.
pub fn compute_individual_score(surfer_id: i32, wave: i32, judge_ids: &Vec<i32>, scores: &[Score]) -> (r:
    Option<WaveScore>)
    requires
        judge_ids@.no_duplicates(),
    ensures
        r == individual_score(surfer_id, wave, judge_ids@.to_set(), scores@),
        r is Some ==> all_within(
            seq![r->Some_0.score as int],
            seq_min(rated_values(scores@)),
            seq_max(rated_values(scores@)),
        ),
{
    if !covers_roster(judge_ids, scores) {
        return None;
    }
    let mut sample: Vec<i64> = Vec::new();
    let mut i: usize = 0;
    while i < scores.len()
        invariant
            i <= scores.len(),
            ints(sample@) == rated_values(scores@.take(i as int)),
        decreases scores.len() - i,
    {
        assert(scores@.take(i as int + 1).drop_last() =~= scores@.take(i as int));
        if !scores[i].missed {
            sample.push(scores[i].score);
            assert(ints(sample@) =~= rated_values(scores@.take(i as int + 1)));
        }
        i = i + 1;
    }
    assert(scores@.take(i as int) =~= scores@);
    if sample.len() == 0 {
        return None;
    }
    let k = sample.len();
    let ghost rated = ints(sample@);
    let rated_sum = sum_values(&sample);
    let (lo, hi) = min_max_values(&sample);
    proof {
        lemma_min_max(rated);
        lemma_sum_within(rated, lo as int, hi as int);
        lemma_div_within(rated_sum as int, k as int, lo as int, hi as int);
    }
    let sub = div_floor(rated_sum, k as i128) as i64;
    proof {
        lemma_rated_len(scores@);
    }
    while sample.len() < scores.len()
        invariant
            k <= sample.len() <= scores.len(),
            ints(sample@) == rated + Seq::new((sample.len() - k) as nat, |j: int| seq_sum(rated) / k as int),
            sub == seq_sum(rated) / k as int,
            all_within(ints(sample@), lo as int, hi as int),
            lo <= sub <= hi,
        decreases scores.len() - sample.len(),
    {
        let ghost before = sample@;
        sample.push(sub);
        assert(ints(sample@) =~= ints(before).push(sub as int));
        assert(ints(sample@) =~= rated + Seq::new((sample.len() - k) as nat, |j: int| seq_sum(rated) / k as int));
        assert(all_within(ints(sample@), lo as int, hi as int)) by {
            assert forall|j: int| 0 <= j < sample.len() implies lo <= #[trigger] ints(sample@)[j] <= hi by {
                if j < before.len() {
                    assert(ints(sample@)[j] == ints(before)[j]);
                }
            }
        }
    }
    assert(ints(sample@) =~= completed_sample(scores@));
    let n = sample.len();
    let total = sum_values(&sample);
    let (mn, mx) = min_max_values(&sample);
    proof {
        lemma_min_max(ints(sample@));
        lemma_sum_within(ints(sample@), lo as int, hi as int);
        assert(lo <= mn <= hi && lo <= mx <= hi);
    }
    let score = if n > MIN_JUDGES_FOR_DROP {
        proof {
            lemma_sum_without_extreme(ints(sample@));
            let m = (n - 2) as int;
            assert(m * lo <= m * mn && m * mx <= m * hi) by (nonlinear_arith)
                requires m >= 0, lo <= mn, mx <= hi;
            assert((n - 1) * mn - mn == m * mn && (n - 1) * mx - mx == m * mx) by (nonlinear_arith)
                requires m == n - 2;
            assert(m * lo >= i128::MIN && m * hi <= i128::MAX) by (nonlinear_arith)
                requires 0 <= m <= usize::MAX, i64::MIN <= lo <= hi <= i64::MAX;
            assert((n - 1) * mn >= i128::MIN && (n - 1) * mx <= i128::MAX) by (nonlinear_arith)
                requires 0 <= n - 1 <= usize::MAX, i64::MIN <= mn <= mx <= i64::MAX;
            lemma_div_within(total - mn - mx, m, lo as int, hi as int);
        }
        div_floor(total - mn as i128 - mx as i128, (n - 2) as i128)
    } else {
        proof {
            lemma_div_within(total as int, n as int, lo as int, hi as int);
        }
        div_floor(total, n as i128)
    };
    Some(WaveScore { surfer_id, wave, score: score as i64, published: false })
}

/// The ids of a roster of judges, as a set.
pub open spec fn roster_of(judges: Seq<User>) -> Set<i32> {
    judges.map_values(|u: User| u.id).to_set()
}

/// The scores given by judges of the roster, in order.
pub open spec fn eligible(scores: Seq<Score>, roster: Set<i32>) -> Seq<Score>
    decreases scores.len(),
{
    if scores.len() == 0 {
        seq![]
    } else {
        let e = eligible(scores.drop_last(), roster);
        if roster.contains(scores.last().judge_id) {
            e.push(scores.last())
        } else {
            e
        }
    }
}

/// The (surfer, wave) pairs of the scores, each once, in order of first appearance.
pub open spec fn group_keys(scores: Seq<Score>) -> Seq<(i32, i32)>
    decreases scores.len(),
{
    if scores.len() == 0 {
        seq![]
    } else {
        let k = group_keys(scores.drop_last());
        let key = (scores.last().surfer_id, scores.last().wave);
        if k.contains(key) {
            k
        } else {
            k.push(key)
        }
    }
}

/// The scores of one surfer on one wave, in order.
pub open spec fn group_of(scores: Seq<Score>, surfer_id: i32, wave: i32) -> Seq<Score>
    decreases scores.len(),
{
    if scores.len() == 0 {
        seq![]
    } else {
        let g = group_of(scores.drop_last(), surfer_id, wave);
        if scores.last().surfer_id == surfer_id && scores.last().wave == wave {
            g.push(scores.last())
        } else {
            g
        }
    }
}

/// Each (surfer, wave) pair scored by roster judges, with its aggregated score if any.
pub open spec fn aggregated(roster: Set<i32>, scores: Seq<Score>) -> Seq<(i32, i32, Option<WaveScore>)> {
    let e = eligible(scores, roster);
    group_keys(e).map_values(
        |k: (i32, i32)| (k.0, k.1, individual_score(k.0, k.1, roster, group_of(e, k.0, k.1))),
    )
}

/// The preliminary results of a heat, marked against the persisted ones.
pub open spec fn preliminary<C: ResultComputation>(
    heat_id: i32,
    judges: Seq<User>,
    scores: Seq<Score>,
    prior: Seq<ResultView>,
    score_processor: C,
) -> Seq<ResultView> {
    mark_all(score_processor.results_for(heat_id, aggregated(roster_of(judges), scores)), prior)
}

/// The distinct judge ids of the roster.
fn roster_ids(judges: &[User]) -> (r: Vec<i32>)
    ensures
        r@.no_duplicates(),
        r@.to_set() == roster_of(judges@),
{
    let ghost ids = judges@.map_values(|u: User| u.id);
    let mut out: Vec<i32> = Vec::new();
    let mut i: usize = 0;
    while i < judges.len()
        invariant
            i <= judges.len(),
            ids == judges@.map_values(|u: User| u.id),
            out@.no_duplicates(),
            out@.to_set() == ids.take(i as int).to_set(),
        decreases judges.len() - i,
    {
        let id = judges[i].id;
        assert(ids.take(i as int + 1) =~= ids.take(i as int).push(id));
        assert(ids.take(i as int + 1).to_set() =~= ids.take(i as int).to_set().insert(id)) by {
            ids.take(i as int).lemma_push_to_set_commute(id);
        }
        let mut found = false;
        let mut j: usize = 0;
        while j < out.len()
            invariant
                j <= out.len(),
                found ==> out@.contains(id),
                !found ==> forall|k: int| 0 <= k < j ==> out@[k] != id,
            decreases out.len() - j,
        {
            if out[j] == id {
                found = true;
            }
            j = j + 1;
        }
        let ghost before = out@;
        if !found {
            out.push(id);
            proof {
                before.lemma_push_to_set_commute(id);
            }
        } else {
            assert(out@.to_set() =~= out@.to_set().insert(id)) by {
                assert(out@.to_set().contains(id));
            }
        }
        i = i + 1;
    }
    assert(ids.take(i as int) =~= ids);
    out
}

/// Whether `id` is one of `ids`.
fn contains_id(ids: &Vec<i32>, id: i32) -> (r: bool)
    ensures
        r == ids@.contains(id),
{
    let mut j: usize = 0;
    while j < ids.len()
        invariant
            j <= ids.len(),
            forall|k: int| 0 <= k < j ==> ids@[k] != id,
        decreases ids.len() - j,
    {
        if ids[j] == id {
            return true;
        }
        j = j + 1;
    }
    false
}

/// Aggregates the scores of each (surfer, wave) pair that roster judges scored.
fn aggregate_scores(roster: &Vec<i32>, scores: &[Score]) -> (r: Vec<(i32, i32, Option<WaveScore>)>)
    requires
        roster@.no_duplicates(),
    ensures
        r@ == aggregated(roster@.to_set(), scores@),
        r.len() <= scores.len(),
{
    let ghost rs = roster@.to_set();
    let mut elig: Vec<Score> = Vec::new();
    let mut i: usize = 0;
    while i < scores.len()
        invariant
            i <= scores.len(),
            rs == roster@.to_set(),
            elig@ == eligible(scores@.take(i as int), rs),
            elig.len() <= i,
        decreases scores.len() - i,
    {
        assert(scores@.take(i as int + 1).drop_last() =~= scores@.take(i as int));
        let s = scores[i];
        if contains_id(roster, s.judge_id) {
            elig.push(s);
        }
        i = i + 1;
    }
    assert(scores@.take(i as int) =~= scores@);
    let mut keys: Vec<(i32, i32)> = Vec::new();
    let mut i: usize = 0;
    while i < elig.len()
        invariant
            i <= elig.len(),
            keys@ == group_keys(elig@.take(i as int)),
            keys.len() <= i,
        decreases elig.len() - i,
    {
        assert(elig@.take(i as int + 1).drop_last() =~= elig@.take(i as int));
        let key = (elig[i].surfer_id, elig[i].wave);
        let mut found = false;
        let mut j: usize = 0;
        while j < keys.len()
            invariant
                j <= keys.len(),
                found ==> keys@.contains(key),
                !found ==> forall|k: int| 0 <= k < j ==> keys@[k] != key,
            decreases keys.len() - j,
        {
            if keys[j].0 == key.0 && keys[j].1 == key.1 {
                found = true;
            }
            j = j + 1;
        }
        if !found {
            keys.push(key);
        }
        i = i + 1;
    }
    assert(elig@.take(i as int) =~= elig@);
    let ghost e = elig@;
    let mut out: Vec<(i32, i32, Option<WaveScore>)> = Vec::new();
    let mut k: usize = 0;
    while k < keys.len()
        invariant
            k <= keys.len() <= scores.len(),
            e == elig@,
            e == eligible(scores@, rs),
            rs == roster@.to_set(),
            roster@.no_duplicates(),
            keys@ == group_keys(e),
            out@ == group_keys(e).take(k as int).map_values(
                |k: (i32, i32)| (k.0, k.1, individual_score(k.0, k.1, rs, group_of(e, k.0, k.1))),
            ),
        decreases keys.len() - k,
    {
        let (surfer_id, wave) = keys[k];
        let mut group: Vec<Score> = Vec::new();
        let mut i: usize = 0;
        while i < elig.len()
            invariant
                i <= elig.len(),
                e == elig@,
                group@ == group_of(e.take(i as int), surfer_id, wave),
            decreases elig.len() - i,
        {
            assert(e.take(i as int + 1).drop_last() =~= e.take(i as int));
            if elig[i].surfer_id == surfer_id && elig[i].wave == wave {
                group.push(elig[i]);
            }
            i = i + 1;
        }
        assert(e.take(i as int) =~= e);
        let score = compute_individual_score(surfer_id, wave, roster, group.as_slice());
        out.push((surfer_id, wave, score));
        assert(out@ =~= group_keys(e).take(k as int + 1).map_values(
            |k: (i32, i32)| (k.0, k.1, individual_score(k.0, k.1, rs, group_of(e, k.0, k.1))),
        ));
        k = k + 1;
    }
    assert(group_keys(e).take(k as int) =~= group_keys(e));
    out
}

/// Computes the preliminary results of heat `heat_id`: scores of judges
/// outside the roster are dropped, the rest are aggregated per surfer and
/// wave, ranked by `score_processor`, and marked as published where they
/// agree with the persisted `results`. The same inputs give the same output.
/// Places are `i32`, so a heat holds at most `i32::MAX` scores.
pub fn compute_results<C: ResultComputation>(
    heat_id: i32,
    judges: &[User],
    scores: &[Score],
    results: &[Result],
    score_processor: &C,
) -> (r: Vec<Result>)
    requires
        scores.len() <= i32::MAX,
    ensures
        results_view(r@) == preliminary(heat_id, judges@, scores@, results_view(results@), *score_processor),
{
    let roster = roster_ids(judges);
    let wave_scores = aggregate_scores(&roster, scores);
    let fresh = score_processor.process_wave_scores(heat_id, &wave_scores);
    mark_published(fresh, results)
}

} // verus!
