use surfjudge::models::result::{Result, WaveScore};
use surfjudge::models::score::Score;
use surfjudge::models::user::User;
use surfjudge::score_computation::default_heat::DefaultHeat;
use surfjudge::score_computation::rsl_heat::RSLHeat;
use surfjudge::score_computation::{compute_individual_score, compute_results, POINT};

const HEAT: i32 = 7;

fn pts(x: f64) -> i64 {
    (x * POINT as f64).round() as i64
}

fn judge(id: i32) -> User {
    User {
        id,
        username: format!("judge{}", id),
        first_name: String::new(),
        last_name: String::new(),
        additional_info: None,
        permissions: None,
    }
}

fn score(surfer_id: i32, judge_id: i32, wave: i32, value: f64) -> Score {
    Score { surfer_id, judge_id, heat_id: HEAT, wave, score: pts(value), interference: false, missed: false }
}

fn missed(surfer_id: i32, judge_id: i32, wave: i32) -> Score {
    Score { surfer_id, judge_id, heat_id: HEAT, wave, score: 0, interference: false, missed: true }
}

/// Every judge of `judges` gives `value` to `surfer` on `wave`.
fn unanimous(judges: &[i32], surfer: i32, wave: i32, value: f64) -> Vec<Score> {
    judges.iter().map(|&j| score(surfer, j, wave, value)).collect()
}

fn standard(judges: &[i32], scores: &[Score], prior: &[Result]) -> Vec<Result> {
    let users: Vec<User> = judges.iter().map(|&j| judge(j)).collect();
    compute_results(HEAT, &users, scores, prior, &DefaultHeat::default())
}

#[test]
fn trimmed_mean_drops_lowest_and_highest() {
    let roster = vec![1, 2, 3, 4, 5];
    let values = [4.0, 6.0, 7.0, 8.0, 9.0];
    let scores: Vec<Score> = values.iter().enumerate().map(|(i, &v)| score(10, i as i32 + 1, 0, v)).collect();
    let r = compute_individual_score(10, 0, &roster, &scores).unwrap();
    assert_eq!(r.score, pts(7.0));
    assert_ne!(r.score, pts(6.8));
    assert!(!r.published);
    assert_eq!((r.surfer_id, r.wave), (10, 0));
}

#[test]
fn missed_score_takes_mean_of_rated() {
    let roster = vec![1, 2, 3];
    let scores = vec![score(10, 1, 0, 5.0), missed(10, 2, 0), score(10, 3, 0, 7.0)];
    let r = compute_individual_score(10, 0, &roster, &scores).unwrap();
    assert_eq!(r.score, pts(6.0));
}

#[test]
fn four_judges_are_not_trimmed() {
    let roster = vec![1, 2, 3, 4];
    let values = [1.0, 2.0, 3.0, 10.0];
    let scores: Vec<Score> = values.iter().enumerate().map(|(i, &v)| score(10, i as i32 + 1, 0, v)).collect();
    let r = compute_individual_score(10, 0, &roster, &scores).unwrap();
    assert_eq!(r.score, pts(4.0));
}

#[test]
fn mean_rounds_down() {
    let roster = vec![1, 2, 3];
    let mut scores = vec![score(10, 1, 0, 0.0), score(10, 2, 0, 0.0), score(10, 3, 0, 0.0)];
    scores[0].score = 1;
    scores[1].score = 1;
    scores[2].score = 2;
    assert_eq!(compute_individual_score(10, 0, &roster, &scores).unwrap().score, 1);
    scores[0].score = -1;
    scores[1].score = -1;
    scores[2].score = 0;
    assert_eq!(compute_individual_score(10, 0, &roster, &scores).unwrap().score, -1);
}

#[test]
fn missing_judge_gives_no_value() {
    let roster = vec![1, 2, 3];
    let scores = vec![score(10, 1, 0, 5.0), score(10, 2, 0, 7.0)];
    assert_eq!(compute_individual_score(10, 0, &roster, &scores), None);
}

#[test]
fn duplicate_judge_gives_no_value() {
    let roster = vec![1, 2, 3];
    let scores = vec![score(10, 1, 0, 5.0), score(10, 2, 0, 7.0), score(10, 2, 0, 7.0)];
    assert_eq!(compute_individual_score(10, 0, &roster, &scores), None);
    let scores = vec![score(10, 1, 0, 5.0), score(10, 2, 0, 7.0), score(10, 3, 0, 7.0), score(10, 3, 0, 7.0)];
    assert_eq!(compute_individual_score(10, 0, &roster, &scores), None);
}

#[test]
fn foreign_judge_gives_no_value() {
    let roster = vec![1, 2, 3];
    let scores = vec![score(10, 1, 0, 5.0), score(10, 2, 0, 7.0), score(10, 9, 0, 7.0)];
    assert_eq!(compute_individual_score(10, 0, &roster, &scores), None);
}

#[test]
fn all_missed_gives_no_value() {
    let roster = vec![1, 2];
    let scores = vec![missed(10, 1, 0), missed(10, 2, 0)];
    assert_eq!(compute_individual_score(10, 0, &roster, &scores), None);
}

#[test]
fn empty_roster_and_no_scores_give_no_results() {
    assert!(standard(&[], &[score(10, 1, 0, 5.0)], &[]).is_empty());
    assert!(standard(&[1, 2], &[], &[]).is_empty());
}

#[test]
fn removed_judge_is_ignored() {
    let mut scores = unanimous(&[1, 2], 10, 0, 6.0);
    scores.push(score(10, 3, 0, 1.0));
    let r = standard(&[1, 2], &scores, &[]);
    assert_eq!(r.len(), 1);
    assert_eq!(r[0].total_score, pts(6.0) as i128);
}

#[test]
fn incomplete_wave_is_left_out() {
    let mut scores = unanimous(&[1, 2], 10, 0, 6.0);
    scores.push(score(10, 1, 1, 9.0));
    let r = standard(&[1, 2], &scores, &[]);
    assert_eq!(r.len(), 1);
    assert_eq!(r[0].wave_scores.len(), 1);
    assert_eq!(r[0].total_score, pts(6.0) as i128);
}

#[test]
fn standard_third_wave_breaks_tie() {
    let j = [1, 2];
    let mut scores = Vec::new();
    for (w, v) in [(0, 8.0), (1, 7.0), (2, 5.0)] {
        scores.extend(unanimous(&j, 10, w, v));
    }
    for (w, v) in [(0, 7.0), (1, 8.0), (2, 6.0)] {
        scores.extend(unanimous(&j, 20, w, v));
    }
    let r = standard(&j, &scores, &[]);
    assert_eq!(r.len(), 2);
    assert_eq!(r[0].surfer_id, 20);
    assert_eq!(r[1].surfer_id, 10);
    assert_eq!(r[0].total_score, pts(15.0) as i128);
    assert_eq!(r[1].total_score, pts(15.0) as i128);
    assert_eq!((r[0].place, r[1].place), (0, 1));
}

#[test]
fn standard_ties_share_place_and_next_takes_index() {
    let j = [1];
    let mut scores = Vec::new();
    scores.extend(unanimous(&j, 10, 0, 5.0));
    scores.extend(unanimous(&j, 20, 0, 9.0));
    scores.extend(unanimous(&j, 30, 0, 9.0));
    scores.extend(unanimous(&j, 40, 0, 4.0));
    let r = standard(&j, &scores, &[]);
    let order: Vec<(i32, i32)> = r.iter().map(|x| (x.surfer_id, x.place)).collect();
    assert_eq!(order, vec![(20, 0), (30, 0), (10, 2), (40, 3)]);
}

#[test]
fn standard_sums_best_two_and_sorts_waves_by_index() {
    let j = [1];
    let mut scores = Vec::new();
    scores.extend(unanimous(&j, 10, 2, 3.0));
    scores.extend(unanimous(&j, 10, 0, 6.5));
    scores.extend(unanimous(&j, 10, 1, 8.0));
    let r = standard(&j, &scores, &[]);
    assert_eq!(r[0].total_score, pts(14.5) as i128);
    let waves: Vec<i32> = r[0].wave_scores.iter().map(|w| w.wave).collect();
    assert_eq!(waves, vec![0, 1, 2]);
}

#[test]
fn standard_with_one_wave_sums_what_there_is() {
    let j = [1];
    let scores = unanimous(&j, 10, 0, 6.0);
    let users = vec![judge(1)];
    let r = compute_results(HEAT, &users, &scores, &[], &DefaultHeat { n_best_waves: 3 });
    assert_eq!(r[0].total_score, pts(6.0) as i128);
}

#[test]
fn standard_tolerance_counts_as_tie() {
    let j = [1];
    let mut scores = Vec::new();
    scores.extend(unanimous(&j, 10, 0, 5.0));
    scores.extend(unanimous(&j, 20, 0, 5.0));
    scores[1].score += 9;
    scores.extend(unanimous(&j, 30, 0, 5.0));
    scores[2].score += 19;
    let r = standard(&j, &scores, &[]);
    let order: Vec<(i32, i32)> = r.iter().map(|x| (x.surfer_id, x.place)).collect();
    // 10 and 20 are equal within the tolerance and keep ascending surfer order
    assert_eq!(order, vec![(30, 0), (10, 1), (20, 1)]);
}

#[test]
fn call_counts_wave_wins() {
    let j = [1, 2];
    let mut scores = Vec::new();
    scores.extend(unanimous(&j, 10, 0, 5.0));
    scores.extend(unanimous(&j, 20, 0, 8.0));
    scores.extend(unanimous(&j, 10, 1, 4.0));
    scores.extend(unanimous(&j, 20, 1, 9.0));
    let users: Vec<User> = j.iter().map(|&x| judge(x)).collect();
    let r = compute_results(HEAT, &users, &scores, &[], &RSLHeat {});
    assert_eq!(r.len(), 2);
    assert_eq!(r[0].surfer_id, 20);
    assert_eq!(r[0].total_score, 2 * POINT as i128);
    assert_eq!(r[0].place, 0);
    assert_eq!(r[1].surfer_id, 10);
    assert_eq!(r[1].total_score, 0);
    assert_eq!(r[1].place, 1);
}

#[test]
fn call_shared_best_counts_for_both() {
    let j = [1];
    let mut scores = Vec::new();
    scores.extend(unanimous(&j, 10, 0, 7.0));
    scores.extend(unanimous(&j, 20, 0, 7.0));
    scores.extend(unanimous(&j, 30, 0, 2.0));
    let users = vec![judge(1)];
    let r = compute_results(HEAT, &users, &scores, &[], &RSLHeat {});
    let order: Vec<(i32, i128, i32)> = r.iter().map(|x| (x.surfer_id, x.total_score, x.place)).collect();
    assert_eq!(order, vec![(10, POINT as i128, 0), (20, POINT as i128, 0), (30, 0, 2)]);
}

fn two_surfers() -> Vec<Score> {
    let j = [1, 2, 3];
    let mut scores = Vec::new();
    scores.extend(unanimous(&j, 10, 0, 5.0));
    scores.extend(unanimous(&j, 10, 1, 6.0));
    scores.extend(unanimous(&j, 20, 0, 7.0));
    scores
}

#[test]
fn unchanged_results_are_all_published() {
    let scores = two_surfers();
    let first = standard(&[1, 2, 3], &scores, &[]);
    assert!(first.iter().all(|r| !r.published && r.wave_scores.iter().all(|w| !w.published)));
    let again = standard(&[1, 2, 3], &scores, &first);
    assert!(again.iter().all(|r| r.published && r.wave_scores.iter().all(|w| w.published)));
}

#[test]
fn changed_persisted_wave_flips_only_its_flags() {
    let scores = two_surfers();
    let mut prior = standard(&[1, 2, 3], &scores, &[]);
    let i = prior.iter().position(|r| r.surfer_id == 10).unwrap();
    prior[i].wave_scores[1].score += pts(0.5);
    prior[i].total_score += pts(0.5) as i128;
    let again = standard(&[1, 2, 3], &scores, &prior);
    for r in &again {
        if r.surfer_id == 10 {
            assert!(!r.published);
            assert!(r.wave_scores[0].published);
            assert!(!r.wave_scores[1].published);
        } else {
            assert!(r.published);
            assert!(r.wave_scores.iter().all(|w| w.published));
        }
    }
}

#[test]
fn persisted_within_tolerance_counts_as_published() {
    let scores = two_surfers();
    let mut prior = standard(&[1, 2, 3], &scores, &[]);
    prior[0].total_score += 9;
    prior[1].total_score += 10;
    let again = standard(&[1, 2, 3], &scores, &prior);
    assert!(again[0].published);
    assert!(!again[1].published);
}

#[test]
fn same_inputs_same_output() {
    let scores = two_surfers();
    let a = standard(&[1, 2, 3], &scores, &[]);
    let b = standard(&[1, 2, 3], &scores, &[]);
    assert_eq!(a, b);
    let wave = WaveScore { surfer_id: 20, wave: 0, score: pts(7.0), published: false };
    assert_eq!(a[1].wave_scores, vec![wave]);
}

fn near_ties(surfers: &[(i32, i64)]) -> Vec<Score> {
    surfers
        .iter()
        .map(|&(surfer, extra)| {
            let mut s = score(surfer, 1, 0, 10.0);
            s.score += extra;
            s
        })
        .collect()
}

#[test]
fn places_do_not_depend_on_entry_order() {
    let forward = standard(&[1], &near_ties(&[(3, 0), (2, 8), (1, 16)]), &[]);
    let backward = standard(&[1], &near_ties(&[(1, 16), (2, 8), (3, 0)]), &[]);
    assert_eq!(forward, backward);
    let order: Vec<(i32, i32)> = forward.iter().map(|x| (x.surfer_id, x.place)).collect();
    assert_eq!(order, vec![(1, 0), (2, 0), (3, 0)]);
}

#[test]
fn call_results_do_not_depend_on_entry_order() {
    let j = [1];
    let mut scores = Vec::new();
    scores.extend(unanimous(&j, 20, 0, 8.0));
    scores.extend(unanimous(&j, 10, 0, 8.0));
    scores.extend(unanimous(&j, 10, 1, 3.0));
    scores.extend(unanimous(&j, 30, 1, 6.0));
    let users = vec![judge(1)];
    let a = compute_results(HEAT, &users, &scores, &[], &RSLHeat {});
    scores.reverse();
    let b = compute_results(HEAT, &users, &scores, &[], &RSLHeat {});
    assert_eq!(a, b);
    let order: Vec<(i32, i32)> = a.iter().map(|x| (x.surfer_id, x.place)).collect();
    assert_eq!(order, vec![(10, 0), (20, 0), (30, 0)]);
}

#[test]
fn republishing_after_a_first_publish_marks_everything() {
    let scores = two_surfers();
    let first = standard(&[1, 2, 3], &scores, &[]);
    let second = standard(&[1, 2, 3], &scores, &first);
    let third = standard(&[1, 2, 3], &scores, &second);
    assert!(third.iter().all(|r| r.published && r.wave_scores.iter().all(|w| w.published)));
}
