use surfjudge::authentication::{AuthenticatedUser, Permission};
use surfjudge::authorization::AuthorizedUser;
use surfjudge::models::heat::HeatType;
use surfjudge::models::preliminary_result::PreliminaryResult;
use surfjudge::models::score::Score;
use surfjudge::models::user::User;
use surfjudge::score_computation::default_heat::DefaultHeat;
use surfjudge::score_computation::{within_tolerance, div_floor, POINT};

fn user_with(permissions: Vec<Permission>) -> AuthenticatedUser {
    AuthenticatedUser { username: "kim".to_string(), permissions }
}

#[test]
fn permissions_are_looked_up() {
    let u = user_with(vec![Permission::Judge, Permission::Commentator]);
    assert!(!u.is_admin());
    assert!(u.is_judge());
    assert!(u.is_commentator());
    assert!(u.has_permission(&Permission::Judge));
    let admin = AuthorizedUser(user_with(vec![Permission::Admin]));
    assert!(admin.0.is_admin());
    assert!(!admin.0.is_judge());
    assert!(!user_with(Vec::new()).is_commentator());
}

#[test]
fn default_heat_counts_two_waves() {
    assert_eq!(DefaultHeat::default().n_best_waves, 2);
}

#[test]
fn tolerance_is_ten_units() {
    assert!(within_tolerance(100, 109));
    assert!(within_tolerance(109, 100));
    assert!(!within_tolerance(100, 110));
    assert!(!within_tolerance(i128::MAX, i128::MIN));
}

#[test]
fn division_rounds_towards_negative_infinity() {
    assert_eq!(div_floor(7, 2), 3);
    assert_eq!(div_floor(-7, 2), -4);
    assert_eq!(div_floor(-6, 2), -3);
    assert_eq!(div_floor(-1, 3), -1);
    assert_eq!(div_floor(0, 3), 0);
}

fn judges() -> Vec<User> {
    (1..=2)
        .map(|id| User {
            id,
            username: format!("j{}", id),
            first_name: String::new(),
            last_name: String::new(),
            additional_info: None,
            permissions: None,
        })
        .collect()
}

fn s(surfer_id: i32, judge_id: i32, wave: i32, points: i64) -> Score {
    Score { surfer_id, judge_id, heat_id: 3, wave, score: points * POINT, interference: false, missed: false }
}

fn heat_scores() -> Vec<Score> {
    vec![
        s(1, 1, 0, 9), s(1, 2, 0, 9),
        s(2, 1, 0, 4), s(2, 2, 0, 4),
        s(1, 1, 1, 1), s(1, 2, 1, 1),
        s(2, 1, 1, 5), s(2, 2, 1, 5),
        s(2, 1, 2, 5), s(2, 2, 2, 5),
    ]
}

#[test]
fn heat_type_selects_ranking() {
    let scores = heat_scores();
    let standard = PreliminaryResult::by_heat(3, Some(HeatType::Standard), &judges(), &scores, &[]);
    let ids: Vec<i32> = standard.iter().map(|r| r.surfer_id).collect();
    // equal best-two sums; surfer 2 has a third wave to break the tie
    assert_eq!(ids, vec![2, 1]);
    assert_eq!(standard[0].total_score, 10 * POINT as i128);
    assert_eq!(standard[1].total_score, 10 * POINT as i128);
    assert_eq!((standard[0].place, standard[1].place), (0, 1));
    let call = PreliminaryResult::by_heat(3, Some(HeatType::Call), &judges(), &scores, &[]);
    let ids: Vec<(i32, i128)> = call.iter().map(|r| (r.surfer_id, r.total_score)).collect();
    assert_eq!(ids, vec![(2, 2 * POINT as i128), (1, POINT as i128)]);
    assert!(call.iter().all(|r| r.heat_id == 3));
}

#[test]
fn missing_heat_has_no_results() {
    assert!(PreliminaryResult::by_heat(3, None, &judges(), &heat_scores(), &[]).is_empty());
}
