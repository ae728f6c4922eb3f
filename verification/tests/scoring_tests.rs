use tsp_genetic::scoring::{Scoring, PASS_THROUGH_SCALE};

fn scoring() -> Scoring {
    Scoring {
        anchor: "San Francisco".to_string(),
        distance_reward: 20_000,
        anchor_reward: 5,
        anchor_penalty: -2,
        unique_reward: 7,
        near_unique_reward: 1,
        unique_penalty: -15,
        min_distance: 100,
        mutation_threshold: -3,
        swaps: 3,
        tournament_size: 15,
        pass_through: 300_000,
    }
}

#[test]
fn scoring_is_valid_with_sound_values() {
    assert!(scoring().is_valid());
}

#[test]
fn scoring_is_invalid_without_a_degenerate_band() {
    let mut s = scoring();
    s.min_distance = 0;
    assert!(!s.is_valid());
}

#[test]
fn scoring_is_invalid_with_an_empty_tournament() {
    let mut s = scoring();
    s.tournament_size = 0;
    assert!(!s.is_valid());
}

#[test]
fn scoring_is_invalid_with_a_chance_above_one() {
    let mut s = scoring();
    s.pass_through = PASS_THROUGH_SCALE;
    assert!(s.is_valid());
    s.pass_through = PASS_THROUGH_SCALE + 1;
    assert!(!s.is_valid());
}

#[test]
fn end_prize_rewards_the_anchor() {
    let s = scoring();
    let anchor = "San Francisco".to_string();
    let other = "Oakland".to_string();
    assert_eq!(s.end_prize(Some(&anchor)), 5);
    assert_eq!(s.end_prize(Some(&other)), -2);
    assert_eq!(s.end_prize(None), -2);
}

#[test]
fn unique_prize_has_three_tiers() {
    let s = scoring();
    assert_eq!(s.unique_prize(4, 5), 7);
    assert_eq!(s.unique_prize(10, 15), 1);
    assert_eq!(s.unique_prize(5, 5), -15);
    assert_eq!(s.unique_prize(3, 5), -15);
    assert_eq!(s.unique_prize(0, 0), -15);
    assert_eq!(s.unique_prize(0, 1), 7);
    assert_eq!(s.unique_prize(1, 7), -15);
    assert_eq!(s.unique_prize(6, 5), -15);
    assert_eq!(s.unique_prize(usize::MAX, 0), -15);
    assert_eq!(s.unique_prize(usize::MAX - 1, usize::MAX), 7);
}

#[test]
fn calculate_fitness_adds_distance_term_and_prizes() {
    let s = scoring();
    // 20000 / 300 = 66, then 5 + 5 + 7
    assert_eq!(s.calculate_fitness(300, 5, 5, 7), 83);
    // 20000 / 7 = 2857, then -2 - 2 - 15
    assert_eq!(s.calculate_fitness(7, -2, -2, -15), 2838);
    assert_eq!(s.calculate_fitness(20_001, 0, 0, 0), 0);
    assert_eq!(s.calculate_fitness(20_000, 0, 0, 0), 1);
}

#[test]
fn calculate_fitness_holds_extreme_prizes() {
    let mut s = scoring();
    s.distance_reward = u64::MAX;
    assert_eq!(
        s.calculate_fitness(1, i64::MAX, i64::MAX, i64::MAX),
        u64::MAX as i128 + 3 * i64::MAX as i128
    );
    assert_eq!(s.calculate_fitness(u128::MAX, i64::MIN, i64::MIN, i64::MIN), 3 * i64::MIN as i128);
}

#[test]
fn provisional_fitness_is_the_distance_term() {
    let s = scoring();
    assert_eq!(s.provisional(300), 66);
    assert_eq!(s.provisional(1), 20_000);
    assert_eq!(s.provisional(20_001), 0);
    assert_eq!(s.provisional(0), i128::MAX);
}

#[test]
fn a_parent_is_carried_over_on_draws_below_the_chance() {
    let mut s = scoring();
    assert!(s.carries_over(0));
    assert!(s.carries_over(299_999));
    assert!(!s.carries_over(300_000));
    assert!(!s.carries_over(999_999));
    s.pass_through = 0;
    assert!(!s.carries_over(0));
    s.pass_through = PASS_THROUGH_SCALE;
    assert!(s.carries_over(999_999));
}

#[test]
fn reported_distance_term_is_the_quotient() {
    let s = scoring();
    assert_eq!(s.reward_per_distance(300), 66);
    assert_eq!(s.reward_per_distance(20_000), 1);
    assert_eq!(s.reward_per_distance(20_001), 0);
    assert_eq!(s.reward_per_distance(1), 20_000);
    assert_eq!(s.reward_per_distance(0), u128::MAX);
}
