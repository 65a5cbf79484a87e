use win_odds::estimator::{estimate_from_samples, estimate_win_probability, rng_from_seed};
use win_odds::player::Player;
use win_odds::rational::Rat;

fn player(name: &str, scores: Vec<Option<i32>>) -> Player {
    Player::new(String::from(name), scores)
}

fn abc_pool() -> Vec<Player> {
    vec![
        player("A", vec![Some(10), Some(20)]),
        player("B", vec![Some(5), Some(15)]),
        player("C", vec![Some(30), Some(1)]),
    ]
}

fn assert_rat_eq(r: &Rat, num: u64, den: u64) {
    let expected = Rat::from_u64s(num, den);
    assert!(r.eq_rat(&expected));
}

#[test]
fn exact_means_match_closed_form_for_three_competitors() {
    // With a contest of two there is one opponent per draw; enumerating both
    // possible draws makes the mean exact.
    let pool = abc_pool();
    let a_draws = vec![vec![1usize], vec![2usize]];
    let b_draws = vec![vec![0usize], vec![2usize]];
    let c_draws = vec![vec![0usize], vec![1usize]];
    // A: (3/4 + 1/2) / 2 = 5/8
    assert_rat_eq(&estimate_from_samples(&pool, 0, &a_draws), 5, 8);
    // B: (1/4 + 1/2) / 2 = 3/8
    assert_rat_eq(&estimate_from_samples(&pool, 1, &b_draws), 3, 8);
    // C: (1/2 + 1/2) / 2 = 1/2
    assert_rat_eq(&estimate_from_samples(&pool, 2, &c_draws), 1, 2);
}

#[test]
fn single_draw_win_probability_is_exact() {
    let pool = abc_pool();
    // A against B alone: 1/2 * 1/2 + 1/2 * 1 = 3/4
    assert_rat_eq(&estimate_from_samples(&pool, 0, &vec![vec![1usize]]), 3, 4);
}

#[test]
fn full_contest_sample_is_deterministic() {
    // With a contest as large as the pool the sampler must pick every other
    // competitor, so the estimate is exact whatever the seed.
    let pool = abc_pool();
    let mut rng = rng_from_seed(7);
    let r = estimate_win_probability(&pool, 0, 3, 4, &mut rng);
    // 1/2 * (1/2 * 1/2) + 1/2 * (1 * 1/2) = 3/8
    assert_rat_eq(&r, 3, 8);
}

#[test]
fn estimate_lies_in_unit_interval() {
    let pool = abc_pool();
    let one = Rat::from_u64s(1, 1);
    let zero = Rat::from_u64s(0, 1);
    for idx in 0..3 {
        let mut rng = rng_from_seed(42);
        let r = estimate_win_probability(&pool, idx, 2, 50, &mut rng);
        assert!(r.le(&one));
        assert!(zero.le(&r));
    }
}

#[test]
fn monte_carlo_mean_stays_near_the_exact_value() {
    // Each draw for A is worth 3/4 (against B) or 1/2 (against C), both
    // equally likely, so the exact mean is 5/8; over many draws the Monte
    // Carlo mean stays within a sixteenth of it.
    let pool = abc_pool();
    let mut rng = rng_from_seed(2024);
    let r = estimate_win_probability(&pool, 0, 2, 2000, &mut rng);
    assert!(Rat::from_u64s(9, 16).le(&r));
    assert!(r.le(&Rat::from_u64s(11, 16)));
}

#[test]
fn too_small_eligible_pool_gives_exactly_zero() {
    // No other competitor has ever scored at or below this competitor's
    // maximum, so no full matchup exists and the probability is zero.
    let pool = vec![
        player("low", vec![Some(1)]),
        player("high1", vec![Some(10), Some(12)]),
        player("high2", vec![Some(11)]),
    ];
    let mut rng = rng_from_seed(3);
    let r = estimate_win_probability(&pool, 0, 3, 10, &mut rng);
    assert_rat_eq(&r, 0, 1);
}

#[test]
fn same_seed_gives_identical_estimates() {
    let pool = abc_pool();
    let mut rng1 = rng_from_seed(12345);
    let mut rng2 = rng_from_seed(12345);
    let r1 = estimate_win_probability(&pool, 1, 2, 200, &mut rng1);
    let r2 = estimate_win_probability(&pool, 1, 2, 200, &mut rng2);
    assert!(r1.eq_rat(&r2));
    assert!(r1.identical(&r2));
}
