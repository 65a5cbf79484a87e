use win_odds::estimator::rng_from_seed;
use win_odds::player::Player;
use win_odds::rational::Rat;
use win_odds::variance::estimate_with_interval;

fn player(name: &str, scores: Vec<Option<i32>>) -> Player {
    Player::new(String::from(name), scores)
}

fn assert_rat_eq(r: &Rat, num: u64, den: u64) {
    let expected = Rat::from_u64s(num, den);
    assert!(r.eq_rat(&expected));
}

#[test]
fn interval_has_exact_closed_form_for_one_draw() {
    // One opponent, one draw: the winner always beats the single opponent,
    // so the estimate is 1; the per-draw variance is 1/4, the standard
    // error 1/2, and the lower bound 1 - (49/25) * (1/2) = 1/50.
    let pool = vec![player("p", vec![Some(10), Some(20)]), player("q", vec![Some(5)])];
    let mut rng = rng_from_seed(1);
    let r = estimate_with_interval(&pool, 0, 2, 1, &mut rng);
    assert_rat_eq(&r.probability, 1, 1);
    assert_rat_eq(&r.ci_lower, 1, 50);
    assert_rat_eq(&r.ci_upper, 1, 1);
}

#[test]
fn degenerate_distributions_give_a_point_interval() {
    // Single-event histories leave no sampling variance at all.
    let pool = vec![player("p", vec![Some(10)]), player("q", vec![Some(5)])];
    let mut rng = rng_from_seed(2);
    let r = estimate_with_interval(&pool, 0, 2, 2, &mut rng);
    assert_rat_eq(&r.probability, 1, 1);
    assert_rat_eq(&r.ci_lower, 1, 1);
    assert_rat_eq(&r.ci_upper, 1, 1);
}

#[test]
fn interval_brackets_estimate_and_stays_in_unit_range() {
    let pool = vec![
        player("A", vec![Some(10), Some(20)]),
        player("B", vec![Some(5), Some(15)]),
        player("C", vec![Some(30), Some(1)]),
    ];
    let zero = Rat::from_u64s(0, 1);
    let one = Rat::from_u64s(1, 1);
    for idx in 0..3 {
        let mut rng = rng_from_seed(99 + idx as u64);
        let r = estimate_with_interval(&pool, idx, 2, 6, &mut rng);
        assert!(zero.le(&r.ci_lower));
        assert!(r.ci_lower.le(&r.probability));
        assert!(r.probability.le(&r.ci_upper));
        assert!(r.ci_upper.le(&one));
    }
}

#[test]
fn same_seed_gives_identical_intervals() {
    let pool = vec![
        player("A", vec![Some(10), Some(20)]),
        player("B", vec![Some(5), Some(15)]),
        player("C", vec![Some(30), Some(1)]),
    ];
    let mut rng1 = rng_from_seed(77);
    let mut rng2 = rng_from_seed(77);
    let r1 = estimate_with_interval(&pool, 0, 2, 8, &mut rng1);
    let r2 = estimate_with_interval(&pool, 0, 2, 8, &mut rng2);
    assert!(r1.probability.eq_rat(&r2.probability));
    assert!(r1.ci_lower.eq_rat(&r2.ci_lower));
    assert!(r1.ci_upper.eq_rat(&r2.ci_upper));
}
