use win_odds::player::{Frac, Player};

fn player(name: &str, scores: Vec<Option<i32>>) -> Player {
    Player::new(String::from(name), scores)
}

fn frac(f: &Frac) -> (usize, usize) {
    (f.num, f.den)
}

#[test]
fn playcount_counts_played_entries() {
    let p = player("a", vec![Some(10), None, Some(20), None]);
    assert_eq!(p.playcount, 2);
}

#[test]
fn ecdf_counts_scores_at_most_value() {
    let p = player("a", vec![Some(10), None, Some(20)]);
    assert_eq!(frac(&p.ecdf(5)), (0, 2));
    assert_eq!(frac(&p.ecdf(10)), (1, 2));
    assert_eq!(frac(&p.ecdf(15)), (1, 2));
    assert_eq!(frac(&p.ecdf(20)), (2, 2));
    assert_eq!(frac(&p.ecdf(100)), (2, 2));
}

#[test]
fn epmf_counts_scores_equal_to_value() {
    let p = player("a", vec![Some(10), Some(10), Some(20)]);
    assert_eq!(frac(&p.epmf(10)), (2, 3));
    assert_eq!(frac(&p.epmf(20)), (1, 3));
    assert_eq!(frac(&p.epmf(15)), (0, 3));
}

#[test]
fn ecdf_at_max_score_is_one() {
    let p = player("a", vec![Some(7), Some(3), None, Some(7)]);
    let m = p.max_score();
    assert_eq!(m, 7);
    let f = p.ecdf(m);
    assert_eq!(f.num, f.den);
}

#[test]
fn epmf_sums_to_one_over_distinct_values() {
    let p = player("a", vec![Some(10), Some(10), Some(20), None, Some(5)]);
    let values = p.distinct_played();
    assert_eq!(values, vec![10, 20, 5]);
    let mut total: usize = 0;
    for c in values {
        total += p.epmf(c).num;
    }
    assert_eq!(total, p.playcount);
}

#[test]
fn ecdf_is_monotone_and_dominates_epmf() {
    let p = player("a", vec![Some(4), Some(9), Some(9), Some(1)]);
    let mut prev: usize = 0;
    for v in [-3, 0, 1, 2, 4, 8, 9, 10, 100] {
        let f = p.ecdf(v);
        assert!(prev <= f.num);
        prev = f.num;
        let e = p.epmf(v);
        assert!(e.num <= f.num);
        assert_eq!(e.den, f.den);
    }
}

#[test]
fn records_are_equal_exactly_when_names_match() {
    let a = player("alice", vec![Some(10)]);
    let a2 = player("alice", vec![Some(99), None]);
    let b = player("bob", vec![Some(10)]);
    assert!(a == a2);
    assert!(a != b);
}

#[test]
fn distinct_played_keeps_first_occurrences() {
    let p = player("a", vec![Some(10), Some(10), Some(20), Some(10), None]);
    assert_eq!(p.distinct_played(), vec![10, 20]);
}
