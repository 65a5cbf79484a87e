use win_odds::rational::{rat_diff, Rat, SInt, SRat};
use win_odds::season::Season;

fn rat(n: u64, d: u64) -> Rat {
    Rat::from_u64s(n, d)
}

#[test]
fn addition_is_exact() {
    let r = rat(1, 2).plus(&rat(1, 3));
    assert!(r.eq_rat(&rat(5, 6)));
    assert!(!r.eq_rat(&rat(2, 3)));
}

#[test]
fn multiplication_is_exact() {
    let r = rat(2, 3).times(&rat(3, 4));
    assert!(r.eq_rat(&rat(1, 2)));
}

#[test]
fn comparison_follows_value() {
    assert!(rat(1, 3).le(&rat(1, 2)));
    assert!(!rat(1, 2).le(&rat(1, 3)));
    assert!(rat(2, 4).le(&rat(1, 2)));
}

#[test]
fn equality_ignores_representation() {
    assert!(rat(2, 4).eq_rat(&rat(1, 2)));
    assert!(!rat(2, 4).eq_rat(&rat(2, 3)));
}

#[test]
fn difference_carries_a_sign() {
    let d = rat_diff(&rat(1, 2), &rat(3, 4));
    assert!(d.neg);
    assert!(d.mag.eq_rat(&rat(1, 4)));
    let p = rat_diff(&rat(3, 4), &rat(1, 2));
    assert!(p.mag.eq_rat(&rat(1, 4)));
    assert!(p.nonneg());
}

#[test]
fn signed_sums_cancel() {
    let a = SRat { neg: false, mag: rat(3, 4) };
    let b = SRat { neg: true, mag: rat(1, 4) };
    let s = a.splus(&b);
    assert!(s.nonneg());
    assert!(s.mag.eq_rat(&rat(1, 2)));
    let t = b.splus(&b);
    assert!(!t.nonneg());
    assert!(t.mag.eq_rat(&rat(1, 2)));
}

#[test]
fn signed_products_follow_sign_rule() {
    let a = SRat { neg: true, mag: rat(1, 2) };
    let b = SRat { neg: true, mag: rat(1, 3) };
    let p = a.stimes(&b);
    assert!(p.nonneg());
    assert!(p.mag.eq_rat(&rat(1, 6)));
}

#[test]
fn signed_integers_add_and_subtract() {
    let five = rat(5, 1);
    let seven = rat(7, 1);
    let d = SInt::diff(&five.num, &seven.num);
    assert!(d.neg);
    let back = d.plus(&SInt::diff(&seven.num, &five.num));
    let as_rat = Rat { num: back.mag, den: rat(1, 1).den };
    assert!(as_rat.eq_rat(&rat(0, 1)));
}

#[test]
fn clamping_helpers_stay_in_range() {
    let over = rat(7, 4).min_with_one();
    assert!(over.eq_rat(&rat(1, 1)));
    let under = rat(3, 4).min_with_one();
    assert!(under.eq_rat(&rat(3, 4)));
    let neg = SRat { neg: true, mag: rat(1, 4) };
    assert!(neg.max_with_zero().eq_rat(&rat(0, 1)));
    let pos = SRat { neg: false, mag: rat(1, 4) };
    assert!(pos.max_with_zero().eq_rat(&rat(1, 4)));
}

#[test]
fn season_files_and_labels() {
    assert_eq!(Season::All.get_file(), "season_all.csv");
    assert_eq!(Season::Season1.get_file(), "season_1.csv");
    assert_eq!(Season::Season2.get_file(), "season_2.csv");
    assert_eq!(Season::Season3.get_file(), "season_3.csv");
    assert_eq!(Season::All.label(), "All");
    assert_eq!(Season::Season3.label(), "3");
}
