//! Exact variance and covariance of the Monte Carlo estimate, and the
//! normal-approximation confidence interval built from them.
//!
//! A single draw's win probability is a sum over the fixed competitor's
//! played values; its exact variance uses, for each value, an adjusted
//! second moment `(f + (n - 1) * f^2) / n` of each empirical fraction `f`
//! with play count `n` — a finite-population correction for sampling without
//! replacement from one competitor's own history. The covariance of two
//! draws pairs their opponents by position and sums a joint moment over
//! pairs of values, using the tie-adjusted moment when the values coincide
//! and the play counts match. The combined sampling variance over `m` draws
//! is `(variance_sum + 2 * covariance_sum) / m^2`; the confidence interval
//! is the estimate plus and minus `1.96` standard errors, clamped to the
//! unit interval. Every step is an exact rational; the square root is the
//! integer square root, rounded down.

use vstd::prelude::*;
use num_bigint::BigUint;
use rand::rngs::StdRng;
use crate::bignat::{big_add, big_from_u64, big_mul, big_sqrt, big_val};
use crate::estimator::{
    draw_den, draw_win, draw_win_num, opps_of, pool_wf, prod_cle, sample_in_range, wins_sum_den,
    wins_sum_num,
};
use crate::player::{count_eq, count_le, distinct_of, Player};
use crate::rational::{
    lemma_rat_add_equiv, lemma_rat_diff_equiv, lemma_rat_mul_equiv, Rat, SInt, SRat,
};

verus! {

/// Numerator of the adjusted second moment of an empirical fraction with
/// count `cnt` over play count `n`: the value `(f + (n-1) f^2) / n` of
/// `f = cnt / n` equals this over `n^3`.
pub open spec fn mom2_num(cnt: nat, n: nat) -> int {
    cnt * n + (n - 1) * (cnt * cnt)
}

pub open spec fn cube(n: nat) -> nat {
    n * (n * n)
}

/// Product over the opponents of the adjusted second moments' numerators at
/// value `c`.
pub open spec fn prod_mom2(opps: Seq<Seq<i32>>, c: i32) -> int
    decreases opps.len(),
{
    if opps.len() == 0 {
        1
    } else {
        prod_mom2(opps.drop_last(), c) * mom2_num(
            count_le(opps.last(), c),
            opps.last().len(),
        )
    }
}

/// Cube of the product of the play counts equals the product of the cubes.
pub proof fn lemma_prod_cube(opps: Seq<Seq<i32>>)
    ensures
        cube(crate::estimator::prod_n(opps)) == prod_n3(opps),
    decreases opps.len(),
{
    if opps.len() == 0 {
        assert(crate::estimator::prod_n(opps) == 1);
        assert(prod_n3(opps) == 1);
        assert(cube(1nat) == 1);
    } else {
        lemma_prod_cube(opps.drop_last());
        let b = crate::estimator::prod_n(opps.drop_last());
        let y = opps.last().len();
        assert((b * y) * ((b * y) * (b * y)) == (b * (b * b)) * (y * (y * y)))
            by (nonlinear_arith);
        assert(cube(b * y) == cube(b) * cube(y));
        assert(crate::estimator::prod_n(opps) == b * y);
        assert(prod_n3(opps) == prod_n3(opps.drop_last()) * cube(y));
        assert(cube(b) == prod_n3(opps.drop_last()));
    }
}

/// Product over the opponents of the cubes of their play counts.
pub open spec fn prod_n3(opps: Seq<Seq<i32>>) -> nat
    decreases opps.len(),
{
    if opps.len() == 0 {
        1
    } else {
        prod_n3(opps.drop_last()) * cube(opps.last().len())
    }
}

/// Numerator over `cube(draw_den(p, opps))` of one value's contribution to
/// a draw's variance: the adjusted second moment of the draw's win term
/// minus the square of its first moment.
pub open spec fn var_term_num(p: Seq<i32>, opps: Seq<Seq<i32>>, c: i32) -> int {
    mom2_num(count_eq(p, c), p.len()) * prod_mom2(opps, c) - (count_eq(p, c) * prod_cle(opps, c))
        * (count_eq(p, c) * prod_cle(opps, c)) * (draw_den(p, opps) as int)
}

/// Sum of `var_term_num` over the given values.
pub open spec fn var_num_over(values: Seq<i32>, p: Seq<i32>, opps: Seq<Seq<i32>>) -> int
    decreases values.len(),
{
    if values.len() == 0 {
        0
    } else {
        var_num_over(values.drop_last(), p, opps) + var_term_num(p, opps, values.last())
    }
}

/// Numerator of a draw's exact variance over `cube(draw_den(p, opps))`.
pub open spec fn var_draw_num(p: Seq<i32>, opps: Seq<Seq<i32>>) -> int {
    var_num_over(distinct_of(p), p, opps)
}

/// Denominator of the exact sum of the draws' variances.
pub open spec fn var_sum_den(p: Seq<i32>, pool: Seq<Player>, samples: Seq<Seq<usize>>) -> nat
    decreases samples.len(),
{
    if samples.len() == 0 {
        1
    } else {
        var_sum_den(p, pool, samples.drop_last()) * cube(
            draw_den(p, opps_of(pool, samples.last())),
        )
    }
}

/// Numerator of the exact sum of the draws' variances over `var_sum_den`.
pub open spec fn var_sum_num(p: Seq<i32>, pool: Seq<Player>, samples: Seq<Seq<usize>>) -> int
    decreases samples.len(),
{
    if samples.len() == 0 {
        0
    } else {
        let rest_n = var_sum_num(p, pool, samples.drop_last());
        let rest_d = var_sum_den(p, pool, samples.drop_last());
        let opps = opps_of(pool, samples.last());
        rest_n * cube(draw_den(p, opps)) + var_draw_num(p, opps) * rest_d
    }
}

/// Numerator of one opponent pair's factor in the joint moment at the value
/// pair `(c1, c2)`: the tie-adjusted moment when the values coincide and
/// the play counts match, else the product of the two plain fractions.
pub open spec fn cov_factor_num(q: Seq<i32>, r: Seq<i32>, c1: i32, c2: i32) -> int {
    if c1 == c2 && q.len() == r.len() {
        mom2_num(count_le(q, c1), q.len())
    } else {
        (count_le(q, c1) * count_le(r, c2)) as int
    }
}

pub open spec fn cov_factor_den(q: Seq<i32>, r: Seq<i32>, c1: i32, c2: i32) -> nat {
    if c1 == c2 && q.len() == r.len() {
        cube(q.len())
    } else {
        q.len() * r.len()
    }
}

/// Product of the opponent-pair factor numerators, pairing by position.
pub open spec fn cov_prod_num(o1: Seq<Seq<i32>>, o2: Seq<Seq<i32>>, c1: i32, c2: i32) -> int
    decreases o1.len(),
{
    if o1.len() == 0 {
        1
    } else {
        cov_prod_num(o1.drop_last(), o2.drop_last(), c1, c2) * cov_factor_num(
            o1.last(),
            o2.last(),
            c1,
            c2,
        )
    }
}

pub open spec fn cov_prod_den(o1: Seq<Seq<i32>>, o2: Seq<Seq<i32>>, c1: i32, c2: i32) -> nat
    decreases o1.len(),
{
    if o1.len() == 0 {
        1
    } else {
        cov_prod_den(o1.drop_last(), o2.drop_last(), c1, c2) * cov_factor_den(
            o1.last(),
            o2.last(),
            c1,
            c2,
        )
    }
}

/// Numerator of the fixed competitor's own factor at the value pair.
pub open spec fn cov_p_num(p: Seq<i32>, c1: i32, c2: i32) -> int {
    if c1 == c2 {
        mom2_num(count_eq(p, c1), p.len())
    } else {
        (count_eq(p, c1) * count_eq(p, c2)) as int
    }
}

pub open spec fn cov_p_den(p: Seq<i32>, c1: i32, c2: i32) -> nat {
    if c1 == c2 {
        cube(p.len())
    } else {
        p.len() * p.len()
    }
}

/// Numerator of one term of the joint moment.
pub open spec fn kv_num(p: Seq<i32>, o1: Seq<Seq<i32>>, o2: Seq<Seq<i32>>, c1: i32, c2: i32) -> int {
    cov_p_num(p, c1, c2) * cov_prod_num(o1, o2, c1, c2)
}

pub open spec fn kv_den(p: Seq<i32>, o1: Seq<Seq<i32>>, o2: Seq<Seq<i32>>, c1: i32, c2: i32) -> nat {
    cov_p_den(p, c1, c2) * cov_prod_den(o1, o2, c1, c2)
}

/// Denominator of the partial joint-moment sum: all value pairs `(a, b)`
/// with `a` before `j1`, and `(values[j1], b)` with `b` before `j2`.
pub open spec fn opart_den(
    p: Seq<i32>,
    o1: Seq<Seq<i32>>,
    o2: Seq<Seq<i32>>,
    values: Seq<i32>,
    j1: int,
    j2: int,
) -> nat
    decreases j1, j2,
{
    if j2 > 0 {
        opart_den(p, o1, o2, values, j1, j2 - 1) * kv_den(p, o1, o2, values[j1], values[j2 - 1])
    } else if j1 > 0 {
        opart_den(p, o1, o2, values, j1 - 1, values.len() as int)
    } else {
        1
    }
}

/// Numerator of the partial joint-moment sum over `opart_den`.
pub open spec fn opart_num(
    p: Seq<i32>,
    o1: Seq<Seq<i32>>,
    o2: Seq<Seq<i32>>,
    values: Seq<i32>,
    j1: int,
    j2: int,
) -> int
    decreases j1, j2,
{
    if j2 > 0 {
        let rest_n = opart_num(p, o1, o2, values, j1, j2 - 1);
        let rest_d = opart_den(p, o1, o2, values, j1, j2 - 1);
        rest_n * kv_den(p, o1, o2, values[j1], values[j2 - 1]) + kv_num(
            p,
            o1,
            o2,
            values[j1],
            values[j2 - 1],
        ) * rest_d
    } else if j1 > 0 {
        opart_num(p, o1, o2, values, j1 - 1, values.len() as int)
    } else {
        0
    }
}

/// Numerator of the joint second-moment sum of two draws over `joint_den`.
pub open spec fn joint_num(p: Seq<i32>, o1: Seq<Seq<i32>>, o2: Seq<Seq<i32>>) -> int {
    opart_num(p, o1, o2, distinct_of(p), distinct_of(p).len() as int, 0)
}

pub open spec fn joint_den(p: Seq<i32>, o1: Seq<Seq<i32>>, o2: Seq<Seq<i32>>) -> nat {
    opart_den(p, o1, o2, distinct_of(p), distinct_of(p).len() as int, 0)
}

/// Numerator of the exact covariance of two draws: the joint moment minus
/// the product of their win probabilities, over `pair_cov_den`.
pub open spec fn pair_cov_num(p: Seq<i32>, o1: Seq<Seq<i32>>, o2: Seq<Seq<i32>>) -> int {
    joint_num(p, o1, o2) * (draw_den(p, o1) * draw_den(p, o2)) - (draw_win_num(p, o1)
        * draw_win_num(p, o2)) * joint_den(p, o1, o2)
}

pub open spec fn pair_cov_den(p: Seq<i32>, o1: Seq<Seq<i32>>, o2: Seq<Seq<i32>>) -> nat {
    joint_den(p, o1, o2) * (draw_den(p, o1) * draw_den(p, o2))
}

/// Denominator of the partial covariance sum over the draw pairs `(x, y)`
/// with `y` before `j`, or `y == j` and `x` before `i`.
pub open spec fn cov_part_den(p: Seq<i32>, pool: Seq<Player>, samples: Seq<Seq<usize>>, j: int, i: int) -> nat
    decreases j, i,
{
    if i > 0 {
        cov_part_den(p, pool, samples, j, i - 1) * pair_cov_den(
            p,
            opps_of(pool, samples[i - 1]),
            opps_of(pool, samples[j]),
        )
    } else if j > 0 {
        cov_part_den(p, pool, samples, j - 1, j - 1)
    } else {
        1
    }
}

/// Numerator of the partial covariance sum over `cov_part_den`.
pub open spec fn cov_part_num(p: Seq<i32>, pool: Seq<Player>, samples: Seq<Seq<usize>>, j: int, i: int) -> int
    decreases j, i,
{
    if i > 0 {
        let rest_n = cov_part_num(p, pool, samples, j, i - 1);
        let rest_d = cov_part_den(p, pool, samples, j, i - 1);
        let o1 = opps_of(pool, samples[i - 1]);
        let o2 = opps_of(pool, samples[j]);
        rest_n * pair_cov_den(p, o1, o2) + pair_cov_num(p, o1, o2) * rest_d
    } else if j > 0 {
        cov_part_num(p, pool, samples, j - 1, j - 1)
    } else {
        0
    }
}

/// Numerator of the sum of the covariances over all unordered draw pairs.
pub open spec fn cov_total_num(p: Seq<i32>, pool: Seq<Player>, samples: Seq<Seq<usize>>) -> int {
    cov_part_num(p, pool, samples, samples.len() as int, 0)
}

pub open spec fn cov_total_den(p: Seq<i32>, pool: Seq<Player>, samples: Seq<Seq<usize>>) -> nat {
    cov_part_den(p, pool, samples, samples.len() as int, 0)
}

/// Numerator of the combined sampling variance of the mean:
/// `(variance_sum + 2 * covariance_sum) / draws^2`.
pub open spec fn total_var_num(p: Seq<i32>, pool: Seq<Player>, samples: Seq<Seq<usize>>) -> int {
    var_sum_num(p, pool, samples) * cov_total_den(p, pool, samples) + 2 * cov_total_num(
        p,
        pool,
        samples,
    ) * var_sum_den(p, pool, samples)
}

pub open spec fn total_var_den(p: Seq<i32>, pool: Seq<Player>, samples: Seq<Seq<usize>>) -> nat {
    (var_sum_den(p, pool, samples) * cov_total_den(p, pool, samples)) * (samples.len()
        * samples.len())
}

/// A sample of `k` distinct opponent indices drawn from the whole pool.
pub open spec fn valid_opp_sample(pool: Seq<Player>, p_idx: int, sample: Seq<usize>, k: nat) -> bool {
    &&& sample.len() == k
    &&& forall|i: int| 0 <= i < sample.len() ==> sample[i] < pool.len() && sample[i] != p_idx
    &&& forall|i: int, j: int| 0 <= i < j < sample.len() ==> sample[i] != sample[j]
}

/// Every opponent history in the sequence is non-empty.
pub open spec fn opps_wf(opps: Seq<Seq<i32>>) -> bool {
    forall|i: int| 0 <= i < opps.len() ==> (#[trigger] opps[i]).len() > 0
}

proof fn lemma_cov_prod_den_pos(o1: Seq<Seq<i32>>, o2: Seq<Seq<i32>>, c1: i32, c2: i32)
    requires
        o1.len() == o2.len(),
        opps_wf(o1),
        opps_wf(o2),
    ensures
        cov_prod_den(o1, o2, c1, c2) > 0,
    decreases o1.len(),
{
    if o1.len() > 0 {
        assert(opps_wf(o1.drop_last())) by {
            assert(forall|i: int|
                0 <= i < o1.drop_last().len() ==> o1.drop_last()[i] == #[trigger] o1[i]);
        }
        assert(opps_wf(o2.drop_last())) by {
            assert(forall|i: int|
                0 <= i < o2.drop_last().len() ==> o2.drop_last()[i] == #[trigger] o2[i]);
        }
        lemma_cov_prod_den_pos(o1.drop_last(), o2.drop_last(), c1, c2);
        let b = cov_prod_den(o1.drop_last(), o2.drop_last(), c1, c2);
        let q = o1.last();
        let r = o2.last();
        assert(q.len() > 0);
        assert(r.len() > 0);
        let f = cov_factor_den(q, r, c1, c2);
        assert(f > 0) by (nonlinear_arith)
            requires
                (f == cube(q.len()) || f == q.len() * r.len()),
                cube(q.len()) == q.len() * (q.len() * q.len()),
                q.len() > 0,
                r.len() > 0,
        ;
        assert(b * f > 0) by (nonlinear_arith)
            requires
                b > 0,
                f > 0,
        ;
    }
}

proof fn lemma_kv_den_pos(p: Seq<i32>, o1: Seq<Seq<i32>>, o2: Seq<Seq<i32>>, c1: i32, c2: i32)
    requires
        p.len() > 0,
        o1.len() == o2.len(),
        opps_wf(o1),
        opps_wf(o2),
    ensures
        kv_den(p, o1, o2, c1, c2) > 0,
{
    lemma_cov_prod_den_pos(o1, o2, c1, c2);
    let a = cov_p_den(p, c1, c2);
    assert(a > 0) by (nonlinear_arith)
        requires
            (a == cube(p.len()) || a == p.len() * p.len()),
            cube(p.len()) == p.len() * (p.len() * p.len()),
            p.len() > 0,
    ;
    let b = cov_prod_den(o1, o2, c1, c2);
    assert(a * b > 0) by (nonlinear_arith)
        requires
            a > 0,
            b > 0,
    ;
}

proof fn lemma_opart_den_pos(
    p: Seq<i32>,
    o1: Seq<Seq<i32>>,
    o2: Seq<Seq<i32>>,
    values: Seq<i32>,
    j1: int,
    j2: int,
)
    requires
        p.len() > 0,
        o1.len() == o2.len(),
        opps_wf(o1),
        opps_wf(o2),
        j1 >= 0,
        j2 >= 0,
    ensures
        opart_den(p, o1, o2, values, j1, j2) > 0,
    decreases j1, j2,
{
    if j2 > 0 {
        lemma_opart_den_pos(p, o1, o2, values, j1, j2 - 1);
        lemma_kv_den_pos(p, o1, o2, values[j1], values[j2 - 1]);
        let a = opart_den(p, o1, o2, values, j1, j2 - 1);
        let b = kv_den(p, o1, o2, values[j1], values[j2 - 1]);
        assert(a * b > 0) by (nonlinear_arith)
            requires
                a > 0,
                b > 0,
        ;
    } else if j1 > 0 {
        lemma_opart_den_pos(p, o1, o2, values, j1 - 1, values.len() as int);
    }
}

proof fn lemma_draw_den_pos(p: Seq<i32>, pool: Seq<Player>, s: Seq<usize>)
    requires
        p.len() > 0,
        pool_wf(pool),
        sample_in_range(pool, s),
    ensures
        draw_den(p, opps_of(pool, s)) > 0,
{
    crate::estimator::lemma_prod_n_pos(pool, s);
    let b = crate::estimator::prod_n(opps_of(pool, s));
    assert(p.len() * b > 0) by (nonlinear_arith)
        requires
            p.len() > 0,
            b > 0,
    ;
}

proof fn lemma_opps_wf(pool: Seq<Player>, s: Seq<usize>)
    requires
        pool_wf(pool),
        sample_in_range(pool, s),
    ensures
        opps_wf(opps_of(pool, s)),
        opps_of(pool, s).len() == s.len(),
{
    assert forall|i: int| 0 <= i < opps_of(pool, s).len() implies (#[trigger] opps_of(pool, s)[i]).len()
        > 0 by {
        assert(s[i] < pool.len());
        assert(opps_of(pool, s)[i] == pool[s[i] as int].played());
    }
}

proof fn lemma_pair_cov_den_pos(p: Seq<i32>, pool: Seq<Player>, s1: Seq<usize>, s2: Seq<usize>)
    requires
        p.len() > 0,
        pool_wf(pool),
        sample_in_range(pool, s1),
        sample_in_range(pool, s2),
        s1.len() == s2.len(),
    ensures
        pair_cov_den(p, opps_of(pool, s1), opps_of(pool, s2)) > 0,
{
    let o1 = opps_of(pool, s1);
    let o2 = opps_of(pool, s2);
    lemma_opps_wf(pool, s1);
    lemma_opps_wf(pool, s2);
    lemma_opart_den_pos(p, o1, o2, distinct_of(p), distinct_of(p).len() as int, 0);
    lemma_draw_den_pos(p, pool, s1);
    lemma_draw_den_pos(p, pool, s2);
    let j = joint_den(p, o1, o2);
    let d1 = draw_den(p, o1);
    let d2 = draw_den(p, o2);
    assert(j * (d1 * d2) > 0) by (nonlinear_arith)
        requires
            j > 0,
            d1 > 0,
            d2 > 0,
    ;
}

proof fn lemma_cov_part_den_pos(
    p: Seq<i32>,
    pool: Seq<Player>,
    samples: Seq<Seq<usize>>,
    j: int,
    i: int,
)
    requires
        p.len() > 0,
        pool_wf(pool),
        crate::estimator::samples_in_range(pool, samples),
        forall|x: int, y: int|
            0 <= x < samples.len() && 0 <= y < samples.len() ==> (#[trigger] samples[x]).len() == (
            #[trigger] samples[y]).len(),
        0 <= i <= j <= samples.len(),
        i > 0 ==> j < samples.len(),
    ensures
        cov_part_den(p, pool, samples, j, i) > 0,
    decreases j, i,
{
    if i > 0 {
        lemma_cov_part_den_pos(p, pool, samples, j, i - 1);
        lemma_pair_cov_den_pos(p, pool, samples[i - 1], samples[j]);
        let a = cov_part_den(p, pool, samples, j, i - 1);
        let b = pair_cov_den(p, opps_of(pool, samples[i - 1]), opps_of(pool, samples[j]));
        assert(a * b > 0) by (nonlinear_arith)
            requires
                a > 0,
                b > 0,
        ;
    } else if j > 0 {
        lemma_cov_part_den_pos(p, pool, samples, j - 1, j - 1);
    }
}

proof fn lemma_var_sum_den_pos(p: Seq<i32>, pool: Seq<Player>, samples: Seq<Seq<usize>>)
    requires
        p.len() > 0,
        pool_wf(pool),
        crate::estimator::samples_in_range(pool, samples),
    ensures
        var_sum_den(p, pool, samples) > 0,
    decreases samples.len(),
{
    if samples.len() > 0 {
        assert(crate::estimator::samples_in_range(pool, samples.drop_last())) by {
            assert(forall|i: int|
                0 <= i < samples.drop_last().len() ==> samples.drop_last()[i] == #[trigger] samples[i]);
        }
        lemma_var_sum_den_pos(p, pool, samples.drop_last());
        lemma_draw_den_pos(p, pool, samples.last());
        let a = var_sum_den(p, pool, samples.drop_last());
        let d = draw_den(p, opps_of(pool, samples.last()));
        assert(cube(d) > 0) by (nonlinear_arith)
            requires
                d > 0,
                cube(d) == d * (d * d),
        ;
        let b = cube(d);
        assert(a * b > 0) by (nonlinear_arith)
            requires
                a > 0,
                b > 0,
        ;
    }
}

/// The adjusted second moment's numerator, as a big natural.
fn mom2_exec(cnt: usize, n: usize) -> (r: BigUint)
    requires
        n >= 1,
    ensures
        big_val(r) == mom2_num(cnt as nat, n as nat),
{
    let a = big_mul(&big_from_u64(cnt as u64), &big_from_u64(n as u64));
    let c2 = big_mul(&big_from_u64(cnt as u64), &big_from_u64(cnt as u64));
    let b = big_mul(&big_from_u64((n - 1) as u64), &c2);
    big_add(&a, &b)
}

/// The denominator of a draw's win probability, as a big natural.
fn den_big(p: &Player, pool: &Vec<Player>, sample: &Vec<usize>) -> (r: BigUint)
    requires
        p.wf(),
        p.playcount > 0,
        pool_wf(pool@),
        sample_in_range(pool@, sample@),
    ensures
        big_val(r) == draw_den(p.played(), opps_of(pool@, sample@)),
        big_val(r) > 0,
{
    let ghost opps = opps_of(pool@, sample@);
    let mut den = big_from_u64(p.playcount as u64);
    proof {
        assert(p.played().len() * crate::estimator::prod_n(opps.take(0)) == p.played().len())
            by (nonlinear_arith)
            requires
                crate::estimator::prod_n(opps.take(0)) == 1,
        ;
    }
    let mut t: usize = 0;
    while t < sample.len()
        invariant
            t <= sample.len(),
            p.wf(),
            p.playcount > 0,
            pool_wf(pool@),
            sample_in_range(pool@, sample@),
            opps == opps_of(pool@, sample@),
            big_val(den) == p.played().len() * crate::estimator::prod_n(opps.take(t as int)),
            big_val(den) > 0,
        decreases sample.len() - t,
    {
        let q = &pool[sample[t]];
        let factor = big_from_u64(q.playcount as u64);
        let new_den = big_mul(&den, &factor);
        proof {
            assert(opps.take(t + 1).drop_last() =~= opps.take(t as int));
            assert(opps[t as int] == pool@[sample@[t as int] as int].played());
            let a = p.played().len();
            let b = crate::estimator::prod_n(opps.take(t as int));
            let f = opps[t as int].len();
            assert(b > 0) by (nonlinear_arith)
                requires
                    a * b > 0,
            ;
            assert(b * f > 0) by (nonlinear_arith)
                requires
                    b > 0,
                    f > 0,
            ;
            assert((a * b) * f == a * (b * f)) by (nonlinear_arith);
            assert(a * (b * f) > 0) by (nonlinear_arith)
                requires
                    a > 0,
                    b * f > 0,
            ;
        }
        den = new_den;
        t = t + 1;
    }
    proof {
        assert(opps.take(sample@.len() as int) =~= opps);
    }
    den
}

/// The exact variance of a single draw's win probability, over the cube of
/// the draw's denominator.
pub fn draw_variance(p: &Player, pool: &Vec<Player>, sample: &Vec<usize>) -> (r: SRat)
    requires
        p.wf(),
        p.playcount > 0,
        pool_wf(pool@),
        sample_in_range(pool@, sample@),
    ensures
        r.wf(),
        r.eqv(
            var_draw_num(p.played(), opps_of(pool@, sample@)),
            cube(draw_den(p.played(), opps_of(pool@, sample@))) as int,
        ),
{
    let ghost pp = p.played();
    let ghost opps = opps_of(pool@, sample@);
    let dbig = den_big(p, pool, sample);
    let d3 = big_mul(&dbig, &big_mul(&dbig, &dbig));
    let values = p.distinct_played();
    let mut acc = SInt::zero();
    let mut j: usize = 0;
    while j < values.len()
        invariant
            j <= values.len(),
            p.wf(),
            p.playcount > 0,
            pool_wf(pool@),
            sample_in_range(pool@, sample@),
            pp == p.played(),
            opps == opps_of(pool@, sample@),
            values@ == distinct_of(pp),
            big_val(dbig) == draw_den(pp, opps),
            acc.vi() == var_num_over(values@.take(j as int), pp, opps),
        decreases values.len() - j,
    {
        let c = values[j];
        let pmf = p.epmf(c);
        let t1a = mom2_exec(pmf.num, p.playcount);
        let mut t1b = big_from_u64(1);
        let mut pl = big_from_u64(1);
        let mut t: usize = 0;
        while t < sample.len()
            invariant
                t <= sample.len(),
                pool_wf(pool@),
                sample_in_range(pool@, sample@),
                opps == opps_of(pool@, sample@),
                big_val(t1b) == prod_mom2(opps.take(t as int), c),
                big_val(pl) == prod_cle(opps.take(t as int), c),
            decreases sample.len() - t,
        {
            let q = &pool[sample[t]];
            let cdf = q.ecdf(c);
            proof {
                assert(opps.take(t + 1).drop_last() =~= opps.take(t as int));
                assert(opps[t as int] == pool@[sample@[t as int] as int].played());
            }
            let f2 = mom2_exec(cdf.num, q.playcount);
            t1b = big_mul(&t1b, &f2);
            pl = big_mul(&pl, &big_from_u64(cdf.num as u64));
            t = t + 1;
        }
        proof {
            assert(opps.take(sample@.len() as int) =~= opps);
        }
        let t1 = big_mul(&t1a, &t1b);
        let w = big_mul(&big_from_u64(pmf.num as u64), &pl);
        let t2 = big_mul(&big_mul(&w, &w), &dbig);
        let term = SInt::diff(&t1, &t2);
        let new_acc = acc.plus(&term);
        proof {
            assert(values@.take(j + 1).drop_last() =~= values@.take(j as int));
            assert(values@.take(j + 1).last() == values@[j as int]);
        }
        acc = new_acc;
        j = j + 1;
    }
    proof {
        assert(values@.take(values@.len() as int) =~= values@);
    }
    let mag = Rat { num: acc.mag, den: d3 };
    let r = SRat { neg: acc.neg, mag };
    proof {
        let d = draw_den(pp, opps);
        assert(big_val(d3) == cube(d));
        assert(cube(d) > 0) by (nonlinear_arith)
            requires
                d > 0,
                cube(d) == d * (d * d),
        ;
    }
    r
}

/// The exact covariance of two draws' win probabilities.
pub fn pair_covariance(p: &Player, pool: &Vec<Player>, s1: &Vec<usize>, s2: &Vec<usize>) -> (r:
    SRat)
    requires
        p.wf(),
        p.playcount > 0,
        pool_wf(pool@),
        sample_in_range(pool@, s1@),
        sample_in_range(pool@, s2@),
        s1@.len() == s2@.len(),
    ensures
        r.wf(),
        r.eqv(
            pair_cov_num(p.played(), opps_of(pool@, s1@), opps_of(pool@, s2@)),
            pair_cov_den(p.played(), opps_of(pool@, s1@), opps_of(pool@, s2@)) as int,
        ),
{
    let ghost pp = p.played();
    let ghost o1 = opps_of(pool@, s1@);
    let ghost o2 = opps_of(pool@, s2@);
    proof {
        assert(forall|i: int| 0 <= i < s1@.len() ==> s1@[i] < pool@.len());
        assert(forall|i: int| 0 <= i < s2@.len() ==> s2@[i] < pool@.len());
    }
    let w1 = draw_win(p, pool, s1);
    let w2 = draw_win(p, pool, s2);
    let values = p.distinct_played();
    let ghost vals = distinct_of(pp);
    let mut acc = Rat::from_u64s(0, 1);
    let mut j1: usize = 0;
    while j1 < values.len()
        invariant
            j1 <= values.len(),
            p.wf(),
            p.playcount > 0,
            pool_wf(pool@),
            sample_in_range(pool@, s1@),
            sample_in_range(pool@, s2@),
            s1@.len() == s2@.len(),
            pp == p.played(),
            o1 == opps_of(pool@, s1@),
            o2 == opps_of(pool@, s2@),
            values@ == vals,
            vals == distinct_of(pp),
            acc.wf(),
            acc.n() * opart_den(pp, o1, o2, vals, j1 as int, 0) == opart_num(
                pp,
                o1,
                o2,
                vals,
                j1 as int,
                0,
            ) * acc.d(),
        decreases values.len() - j1,
    {
        let c1 = values[j1];
        let mut j2: usize = 0;
        while j2 < values.len()
            invariant
                j2 <= values.len(),
                j1 < values.len(),
                p.wf(),
                p.playcount > 0,
                pool_wf(pool@),
                sample_in_range(pool@, s1@),
                sample_in_range(pool@, s2@),
                s1@.len() == s2@.len(),
                pp == p.played(),
                o1 == opps_of(pool@, s1@),
                o2 == opps_of(pool@, s2@),
                values@ == vals,
                vals == distinct_of(pp),
                c1 == vals[j1 as int],
                acc.wf(),
                acc.n() * opart_den(pp, o1, o2, vals, j1 as int, j2 as int) == opart_num(
                    pp,
                    o1,
                    o2,
                    vals,
                    j1 as int,
                    j2 as int,
                ) * acc.d(),
            decreases values.len() - j2,
        {
            let c2 = values[j2];
            let pmf1 = p.epmf(c1);
            let n = p.playcount;
            let (pn_part, pd_part) = if c1 == c2 {
                let nb = big_from_u64(n as u64);
                (mom2_exec(pmf1.num, n), big_mul(&nb, &big_mul(&nb, &nb)))
            } else {
                let pmf2 = p.epmf(c2);
                let nb = big_from_u64(n as u64);
                (
                    big_mul(&big_from_u64(pmf1.num as u64), &big_from_u64(pmf2.num as u64)),
                    big_mul(&nb, &nb),
                )
            };
            proof {
                assert(big_val(pn_part) == cov_p_num(pp, c1, c2));
                assert(big_val(pd_part) == cov_p_den(pp, c1, c2));
                assert(big_val(pd_part) > 0) by (nonlinear_arith)
                    requires
                        big_val(pd_part) == cov_p_den(pp, c1, c2),
                        (cov_p_den(pp, c1, c2) == cube(pp.len()) || cov_p_den(pp, c1, c2)
                            == pp.len() * pp.len()),
                        cube(pp.len()) == pp.len() * (pp.len() * pp.len()),
                        pp.len() > 0,
                ;
            }
            let mut knum = pn_part;
            let mut kden = pd_part;
            proof {
                assert(cov_prod_num(o1.take(0), o2.take(0), c1, c2) == 1);
                assert(cov_prod_den(o1.take(0), o2.take(0), c1, c2) == 1);
                let pn = cov_p_num(pp, c1, c2);
                let pd = cov_p_den(pp, c1, c2);
                assert(pn * 1 == pn) by (nonlinear_arith);
                assert(pd * 1 == pd) by (nonlinear_arith);
            }
            let mut t: usize = 0;
            while t < s1.len()
                invariant
                    t <= s1.len(),
                    pool_wf(pool@),
                    sample_in_range(pool@, s1@),
                    sample_in_range(pool@, s2@),
                    s1@.len() == s2@.len(),
                    pp == p.played(),
                    o1 == opps_of(pool@, s1@),
                    o2 == opps_of(pool@, s2@),
                    big_val(knum) == cov_p_num(pp, c1, c2) * cov_prod_num(
                        o1.take(t as int),
                        o2.take(t as int),
                        c1,
                        c2,
                    ),
                    big_val(kden) == cov_p_den(pp, c1, c2) * cov_prod_den(
                        o1.take(t as int),
                        o2.take(t as int),
                        c1,
                        c2,
                    ),
                    big_val(kden) > 0,
                decreases s1.len() - t,
            {
                let q = &pool[s1[t]];
                let r2 = &pool[s2[t]];
                proof {
                    assert(o1.take(t + 1).drop_last() =~= o1.take(t as int));
                    assert(o2.take(t + 1).drop_last() =~= o2.take(t as int));
                    assert(o1[t as int] == pool@[s1@[t as int] as int].played());
                    assert(o2[t as int] == pool@[s2@[t as int] as int].played());
                }
                let (fnum, fden) = if c1 == c2 && q.playcount == r2.playcount {
                    let cdf = q.ecdf(c1);
                    let nb = big_from_u64(q.playcount as u64);
                    (mom2_exec(cdf.num, q.playcount), big_mul(&nb, &big_mul(&nb, &nb)))
                } else {
                    let cdf1 = q.ecdf(c1);
                    let cdf2 = r2.ecdf(c2);
                    (
                        big_mul(&big_from_u64(cdf1.num as u64), &big_from_u64(cdf2.num as u64)),
                        big_mul(
                            &big_from_u64(q.playcount as u64),
                            &big_from_u64(r2.playcount as u64),
                        ),
                    )
                };
                proof {
                    assert(big_val(fnum) == cov_factor_num(o1[t as int], o2[t as int], c1, c2));
                    assert(big_val(fden) == cov_factor_den(o1[t as int], o2[t as int], c1, c2));
                    let qs = o1[t as int];
                    let rs = o2[t as int];
                    assert(cov_factor_den(qs, rs, c1, c2) > 0) by (nonlinear_arith)
                        requires
                            (cov_factor_den(qs, rs, c1, c2) == cube(qs.len()) || cov_factor_den(
                                qs,
                                rs,
                                c1,
                                c2,
                            ) == qs.len() * rs.len()),
                            cube(qs.len()) == qs.len() * (qs.len() * qs.len()),
                            qs.len() > 0,
                            rs.len() > 0,
                    ;
                    let a = big_val(kden);
                    let b = big_val(fden);
                    assert(a * b > 0) by (nonlinear_arith)
                        requires
                            a > 0,
                            b > 0,
                    ;
                }
                knum = big_mul(&knum, &fnum);
                kden = big_mul(&kden, &fden);
                proof {
                    let pn = cov_p_num(pp, c1, c2);
                    let pd = cov_p_den(pp, c1, c2) as int;
                    let cn = cov_prod_num(o1.take(t as int), o2.take(t as int), c1, c2);
                    let cd = cov_prod_den(o1.take(t as int), o2.take(t as int), c1, c2) as int;
                    let fn2 = cov_factor_num(o1[t as int], o2[t as int], c1, c2);
                    let fd2 = cov_factor_den(o1[t as int], o2[t as int], c1, c2) as int;
                    assert((pn * cn) * fn2 == pn * (cn * fn2)) by (nonlinear_arith);
                    assert((pd * cd) * fd2 == pd * (cd * fd2)) by (nonlinear_arith);
                }
                t = t + 1;
            }
            proof {
                assert(o1.take(s1@.len() as int) =~= o1);
                assert(o2.take(s2@.len() as int) =~= o2);
            }
            let term = Rat { num: knum, den: kden };
            let new_acc = acc.plus(&term);
            proof {
                lemma_rat_add_equiv(
                    acc.n() as int,
                    acc.d() as int,
                    term.n() as int,
                    term.d() as int,
                    opart_num(pp, o1, o2, vals, j1 as int, j2 as int),
                    opart_den(pp, o1, o2, vals, j1 as int, j2 as int) as int,
                    kv_num(pp, o1, o2, c1, c2),
                    kv_den(pp, o1, o2, c1, c2) as int,
                    new_acc.n() as int,
                    new_acc.d() as int,
                );
                assert(vals[(j2 + 1) - 1] == c2);
            }
            acc = new_acc;
            j2 = j2 + 1;
        }
        j1 = j1 + 1;
    }
    let prodw = w1.times(&w2);
    proof {
        lemma_rat_mul_equiv(
            w1.n() as int,
            w1.d() as int,
            w2.n() as int,
            w2.d() as int,
            draw_win_num(pp, o1) as int,
            draw_den(pp, o1) as int,
            draw_win_num(pp, o2) as int,
            draw_den(pp, o2) as int,
            prodw.n() as int,
            prodw.d() as int,
        );
    }
    let r = crate::rational::rat_diff(&acc, &prodw);
    proof {
        lemma_rat_diff_equiv(
            acc.n() as int,
            acc.d() as int,
            prodw.n() as int,
            prodw.d() as int,
            joint_num(pp, o1, o2),
            joint_den(pp, o1, o2) as int,
            (draw_win_num(pp, o1) * draw_win_num(pp, o2)) as int,
            (draw_den(pp, o1) * draw_den(pp, o2)) as int,
            r.ni(),
            r.d() as int,
        );
    }
    r
}

/// A win-probability estimate with a 95% confidence interval.
pub struct IntervalEstimate {
    pub probability: Rat,
    pub ci_lower: Rat,
    pub ci_upper: Rat,
}

/// The estimate and its interval are exactly determined by the drawn
/// samples: the probability is the mean single-draw win probability; the
/// standard error `se_n / se_d` is a rounded-down square root of the
/// combined variance `(variance_sum + 2 * covariance_sum) / draws^2`
/// (zero when that combination is negative); and the interval is the
/// probability plus and minus `49/25` standard errors, clamped to `[0, 1]`.
pub open spec fn interval_matches(
    pool: Seq<Player>,
    p_idx: int,
    k1: nat,
    draws: nat,
    prob: Rat,
    lo: Rat,
    hi: Rat,
    samples: Seq<Seq<usize>>,
    se_n: nat,
    se_d: nat,
) -> bool {
    let pp = pool[p_idx].played();
    let vn = total_var_num(pp, pool, samples);
    let vd = total_var_den(pp, pool, samples);
    let a = (25 * se_d) * prob.n();
    let b = (49 * se_n) * prob.d();
    let c = (25 * se_d) * prob.d();
    &&& samples.len() == draws
    &&& (forall|i: int|
        0 <= i < samples.len() ==> valid_opp_sample(pool, p_idx, #[trigger] samples[i], k1))
    &&& prob.n() * (wins_sum_den(pp, pool, samples) * draws) == wins_sum_num(pp, pool, samples)
        * prob.d()
    &&& se_d > 0
    &&& (vn >= 0 ==> (se_n * se_n) * vd <= vn * (se_d * se_d) && vn * (se_d * se_d) < ((se_n + 1)
        * (se_n + 1)) * vd)
    &&& (vn < 0 ==> se_n == 0)
    &&& (b <= a ==> lo.n() * c == (a - b) * lo.d())
    &&& (b > a ==> lo.n() == 0)
    &&& (a + b <= c ==> hi.n() * c == (a + b) * hi.d())
    &&& (a + b > c ==> hi.n() == hi.d())
}

/// The opponent indices: every pool index except the fixed competitor's.
fn opponent_indices(n: usize, p_idx: usize) -> (r: Vec<usize>)
    requires
        p_idx < n,
    ensures
        r@.len() == n - 1,
        forall|i: int| 0 <= i < r@.len() ==> r@[i] < n && r@[i] != p_idx,
        forall|i: int, j: int| 0 <= i < j < r@.len() ==> r@[i] < r@[j],
{
    let mut r: Vec<usize> = Vec::new();
    let mut idx: usize = 0;
    while idx < n
        invariant
            idx <= n,
            p_idx < n,
            r@.len() == if idx <= p_idx {
                idx as int
            } else {
                idx - 1
            },
            forall|i: int| 0 <= i < r@.len() ==> r@[i] < idx && r@[i] != p_idx,
            forall|i: int, j: int| 0 <= i < j < r@.len() ==> r@[i] < r@[j],
        decreases n - idx,
    {
        if idx != p_idx {
            r.push(idx);
        }
        idx = idx + 1;
    }
    r
}

/// The Monte Carlo win-probability estimate for the competitor at `p_idx`
/// with its exact sampling variance and a 95% confidence interval by the
/// normal approximation. Opponents are drawn from the whole pool; the
/// interval is clamped to `[0, 1]` and always brackets the estimate. This
/// retains every draw's sample for the pairwise covariance pass over all
/// draw pairs, which is quadratic in the draw count and intentionally
/// expensive: lower the draw count sharply when using it.
pub fn estimate_with_interval(
    pool: &Vec<Player>,
    p_idx: usize,
    contest_size: usize,
    draws: usize,
    rng: &mut StdRng,
) -> (r: IntervalEstimate)
    requires
        pool_wf(pool@),
        p_idx < pool@.len(),
        1 <= contest_size <= pool@.len(),
        draws >= 1,
    ensures
        r.probability.wf(),
        r.ci_lower.wf(),
        r.ci_upper.wf(),
        r.probability.n() <= r.probability.d(),
        r.ci_lower.n() <= r.ci_lower.d(),
        r.ci_upper.n() <= r.ci_upper.d(),
        r.ci_lower.n() * r.probability.d() <= r.probability.n() * r.ci_lower.d(),
        r.probability.n() * r.ci_upper.d() <= r.ci_upper.n() * r.probability.d(),
        exists|samples: Seq<Seq<usize>>, se_n: nat, se_d: nat|
            #[trigger] interval_matches(
                pool@,
                p_idx as int,
                (contest_size - 1) as nat,
                draws as nat,
                r.probability,
                r.ci_lower,
                r.ci_upper,
                samples,
                se_n,
                se_d,
            ),
{
    let ghost pp = pool@[p_idx as int].played();
    let k1 = contest_size - 1;
    let p = &pool[p_idx];
    let others = opponent_indices(pool.len(), p_idx);
    let mut samples: Vec<Vec<usize>> = Vec::new();
    let mut sum = Rat::from_u64s(0, 1);
    let mut vsum = SRat { neg: false, mag: Rat::from_u64s(0, 1) };
    let ghost mut gs: Seq<Seq<usize>> = Seq::empty();
    let mut d: usize = 0;
    while d < draws
        invariant
            d <= draws,
            pool_wf(pool@),
            p_idx < pool@.len(),
            p == &pool[p_idx as int],
            pp == pool@[p_idx as int].played(),
            k1 == contest_size - 1,
            k1 < pool@.len(),
            others@.len() == pool@.len() - 1,
            forall|i: int| 0 <= i < others@.len() ==> others@[i] < pool@.len() && others@[i] != p_idx,
            forall|i: int, j: int| 0 <= i < j < others@.len() ==> others@[i] < others@[j],
            gs.len() == d,
            samples@.len() == d,
            forall|i: int| 0 <= i < d ==> samples@[i]@ == gs[i],
            forall|i: int|
                0 <= i < gs.len() ==> valid_opp_sample(
                    pool@,
                    p_idx as int,
                    #[trigger] gs[i],
                    k1 as nat,
                ),
            sum.wf(),
            sum.n() * wins_sum_den(pp, pool@, gs) == wins_sum_num(pp, pool@, gs) * sum.d(),
            vsum.wf(),
            vsum.ni() * (var_sum_den(pp, pool@, gs) as int) == var_sum_num(pp, pool@, gs) * (
            vsum.d() as int),
        decreases draws - d,
    {
        let si = crate::estimator::sample_indices(rng, others.len(), k1);
        let mut sample: Vec<usize> = Vec::new();
        let mut t: usize = 0;
        while t < si.len()
            invariant
                t <= si.len(),
                si@.len() == k1,
                k1 <= others@.len(),
                forall|i: int| 0 <= i < si@.len() ==> si@[i] < others@.len(),
                forall|i: int, j: int| 0 <= i < j < si@.len() ==> si@[i] != si@[j],
                forall|i: int|
                    0 <= i < others@.len() ==> others@[i] < pool@.len() && others@[i] != p_idx,
                forall|i: int, j: int| 0 <= i < j < others@.len() ==> others@[i] < others@[j],
                sample@.len() == t,
                forall|x: int| 0 <= x < t ==> sample@[x] == others@[si@[x] as int],
            decreases si.len() - t,
        {
            let idx = others[si[t]];
            sample.push(idx);
            t = t + 1;
        }
        proof {
            assert forall|x: int, y: int| 0 <= x < y < sample@.len() implies sample@[x]
                != sample@[y] by {
                let a = si@[x] as int;
                let b = si@[y] as int;
                if a < b {
                    assert(others@[a] < others@[b]);
                } else {
                    assert(others@[b] < others@[a]);
                }
            }
            assert(valid_opp_sample(pool@, p_idx as int, sample@, k1 as nat));
            assert(sample_in_range(pool@, sample@));
        }
        let w = draw_win(p, pool, &sample);
        let v = draw_variance(p, pool, &sample);
        let new_sum = sum.plus(&w);
        let new_vsum = vsum.splus(&v);
        proof {
            let next = gs.push(sample@);
            assert(next.drop_last() =~= gs);
            assert(next.last() == sample@);
            let opps = opps_of(pool@, sample@);
            lemma_rat_add_equiv(
                sum.n() as int,
                sum.d() as int,
                w.n() as int,
                w.d() as int,
                wins_sum_num(pp, pool@, gs) as int,
                wins_sum_den(pp, pool@, gs) as int,
                draw_win_num(pp, opps) as int,
                draw_den(pp, opps) as int,
                new_sum.n() as int,
                new_sum.d() as int,
            );
            lemma_rat_add_equiv(
                vsum.ni(),
                vsum.d() as int,
                v.ni(),
                v.d() as int,
                var_sum_num(pp, pool@, gs),
                var_sum_den(pp, pool@, gs) as int,
                var_draw_num(pp, opps),
                cube(draw_den(pp, opps)) as int,
                new_vsum.ni(),
                new_vsum.d() as int,
            );
            gs = next;
        }
        samples.push(sample);
        sum = new_sum;
        vsum = new_vsum;
        d = d + 1;
    }
    let mut cov = SRat { neg: false, mag: Rat::from_u64s(0, 1) };
    let mut j: usize = 0;
    while j < samples.len()
        invariant
            j <= samples.len(),
            pool_wf(pool@),
            p_idx < pool@.len(),
            p == &pool[p_idx as int],
            pp == pool@[p_idx as int].played(),
            k1 == contest_size - 1,
            gs.len() == draws,
            samples@.len() == draws,
            forall|i: int| 0 <= i < draws ==> samples@[i]@ == gs[i],
            forall|i: int|
                0 <= i < gs.len() ==> valid_opp_sample(
                    pool@,
                    p_idx as int,
                    #[trigger] gs[i],
                    k1 as nat,
                ),
            cov.wf(),
            cov.ni() * (cov_part_den(pp, pool@, gs, j as int, 0) as int) == cov_part_num(
                pp,
                pool@,
                gs,
                j as int,
                0,
            ) * (cov.d() as int),
        decreases samples.len() - j,
    {
        let mut i: usize = 0;
        while i < j
            invariant
                i <= j,
                j < samples.len(),
                pool_wf(pool@),
                p_idx < pool@.len(),
                p == &pool[p_idx as int],
                pp == pool@[p_idx as int].played(),
                k1 == contest_size - 1,
                gs.len() == draws,
                samples@.len() == draws,
                forall|x: int| 0 <= x < draws ==> samples@[x]@ == gs[x],
                forall|x: int|
                    0 <= x < gs.len() ==> valid_opp_sample(
                        pool@,
                        p_idx as int,
                        #[trigger] gs[x],
                        k1 as nat,
                    ),
                cov.wf(),
                cov.ni() * (cov_part_den(pp, pool@, gs, j as int, i as int) as int)
                    == cov_part_num(pp, pool@, gs, j as int, i as int) * (cov.d() as int),
            decreases j - i,
        {
            proof {
                assert(valid_opp_sample(pool@, p_idx as int, gs[i as int], k1 as nat));
                assert(valid_opp_sample(pool@, p_idx as int, gs[j as int], k1 as nat));
                assert(sample_in_range(pool@, samples@[i as int]@));
                assert(sample_in_range(pool@, samples@[j as int]@));
            }
            let pc = pair_covariance(p, pool, &samples[i], &samples[j]);
            let new_cov = cov.splus(&pc);
            proof {
                let o1 = opps_of(pool@, gs[i as int]);
                let o2 = opps_of(pool@, gs[j as int]);
                lemma_rat_add_equiv(
                    cov.ni(),
                    cov.d() as int,
                    pc.ni(),
                    pc.d() as int,
                    cov_part_num(pp, pool@, gs, j as int, i as int),
                    cov_part_den(pp, pool@, gs, j as int, i as int) as int,
                    pair_cov_num(pp, o1, o2),
                    pair_cov_den(pp, o1, o2) as int,
                    new_cov.ni(),
                    new_cov.d() as int,
                );
                assert(gs[(i + 1) - 1] == gs[i as int]);
            }
            cov = new_cov;
            i = i + 1;
        }
        j = j + 1;
    }
    let divisor = Rat::from_u64s(1, draws as u64);
    let prob = sum.times(&divisor);
    proof {
        lemma_rat_mul_equiv(
            sum.n() as int,
            sum.d() as int,
            1,
            draws as int,
            wins_sum_num(pp, pool@, gs) as int,
            wins_sum_den(pp, pool@, gs) as int,
            1,
            draws as int,
            prob.n() as int,
            prob.d() as int,
        );
        assert forall|a: int| 0 <= a < gs.len() implies sample_in_range(
            pool@,
            #[trigger] gs[a],
        ) by {
            assert(valid_opp_sample(pool@, p_idx as int, gs[a], k1 as nat));
        }
        crate::estimator::lemma_wins_sum_le(pp, pool@, gs);
        let wsn = wins_sum_num(pp, pool@, gs) as int;
        let wsd = wins_sum_den(pp, pool@, gs) as int;
        let m = draws as int;
        assert(wsd * m > 0) by (nonlinear_arith)
            requires
                wsd > 0,
                m >= 1,
        ;
        assert(prob.n() <= prob.d()) by (nonlinear_arith)
            requires
                prob.n() * (wsd * m) == wsn * prob.d(),
                wsn <= wsd * m,
                wsd * m > 0,
                prob.d() > 0,
                prob.n() >= 0,
        ;
    }
    // combined variance: (variance_sum + 2 * covariance_sum) / draws^2
    let two = SRat { neg: false, mag: Rat::from_u64s(2, 1) };
    let cov2 = cov.stimes(&two);
    let ghost vsn = var_sum_num(pp, pool@, gs);
    let ghost vsd = var_sum_den(pp, pool@, gs) as int;
    let ghost ctn = cov_total_num(pp, pool@, gs);
    let ghost ctd = cov_total_den(pp, pool@, gs) as int;
    proof {
        lemma_rat_mul_equiv(
            cov.ni(),
            cov.d() as int,
            2,
            1,
            ctn,
            ctd,
            2,
            1,
            cov2.ni(),
            cov2.d() as int,
        );
        assert(ctd * 1 == ctd) by (nonlinear_arith);
        assert(ctn * 2 == 2 * ctn) by (nonlinear_arith);
    }
    let comb = vsum.splus(&cov2);
    proof {
        lemma_rat_add_equiv(
            vsum.ni(),
            vsum.d() as int,
            cov2.ni(),
            cov2.d() as int,
            vsn,
            vsd,
            2 * ctn,
            ctd,
            comb.ni(),
            comb.d() as int,
        );
    }
    let invm = SRat { neg: false, mag: Rat::from_u64s(1, draws as u64) };
    let total0 = comb.stimes(&invm);
    let total = total0.stimes(&invm);
    let ghost vn = total_var_num(pp, pool@, gs);
    let ghost vd = total_var_den(pp, pool@, gs) as int;
    proof {
        let m = draws as int;
        lemma_rat_mul_equiv(
            comb.ni(),
            comb.d() as int,
            1,
            m,
            vsn * ctd + (2 * ctn) * vsd,
            vsd * ctd,
            1,
            m,
            total0.ni(),
            total0.d() as int,
        );
        lemma_rat_mul_equiv(
            total0.ni(),
            total0.d() as int,
            1,
            m,
            (vsn * ctd + (2 * ctn) * vsd) * 1,
            (vsd * ctd) * m,
            1,
            m,
            total.ni(),
            total.d() as int,
        );
        assert(vn == (vsn * ctd + (2 * ctn) * vsd) * 1 * 1) by (nonlinear_arith)
            requires
                vn == vsn * ctd + 2 * ctn * vsd,
        ;
        assert(vd == ((vsd * ctd) * m) * m) by (nonlinear_arith)
            requires
                vd == (vsd * ctd) * (m * m),
        ;
        assert(total.ni() * vd == vn * (total.d() as int));
    }
    proof {
        lemma_var_sum_den_pos(pp, pool@, gs);
        assert(forall|x: int, y: int|
            0 <= x < gs.len() && 0 <= y < gs.len() ==> (#[trigger] gs[x]).len() == (
            #[trigger] gs[y]).len());
        lemma_cov_part_den_pos(pp, pool@, gs, gs.len() as int, 0);
        let m = draws as int;
        assert(vd > 0) by (nonlinear_arith)
            requires
                vd == (vsd * ctd) * (m * m),
                vsd > 0,
                ctd > 0,
                m >= 1,
        ;
    }
    let (se_num, se_den) = if total.nonneg() {
        proof {
            assert(vn >= 0) by (nonlinear_arith)
                requires
                    total.ni() >= 0,
                    total.ni() * vd == vn * (total.d() as int),
                    vd > 0,
                    total.d() > 0,
            ;
        }
        let prod = big_mul(&total.mag.num, &total.mag.den);
        let s = big_sqrt(&prod);
        let sden = crate::bignat::big_clone(&total.mag.den);
        proof {
            let sv = big_val(s) as int;
            let ne = total.mag.n() as int;
            let de = total.d() as int;
            assert(ne == total.ni());
            assert((sv * sv) * vd <= vn * (de * de)) by (nonlinear_arith)
                requires
                    sv * sv <= ne * de,
                    ne * vd == vn * de,
                    vd >= 0,
                    de > 0,
            ;
            assert(vn * (de * de) < ((sv + 1) * (sv + 1)) * vd) by (nonlinear_arith)
                requires
                    ne * de < (sv + 1) * (sv + 1),
                    ne * vd == vn * de,
                    vd > 0,
                    de > 0,
            ;
        }
        (s, sden)
    } else {
        proof {
            assert(vn < 0) by (nonlinear_arith)
                requires
                    total.ni() < 0,
                    total.ni() * vd == vn * (total.d() as int),
                    vd > 0,
                    total.d() > 0,
            ;
        }
        (big_from_u64(0), big_from_u64(1))
    };
    let ghost sen = big_val(se_num);
    let ghost sed = big_val(se_den);
    let x = Rat {
        num: big_mul(&big_from_u64(49), &se_num),
        den: big_mul(&big_from_u64(25), &se_den),
    };
    let ghost a: int = ((25 * sed) * prob.n()) as int;
    let ghost b: int = ((49 * sen) * prob.d()) as int;
    let ghost c: int = ((25 * sed) * prob.d()) as int;
    proof {
        assert(x.n() == 49 * sen);
        assert(x.d() == 25 * sed);
        assert(x.d() > 0) by (nonlinear_arith)
            requires
                sed > 0,
                x.d() == 25 * sed,
        ;
    }
    let dlo = crate::rational::rat_diff(&prob, &x);
    let lower = dlo.max_with_zero();
    proof {
        // dlo equals (a - b) / c up to commuting the products
        assert(prob.n() * x.d() == a) by (nonlinear_arith)
            requires
                x.d() == 25 * sed,
                a == (25 * sed) * prob.n(),
        ;
        assert(x.n() * prob.d() == b) by (nonlinear_arith)
            requires
                x.n() == 49 * sen,
                b == (49 * sen) * prob.d(),
        ;
        assert(prob.d() * x.d() == c) by (nonlinear_arith)
            requires
                x.d() == 25 * sed,
                c == (25 * sed) * prob.d(),
        ;
        assert(c > 0) by (nonlinear_arith)
            requires
                prob.d() > 0,
                x.d() > 0,
                c == prob.d() * x.d(),
        ;
        if b <= a {
            assert(dlo.ni() >= 0) by (nonlinear_arith)
                requires
                    dlo.ni() * c == (a - b) * (dlo.d() as int),
                    a - b >= 0,
                    c > 0,
                    dlo.d() > 0,
            ;
            crate::rational::lemma_rat_trans(
                lower.n() as int,
                lower.d() as int,
                dlo.ni(),
                dlo.d() as int,
                a - b,
                c,
            );
        } else {
            assert(dlo.ni() < 0) by (nonlinear_arith)
                requires
                    dlo.ni() * c == (a - b) * (dlo.d() as int),
                    a - b < 0,
                    c > 0,
                    dlo.d() > 0,
            ;
        }
    }
    let shi = prob.plus(&x);
    let upper = shi.min_with_one();
    proof {
        assert(shi.n() * c == (a + b) * (shi.d() as int));
        assert((shi.n() <= shi.d()) == (a + b <= c)) by (nonlinear_arith)
            requires
                shi.n() * c == (a + b) * (shi.d() as int),
                c > 0,
                shi.d() > 0,
                shi.n() >= 0,
        ;
        if a + b <= c {
            crate::rational::lemma_rat_trans(
                upper.n() as int,
                upper.d() as int,
                shi.n() as int,
                shi.d() as int,
                a + b,
                c,
            );
        }
    }
    let r = IntervalEstimate { probability: prob, ci_lower: lower, ci_upper: upper };
    proof {
        // the interval brackets the estimate and stays inside the unit range
        if b <= a {
            assert(lower.n() * prob.d() <= prob.n() * (lower.d() as int)) by (nonlinear_arith)
                requires
                    lower.n() * c == (a - b) * (lower.d() as int),
                    a == (25 * sed) * prob.n(),
                    b >= 0,
                    c == (25 * sed) * prob.d(),
                    25 * sed > 0,
                    lower.d() > 0,
                    prob.d() > 0,
                    lower.n() >= 0,
            ;
        }
        assert(b >= 0) by (nonlinear_arith)
            requires
                b == (49 * sen) * prob.d(),
                sen >= 0,
                prob.d() > 0,
        ;
        assert(lower.n() <= lower.d()) by (nonlinear_arith)
            requires
                lower.n() * prob.d() <= prob.n() * (lower.d() as int),
                prob.n() <= prob.d(),
                prob.d() > 0,
                lower.d() > 0,
                lower.n() >= 0,
        ;
        if a + b <= c {
            assert(prob.n() * (upper.d() as int) <= upper.n() * prob.d()) by (nonlinear_arith)
                requires
                    upper.n() * c == (a + b) * (upper.d() as int),
                    a == (25 * sed) * prob.n(),
                    b >= 0,
                    c == (25 * sed) * prob.d(),
                    25 * sed > 0,
                    upper.d() > 0,
                    prob.d() > 0,
                    upper.n() >= 0,
            ;
            assert(upper.n() <= upper.d()) by (nonlinear_arith)
                requires
                    upper.n() * c == (a + b) * (upper.d() as int),
                    a + b <= c,
                    c > 0,
                    upper.d() > 0,
                    upper.n() >= 0,
            ;
        } else {
            assert(prob.n() * (upper.d() as int) <= upper.n() * prob.d()) by (nonlinear_arith)
                requires
                    upper.n() == upper.d(),
                    prob.n() <= prob.d(),
                    upper.d() > 0,
                    prob.d() > 0,
                    prob.n() >= 0,
            ;
        }
        assert(interval_matches(
            pool@,
            p_idx as int,
            (contest_size - 1) as nat,
            draws as nat,
            r.probability,
            r.ci_lower,
            r.ci_upper,
            gs,
            sen,
            sed,
        ));
    }
    r
}

} // verus!
