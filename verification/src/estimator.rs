//! The Monte Carlo win-probability estimator.
//!
//! For a fixed competitor `p` and a drawn opponent sample `S`, the
//! single-draw win probability is
//! `sum over distinct played values c of p of epmf(p, c) * prod over q in S of ecdf(q, c)`:
//! ties count as wins for the fixed competitor, a deliberate modeling choice.
//! The estimator averages that quantity over repeated uniform samples from
//! the eligible opponent pool and rescales by the hypergeometric correction
//! ratio when eligibility filtering shrank the pool.
//!
//! Every quantity is an exact rational: a draw's win probability has the
//! numerator and denominator below, and sums of draws are combined by exact
//! rational arithmetic, so contracts pin results by cross-multiplication.

use vstd::prelude::*;
use num_bigint::BigUint;
use rand::rngs::StdRng;
use rand::seq::IteratorRandom;
use crate::bignat::{big_add, big_from_u64, big_mul, big_val};
use crate::player::{
    count_eq, count_le, distinct_of, lemma_count_le_len, lemma_epmf_total, max_of, sum_eq_counts,
    Player,
};
use crate::rational::Rat;

verus! {

/// The played histories of the sampled opponents, in sample order.
pub open spec fn opps_of(pool: Seq<Player>, sample: Seq<usize>) -> Seq<Seq<i32>> {
    sample.map(|i: int, idx: usize| pool[idx as int].played())
}

/// Product over the opponents of the number of their scores at most `c`.
pub open spec fn prod_cle(opps: Seq<Seq<i32>>, c: i32) -> nat
    decreases opps.len(),
{
    if opps.len() == 0 {
        1
    } else {
        prod_cle(opps.drop_last(), c) * count_le(opps.last(), c)
    }
}

/// Product over the opponents of their play counts.
pub open spec fn prod_n(opps: Seq<Seq<i32>>) -> nat
    decreases opps.len(),
{
    if opps.len() == 0 {
        1
    } else {
        prod_n(opps.drop_last()) * opps.last().len()
    }
}

/// Partial numerator of the single-draw win probability: the sum over the
/// given values of `count_eq(p, c) * prod_cle(opps, c)`.
pub open spec fn win_num_over(values: Seq<i32>, p: Seq<i32>, opps: Seq<Seq<i32>>) -> nat
    decreases values.len(),
{
    if values.len() == 0 {
        0
    } else {
        win_num_over(values.drop_last(), p, opps) + count_eq(p, values.last()) * prod_cle(
            opps,
            values.last(),
        )
    }
}

/// Numerator of the single-draw win probability over `draw_den`.
pub open spec fn draw_win_num(p: Seq<i32>, opps: Seq<Seq<i32>>) -> nat {
    win_num_over(distinct_of(p), p, opps)
}

/// Denominator of the single-draw win probability: the play count of `p`
/// times the play counts of the opponents.
pub open spec fn draw_den(p: Seq<i32>, opps: Seq<Seq<i32>>) -> nat {
    p.len() * prod_n(opps)
}

/// Denominator of the exact sum of the single-draw win probabilities.
pub open spec fn wins_sum_den(p: Seq<i32>, pool: Seq<Player>, samples: Seq<Seq<usize>>) -> nat
    decreases samples.len(),
{
    if samples.len() == 0 {
        1
    } else {
        wins_sum_den(p, pool, samples.drop_last()) * draw_den(p, opps_of(pool, samples.last()))
    }
}

/// Numerator of the exact sum of the single-draw win probabilities over
/// `wins_sum_den`.
pub open spec fn wins_sum_num(p: Seq<i32>, pool: Seq<Player>, samples: Seq<Seq<usize>>) -> nat
    decreases samples.len(),
{
    if samples.len() == 0 {
        0
    } else {
        let rest_n = wins_sum_num(p, pool, samples.drop_last());
        let rest_d = wins_sum_den(p, pool, samples.drop_last());
        let opps = opps_of(pool, samples.last());
        rest_n * draw_den(p, opps) + draw_win_num(p, opps) * rest_d
    }
}

/// The falling product `n * (n - 1) * ... * (n - k + 1)`.
pub open spec fn falling(n: int, k: nat) -> int
    decreases k,
{
    if k == 0 {
        1
    } else {
        falling(n, (k - 1) as nat) * (n - (k - 1))
    }
}

/// Every record in the pool is well formed and has played at least once.
pub open spec fn pool_wf(pool: Seq<Player>) -> bool {
    forall|i: int| 0 <= i < pool.len() ==> pool[i].wf() && pool[i].played().len() > 0
}

/// An opponent index is eligible for the fixed competitor: it is another
/// record with at least one score at most the fixed competitor's maximum.
pub open spec fn is_eligible(pool: Seq<Player>, p_idx: int, idx: int) -> bool {
    idx != p_idx && count_le(pool[idx].played(), max_of(pool[p_idx].played())) >= 1
}

/// How many indices below `n` are eligible.
pub open spec fn eligible_count_upto(pool: Seq<Player>, p_idx: int, n: int) -> nat
    decreases n,
{
    if n <= 0 {
        0
    } else {
        eligible_count_upto(pool, p_idx, n - 1) + if is_eligible(pool, p_idx, n - 1) {
            1nat
        } else {
            0nat
        }
    }
}

/// How many opponents in the pool are eligible for the fixed competitor.
pub open spec fn eligible_count(pool: Seq<Player>, p_idx: int) -> nat {
    eligible_count_upto(pool, p_idx, pool.len() as int)
}

/// A sample of `k` distinct eligible opponent indices.
pub open spec fn valid_sample(pool: Seq<Player>, p_idx: int, sample: Seq<usize>, k: nat) -> bool {
    &&& sample.len() == k
    &&& forall|i: int|
        0 <= i < sample.len() ==> sample[i] < pool.len() && is_eligible(
            pool,
            p_idx,
            sample[i] as int,
        )
    &&& forall|i: int, j: int| 0 <= i < j < sample.len() ==> sample[i] != sample[j]
}

proof fn lemma_max_of_props(s: Seq<i32>)
    requires
        s.len() > 0,
    ensures
        s.contains(max_of(s)),
        forall|i: int| 0 <= i < s.len() ==> s[i] <= max_of(s),
    decreases s.len(),
{
    if s.len() == 1 {
        assert(s[0] == max_of(s));
    } else {
        let sp = s.drop_last();
        lemma_max_of_props(sp);
        if s.last() > max_of(sp) {
            assert(s[s.len() - 1] == max_of(s));
        } else {
            let i = choose|i: int| 0 <= i < sp.len() && sp[i] == max_of(sp);
            assert(s[i] == max_of(sp));
        }
        assert forall|i: int| 0 <= i < s.len() implies s[i] <= max_of(s) by {
            if i < sp.len() {
                assert(sp[i] == s[i]);
            }
        }
    }
}

/// A contained upper bound of a sequence is its maximum.
pub proof fn lemma_max_unique(s: Seq<i32>, m: i32)
    requires
        s.len() > 0,
        s.contains(m),
        forall|i: int| 0 <= i < s.len() ==> s[i] <= m,
    ensures
        m == max_of(s),
{
    lemma_max_of_props(s);
    let i = choose|i: int| 0 <= i < s.len() && s[i] == m;
    let j = choose|j: int| 0 <= j < s.len() && s[j] == max_of(s);
    assert(s[i] <= max_of(s));
    assert(s[j] <= m);
}

/// The exact win probability of the fixed competitor in one drawn matchup.
pub fn draw_win(p: &Player, pool: &Vec<Player>, sample: &Vec<usize>) -> (r: Rat)
    requires
        p.wf(),
        p.playcount > 0,
        pool_wf(pool@),
        forall|i: int| 0 <= i < sample@.len() ==> sample@[i] < pool@.len(),
    ensures
        r.wf(),
        r.n() * draw_den(p.played(), opps_of(pool@, sample@)) == draw_win_num(
            p.played(),
            opps_of(pool@, sample@),
        ) * r.d(),
        r.n() <= r.d(),
{
    let ghost opps = opps_of(pool@, sample@);
    let values = p.distinct_played();
    let mut num = big_from_u64(0);
    let mut j: usize = 0;
    while j < values.len()
        invariant
            j <= values.len(),
            p.wf(),
            p.playcount > 0,
            pool_wf(pool@),
            forall|i: int| 0 <= i < sample@.len() ==> sample@[i] < pool@.len(),
            values@ == distinct_of(p.played()),
            opps == opps_of(pool@, sample@),
            big_val(num) == win_num_over(values@.take(j as int), p.played(), opps),
        decreases values.len() - j,
    {
        let c = values[j];
        let pmf = p.epmf(c);
        let mut prod = big_from_u64(1);
        let mut t: usize = 0;
        while t < sample.len()
            invariant
                t <= sample.len(),
                pool_wf(pool@),
                forall|i: int| 0 <= i < sample@.len() ==> sample@[i] < pool@.len(),
                opps == opps_of(pool@, sample@),
                big_val(prod) == prod_cle(opps.take(t as int), c),
            decreases sample.len() - t,
        {
            let q = &pool[sample[t]];
            let cdf = q.ecdf(c);
            let factor = big_from_u64(cdf.num as u64);
            proof {
                assert(opps.take(t + 1).drop_last() =~= opps.take(t as int));
                assert(opps[t as int] == pool@[sample@[t as int] as int].played());
            }
            prod = big_mul(&prod, &factor);
            t = t + 1;
        }
        proof {
            assert(opps.take(sample@.len() as int) =~= opps);
        }
        let term = big_mul(&big_from_u64(pmf.num as u64), &prod);
        let new_num = big_add(&num, &term);
        proof {
            assert(values@.take(j + 1).drop_last() =~= values@.take(j as int));
            assert(values@.take(j + 1).last() == values@[j as int]);
            assert(big_val(new_num) == win_num_over(values@.take(j + 1), p.played(), opps)) by {
                assert(win_num_over(values@.take(j + 1), p.played(), opps) == win_num_over(
                    values@.take(j as int),
                    p.played(),
                    opps,
                ) + count_eq(p.played(), values@[j as int]) * prod_cle(opps, values@[j as int]));
            }
        }
        num = new_num;
        j = j + 1;
    }
    proof {
        assert(values@.take(values@.len() as int) =~= values@);
    }
    let mut den = big_from_u64(p.playcount as u64);
    proof {
        assert(p.played().len() * prod_n(opps.take(0)) == p.played().len()) by (nonlinear_arith)
            requires
                prod_n(opps.take(0)) == 1,
        ;
    }
    let mut t: usize = 0;
    while t < sample.len()
        invariant
            t <= sample.len(),
            p.wf(),
            p.playcount > 0,
            pool_wf(pool@),
            forall|i: int| 0 <= i < sample@.len() ==> sample@[i] < pool@.len(),
            opps == opps_of(pool@, sample@),
            big_val(den) == p.played().len() * prod_n(opps.take(t as int)),
            big_val(den) > 0,
        decreases sample.len() - t,
    {
        let q = &pool[sample[t]];
        let factor = big_from_u64(q.playcount as u64);
        let new_den = big_mul(&den, &factor);
        proof {
            assert(opps.take(t + 1).drop_last() =~= opps.take(t as int));
            assert(opps[t as int] == pool@[sample@[t as int] as int].played());
            let a = p.played().len();
            let b = prod_n(opps.take(t as int));
            let f = opps[t as int].len();
            assert(b > 0) by (nonlinear_arith)
                requires
                    a * b > 0,
            ;
            assert(b * f > 0) by (nonlinear_arith)
                requires
                    b > 0,
                    f > 0,
            ;
            assert((a * b) * f == a * (b * f)) by (nonlinear_arith);
            assert(a * (b * f) > 0) by (nonlinear_arith)
                requires
                    a > 0,
                    b * f > 0,
            ;
        }
        den = new_den;
        t = t + 1;
    }
    proof {
        assert(opps.take(sample@.len() as int) =~= opps);
        lemma_draw_prob_le_one(p.played(), opps);
    }
    Rat { num, den }
}

/// The hypergeometric correction ratio
/// `prod over i in 0..k of (eligible - i) / (pool_minus_1 - i)`,
/// which corrects for sampling from the filtered eligible pool instead of
/// the full pool.
pub fn hypergeom_ratio(eligible: usize, pool_minus_1: usize, k: usize) -> (r: Rat)
    requires
        k <= eligible,
        eligible <= pool_minus_1,
    ensures
        r.wf(),
        r.n() * falling(pool_minus_1 as int, k as nat) == falling(eligible as int, k as nat) * r.d(),
{
    let mut num = big_from_u64(1);
    let mut den = big_from_u64(1);
    let mut i: usize = 0;
    while i < k
        invariant
            i <= k,
            k <= eligible,
            eligible <= pool_minus_1,
            big_val(num) == falling(eligible as int, i as nat),
            big_val(den) == falling(pool_minus_1 as int, i as nat),
            big_val(den) > 0,
        decreases k - i,
    {
        let fn_ = big_from_u64((eligible - i) as u64);
        let fd = big_from_u64((pool_minus_1 - i) as u64);
        let new_num = big_mul(&num, &fn_);
        let new_den = big_mul(&den, &fd);
        proof {
            let d = big_val(den) as int;
            let f = pool_minus_1 - i;
            assert(d * f > 0) by (nonlinear_arith)
                requires
                    d > 0,
                    f > 0,
            ;
        }
        num = new_num;
        den = new_den;
        i = i + 1;
    }
    Rat { num, den }
}

#[verifier::external_type_specification]
#[verifier::external_body]
pub struct ExStdRng(StdRng);

/// Relies on `rand::SeedableRng::seed_from_u64` for `StdRng`: builds a
/// deterministic generator from the given seed, so two runs seeded alike
/// draw the same samples.
#[verifier::external_body]
pub fn rng_from_seed(seed: u64) -> StdRng {
    rand::SeedableRng::seed_from_u64(seed)
}

/// Relies on `rand`'s `IteratorRandom::choose_multiple` over the range
/// `0..n`: it fills a reservoir with `k` values taken at distinct positions
/// of the iterator, so the result holds `k` distinct values below `n`;
/// nothing is assumed about which values are chosen.
#[verifier::external_body]
pub(crate) fn sample_indices(rng: &mut StdRng, n: usize, k: usize) -> (r: Vec<usize>)
    requires
        k <= n,
    ensures
        r@.len() == k,
        forall|i: int| 0 <= i < r@.len() ==> r@[i] < n,
        forall|i: int, j: int| 0 <= i < j < r@.len() ==> r@[i] != r@[j],
{
    (0..n).choose_multiple(rng, k)
}

/// The indices of the eligible opponents, in increasing order.
fn eligible_indices(pool: &Vec<Player>, p_idx: usize, max_c: i32) -> (r: Vec<usize>)
    requires
        pool_wf(pool@),
        p_idx < pool@.len(),
        max_c == max_of(pool@[p_idx as int].played()),
    ensures
        r@.len() == eligible_count(pool@, p_idx as int),
        forall|i: int|
            0 <= i < r@.len() ==> r@[i] < pool@.len() && is_eligible(
                pool@,
                p_idx as int,
                r@[i] as int,
            ),
        forall|i: int, j: int| 0 <= i < j < r@.len() ==> r@[i] < r@[j],
{
    let mut r: Vec<usize> = Vec::new();
    let mut idx: usize = 0;
    while idx < pool.len()
        invariant
            idx <= pool.len(),
            pool_wf(pool@),
            p_idx < pool@.len(),
            max_c == max_of(pool@[p_idx as int].played()),
            r@.len() == eligible_count_upto(pool@, p_idx as int, idx as int),
            forall|i: int|
                0 <= i < r@.len() ==> r@[i] < idx && is_eligible(pool@, p_idx as int, r@[i] as int),
            forall|i: int, j: int| 0 <= i < j < r@.len() ==> r@[i] < r@[j],
        decreases pool.len() - idx,
    {
        if idx != p_idx {
            let f = pool[idx].ecdf(max_c);
            if f.num >= 1 {
                r.push(idx);
            }
        }
        idx = idx + 1;
    }
    r
}

/// Every index of the sample points into the pool.
pub open spec fn sample_in_range(pool: Seq<Player>, sample: Seq<usize>) -> bool {
    forall|t: int| 0 <= t < sample.len() ==> #[trigger] sample[t] < pool.len()
}

/// Every sample points into the pool.
pub open spec fn samples_in_range(pool: Seq<Player>, samples: Seq<Seq<usize>>) -> bool {
    forall|i: int| 0 <= i < samples.len() ==> sample_in_range(pool, #[trigger] samples[i])
}

proof fn lemma_prod_cle_le(opps: Seq<Seq<i32>>, c: i32)
    ensures
        prod_cle(opps, c) <= prod_n(opps),
    decreases opps.len(),
{
    if opps.len() > 0 {
        lemma_prod_cle_le(opps.drop_last(), c);
        lemma_count_le_len(opps.last(), c);
        let a = prod_cle(opps.drop_last(), c);
        let b = prod_n(opps.drop_last());
        let x = count_le(opps.last(), c);
        let y = opps.last().len();
        assert(a * x <= b * y) by (nonlinear_arith)
            requires
                a <= b,
                x <= y,
                a >= 0,
                x >= 0,
        ;
    }
}

proof fn lemma_win_num_le(values: Seq<i32>, p: Seq<i32>, opps: Seq<Seq<i32>>)
    ensures
        win_num_over(values, p, opps) <= sum_eq_counts(values, p) * prod_n(opps),
    decreases values.len(),
{
    if values.len() == 0 {
        assert(sum_eq_counts(values, p) * prod_n(opps) >= 0) by (nonlinear_arith)
            requires
                sum_eq_counts(values, p) >= 0,
                prod_n(opps) >= 0,
        ;
    } else {
        lemma_win_num_le(values.drop_last(), p, opps);
        lemma_prod_cle_le(opps, values.last());
        let w = win_num_over(values.drop_last(), p, opps);
        let s = sum_eq_counts(values.drop_last(), p);
        let pn = prod_n(opps);
        let e = count_eq(p, values.last());
        let pc = prod_cle(opps, values.last());
        assert(w + e * pc <= (s + e) * pn) by (nonlinear_arith)
            requires
                w <= s * pn,
                pc <= pn,
                e >= 0,
                pn >= 0,
                s >= 0,
        ;
    }
}

/// A single draw's win probability is at most one: its numerator is at most
/// its denominator.
pub proof fn lemma_draw_prob_le_one(p: Seq<i32>, opps: Seq<Seq<i32>>)
    ensures
        draw_win_num(p, opps) <= draw_den(p, opps),
{
    lemma_win_num_le(distinct_of(p), p, opps);
    lemma_epmf_total(p);
}

pub(crate) proof fn lemma_prod_n_pos(pool: Seq<Player>, sample: Seq<usize>)
    requires
        pool_wf(pool),
        sample_in_range(pool, sample),
    ensures
        prod_n(opps_of(pool, sample)) > 0,
    decreases sample.len(),
{
    if sample.len() == 0 {
    } else {
        assert(opps_of(pool, sample).drop_last() =~= opps_of(pool, sample.drop_last()));
        lemma_prod_n_pos(pool, sample.drop_last());
        let b = prod_n(opps_of(pool, sample.drop_last()));
        let y = opps_of(pool, sample).last().len();
        assert(opps_of(pool, sample).last() == pool[sample[sample.len() - 1] as int].played());
        assert(b * y > 0) by (nonlinear_arith)
            requires
                b > 0,
                y > 0,
        ;
    }
}

pub(crate) proof fn lemma_wins_sum_le(p: Seq<i32>, pool: Seq<Player>, samples: Seq<Seq<usize>>)
    requires
        pool_wf(pool),
        p.len() > 0,
        samples_in_range(pool, samples),
    ensures
        wins_sum_num(p, pool, samples) <= wins_sum_den(p, pool, samples) * samples.len(),
        wins_sum_den(p, pool, samples) > 0,
    decreases samples.len(),
{
    if samples.len() > 0 {
        assert(samples_in_range(pool, samples.drop_last())) by {
            assert(forall|i: int|
                0 <= i < samples.drop_last().len() ==> samples.drop_last()[i] == #[trigger] samples[i]);
        }
        lemma_wins_sum_le(p, pool, samples.drop_last());
        let opps = opps_of(pool, samples.last());
        lemma_draw_prob_le_one(p, opps);
        lemma_prod_n_pos(pool, samples.last());
        let wsn = wins_sum_num(p, pool, samples.drop_last());
        let wsd = wins_sum_den(p, pool, samples.drop_last());
        let m1 = samples.drop_last().len();
        let dn = draw_win_num(p, opps);
        let dd = draw_den(p, opps);
        assert(dd > 0) by (nonlinear_arith)
            requires
                dd == p.len() * prod_n(opps),
                p.len() > 0,
                prod_n(opps) > 0,
        ;
        assert(wsn * dd + dn * wsd <= (wsd * dd) * (m1 + 1)) by (nonlinear_arith)
            requires
                wsn <= wsd * m1,
                dn <= dd,
                wsd > 0,
                dd > 0,
                wsn >= 0,
                dn >= 0,
                m1 >= 0,
        ;
        assert(wsd * dd > 0) by (nonlinear_arith)
            requires
                wsd > 0,
                dd > 0,
        ;
    }
}

proof fn lemma_falling_mono(n1: int, n2: int, k: nat)
    requires
        k <= n1 <= n2,
    ensures
        falling(n1, k) <= falling(n2, k),
    decreases k,
{
    if k > 0 {
        lemma_falling_mono(n1, n2, (k - 1) as nat);
        lemma_falling_pos(n1, (k - 1) as nat);
        lemma_falling_pos(n2, (k - 1) as nat);
        let f1 = falling(n1, (k - 1) as nat);
        let f2 = falling(n2, (k - 1) as nat);
        assert(f1 * (n1 - (k - 1)) <= f2 * (n2 - (k - 1))) by (nonlinear_arith)
            requires
                f1 <= f2,
                f1 > 0,
                0 < n1 - (k - 1) <= n2 - (k - 1),
        ;
    }
}

/// The views of a vector of samples.
pub open spec fn views_of(s: Seq<Vec<usize>>) -> Seq<Seq<usize>> {
    Seq::new(s.len(), |i: int| s[i]@)
}

/// A falling product with at most `n` factors is positive.
pub proof fn lemma_falling_pos(n: int, k: nat)
    requires
        k <= n,
    ensures
        falling(n, k) > 0,
    decreases k,
{
    if k > 0 {
        lemma_falling_pos(n, (k - 1) as nat);
        let rest = falling(n, (k - 1) as nat);
        assert(rest * (n - (k - 1)) > 0) by (nonlinear_arith)
            requires
                rest > 0,
                n - (k - 1) > 0,
        ;
    }
}

/// The exact mean of the single-draw win probabilities over the given
/// samples, with no eligibility rescaling.
pub fn estimate_from_samples(pool: &Vec<Player>, p_idx: usize, samples: &Vec<Vec<usize>>) -> (r:
    Rat)
    requires
        pool_wf(pool@),
        p_idx < pool@.len(),
        samples@.len() >= 1,
        forall|i: int, t: int|
            0 <= i < samples@.len() && 0 <= t < samples@[i]@.len() ==> #[trigger] samples@[i]@[t]
                < pool@.len(),
    ensures
        r.wf(),
        r.n() * (wins_sum_den(pool@[p_idx as int].played(), pool@, views_of(samples@))
            * samples@.len()) == wins_sum_num(
            pool@[p_idx as int].played(),
            pool@,
            views_of(samples@),
        ) * r.d(),
        r.n() <= r.d(),
{
    let ghost pp = pool@[p_idx as int].played();
    let ghost vs = views_of(samples@);
    let p = &pool[p_idx];
    let mut sum = Rat::from_u64s(0, 1);
    let mut i: usize = 0;
    while i < samples.len()
        invariant
            i <= samples.len(),
            pool_wf(pool@),
            p_idx < pool@.len(),
            p == &pool[p_idx as int],
            pp == pool@[p_idx as int].played(),
            vs == views_of(samples@),
            forall|a: int, t: int|
                0 <= a < samples@.len() && 0 <= t < samples@[a]@.len() ==> #[trigger] samples@[a]@[t]
                    < pool@.len(),
            sum.wf(),
            sum.n() * wins_sum_den(pp, pool@, vs.take(i as int)) == wins_sum_num(
                pp,
                pool@,
                vs.take(i as int),
            ) * sum.d(),
        decreases samples.len() - i,
    {
        let w = draw_win(p, pool, &samples[i]);
        let new_sum = sum.plus(&w);
        proof {
            assert(vs.take(i + 1).drop_last() =~= vs.take(i as int));
            assert(vs.take(i + 1).last() == samples@[i as int]@);
            let prev = vs.take(i as int);
            let opps = opps_of(pool@, samples@[i as int]@);
            crate::rational::lemma_rat_add_equiv(
                sum.n() as int,
                sum.d() as int,
                w.n() as int,
                w.d() as int,
                wins_sum_num(pp, pool@, prev) as int,
                wins_sum_den(pp, pool@, prev) as int,
                draw_win_num(pp, opps) as int,
                draw_den(pp, opps) as int,
                new_sum.n() as int,
                new_sum.d() as int,
            );
        }
        sum = new_sum;
        i = i + 1;
    }
    proof {
        assert(vs.take(samples@.len() as int) =~= vs);
    }
    let divisor = Rat::from_u64s(1, samples.len() as u64);
    let r = sum.times(&divisor);
    proof {
        crate::rational::lemma_rat_mul_equiv(
            sum.n() as int,
            sum.d() as int,
            1,
            samples@.len() as int,
            wins_sum_num(pp, pool@, vs) as int,
            wins_sum_den(pp, pool@, vs) as int,
            1,
            samples@.len() as int,
            r.n() as int,
            r.d() as int,
        );
        assert forall|a: int| 0 <= a < vs.len() implies sample_in_range(pool@, #[trigger] vs[a]) by {
            assert forall|t: int| 0 <= t < vs[a].len() implies #[trigger] vs[a][t]
                < pool@.len() by {
                assert(vs[a] == samples@[a]@);
                assert(samples@[a]@[t] < pool@.len());
            }
        }
        lemma_wins_sum_le(pp, pool@, vs);
        let wsn = wins_sum_num(pp, pool@, vs) as int;
        let wsd = wins_sum_den(pp, pool@, vs) as int;
        let m = samples@.len() as int;
        assert(wsd * m > 0) by (nonlinear_arith)
            requires
                wsd > 0,
                m >= 1,
        ;
        assert(r.n() <= r.d()) by (nonlinear_arith)
            requires
                r.n() * (wsd * m) == wsn * r.d(),
                wsn <= wsd * m,
                wsd * m > 0,
                r.d() > 0,
                r.n() >= 0,
        ;
    }
    r
}

/// The estimator's result equals the hypergeometric correction ratio times
/// the mean of the single-draw win probabilities over `samples`, each a
/// sample of `k1` distinct eligible opponents.
pub open spec fn estimate_matches(
    pool: Seq<Player>,
    p_idx: int,
    k1: nat,
    draws: nat,
    rn: nat,
    rd: nat,
    samples: Seq<Seq<usize>>,
) -> bool {
    let pp = pool[p_idx].played();
    &&& samples.len() == draws
    &&& (forall|i: int|
        0 <= i < samples.len() ==> valid_sample(pool, p_idx, #[trigger] samples[i], k1))
    &&& rn * (falling(pool.len() - 1, k1) * (wins_sum_den(pp, pool, samples) * draws)) == (falling(
        eligible_count(pool, p_idx) as int,
        k1,
    ) * wins_sum_num(pp, pool, samples)) * rd
}

/// The Monte Carlo win-probability estimate for the competitor at `p_idx`:
/// the mean single-draw win probability over `draws` random samples of
/// `contest_size - 1` eligible opponents, rescaled by the hypergeometric
/// correction ratio. When fewer than `contest_size - 1` opponents are
/// eligible, no full matchup exists and the estimate is exactly zero.
pub fn estimate_win_probability(
    pool: &Vec<Player>,
    p_idx: usize,
    contest_size: usize,
    draws: usize,
    rng: &mut StdRng,
) -> (r: Rat)
    requires
        pool_wf(pool@),
        p_idx < pool@.len(),
        contest_size >= 1,
        draws >= 1,
    ensures
        r.wf(),
        r.n() <= r.d(),
        eligible_count(pool@, p_idx as int) < contest_size - 1 ==> r.n() == 0,
        eligible_count(pool@, p_idx as int) >= contest_size - 1 ==> exists|
            samples: Seq<Seq<usize>>,
        |
            #[trigger] estimate_matches(
                pool@,
                p_idx as int,
                (contest_size - 1) as nat,
                draws as nat,
                r.n(),
                r.d(),
                samples,
            ),
{
    let ghost pp = pool@[p_idx as int].played();
    let k1 = contest_size - 1;
    let p = &pool[p_idx];
    let m = p.max_score();
    proof {
        lemma_max_unique(pp, m);
    }
    let eligible = eligible_indices(pool, p_idx, m);
    if eligible.len() < k1 {
        return Rat::from_u64s(0, 1);
    }
    proof {
        lemma_eligible_count_bound(pool@, p_idx as int, pool@.len() as int);
    }
    let ratio = hypergeom_ratio(eligible.len(), pool.len() - 1, k1);
    let mut sum = Rat::from_u64s(0, 1);
    let ghost mut gsamples: Seq<Seq<usize>> = Seq::empty();
    let mut d: usize = 0;
    while d < draws
        invariant
            d <= draws,
            pool_wf(pool@),
            p_idx < pool@.len(),
            p == &pool[p_idx as int],
            pp == pool@[p_idx as int].played(),
            k1 == contest_size - 1,
            k1 <= eligible@.len(),
            forall|i: int|
                0 <= i < eligible@.len() ==> eligible@[i] < pool@.len() && is_eligible(
                    pool@,
                    p_idx as int,
                    eligible@[i] as int,
                ),
            forall|i: int, j: int| 0 <= i < j < eligible@.len() ==> eligible@[i] < eligible@[j],
            gsamples.len() == d,
            forall|i: int|
                0 <= i < gsamples.len() ==> valid_sample(
                    pool@,
                    p_idx as int,
                    #[trigger] gsamples[i],
                    k1 as nat,
                ),
            sum.wf(),
            sum.n() * wins_sum_den(pp, pool@, gsamples) == wins_sum_num(pp, pool@, gsamples)
                * sum.d(),
        decreases draws - d,
    {
        let si = sample_indices(rng, eligible.len(), k1);
        let mut sample: Vec<usize> = Vec::new();
        let mut t: usize = 0;
        while t < si.len()
            invariant
                t <= si.len(),
                si@.len() == k1,
                k1 <= eligible@.len(),
                forall|i: int| 0 <= i < si@.len() ==> si@[i] < eligible@.len(),
                forall|i: int, j: int| 0 <= i < j < si@.len() ==> si@[i] != si@[j],
                forall|i: int|
                    0 <= i < eligible@.len() ==> eligible@[i] < pool@.len() && is_eligible(
                        pool@,
                        p_idx as int,
                        eligible@[i] as int,
                    ),
                forall|i: int, j: int| 0 <= i < j < eligible@.len() ==> eligible@[i] < eligible@[j],
                sample@.len() == t,
                forall|x: int| 0 <= x < t ==> sample@[x] == eligible@[si@[x] as int],
            decreases si.len() - t,
        {
            let idx = eligible[si[t]];
            sample.push(idx);
            t = t + 1;
        }
        proof {
            assert forall|x: int, y: int| 0 <= x < y < sample@.len() implies sample@[x]
                != sample@[y] by {
                let a = si@[x] as int;
                let b = si@[y] as int;
                if a < b {
                    assert(eligible@[a] < eligible@[b]);
                } else {
                    assert(eligible@[b] < eligible@[a]);
                }
            }
            assert(valid_sample(pool@, p_idx as int, sample@, k1 as nat));
        }
        let w = draw_win(p, pool, &sample);
        let new_sum = sum.plus(&w);
        proof {
            let next = gsamples.push(sample@);
            assert(next.drop_last() =~= gsamples);
            assert(next.last() == sample@);
            let opps = opps_of(pool@, sample@);
            crate::rational::lemma_rat_add_equiv(
                sum.n() as int,
                sum.d() as int,
                w.n() as int,
                w.d() as int,
                wins_sum_num(pp, pool@, gsamples) as int,
                wins_sum_den(pp, pool@, gsamples) as int,
                draw_win_num(pp, opps) as int,
                draw_den(pp, opps) as int,
                new_sum.n() as int,
                new_sum.d() as int,
            );
            gsamples = next;
        }
        sum = new_sum;
        d = d + 1;
    }
    let divisor = Rat::from_u64s(1, draws as u64);
    let mean = sum.times(&divisor);
    proof {
        crate::rational::lemma_rat_mul_equiv(
            sum.n() as int,
            sum.d() as int,
            1,
            draws as int,
            wins_sum_num(pp, pool@, gsamples) as int,
            wins_sum_den(pp, pool@, gsamples) as int,
            1,
            draws as int,
            mean.n() as int,
            mean.d() as int,
        );
    }
    let r = mean.times(&ratio);
    proof {
        let wsn = wins_sum_num(pp, pool@, gsamples) as int;
        let wsd = wins_sum_den(pp, pool@, gsamples) as int;
        let fe = falling(eligible@.len() as int, k1 as nat);
        let fd = falling(pool@.len() - 1, k1 as nat);
        lemma_falling_pos(eligible@.len() as int, k1 as nat);
        lemma_falling_pos(pool@.len() - 1, k1 as nat);
        crate::rational::lemma_rat_mul_equiv(
            mean.n() as int,
            mean.d() as int,
            ratio.n() as int,
            ratio.d() as int,
            wsn,
            wsd * (draws as int),
            fe,
            fd,
            r.n() as int,
            r.d() as int,
        );
        assert(r.n() * (fd * (wsd * (draws as int))) == (fe * wsn) * r.d()) by (nonlinear_arith)
            requires
                r.n() * ((wsd * (draws as int)) * fd) == (wsn * fe) * r.d(),
        ;
        assert(estimate_matches(
            pool@,
            p_idx as int,
            (contest_size - 1) as nat,
            draws as nat,
            r.n(),
            r.d(),
            gsamples,
        ));
        assert forall|a: int| 0 <= a < gsamples.len() implies sample_in_range(
            pool@,
            #[trigger] gsamples[a],
        ) by {
            assert(valid_sample(pool@, p_idx as int, gsamples[a], k1 as nat));
        }
        lemma_wins_sum_le(pp, pool@, gsamples);
        lemma_falling_mono(eligible@.len() as int, pool@.len() - 1, k1 as nat);
        let m = draws as int;
        assert(wsd * m > 0) by (nonlinear_arith)
            requires
                wsd > 0,
                m >= 1,
        ;
        assert(fe * wsn <= fd * (wsd * m)) by (nonlinear_arith)
            requires
                fe <= fd,
                wsn <= wsd * m,
                fe >= 0,
                fd >= 0,
                wsn >= 0,
                wsd * m > 0,
        ;
        assert(fd * (wsd * m) > 0) by (nonlinear_arith)
            requires
                fd > 0,
                wsd * m > 0,
        ;
        assert(r.n() <= r.d()) by (nonlinear_arith)
            requires
                r.n() * (fd * (wsd * m)) == (fe * wsn) * r.d(),
                fe * wsn <= fd * (wsd * m),
                fd * (wsd * m) > 0,
                r.d() > 0,
                r.n() >= 0,
        ;
    }
    r
}

proof fn lemma_eligible_count_bound(pool: Seq<Player>, p_idx: int, n: int)
    requires
        0 <= p_idx < n,
    ensures
        eligible_count_upto(pool, p_idx, n) <= n - 1,
    decreases n,
{
    if p_idx == n - 1 {
        lemma_eligible_count_upto_le(pool, p_idx, n - 1);
    } else {
        lemma_eligible_count_bound(pool, p_idx, n - 1);
    }
}

proof fn lemma_eligible_count_upto_le(pool: Seq<Player>, p_idx: int, n: int)
    ensures
        eligible_count_upto(pool, p_idx, n) <= if n <= 0 {
            0
        } else {
            n
        },
    decreases n,
{
    if n > 0 {
        lemma_eligible_count_upto_le(pool, p_idx, n - 1);
    }
}

} // verus!
