//! Competitor records and their empirical score distributions.
//!
//! A competitor's history is a sequence of optional scores; `None` marks an
//! event the competitor did not play, and such slots are excluded from every
//! distributional query. The empirical CDF and PMF are exact fractions over
//! the played entries: `ecdf` counts played scores at most a value, `epmf`
//! counts played scores equal to it, both over the play count.

use vstd::prelude::*;
use itertools::Itertools;

verus! {

/// The played scores of a history: the `Some` entries, in order.
pub open spec fn played_of(h: Seq<Option<i32>>) -> Seq<i32>
    decreases h.len(),
{
    if h.len() == 0 {
        Seq::empty()
    } else {
        let rest = played_of(h.drop_last());
        match h.last() {
            Some(c) => rest.push(c),
            None => rest,
        }
    }
}

/// How many entries of `s` are at most `c`.
pub open spec fn count_le(s: Seq<i32>, c: i32) -> nat
    decreases s.len(),
{
    if s.len() == 0 {
        0
    } else {
        count_le(s.drop_last(), c) + if s.last() <= c {
            1nat
        } else {
            0nat
        }
    }
}

/// How many entries of `s` equal `c`.
pub open spec fn count_eq(s: Seq<i32>, c: i32) -> nat
    decreases s.len(),
{
    if s.len() == 0 {
        0
    } else {
        count_eq(s.drop_last(), c) + if s.last() == c {
            1nat
        } else {
            0nat
        }
    }
}

/// The largest entry of `s` (zero for an empty sequence).
pub open spec fn max_of(s: Seq<i32>) -> i32
    decreases s.len(),
{
    if s.len() == 0 {
        0
    } else if s.len() == 1 {
        s[0]
    } else if s.last() > max_of(s.drop_last()) {
        s.last()
    } else {
        max_of(s.drop_last())
    }
}

/// The distinct entries of `s`, each at its first occurrence.
pub open spec fn distinct_of(s: Seq<i32>) -> Seq<i32>
    decreases s.len(),
{
    if s.len() == 0 {
        Seq::empty()
    } else {
        let rest = distinct_of(s.drop_last());
        if rest.contains(s.last()) {
            rest
        } else {
            rest.push(s.last())
        }
    }
}

proof fn lemma_played_step(h: Seq<Option<i32>>, i: int)
    requires
        0 <= i < h.len(),
    ensures
        played_of(h.take(i + 1)) == match h[i] {
            Some(c) => played_of(h.take(i)).push(c),
            None => played_of(h.take(i)),
        },
{
    let t = h.take(i + 1);
    assert(t.drop_last() =~= h.take(i));
    assert(t.last() == h[i]);
}

proof fn lemma_count_le_push(s: Seq<i32>, x: i32, c: i32)
    ensures
        count_le(s.push(x), c) == count_le(s, c) + if x <= c {
            1nat
        } else {
            0nat
        },
{
    assert(s.push(x).drop_last() =~= s);
}

proof fn lemma_count_eq_push(s: Seq<i32>, x: i32, c: i32)
    ensures
        count_eq(s.push(x), c) == count_eq(s, c) + if x == c {
            1nat
        } else {
            0nat
        },
{
    assert(s.push(x).drop_last() =~= s);
}

/// A record of one competitor: a name, the per-event score history, and the
/// cached number of played entries.
pub struct Player {
    pub username: String,
    pub coin_history: Vec<Option<i32>>,
    pub playcount: usize,
}

/// An exact fraction of counts, the value of an empirical CDF or PMF query.
pub struct Frac {
    pub num: usize,
    pub den: usize,
}

impl Player {
    /// The played scores of this competitor.
    pub open spec fn played(self) -> Seq<i32> {
        played_of(self.coin_history@)
    }

    /// The cached play count matches the history.
    pub open spec fn wf(self) -> bool {
        self.playcount == self.played().len()
    }

    /// Builds a record, computing the play count from the history.
    pub fn new(username: String, coin_history: Vec<Option<i32>>) -> (p: Player)
        ensures
            p.wf(),
            p.username == username,
            p.coin_history == coin_history,
    {
        let playcount = count_played(&coin_history);
        Player { username, coin_history, playcount }
    }

    /// The fraction of this competitor's played scores at most `c`.
    pub fn ecdf(&self, c: i32) -> (r: Frac)
        requires
            self.wf(),
            self.playcount > 0,
        ensures
            r.num == count_le(self.played(), c),
            r.den == self.playcount,
            r.num <= r.den,
    {
        let num = count_le_exec(&self.coin_history, c);
        proof {
            lemma_count_le_len(self.played(), c);
        }
        Frac { num, den: self.playcount }
    }

    /// The fraction of this competitor's played scores equal to `c`.
    pub fn epmf(&self, c: i32) -> (r: Frac)
        requires
            self.wf(),
            self.playcount > 0,
        ensures
            r.num == count_eq(self.played(), c),
            r.den == self.playcount,
            r.num <= r.den,
    {
        let num = count_eq_exec(&self.coin_history, c);
        proof {
            lemma_count_eq_le_count_le(self.played(), c);
            lemma_count_le_len(self.played(), c);
        }
        Frac { num, den: self.playcount }
    }

    /// The played scores as a vector.
    pub fn played_values(&self) -> (r: Vec<i32>)
        ensures
            r@ == self.played(),
    {
        let h = &self.coin_history;
        let mut r: Vec<i32> = Vec::new();
        let mut i: usize = 0;
        while i < h.len()
            invariant
                i <= h.len(),
                r@ == played_of(h@.take(i as int)),
            decreases h.len() - i,
        {
            proof {
                lemma_played_step(h@, i as int);
            }
            match h[i] {
                Some(c) => r.push(c),
                None => (),
            }
            i = i + 1;
        }
        proof {
            assert(h@.take(h@.len() as int) =~= h@);
        }
        r
    }

    /// The distinct played scores, each at its first occurrence.
    pub fn distinct_played(&self) -> (r: Vec<i32>)
        ensures
            r@ == distinct_of(self.played()),
    {
        let values = self.played_values();
        distinct_scores(&values)
    }

    /// The largest played score.
    pub fn max_score(&self) -> (m: i32)
        requires
            self.wf(),
            self.playcount > 0,
        ensures
            self.played().contains(m),
            forall|i: int| 0 <= i < self.played().len() ==> self.played()[i] <= m,
    {
        let h = &self.coin_history;
        let mut best: Option<i32> = None;
        let mut i: usize = 0;
        while i < h.len()
            invariant
                i <= h.len(),
                self.wf(),
                match best {
                    Some(b) => played_of(h@.take(i as int)).contains(b) && forall|j: int|
                        0 <= j < played_of(h@.take(i as int)).len() ==> played_of(
                            h@.take(i as int),
                        )[j] <= b,
                    None => played_of(h@.take(i as int)).len() == 0,
                },
                h == self.coin_history,
            decreases h.len() - i,
        {
            proof {
                lemma_played_step(h@, i as int);
            }
            let ghost prefix = played_of(h@.take(i as int));
            match h[i] {
                Some(c) => {
                    match best {
                        Some(b) => {
                            if c > b {
                                best = Some(c);
                            }
                            proof {
                                let now = played_of(h@.take(i + 1));
                                assert(now == prefix.push(c));
                                assert(now[now.len() - 1] == c);
                                if c <= b {
                                    let k = choose|k: int|
                                        0 <= k < prefix.len() && prefix[k] == b;
                                    assert(now[k] == b);
                                }
                            }
                        },
                        None => {
                            best = Some(c);
                            proof {
                                let now = played_of(h@.take(i + 1));
                                assert(now == prefix.push(c));
                                assert(now[0] == c);
                            }
                        },
                    }
                },
                None => (),
            }
            i = i + 1;
        }
        proof {
            assert(h@.take(h@.len() as int) =~= h@);
        }
        match best {
            Some(b) => b,
            None => {
                proof {
                    assert(false);
                }
                0
            },
        }
    }
}

/// Two records are the same competitor exactly when their names match.
impl PartialEq for Player {
    fn eq(&self, other: &Player) -> (r: bool) {
        self.username == other.username
    }
}

impl vstd::std_specs::cmp::PartialEqSpecImpl for Player {
    open spec fn obeys_eq_spec() -> bool {
        true
    }

    open spec fn eq_spec(&self, other: &Player) -> bool {
        self.username@ == other.username@
    }
}

impl Eq for Player {}

/// How many entries of the history are played.
pub fn count_played(h: &Vec<Option<i32>>) -> (r: usize)
    ensures
        r == played_of(h@).len(),
{
    let mut count: usize = 0;
    let mut i: usize = 0;
    while i < h.len()
        invariant
            i <= h.len(),
            count == played_of(h@.take(i as int)).len(),
            count <= i,
        decreases h.len() - i,
    {
        proof {
            lemma_played_step(h@, i as int);
        }
        match h[i] {
            Some(_) => count = count + 1,
            None => (),
        }
        i = i + 1;
    }
    proof {
        assert(h@.take(h@.len() as int) =~= h@);
    }
    count
}

fn count_le_exec(h: &Vec<Option<i32>>, c: i32) -> (r: usize)
    ensures
        r == count_le(played_of(h@), c),
{
    let mut count: usize = 0;
    let mut i: usize = 0;
    while i < h.len()
        invariant
            i <= h.len(),
            count == count_le(played_of(h@.take(i as int)), c),
            count <= i,
        decreases h.len() - i,
    {
        proof {
            lemma_played_step(h@, i as int);
            if let Some(x) = h@[i as int] {
                lemma_count_le_push(played_of(h@.take(i as int)), x, c);
            }
            lemma_count_le_len(played_of(h@.take(i as int)), c);
            lemma_played_len(h@.take(i as int));
        }
        match h[i] {
            Some(x) => {
                if x <= c {
                    count = count + 1;
                }
            },
            None => (),
        }
        i = i + 1;
    }
    proof {
        assert(h@.take(h@.len() as int) =~= h@);
    }
    count
}

fn count_eq_exec(h: &Vec<Option<i32>>, c: i32) -> (r: usize)
    ensures
        r == count_eq(played_of(h@), c),
{
    let mut count: usize = 0;
    let mut i: usize = 0;
    while i < h.len()
        invariant
            i <= h.len(),
            count == count_eq(played_of(h@.take(i as int)), c),
            count <= i,
        decreases h.len() - i,
    {
        proof {
            lemma_played_step(h@, i as int);
            if let Some(x) = h@[i as int] {
                lemma_count_eq_push(played_of(h@.take(i as int)), x, c);
            }
        }
        match h[i] {
            Some(x) => {
                if x == c {
                    count = count + 1;
                }
            },
            None => (),
        }
        i = i + 1;
    }
    proof {
        assert(h@.take(h@.len() as int) =~= h@);
    }
    count
}

proof fn lemma_played_len(h: Seq<Option<i32>>)
    ensures
        played_of(h).len() <= h.len(),
    decreases h.len(),
{
    if h.len() > 0 {
        lemma_played_len(h.drop_last());
    }
}

/// A count of matching entries is at most the length.
pub proof fn lemma_count_le_len(s: Seq<i32>, c: i32)
    ensures
        count_le(s, c) <= s.len(),
    decreases s.len(),
{
    if s.len() > 0 {
        lemma_count_le_len(s.drop_last(), c);
    }
}

/// Every played score is at most the maximum, so the empirical CDF at the
/// maximum counts every played score: `ecdf(p, max_score)` is exactly one.
pub proof fn lemma_ecdf_at_max(s: Seq<i32>, m: i32)
    requires
        forall|i: int| 0 <= i < s.len() ==> s[i] <= m,
    ensures
        count_le(s, m) == s.len(),
    decreases s.len(),
{
    if s.len() > 0 {
        assert(s.drop_last() =~= s.take(s.len() - 1));
        lemma_ecdf_at_max(s.drop_last(), m);
    }
}

/// The empirical CDF is non-decreasing in its value argument.
pub proof fn lemma_ecdf_monotone(s: Seq<i32>, v1: i32, v2: i32)
    requires
        v1 <= v2,
    ensures
        count_le(s, v1) <= count_le(s, v2),
    decreases s.len(),
{
    if s.len() > 0 {
        lemma_ecdf_monotone(s.drop_last(), v1, v2);
    }
}

/// The empirical CDF dominates the empirical PMF at every value: scores
/// equal to `c` are among the scores at most `c`.
pub proof fn lemma_count_eq_le_count_le(s: Seq<i32>, c: i32)
    ensures
        count_eq(s, c) <= count_le(s, c),
    decreases s.len(),
{
    if s.len() > 0 {
        lemma_count_eq_le_count_le(s.drop_last(), c);
    }
}

/// The sum of `count_eq(s, c)` over the entries of `values`.
pub open spec fn sum_eq_counts(values: Seq<i32>, s: Seq<i32>) -> nat
    decreases values.len(),
{
    if values.len() == 0 {
        0
    } else {
        sum_eq_counts(values.drop_last(), s) + count_eq(s, values.last())
    }
}

/// Membership in the distinct-value sequence matches membership in the
/// original sequence.
pub proof fn lemma_distinct_of_contains(s: Seq<i32>, x: i32)
    ensures
        distinct_of(s).contains(x) == s.contains(x),
    decreases s.len(),
{
    if s.len() > 0 {
        lemma_distinct_of_contains(s.drop_last(), x);
        let rest = distinct_of(s.drop_last());
        if s.contains(x) {
            if s.last() == x {
                if !rest.contains(x) {
                    assert(distinct_of(s) == rest.push(x));
                    assert(distinct_of(s)[distinct_of(s).len() - 1] == x);
                }
            } else {
                let i = choose|i: int| 0 <= i < s.len() && s[i] == x;
                assert(s.drop_last()[i] == x);
                assert(s.drop_last().contains(x));
                if !rest.contains(s.last()) {
                    let j = choose|j: int| 0 <= j < rest.len() && rest[j] == x;
                    assert(distinct_of(s)[j] == x);
                }
            }
        } else {
            assert(!s.drop_last().contains(x)) by {
                if s.drop_last().contains(x) {
                    let i = choose|i: int| 0 <= i < s.drop_last().len() && s.drop_last()[i] == x;
                    assert(s[i] == x);
                }
            }
            if !rest.contains(s.last()) {
                if distinct_of(s).contains(x) {
                    let j = choose|j: int| 0 <= j < distinct_of(s).len() && distinct_of(s)[j] == x;
                    if j < rest.len() {
                        assert(rest[j] == x);
                    } else {
                        assert(s.last() == x);
                        assert(s[s.len() - 1] == x);
                    }
                }
            }
        }
    }
}

/// The distinct-value sequence has no repeated entries.
pub proof fn lemma_distinct_of_nodup(s: Seq<i32>)
    ensures
        forall|i: int, j: int|
            0 <= i < j < distinct_of(s).len() ==> distinct_of(s)[i] != distinct_of(s)[j],
    decreases s.len(),
{
    if s.len() > 0 {
        lemma_distinct_of_nodup(s.drop_last());
        let rest = distinct_of(s.drop_last());
        if !rest.contains(s.last()) {
            assert forall|i: int, j: int|
                0 <= i < j < distinct_of(s).len() implies distinct_of(s)[i] != distinct_of(
                s,
            )[j] by {
                if j < rest.len() {
                } else {
                    assert(distinct_of(s)[j] == s.last());
                    assert(distinct_of(s)[i] == rest[i]);
                    assert(rest.contains(rest[i]));
                }
            }
        }
    }
}

/// A value is absent from a sequence exactly when its count is zero.
pub proof fn lemma_count_eq_zero(s: Seq<i32>, c: i32)
    ensures
        (count_eq(s, c) == 0) == !s.contains(c),
    decreases s.len(),
{
    if s.len() > 0 {
        lemma_count_eq_zero(s.drop_last(), c);
        if s.last() == c {
            assert(s[s.len() - 1] == c);
        } else {
            if s.contains(c) {
                let i = choose|i: int| 0 <= i < s.len() && s[i] == c;
                assert(s.drop_last()[i] == c);
            }
            if s.drop_last().contains(c) {
                let i = choose|i: int| 0 <= i < s.drop_last().len() && s.drop_last()[i] == c;
                assert(s[i] == c);
            }
        }
    }
}

proof fn lemma_sum_push(values: Seq<i32>, s: Seq<i32>, e: i32)
    ensures
        sum_eq_counts(values, s.push(e)) == sum_eq_counts(values, s) + count_eq(values, e),
    decreases values.len(),
{
    if values.len() > 0 {
        lemma_sum_push(values.drop_last(), s, e);
        lemma_count_eq_push(s, e, values.last());
    }
}

proof fn lemma_nodup_count(values: Seq<i32>, e: i32)
    requires
        forall|i: int, j: int| 0 <= i < j < values.len() ==> values[i] != values[j],
    ensures
        count_eq(values, e) == if values.contains(e) {
            1nat
        } else {
            0nat
        },
    decreases values.len(),
{
    if values.len() > 0 {
        let rest = values.drop_last();
        assert(forall|i: int, j: int| 0 <= i < j < rest.len() ==> rest[i] != rest[j]);
        lemma_nodup_count(rest, e);
        if values.last() == e {
            assert(!rest.contains(e)) by {
                if rest.contains(e) {
                    let i = choose|i: int| 0 <= i < rest.len() && rest[i] == e;
                    assert(values[i] == e);
                    assert(values[values.len() - 1] == e);
                }
            }
            assert(values[values.len() - 1] == e);
        } else {
            if values.contains(e) {
                let i = choose|i: int| 0 <= i < values.len() && values[i] == e;
                assert(rest[i] == e);
            }
            if rest.contains(e) {
                let i = choose|i: int| 0 <= i < rest.len() && rest[i] == e;
                assert(values[i] == e);
            }
        }
    }
}

/// The empirical PMF sums to one over the distinct played values: the counts
/// of the distinct scores add up to the number of played scores, so the
/// fractions over the play count add up to exactly one.
pub proof fn lemma_epmf_total(s: Seq<i32>)
    ensures
        sum_eq_counts(distinct_of(s), s) == s.len(),
    decreases s.len(),
{
    if s.len() > 0 {
        let sp = s.drop_last();
        let e = s.last();
        lemma_epmf_total(sp);
        lemma_distinct_of_contains(sp, e);
        lemma_distinct_of_nodup(sp);
        let rest = distinct_of(sp);
        assert(sp.push(e) =~= s);
        lemma_sum_push(rest, sp, e);
        lemma_nodup_count(rest, e);
        if !rest.contains(e) {
            assert(rest.push(e).drop_last() =~= rest);
            lemma_count_eq_zero(sp, e);
            lemma_count_eq_push(sp, e, e);
        }
    }
}

/// Relies on `itertools::Itertools::unique`: the returned iterator keeps the
/// first occurrence of each element, in order, and drops later duplicates.
#[verifier::external_body]
fn distinct_scores(v: &Vec<i32>) -> (r: Vec<i32>)
    ensures
        r@ == distinct_of(v@),
{
    v.iter().copied().unique().collect()
}

} // verus!
