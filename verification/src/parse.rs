//! Parsing one line of a score table into a competitor record.
//!
//! A line holds comma-separated fields: the competitor's name, then one
//! score per event. Fields are trimmed of blanks; a score must be a decimal
//! integer, and a non-positive score marks an event the competitor did not
//! play. A competitor who played no event at all is filtered out here, so
//! records that reach the estimator always have a positive play count.

use vstd::prelude::*;
use crate::player::{count_played, played_of};

verus! {

/// A comma.
pub open spec fn is_sep(b: u8) -> bool {
    b == 44
}

/// A blank: space, tab or carriage return.
pub open spec fn is_ws(b: u8) -> bool {
    b == 32 || b == 9 || b == 13
}

pub open spec fn is_digit(b: u8) -> bool {
    48 <= b <= 57
}

/// Index of the first comma, or the length when there is none.
pub open spec fn find_sep(s: Seq<u8>) -> int
    decreases s.len(),
{
    if s.len() == 0 {
        0
    } else if is_sep(s[0]) {
        0
    } else {
        1 + find_sep(s.drop_first())
    }
}

/// The first comma index lies within the line.
pub proof fn lemma_find_sep_bounds(s: Seq<u8>)
    ensures
        0 <= find_sep(s) <= s.len(),
    decreases s.len(),
{
    if s.len() > 0 && !is_sep(s[0]) {
        lemma_find_sep_bounds(s.drop_first());
    }
}

/// The comma-separated fields of a line; a line without commas is one
/// field, so there is always at least one.
pub open spec fn fields_of(s: Seq<u8>) -> Seq<Seq<u8>>
    decreases s.len(),
    via fields_of_decreases
{
    let c = find_sep(s);
    if c == s.len() {
        seq![s]
    } else {
        seq![s.take(c)] + fields_of(s.skip(c + 1))
    }
}

#[via_fn]
proof fn fields_of_decreases(s: Seq<u8>) {
    lemma_find_sep_bounds(s);
}

/// How many leading blanks the field has.
pub open spec fn lead_ws(s: Seq<u8>) -> int
    decreases s.len(),
{
    if s.len() == 0 {
        0
    } else if !is_ws(s[0]) {
        0
    } else {
        1 + lead_ws(s.drop_first())
    }
}

/// How many trailing blanks the field has.
pub open spec fn trail_ws(s: Seq<u8>) -> int
    decreases s.len(),
{
    if s.len() == 0 {
        0
    } else if !is_ws(s.last()) {
        0
    } else {
        1 + trail_ws(s.drop_last())
    }
}

/// The field with leading and trailing blanks removed.
pub open spec fn trim_of(s: Seq<u8>) -> Seq<u8> {
    if lead_ws(s) == s.len() {
        Seq::empty()
    } else {
        s.subrange(lead_ws(s), s.len() - trail_ws(s))
    }
}

/// The value of a digit string, most significant digit first.
pub open spec fn dv(s: Seq<u8>) -> int
    decreases s.len(),
{
    if s.len() == 0 {
        0
    } else {
        dv(s.drop_last()) * 10 + (s.last() - 48)
    }
}

pub open spec fn digits_ok(s: Seq<u8>) -> bool {
    s.len() >= 1 && forall|i: int| 0 <= i < s.len() ==> is_digit(#[trigger] s[i])
}

/// The decimal integer a field denotes: an optional sign, then digits,
/// within the range of `i32`; anything else is no integer.
pub open spec fn spec_parse_i32(s: Seq<u8>) -> Option<int> {
    if s.len() >= 1 && (s[0] == 45 || s[0] == 43) {
        let mag = s.drop_first();
        if digits_ok(mag) && ((s[0] == 45 && dv(mag) <= 0x8000_0000) || (s[0] == 43 && dv(mag)
            <= 0x7fff_ffff)) {
            if s[0] == 45 {
                Some(-dv(mag))
            } else {
                Some(dv(mag))
            }
        } else {
            None
        }
    } else {
        if digits_ok(s) && dv(s) <= 0x7fff_ffff {
            Some(dv(s))
        } else {
            None
        }
    }
}

/// The history slot a score field denotes: a positive score is a played
/// event, any other integer an unplayed one.
pub open spec fn score_of(f: Seq<u8>) -> Option<i32> {
    match spec_parse_i32(trim_of(f)) {
        Some(v) => if v > 0 {
            Some(v as i32)
        } else {
            None
        },
        None => None,
    }
}

/// How many score fields of the line are taken: all after the name, up to
/// `stop`.
pub open spec fn taken_count(s: Seq<u8>, stop: nat) -> int {
    let n = fields_of(s).len() - 1;
    if stop <= n {
        stop as int
    } else {
        n
    }
}

/// The score history the line denotes.
pub open spec fn hist_of(s: Seq<u8>, stop: nat) -> Seq<Option<i32>> {
    Seq::new(taken_count(s, stop) as nat, |i: int| score_of(fields_of(s)[i + 1]))
}

/// Some taken score field is not an integer.
pub open spec fn has_bad_score(s: Seq<u8>, stop: nat) -> bool {
    exists|i: int|
        0 <= i < taken_count(s, stop) && spec_parse_i32(trim_of(#[trigger] fields_of(s)[i + 1]))
            is None
}

/// A score field could not be read as an integer.
pub enum ParseError {
    MalformedScore,
}

proof fn lemma_find_sep_at(s: Seq<u8>, i: int)
    requires
        0 <= i <= s.len(),
        forall|k: int| 0 <= k < i ==> !is_sep(#[trigger] s[k]),
        i == s.len() || is_sep(s[i]),
    ensures
        find_sep(s) == i,
    decreases i,
{
    if s.len() == 0 {
    } else if i == 0 {
    } else {
        assert(!is_sep(s[0]));
        assert(forall|k: int| 0 <= k < i - 1 ==> s.drop_first()[k] == #[trigger] s[k + 1]);
        lemma_find_sep_at(s.drop_first(), i - 1);
    }
}

proof fn lemma_lead_ws_at(s: Seq<u8>, i: int)
    requires
        0 <= i <= s.len(),
        forall|k: int| 0 <= k < i ==> is_ws(#[trigger] s[k]),
        i == s.len() || !is_ws(s[i]),
    ensures
        lead_ws(s) == i,
    decreases i,
{
    if s.len() == 0 {
    } else if i == 0 {
    } else {
        assert(is_ws(s[0]));
        assert(forall|k: int| 0 <= k < i - 1 ==> s.drop_first()[k] == #[trigger] s[k + 1]);
        lemma_lead_ws_at(s.drop_first(), i - 1);
    }
}

proof fn lemma_trail_ws_at(s: Seq<u8>, j: int)
    requires
        0 <= j <= s.len(),
        forall|k: int| j <= k < s.len() ==> is_ws(#[trigger] s[k]),
        j == 0 || !is_ws(s[j - 1]),
    ensures
        trail_ws(s) == s.len() - j,
    decreases s.len() - j,
{
    if j == s.len() {
    } else {
        assert(is_ws(s.last()));
        assert(forall|k: int| 0 <= k < s.len() - 1 ==> s.drop_last()[k] == #[trigger] s[k]);
        lemma_trail_ws_at(s.drop_last(), j);
    }
}

/// Fields of a line, split at the commas.
fn split_fields(s: &Vec<u8>) -> (r: Vec<Vec<u8>>)
    ensures
        r@.len() == fields_of(s@).len(),
        forall|i: int| 0 <= i < r@.len() ==> (#[trigger] r@[i])@ == fields_of(s@)[i],
{
    let ghost whole = fields_of(s@);
    let mut r: Vec<Vec<u8>> = Vec::new();
    let mut start: usize = 0;
    let mut done = false;
    proof {
        assert(s@.skip(0) =~= s@);
        assert(Seq::new(0, |i: int| r@[i]@) + fields_of(s@) =~= fields_of(s@));
    }
    while !done
        invariant
            start <= s@.len(),
            whole == fields_of(s@),
            !done ==> whole =~= Seq::new(r@.len() as nat, |i: int| r@[i]@) + fields_of(
                s@.skip(start as int),
            ),
            done ==> whole =~= Seq::new(r@.len() as nat, |i: int| r@[i]@),
        decreases s@.len() - start + 1, (if done {
            0int
        } else {
            1int
        }),
    {
        let ghost rest = s@.skip(start as int);
        let mut i: usize = start;
        while i < s.len() && s[i] != 44
            invariant
                start <= i <= s@.len(),
                forall|k: int| start <= k < i ==> !is_sep(#[trigger] s@[k]),
            decreases s@.len() - i,
        {
            i = i + 1;
        }
        proof {
            assert(forall|k: int| 0 <= k < i - start ==> rest[k] == #[trigger] s@[k + start]);
            lemma_find_sep_at(rest, i - start);
        }
        let mut field: Vec<u8> = Vec::new();
        let mut k: usize = start;
        while k < i
            invariant
                start <= k <= i <= s@.len(),
                field@ == s@.subrange(start as int, k as int),
            decreases i - k,
        {
            field.push(s[k]);
            proof {
                assert(field@ =~= s@.subrange(start as int, k + 1));
            }
            k = k + 1;
        }
        proof {
            assert(field@ =~= rest.take(i - start));
        }
        let ghost old_r = r@;
        r.push(field);
        proof {
            if i == s@.len() {
                assert(fields_of(rest) =~= seq![rest.take(i - start)]);
            } else {
                assert(rest.skip(i - start + 1) =~= s@.skip(i + 1));
            }
            assert(Seq::new(r@.len() as nat, |x: int| r@[x]@) =~= Seq::new(
                old_r.len() as nat,
                |x: int| old_r[x]@,
            ) + seq![field@]);
        }
        if i == s.len() {
            done = true;
            proof {
                assert(whole =~= Seq::new(r@.len() as nat, |x: int| r@[x]@));
            }
        } else {
            start = i + 1;
            proof {
                assert(whole =~= Seq::new(r@.len() as nat, |x: int| r@[x]@) + fields_of(
                    s@.skip(start as int),
                ));
            }
        }
    }
    proof {
        assert forall|i: int| 0 <= i < r@.len() implies (#[trigger] r@[i])@ == fields_of(s@)[i] by {
            assert(fields_of(s@)[i] == Seq::new(r@.len() as nat, |x: int| r@[x]@)[i]);
        }
    }
    r
}

/// The field with leading and trailing blanks removed.
fn trim_bytes(f: &Vec<u8>) -> (r: Vec<u8>)
    ensures
        r@ == trim_of(f@),
{
    let mut i: usize = 0;
    while i < f.len() && (f[i] == 32 || f[i] == 9 || f[i] == 13)
        invariant
            i <= f@.len(),
            forall|k: int| 0 <= k < i ==> is_ws(#[trigger] f@[k]),
        decreases f@.len() - i,
    {
        i = i + 1;
    }
    proof {
        lemma_lead_ws_at(f@, i as int);
    }
    if i == f.len() {
        let r: Vec<u8> = Vec::new();
        proof {
            assert(r@ =~= trim_of(f@));
        }
        return r;
    }
    let mut j: usize = f.len();
    while j > i && (f[j - 1] == 32 || f[j - 1] == 9 || f[j - 1] == 13)
        invariant
            i <= j <= f@.len(),
            forall|k: int| j <= k < f@.len() ==> is_ws(#[trigger] f@[k]),
        decreases j,
    {
        j = j - 1;
    }
    proof {
        assert(!is_ws(f@[i as int]));
        assert(j == i || !is_ws(f@[j - 1]));
        assert(j > i);
        lemma_trail_ws_at(f@, j as int);
    }
    let mut r: Vec<u8> = Vec::new();
    let mut k: usize = i;
    while k < j
        invariant
            i <= k <= j <= f@.len(),
            r@ == f@.subrange(i as int, k as int),
        decreases j - k,
    {
        r.push(f[k]);
        proof {
            assert(r@ =~= f@.subrange(i as int, k + 1));
        }
        k = k + 1;
    }
    proof {
        assert(r@ =~= trim_of(f@));
    }
    r
}

proof fn lemma_dv_nonneg(s: Seq<u8>)
    requires
        forall|i: int| 0 <= i < s.len() ==> is_digit(#[trigger] s[i]),
    ensures
        dv(s) >= 0,
    decreases s.len(),
{
    if s.len() > 0 {
        assert(forall|i: int| 0 <= i < s.len() - 1 ==> s.drop_last()[i] == #[trigger] s[i]);
        lemma_dv_nonneg(s.drop_last());
        let x = dv(s.drop_last());
        assert(x * 10 >= 0) by (nonlinear_arith)
            requires
                x >= 0,
        ;
    }
}

/// The decimal integer a trimmed field denotes, if it is one.
fn parse_i32_bytes(f: &Vec<u8>) -> (r: Option<i32>)
    ensures
        match r {
            Some(v) => spec_parse_i32(f@) == Some(v as int),
            None => spec_parse_i32(f@) is None,
        },
{
    if f.len() == 0 {
        return None;
    }
    let b0 = f[0];
    let neg = b0 == 45;
    let signed = b0 == 45 || b0 == 43;
    let start: usize = if signed {
        1
    } else {
        0
    };
    let ghost region = if signed {
        f@.drop_first()
    } else {
        f@
    };
    proof {
        assert(forall|k: int| 0 <= k < region.len() ==> #[trigger] region[k] == f@[k + start]);
    }
    if f.len() == start {
        return None;
    }
    let limit: u64 = 0x8000_0000;
    let mut mag: u64 = 0;
    let mut over = false;
    let mut k: usize = start;
    while k < f.len()
        invariant
            start <= k <= f@.len(),
            start <= 1,
            f@.len() >= 1,
            (start == 1) == (f@[0] == 45 || f@[0] == 43),
            start == 1 ==> region == f@.drop_first(),
            start == 0 ==> region == f@,
            region.len() == f@.len() - start,
            forall|x: int| 0 <= x < region.len() ==> #[trigger] region[x] == f@[x + start],
            limit == 0x8000_0000,
            forall|x: int| 0 <= x < k - start ==> is_digit(#[trigger] region[x]),
            !over ==> mag == dv(region.take(k - start)) && mag <= limit,
            over ==> dv(region.take(k - start)) > limit,
        decreases f@.len() - k,
    {
        let b = f[k];
        if b < 48 || b > 57 {
            proof {
                assert(region[k - start] == f@[k as int]);
                assert(!is_digit(region[k - start]));
                assert(!digits_ok(region));
            }
            return None;
        }
        let d = (b - 48) as u64;
        proof {
            let pre = region.take(k - start);
            let now = region.take(k - start + 1);
            assert(now.drop_last() =~= pre);
            assert(now.last() == region[k - start]);
            assert(forall|x: int| 0 <= x < pre.len() ==> pre[x] == #[trigger] region[x]);
            lemma_dv_nonneg(pre);
            if over {
                let x = dv(pre);
                assert(x * 10 + (region[k - start] - 48) > limit) by (nonlinear_arith)
                    requires
                        x > limit,
                        region[k - start] >= 48,
                        limit == 0x8000_0000,
                ;
            }
        }
        if !over {
            let next = mag * 10 + d;
            if next > limit {
                over = true;
            } else {
                mag = next;
            }
            proof {
                if over {
                    assert(dv(region.take(k - start + 1)) > limit);
                }
            }
        }
        k = k + 1;
    }
    proof {
        assert(region.take(region.len() as int) =~= region);
        assert(digits_ok(region));
    }
    if over {
        return None;
    }
    if neg {
        if mag <= limit {
            let v = (-(mag as i64)) as i32;
            return Some(v);
        }
        None
    } else {
        if mag <= limit - 1 {
            let v = mag as i32;
            return Some(v);
        }
        None
    }
}

/// A parsed competitor record: the trimmed name bytes, the score history
/// and its play count. `Player::new` turns it into a record once the name
/// is decoded.
pub struct ParsedRecord {
    pub name: Vec<u8>,
    pub coin_history: Vec<Option<i32>>,
    pub playcount: usize,
}

/// Reads one line of the score table, taking at most `stop` score fields.
/// Returns the record when the competitor played at least one taken event,
/// `None` when every taken event is unplayed (such records never reach the
/// estimator), and an error when a score field is not an integer.
pub fn parse_line(line: &Vec<u8>, stop: usize) -> (r: Result<Option<ParsedRecord>, ParseError>)
    ensures
        r is Err <==> has_bad_score(line@, stop as nat),
        (r matches Ok(o) ==> match o {
            Some(rec) => {
                &&& rec.name@ == trim_of(fields_of(line@)[0])
                &&& rec.coin_history@ == hist_of(line@, stop as nat)
                &&& rec.playcount == played_of(rec.coin_history@).len()
                &&& rec.playcount > 0
            },
            None => played_of(hist_of(line@, stop as nat)).len() == 0,
        }),
        (!has_bad_score(line@, stop as nat) && played_of(hist_of(line@, stop as nat)).len() > 0)
            ==> (r matches Ok(o) && o is Some),
{
    let fields = split_fields(line);
    let name = trim_bytes(&fields[0]);
    let ghost m = taken_count(line@, stop as nat);
    let count = if stop <= fields.len() - 1 {
        stop
    } else {
        fields.len() - 1
    };
    let mut hist: Vec<Option<i32>> = Vec::new();
    let mut i: usize = 0;
    while i < count
        invariant
            i <= count,
            count == m,
            m == taken_count(line@, stop as nat),
            fields@.len() == fields_of(line@).len(),
            forall|x: int|
                0 <= x < fields@.len() ==> (#[trigger] fields@[x])@ == fields_of(line@)[x],
            count < fields@.len(),
            hist@.len() == i,
            forall|x: int| 0 <= x < i ==> hist@[x] == score_of(fields_of(line@)[x + 1]),
            forall|x: int|
                0 <= x < i ==> !(spec_parse_i32(trim_of(#[trigger] fields_of(line@)[x + 1]))
                    is None),
        decreases count - i,
    {
        let t = trim_bytes(&fields[i + 1]);
        match parse_i32_bytes(&t) {
            None => {
                proof {
                    assert(spec_parse_i32(trim_of(fields_of(line@)[i + 1])) is None);
                }
                return Err(ParseError::MalformedScore);
            },
            Some(v) => {
                if v > 0 {
                    hist.push(Some(v));
                } else {
                    hist.push(None);
                }
            },
        }
        i = i + 1;
    }
    proof {
        assert(hist@ =~= hist_of(line@, stop as nat));
        assert(!has_bad_score(line@, stop as nat));
    }
    let playcount = count_played(&hist);
    if playcount == 0 {
        return Ok(None);
    }
    Ok(Some(ParsedRecord { name, coin_history: hist, playcount }))
}

} // verus!
