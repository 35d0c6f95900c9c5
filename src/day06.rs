//! Toy boat races: ways to beat each record.

use vstd::prelude::*;
use vstd::string::StringSliceAdditionalSpecFns;
use crate::text::{
    bytes_view, lines, parse_unsigned, split_lines, split_words, unsigned_value, words,
};

verus! {

/// Hold times among `1..=n` that carry the boat past `rec` in a race of `t`.
pub open spec fn wins_upto(t: int, rec: int, n: int) -> int
    decreases n,
{
    if n <= 0 {
        0
    } else {
        wins_upto(t, rec, n - 1) + if n * (t - n) > rec {
            1int
        } else {
            0
        }
    }
}

/// Number of ways to beat record `rec` in a race of `t` milliseconds.
pub open spec fn ways(t: int, rec: int) -> int {
    wins_upto(t, rec, t)
}

/// The `u32` values among the words after the first; other words are skipped.
pub open spec fn listed_numbers(ws: Seq<Seq<u8>>) -> Seq<int>
    decreases ws.len(),
{
    if ws.len() <= 1 {
        Seq::empty()
    } else {
        let rest = listed_numbers(ws.drop_last());
        match unsigned_value(ws.last()) {
            Some(v) => if v <= u32::MAX {
                rest.push(v)
            } else {
                rest
            },
            None => rest,
        }
    }
}

/// Product of the ways to win the first `n` races.
pub open spec fn race_product(times: Seq<int>, records: Seq<int>, n: int) -> int
    decreases n,
{
    if n <= 0 {
        1
    } else {
        race_product(times, records, n - 1) * ways(times[n - 1], records[n - 1])
    }
}

/// Product over the races of the ways to win, reading times from the first
/// line and records from the second; `None` with fewer than two lines.
pub open spec fn races_total(b: Seq<u8>) -> Option<int> {
    let ls = lines(b);
    if ls.len() < 2 {
        None
    } else {
        let ts = listed_numbers(words(ls[0]));
        let rs = listed_numbers(words(ls[1]));
        let n = if ts.len() < rs.len() {
            ts.len()
        } else {
            rs.len()
        };
        Some(race_product(ts, rs, n as int))
    }
}

/// A line without its spaces.
pub open spec fn without_spaces(l: Seq<u8>) -> Seq<u8>
    decreases l.len(),
{
    if l.len() == 0 {
        Seq::empty()
    } else if l.last() == 32 {
        without_spaces(l.drop_last())
    } else {
        without_spaces(l.drop_last()).push(l.last())
    }
}

/// What follows the first `:` of `s`.
pub open spec fn after_colon(s: Seq<u8>) -> Option<Seq<u8>>
    decreases s.len(),
{
    if s.len() == 0 {
        None
    } else if s[0] == 58 {
        Some(s.drop_first())
    } else {
        after_colon(s.drop_first())
    }
}

/// The `u64` written after the colon of a line once its spaces are gone.
pub open spec fn kerned_value(l: Seq<u8>) -> Option<int> {
    match after_colon(without_spaces(l)) {
        Some(rest) => match unsigned_value(rest) {
            Some(v) => if v <= u64::MAX {
                Some(v)
            } else {
                None
            },
            None => None,
        },
        None => None,
    }
}

/// The kerned values of the lines that have one, in order.
pub open spec fn kerned_values(ls: Seq<Seq<u8>>) -> Seq<int>
    decreases ls.len(),
{
    if ls.len() == 0 {
        Seq::empty()
    } else {
        let rest = kerned_values(ls.drop_last());
        match kerned_value(ls.last()) {
            Some(v) => rest.push(v),
            None => rest,
        }
    }
}

proof fn lemma_wins_bounds(t: int, rec: int, n: int)
    ensures
        0 <= wins_upto(t, rec, n) <= if n > 0 {
            n
        } else {
            0
        },
    decreases n,
{
    if n > 0 {
        lemma_wins_bounds(t, rec, n - 1);
    }
}

/// Number of hold times that beat `rec` in a race of `t`.
pub fn count_wins(t: u64, rec: u64) -> (r: u64)
    ensures
        r == ways(t as int, rec as int),
{
    let mut count: u64 = 0;
    let mut h: u64 = 0;
    while h < t
        invariant
            h <= t,
            count == wins_upto(t as int, rec as int, h as int),
        decreases t - h,
    {
        h = h + 1;
        proof {
            lemma_wins_bounds(t as int, rec as int, h - 1);
            assert(h * (t - h) <= 0xFFFF_FFFF_FFFF_FFFF * 0xFFFF_FFFF_FFFF_FFFF) by (nonlinear_arith)
                requires
                    1 <= h <= t,
                    t <= 0xFFFF_FFFF_FFFF_FFFF,
            ;
            assert(h * (t - h) >= 0) by (nonlinear_arith)
                requires
                    1 <= h <= t,
            ;
        }
        let distance = (h as u128) * ((t - h) as u128);
        if distance > rec as u128 {
            count = count + 1;
        }
    }
    count
}

/// The `u32` values of the words of a line after the first.
fn line_numbers(line: &Vec<u8>) -> (r: Vec<u64>)
    ensures
        r@.len() == listed_numbers(words(line@)).len(),
        forall|i: int| 0 <= i < r@.len() ==> #[trigger] r@[i] == listed_numbers(words(line@))[i],
{
    let ws = split_words(line.as_slice());
    let ghost wv = bytes_view(ws@);
    let mut r: Vec<u64> = Vec::new();
    if ws.len() == 0 {
        return r;
    }
    let mut k: usize = 1;
    proof {
        assert(wv.take(1).len() <= 1);
    }
    while k < ws.len()
        invariant
            wv == bytes_view(ws@),
            wv == words(line@),
            1 <= k <= wv.len(),
            r@.len() == listed_numbers(wv.take(k as int)).len(),
            forall|i: int| 0 <= i < r@.len() ==> #[trigger] r@[i] == listed_numbers(wv.take(k as int))[i],
        decreases wv.len() - k,
    {
        proof {
            assert(wv.take(k + 1).drop_last() =~= wv.take(k as int));
            assert(wv.take(k + 1).last() == wv[k as int]);
            assert(wv[k as int] == ws@[k as int]@);
        }
        let ghost before = r@;
        match parse_unsigned(&ws[k], 0xFFFF_FFFF) {
            Some(v) => {
                r.push(v);
                proof {
                    assert forall|i: int| 0 <= i < r@.len() implies #[trigger] r@[i]
                        == listed_numbers(wv.take(k + 1))[i] by {
                        if i < before.len() {
                            assert(r@[i] == before[i]);
                        }
                    }
                }
            },
            None => {},
        }
        k = k + 1;
    }
    proof {
        assert(wv.take(wv.len() as int) =~= wv);
    }
    r
}

/// Product over the races of the number of ways to beat each record; `None`
/// with fewer than two lines or a product above `u32::MAX`.
pub fn part_one(input: &str) -> (r: Option<u32>)
    ensures
        r == match races_total(input.spec_bytes()) {
            Some(p) => if p <= u32::MAX {
                Some(p as u32)
            } else {
                None::<u32>
            },
            None => None::<u32>,
        },
{
    let rows = split_lines(input.as_bytes());
    let ghost ls = bytes_view(rows@);
    if rows.len() < 2 {
        return None;
    }
    proof {
        assert(ls[0] == rows@[0]@);
        assert(ls[1] == rows@[1]@);
    }
    let times = line_numbers(&rows[0]);
    let records = line_numbers(&rows[1]);
    let ghost ts = listed_numbers(words(ls[0]));
    let ghost rs = listed_numbers(words(ls[1]));
    let n = if times.len() < records.len() {
        times.len()
    } else {
        records.len()
    };
    let mut product: u128 = 1;
    let mut i: usize = 0;
    proof {
        lemma_listed_bounded(words(ls[0]));
    }
    while i < n
        invariant
            i <= n,
            n <= times@.len(),
            n <= records@.len(),
            times@.len() == ts.len(),
            records@.len() == rs.len(),
            forall|k: int| 0 <= k < times@.len() ==> #[trigger] times@[k] == ts[k],
            forall|k: int| 0 <= k < records@.len() ==> #[trigger] records@[k] == rs[k],
            forall|k: int| 0 <= k < ts.len() ==> 0 <= #[trigger] ts[k] <= u32::MAX,
            product == if race_product(ts, rs, i as int) > 0x1_0000_0000 {
                0x1_0000_0000
            } else {
                race_product(ts, rs, i as int)
            },
            race_product(ts, rs, i as int) >= 0,
        decreases n - i,
    {
        let w = count_wins(times[i], records[i]);
        proof {
            lemma_wins_bounds(ts[i as int], rs[i as int], ts[i as int]);
            assert(w <= 0xFFFF_FFFF);
            assert(product * w <= 0x1_0000_0000 * 0xFFFF_FFFF) by (nonlinear_arith)
                requires
                    product <= 0x1_0000_0000,
                    w <= 0xFFFF_FFFF,
            ;
            let p = race_product(ts, rs, i as int);
            assert(race_product(ts, rs, i + 1) == p * w);
            assert(p * w >= 0) by (nonlinear_arith)
                requires
                    p >= 0,
                    w >= 0,
            ;
            if p > 0x1_0000_0000 {
                if w >= 1 {
                    assert(p * w >= p) by (nonlinear_arith)
                        requires
                            w >= 1,
                            p >= 0,
                    ;
                    assert(0x1_0000_0000 * w >= 0x1_0000_0000) by (nonlinear_arith)
                        requires
                            w >= 1,
                    ;
                } else {
                    assert(p * w == 0) by (nonlinear_arith)
                        requires
                            w == 0,
                    ;
                }
            }
        }
        product = product * (w as u128);
        if product > 0x1_0000_0000 {
            product = 0x1_0000_0000;
        }
        i = i + 1;
    }
    if product <= 0xFFFF_FFFF {
        Some(product as u32)
    } else {
        None
    }
}

proof fn lemma_listed_bounded(ws: Seq<Seq<u8>>)
    ensures
        forall|k: int|
            0 <= k < listed_numbers(ws).len() ==> 0 <= #[trigger] listed_numbers(ws)[k] <= u32::MAX,
    decreases ws.len(),
{
    if ws.len() > 1 {
        lemma_listed_bounded(ws.drop_last());
        let rest = listed_numbers(ws.drop_last());
        match unsigned_value(ws.last()) {
            Some(v) => {
                if v <= u32::MAX {
                    crate::text::lemma_unsigned_nonneg(ws.last());
                    assert forall|k: int| 0 <= k < rest.push(v).len() implies 0 <= #[trigger] rest.push(
                        v,
                    )[k] <= u32::MAX by {
                        if k < rest.len() {
                            assert(rest.push(v)[k] == rest[k]);
                        }
                    }
                }
            },
            None => {},
        }
    }
}

proof fn lemma_after_colon(s: Seq<u8>, j: int)
    requires
        0 <= j <= s.len(),
        forall|k: int| 0 <= k < j ==> #[trigger] s[k] != 58,
    ensures
        j < s.len() && s[j] == 58 ==> after_colon(s) == Some(s.subrange(j + 1, s.len() as int)),
        j == s.len() ==> after_colon(s) is None,
    decreases j,
{
    if j > 0 {
        let t = s.drop_first();
        assert forall|k: int| 0 <= k < j - 1 implies #[trigger] t[k] != 58 by {
            assert(t[k] == s[k + 1]);
        }
        lemma_after_colon(t, j - 1);
        if j < s.len() {
            assert(t.subrange(j, t.len() as int) =~= s.subrange(j + 1, s.len() as int));
            assert(t[j - 1] == s[j]);
        }
    } else if s.len() > 0 {
        assert(s.drop_first() =~= s.subrange(1, s.len() as int));
    }
}

/// The number a line holds once its spaces are removed, after its colon.
fn kerned(line: &Vec<u8>) -> (r: Option<u64>)
    ensures
        match r {
            Some(v) => kerned_value(line@) == Some(v as int),
            None => kerned_value(line@) is None,
        },
{
    let mut squeezed: Vec<u8> = Vec::new();
    let mut i: usize = 0;
    proof {
        assert(line@.take(0) =~= Seq::<u8>::empty());
    }
    while i < line.len()
        invariant
            i <= line@.len(),
            squeezed@ == without_spaces(line@.take(i as int)),
        decreases line@.len() - i,
    {
        proof {
            assert(line@.take(i + 1).drop_last() =~= line@.take(i as int));
        }
        if line[i] != 32 {
            squeezed.push(line[i]);
        }
        i = i + 1;
    }
    proof {
        assert(line@.take(line@.len() as int) =~= line@);
    }
    let ghost sq = squeezed@;
    let mut j: usize = 0;
    while j < squeezed.len() && squeezed[j] != 58
        invariant
            sq == squeezed@,
            j <= sq.len(),
            forall|k: int| 0 <= k < j ==> #[trigger] sq[k] != 58,
        decreases sq.len() - j,
    {
        j = j + 1;
    }
    proof {
        lemma_after_colon(sq, j as int);
    }
    if j == squeezed.len() {
        return None;
    }
    let mut rest: Vec<u8> = Vec::new();
    let mut k: usize = j + 1;
    while k < squeezed.len()
        invariant
            sq == squeezed@,
            j < k <= sq.len(),
            rest@ == sq.subrange(j + 1, k as int),
        decreases sq.len() - k,
    {
        rest.push(squeezed[k]);
        proof {
            assert(rest@ =~= sq.subrange(j + 1, k + 1));
        }
        k = k + 1;
    }
    let r = parse_unsigned(&rest, 0xFFFF_FFFF_FFFF_FFFF);
    proof {
        if r is None {
            assert(!(unsigned_value(rest@) is Some && unsigned_value(rest@)->0 <= u64::MAX));
        }
    }
    r
}

/// Number of ways to win the single race whose time and record are written
/// with spaces between their digits, taken modulo 2^32; `None` unless two
/// lines hold such a number.
pub fn part_two(input: &str) -> (r: Option<u32>)
    ensures
        r == if kerned_values(lines(input.spec_bytes())).len() < 2 {
            None::<u32>
        } else {
            Some(
                (ways(
                    kerned_values(lines(input.spec_bytes()))[0],
                    kerned_values(lines(input.spec_bytes()))[1],
                ) % 0x1_0000_0000) as u32,
            )
        },
{
    let rows = split_lines(input.as_bytes());
    let ghost ls = bytes_view(rows@);
    let mut vals: Vec<u64> = Vec::new();
    let mut k: usize = 0;
    proof {
        assert(ls.take(0) =~= Seq::<Seq<u8>>::empty());
    }
    while k < rows.len()
        invariant
            ls == bytes_view(rows@),
            k <= ls.len(),
            vals@.len() == kerned_values(ls.take(k as int)).len(),
            forall|i: int| 0 <= i < vals@.len() ==> #[trigger] vals@[i] == kerned_values(ls.take(k as int))[i],
        decreases ls.len() - k,
    {
        proof {
            assert(ls.take(k + 1).drop_last() =~= ls.take(k as int));
            assert(ls.take(k + 1).last() == ls[k as int]);
            assert(ls[k as int] == rows@[k as int]@);
        }
        let ghost before = vals@;
        match kerned(&rows[k]) {
            Some(v) => {
                vals.push(v);
                proof {
                    assert forall|i: int| 0 <= i < vals@.len() implies #[trigger] vals@[i]
                        == kerned_values(ls.take(k + 1))[i] by {
                        if i < before.len() {
                            assert(vals@[i] == before[i]);
                        }
                    }
                }
            },
            None => {},
        }
        k = k + 1;
    }
    proof {
        assert(ls.take(ls.len() as int) =~= ls);
    }
    if vals.len() < 2 {
        return None;
    }
    let w = count_wins(vals[0], vals[1]);
    Some((w % 0x1_0000_0000) as u32)
}

} // verus!
