//! Extrapolating sensor histories through their difference tables.

use vstd::prelude::*;
use vstd::string::StringSliceAdditionalSpecFns;
use crate::text::{bytes_view, lines, parse_signed, signed_value, split_lines, split_words, words};

verus! {

/// Differences of neighbouring values.
pub open spec fn diffs(s: Seq<int>) -> Seq<int> {
    if s.len() == 0 {
        Seq::empty()
    } else {
        Seq::new((s.len() - 1) as nat, |i: int| s[i + 1] - s[i])
    }
}

/// Every value is zero.
pub open spec fn all_zero(s: Seq<int>) -> bool {
    forall|i: int| 0 <= i < s.len() ==> #[trigger] s[i] == 0
}

/// The value after the last one, extrapolated through the difference table.
pub open spec fn next_value(s: Seq<int>) -> int
    decreases s.len(),
{
    if all_zero(s) {
        0
    } else {
        s.last() + next_value(diffs(s))
    }
}

/// The value before the first one, extrapolated through the difference table.
pub open spec fn prev_value(s: Seq<int>) -> int
    decreases s.len(),
{
    if all_zero(s) {
        0
    } else {
        s[0] - prev_value(diffs(s))
    }
}

/// `v` fits in an `i64`.
pub open spec fn fits(v: int) -> bool {
    i64::MIN <= v <= i64::MAX
}

/// The extrapolated value computed in `i64`: `None` when a difference or a
/// partial result leaves that range.
pub open spec fn extrapolated(s: Seq<int>, forward: bool) -> Option<int>
    decreases s.len(),
{
    if all_zero(s) {
        Some(0)
    } else if !(forall|i: int| 0 <= i < s.len() - 1 ==> fits(#[trigger] s[i + 1] - s[i])) {
        None
    } else {
        match extrapolated(diffs(s), forward) {
            None => None,
            Some(n) => {
                let v = if forward {
                    s.last() + n
                } else {
                    s[0] - n
                };
                if fits(v) {
                    Some(v)
                } else {
                    None
                }
            },
        }
    }
}

/// The `i64` values of a line's words; `None` if one is not such a value.
pub open spec fn history(ws: Seq<Seq<u8>>) -> Option<Seq<int>>
    decreases ws.len(),
{
    if ws.len() == 0 {
        Some(Seq::empty())
    } else {
        match (history(ws.drop_last()), signed_value(ws.last())) {
            (Some(h), Some(v)) => if fits(v) {
                Some(h.push(v))
            } else {
                None
            },
            _ => None,
        }
    }
}

/// Sum over the lines of their extrapolated values, computed in `i64`;
/// `None` on a bad word or when a value leaves the range.
pub open spec fn report_total(ls: Seq<Seq<u8>>, forward: bool) -> Option<int>
    decreases ls.len(),
{
    if ls.len() == 0 {
        Some(0)
    } else {
        match report_total(ls.drop_last(), forward) {
            None => None,
            Some(t) => match history(words(ls.last())) {
                None => None,
                Some(h) => match extrapolated(h, forward) {
                    None => None,
                    Some(v) => if fits(t + v) {
                        Some(t + v)
                    } else {
                        None
                    },
                },
            },
        }
    }
}

/// Sum over the lines of their extrapolated values, over the integers.
pub open spec fn exact_total(ls: Seq<Seq<u8>>, forward: bool) -> int
    decreases ls.len(),
{
    if ls.len() == 0 {
        0
    } else {
        exact_total(ls.drop_last(), forward) + match history(words(ls.last())) {
            Some(h) => if forward {
                next_value(h)
            } else {
                prev_value(h)
            },
            None => 0,
        }
    }
}

proof fn lemma_extrapolated_exact(s: Seq<int>, forward: bool)
    ensures
        extrapolated(s, forward) is Some ==> extrapolated(s, forward)->0 == if forward {
            next_value(s)
        } else {
            prev_value(s)
        },
    decreases s.len(),
{
    if !all_zero(s) {
        lemma_extrapolated_exact(diffs(s), forward);
    }
}

/// When the `i64` computation succeeds, it gives the exact sum.
pub proof fn lemma_report_exact(ls: Seq<Seq<u8>>, forward: bool)
    ensures
        report_total(ls, forward) is Some ==> report_total(ls, forward)->0 == exact_total(
            ls,
            forward,
        ),
    decreases ls.len(),
{
    if ls.len() > 0 {
        lemma_report_exact(ls.drop_last(), forward);
        match history(words(ls.last())) {
            Some(h) => lemma_extrapolated_exact(h, forward),
            None => {},
        }
    }
}

proof fn lemma_history_fails(ws: Seq<Seq<u8>>, k: int)
    requires
        0 <= k <= ws.len(),
        history(ws.take(k)) is None,
    ensures
        history(ws) is None,
    decreases ws.len() - k,
{
    if k < ws.len() {
        assert(ws.take(k + 1).drop_last() =~= ws.take(k));
        lemma_history_fails(ws, k + 1);
    } else {
        assert(ws.take(k) =~= ws);
    }
}

proof fn lemma_report_fails(ls: Seq<Seq<u8>>, k: int, forward: bool)
    requires
        0 <= k <= ls.len(),
        report_total(ls.take(k), forward) is None,
    ensures
        report_total(ls, forward) is None,
    decreases ls.len() - k,
{
    if k < ls.len() {
        assert(ls.take(k + 1).drop_last() =~= ls.take(k));
        lemma_report_fails(ls, k + 1, forward);
    } else {
        assert(ls.take(k) =~= ls);
    }
}

/// The values of a vector of `i64`.
pub open spec fn ints(v: Seq<i64>) -> Seq<int> {
    Seq::new(v.len(), |i: int| v[i] as int)
}

/// Extrapolates one history, in `i64`.
fn extrapolate(s: &Vec<i64>, forward: bool) -> (r: Option<i64>)
    ensures
        match r {
            Some(v) => extrapolated(ints(s@), forward) == Some(v as int),
            None => extrapolated(ints(s@), forward) is None,
        },
    decreases s@.len(),
{
    let ghost si = ints(s@);
    let mut i: usize = 0;
    while i < s.len() && s[i] == 0
        invariant
            si == ints(s@),
            i <= s@.len(),
            forall|k: int| 0 <= k < i ==> #[trigger] s@[k] == 0,
        decreases s@.len() - i,
    {
        i = i + 1;
    }
    if i == s.len() {
        assert(all_zero(si));
        return Some(0);
    }
    assert(si[i as int] != 0);
    let mut d: Vec<i64> = Vec::new();
    let mut k: usize = 0;
    while k < s.len() - 1
        invariant
            si == ints(s@),
            s@.len() > 0,
            k < s@.len(),
            d@.len() == k,
            forall|j: int| 0 <= j < k ==> #[trigger] d@[j] == si[j + 1] - si[j],
            forall|j: int| 0 <= j < k ==> fits(#[trigger] si[j + 1] - si[j]),
        decreases s@.len() - k,
    {
        match s[k + 1].checked_sub(s[k]) {
            Some(v) => d.push(v),
            None => {
                assert(!fits(si[k as int + 1] - si[k as int]));
                return None;
            },
        }
        k = k + 1;
    }
    assert(ints(d@) =~= diffs(si));
    let n = match extrapolate(&d, forward) {
        Some(n) => n,
        None => return None,
    };
    if forward {
        s[s.len() - 1].checked_add(n)
    } else {
        s[0].checked_sub(n)
    }
}

/// The `i64` values of the words of a line.
fn parse_history(line: &Vec<u8>) -> (r: Option<Vec<i64>>)
    ensures
        match r {
            Some(v) => history(words(line@)) == Some(ints(v@)),
            None => history(words(line@)) is None,
        },
{
    let ws = split_words(line.as_slice());
    let ghost wv = bytes_view(ws@);
    let mut out: Vec<i64> = Vec::new();
    let mut k: usize = 0;
    proof {
        assert(wv.take(0) =~= Seq::<Seq<u8>>::empty());
        assert(ints(out@) =~= Seq::<int>::empty());
    }
    while k < ws.len()
        invariant
            wv == bytes_view(ws@),
            wv == words(line@),
            k <= wv.len(),
            history(wv.take(k as int)) == Some(ints(out@)),
        decreases wv.len() - k,
    {
        proof {
            assert(wv.take(k + 1).drop_last() =~= wv.take(k as int));
            assert(wv.take(k + 1).last() == wv[k as int]);
            assert(wv[k as int] == ws@[k as int]@);
        }
        match parse_signed(&ws[k]) {
            Some(v) => {
                let ghost before = ints(out@);
                out.push(v);
                proof {
                    assert(ints(out@) =~= before.push(v as int));
                }
            },
            None => {
                proof {
                    lemma_history_fails(wv, k + 1);
                }
                return None;
            },
        }
        k = k + 1;
    }
    proof {
        assert(wv.take(wv.len() as int) =~= wv);
    }
    Some(out)
}

/// Sum of the extrapolated values of every line, in `i64`.
fn report(input: &str, forward: bool) -> (r: Option<i64>)
    ensures
        match r {
            Some(v) => report_total(lines(input.spec_bytes()), forward) == Some(v as int),
            None => report_total(lines(input.spec_bytes()), forward) is None,
        },
{
    let rows = split_lines(input.as_bytes());
    let ghost ls = bytes_view(rows@);
    let mut total: i64 = 0;
    let mut k: usize = 0;
    proof {
        assert(ls.take(0) =~= Seq::<Seq<u8>>::empty());
    }
    while k < rows.len()
        invariant
            ls == bytes_view(rows@),
            ls == lines(input.spec_bytes()),
            k <= ls.len(),
            report_total(ls.take(k as int), forward) == Some(total as int),
        decreases ls.len() - k,
    {
        proof {
            assert(ls.take(k + 1).drop_last() =~= ls.take(k as int));
            assert(ls.take(k + 1).last() == ls[k as int]);
            assert(ls[k as int] == rows@[k as int]@);
        }
        let h = match parse_history(&rows[k]) {
            Some(h) => h,
            None => {
                proof {
                    lemma_report_fails(ls, k + 1, forward);
                }
                return None;
            },
        };
        let v = match extrapolate(&h, forward) {
            Some(v) => v,
            None => {
                proof {
                    lemma_report_fails(ls, k + 1, forward);
                }
                return None;
            },
        };
        total = match total.checked_add(v) {
            Some(t) => t,
            None => {
                proof {
                    lemma_report_fails(ls, k + 1, forward);
                }
                return None;
            },
        };
        k = k + 1;
    }
    proof {
        assert(ls.take(ls.len() as int) =~= ls);
    }
    Some(total)
}

/// Sum of the next values of every history; `None` on a word that is not
/// an `i64`, or when the computation leaves that range.
pub fn part_one(input: &str) -> (r: Option<i64>)
    ensures
        match r {
            Some(v) => report_total(lines(input.spec_bytes()), true) == Some(v as int)
                && v == exact_total(lines(input.spec_bytes()), true),
            None => report_total(lines(input.spec_bytes()), true) is None,
        },
{
    proof {
        lemma_report_exact(lines(input.spec_bytes()), true);
    }
    report(input, true)
}

/// Sum of the previous values of every history; `None` on a word that is
/// not an `i64`, or when the computation leaves that range.
pub fn part_two(input: &str) -> (r: Option<i64>)
    ensures
        match r {
            Some(v) => report_total(lines(input.spec_bytes()), false) == Some(v as int)
                && v == exact_total(lines(input.spec_bytes()), false),
            None => report_total(lines(input.spec_bytes()), false) is None,
        },
{
    proof {
        lemma_report_exact(lines(input.spec_bytes()), false);
    }
    report(input, false)
}

} // verus!
