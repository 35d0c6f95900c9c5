//! Hot springs: how many ways the unknown springs of a row can be filled
//! in to match its list of damaged groups.

use vstd::prelude::*;
use vstd::string::StringSliceAdditionalSpecFns;
use crate::text::{
    bytes_view, lines, parse_unsigned, split_by, split_lines, split_on, split_once, split_once_at,
    unsigned_value,
};

verus! {

/// `#`, a damaged spring.
pub const DAMAGED: u8 = 35;

/// `.`, an operational spring.
pub const OPERATIONAL: u8 = 46;

/// `?`, a spring of unknown condition.
pub const UNKNOWN: u8 = 63;

/// A group of `g` damaged springs can start the row `s`: `g` springs none of
/// which is operational, not followed by a damaged one.
pub open spec fn fits_group(s: Seq<u8>, g: int) -> bool {
    &&& g <= s.len()
    &&& forall|k: int| 0 <= k < g ==> #[trigger] s[k] != OPERATIONAL
    &&& (g == s.len() || s[g] != DAMAGED)
}

/// Ways to fill in the unknown springs of `s` so that its runs of damaged
/// springs are, in order, the groups `gs`.
pub open spec fn arrangements(s: Seq<u8>, gs: Seq<int>) -> int
    decreases s.len(),
{
    if s.len() == 0 {
        if gs.len() == 0 {
            1
        } else {
            0
        }
    } else {
        let skip = if s[0] != DAMAGED {
            arrangements(s.drop_first(), gs)
        } else {
            0
        };
        let take = if s[0] != OPERATIONAL && gs.len() > 0 && gs[0] >= 1 && fits_group(s, gs[0]) {
            let next = if gs[0] < s.len() {
                gs[0] + 1
            } else {
                s.len() as int
            };
            arrangements(s.subrange(next, s.len() as int), gs.drop_first())
        } else {
            0
        };
        skip + take
    }
}

/// `a` capped at 2^64.
pub open spec fn capped(a: int) -> int {
    if a > 0x1_0000_0000_0000_0000 {
        0x1_0000_0000_0000_0000
    } else {
        a
    }
}

proof fn lemma_arrangements_nonneg(s: Seq<u8>, gs: Seq<int>)
    ensures
        arrangements(s, gs) >= 0,
    decreases s.len(),
{
    if s.len() > 0 {
        lemma_arrangements_nonneg(s.drop_first(), gs);
        if gs.len() > 0 && gs[0] >= 1 && gs[0] <= s.len() {
            let next = if gs[0] < s.len() {
                gs[0] + 1
            } else {
                s.len() as int
            };
            lemma_arrangements_nonneg(s.subrange(next, s.len() as int), gs.drop_first());
        }
    }
}

/// The values of a vector of group sizes.
pub open spec fn sizes(v: Seq<u64>) -> Seq<int> {
    Seq::new(v.len(), |i: int| v[i] as int)
}

/// Ways for an empty rest of the row to match the groups from `j` on.
pub open spec fn at_end(j: int, m: int) -> int {
    if j == m {
        1
    } else {
        0
    }
}

/// Ways for each suffix of `s` to match the groups from `j` on, given the
/// same for the groups from `j + 1` on.
fn column(s: &Vec<u8>, gs: &Vec<u64>, j: usize, next: &Vec<u128>) -> (cur: Vec<u128>)
    requires
        j <= gs@.len(),
        next@.len() == s@.len(),
        j < gs@.len() ==> forall|i: int|
            0 <= i < s@.len() ==> #[trigger] next@[i] == capped(
                arrangements(s@.subrange(i, s@.len() as int), sizes(gs@).subrange(j + 1, gs@.len() as int)),
            ),
    ensures
        cur@.len() == s@.len(),
        forall|i: int|
            0 <= i < s@.len() ==> #[trigger] cur@[i] == capped(
                arrangements(s@.subrange(i, s@.len() as int), sizes(gs@).subrange(j as int, gs@.len() as int)),
            ),
{
    let n = s.len();
    let m = gs.len();
    let ghost sv = s@;
    let ghost gv = sizes(gs@);
    let mut cur: Vec<u128> = Vec::new();
    let mut k: usize = 0;
    while k < n
        invariant
            cur@.len() == k,
            k <= n,
        decreases n - k,
    {
        cur.push(0);
        k = k + 1;
    }
    let here: u128 = if j == m {
        1
    } else {
        0
    };
    let beyond: u128 = if j < m && m - j == 1 {
        1
    } else {
        0
    };
    proof {
        assert(sv.subrange(n as int, n as int) =~= Seq::<u8>::empty());
        if j == m {
            assert(gv.subrange(j as int, m as int) =~= Seq::<int>::empty());
        }
        if j + 1 == m {
            assert(gv.subrange(j + 1, m as int) =~= Seq::<int>::empty());
        }
        assert(here == arrangements(sv.subrange(n as int, n as int), gv.subrange(j as int, m as int)));
        if j < m {
            assert(beyond == arrangements(sv.subrange(n as int, n as int), gv.subrange(j + 1, m as int)));
        }
    }
    let mut i: usize = n;
    while i > 0
        invariant
            sv == s@,
            gv == sizes(gs@),
            n == sv.len(),
            m == gv.len(),
            j <= m,
            next@.len() == n,
            cur@.len() == n,
            i <= n,
            j < m ==> forall|q: int|
                0 <= q < n ==> #[trigger] next@[q] == capped(
                    arrangements(sv.subrange(q, n as int), gv.subrange(j + 1, m as int)),
                ),
            here == arrangements(sv.subrange(n as int, n as int), gv.subrange(j as int, m as int)),
            j < m ==> beyond == arrangements(sv.subrange(n as int, n as int), gv.subrange(j + 1, m as int)),
            forall|q: int|
                i <= q < n ==> #[trigger] cur@[q] == capped(
                    arrangements(sv.subrange(q, n as int), gv.subrange(j as int, m as int)),
                ),
        decreases i,
    {
        i = i - 1;
        let ghost suf = sv.subrange(i as int, n as int);
        let ghost gsuf = gv.subrange(j as int, m as int);
        let c = s[i];
        let after: u128 = if i + 1 == n {
            here
        } else {
            cur[i + 1]
        };
        proof {
            assert(suf[0] == c);
            assert(suf.drop_first() =~= sv.subrange(i + 1, n as int));
            lemma_arrangements_nonneg(sv.subrange(i + 1, n as int), gsuf);
            if i + 1 == n {
                assert(sv.subrange(i + 1, n as int) =~= sv.subrange(n as int, n as int));
            }
        }
        let skip: u128 = if c != DAMAGED {
            after
        } else {
            0
        };
        let mut take: u128 = 0;
        if c != OPERATIONAL && j < m && gs[j] >= 1 && gs[j] <= (n - i) as u64 {
            let g = gs[j] as usize;
            let mut ok = true;
            let mut t: usize = 0;
            while t < g
                invariant
                    sv == s@,
                    n == sv.len(),
                    i + g <= n,
                    t <= g,
                    ok == forall|q: int| 0 <= q < t ==> #[trigger] sv[i + q] != OPERATIONAL,
                decreases g - t,
            {
                if s[i + t] == OPERATIONAL {
                    ok = false;
                }
                t = t + 1;
            }
            if ok && (i + g == n || s[i + g] != DAMAGED) {
                proof {
                    assert(gsuf[0] == gv[j as int]);
                    assert(gv[j as int] == g);
                    assert forall|q: int| 0 <= q < g implies #[trigger] suf[q] != OPERATIONAL by {
                        assert(suf[q] == sv[i + q]);
                    }
                    assert(fits_group(suf, g as int));
                    assert(gsuf.drop_first() =~= gv.subrange(j + 1, m as int));
                }
                if i + g == n {
                    proof {
                        assert(suf.subrange(suf.len() as int, suf.len() as int) =~= sv.subrange(
                            n as int,
                            n as int,
                        ));
                    }
                    take = beyond;
                } else {
                    proof {
                        assert(suf.subrange(g + 1, suf.len() as int) =~= sv.subrange(
                            i + g + 1,
                            n as int,
                        ));
                        if i + g + 1 == n {
                            assert(sv.subrange(i + g + 1, n as int) =~= sv.subrange(
                                n as int,
                                n as int,
                            ));
                        }
                    }
                    take = if i + g + 1 == n {
                        beyond
                    } else {
                        next[i + g + 1]
                    };
                }
            } else {
                proof {
                    if fits_group(suf, g as int) {
                        if !ok {
                            let q = choose|q: int| 0 <= q < g && #[trigger] sv[i + q] == OPERATIONAL;
                            assert(suf[q] == sv[i + q]);
                        }
                    }
                }
            }
        } else {
            proof {
                if j < m {
                    assert(gsuf[0] == gv[j as int]);
                }
            }
        }
        proof {
            {
                let next_idx = if j < m && gv[j as int] < suf.len() {
                    gv[j as int] + 1
                } else {
                    suf.len() as int
                };
                if j < m && gv[j as int] >= 1 && gv[j as int] <= suf.len() {
                    lemma_arrangements_nonneg(suf.subrange(next_idx, suf.len() as int), gsuf.drop_first());
                }
            }
        }
        let mut total = skip + take;
        if total > 0x1_0000_0000_0000_0000 {
            total = 0x1_0000_0000_0000_0000;
        }
        cur.set(i, total);
    }
    cur
}

/// Ways to fill in `s` to match `gs`, capped at 2^64.
fn count_arrangements(s: &Vec<u8>, gs: &Vec<u64>) -> (r: u128)
    ensures
        r == capped(arrangements(s@, sizes(gs@))),
{
    let n = s.len();
    let m = gs.len();
    if n == 0 {
        return if m == 0 {
            1
        } else {
            0
        };
    }
    let mut next: Vec<u128> = Vec::new();
    let mut k: usize = 0;
    while k < n
        invariant
            next@.len() == k,
            k <= n,
        decreases n - k,
    {
        next.push(0);
        k = k + 1;
    }
    let mut j: usize = m;
    next = column(s, gs, j, &next);
    while j > 0
        invariant
            j <= m,
            m == gs@.len(),
            next@.len() == s@.len(),
            forall|i: int|
                0 <= i < s@.len() ==> #[trigger] next@[i] == capped(
                    arrangements(s@.subrange(i, s@.len() as int), sizes(gs@).subrange(j as int, m as int)),
                ),
        decreases j,
    {
        j = j - 1;
        next = column(s, gs, j, &next);
    }
    proof {
        assert(s@.subrange(0, s@.len() as int) =~= s@);
        assert(sizes(gs@).subrange(0, m as int) =~= sizes(gs@));
    }
    next[0]
}

/// Whether a byte is a spring.
pub open spec fn is_spring(c: u8) -> bool {
    c == DAMAGED || c == OPERATIONAL || c == UNKNOWN
}

/// Group sizes, each at most `limit`; `None` if a word is not one.
pub open spec fn group_sizes(ws: Seq<Seq<u8>>, limit: int) -> Option<Seq<int>>
    decreases ws.len(),
{
    if ws.len() == 0 {
        Some(Seq::empty())
    } else {
        match (group_sizes(ws.drop_last(), limit), unsigned_value(ws.last())) {
            (Some(gs), Some(v)) => if v <= limit {
                Some(gs.push(v))
            } else {
                None
            },
            _ => None,
        }
    }
}

/// A row's springs (before the first space) and its groups (comma
/// separated after it); `None` for a malformed row.
pub open spec fn row_of(l: Seq<u8>, limit: int) -> Option<(Seq<u8>, Seq<int>)> {
    match split_once(l, seq![32u8]) {
        None => None,
        Some((sp, gr)) => if forall|k: int| 0 <= k < sp.len() ==> is_spring(#[trigger] sp[k]) {
            match group_sizes(split_on(gr, seq![44u8]), limit) {
                Some(gs) => Some((sp, gs)),
                None => None,
            }
        } else {
            None
        },
    }
}

/// Five copies of a row's springs joined by unknown springs.
pub open spec fn unfolded(s: Seq<u8>) -> Seq<u8> {
    s + seq![UNKNOWN] + s + seq![UNKNOWN] + s + seq![UNKNOWN] + s + seq![UNKNOWN] + s
}

/// Five copies of a row's groups.
pub open spec fn repeated(g: Seq<int>) -> Seq<int> {
    g + g + g + g + g
}

/// Arrangements of one row, unfolded five times when `five` holds.
pub open spec fn row_count(l: Seq<u8>, five: bool) -> Option<int> {
    match row_of(
        l,
        if five {
            u64::MAX as int
        } else {
            u32::MAX as int
        },
    ) {
        Some((sp, gs)) => Some(
            if five {
                arrangements(unfolded(sp), repeated(gs))
            } else {
                arrangements(sp, gs)
            },
        ),
        None => None,
    }
}

/// Sum of the arrangements of the rows; `None` if a row is malformed.
pub open spec fn rows_total(ls: Seq<Seq<u8>>, five: bool) -> Option<int>
    decreases ls.len(),
{
    if ls.len() == 0 {
        Some(0)
    } else {
        match (rows_total(ls.drop_last(), five), row_count(ls.last(), five)) {
            (Some(t), Some(c)) => Some(t + c),
            _ => None,
        }
    }
}

proof fn lemma_rows_fail(ls: Seq<Seq<u8>>, k: int, five: bool)
    requires
        0 <= k <= ls.len(),
        rows_total(ls.take(k), five) is None,
    ensures
        rows_total(ls, five) is None,
    decreases ls.len() - k,
{
    if k < ls.len() {
        assert(ls.take(k + 1).drop_last() =~= ls.take(k));
        lemma_rows_fail(ls, k + 1, five);
    } else {
        assert(ls.take(k) =~= ls);
    }
}

proof fn lemma_groups_fail(ws: Seq<Seq<u8>>, k: int, limit: int)
    requires
        0 <= k <= ws.len(),
        group_sizes(ws.take(k), limit) is None,
    ensures
        group_sizes(ws, limit) is None,
    decreases ws.len() - k,
{
    if k < ws.len() {
        assert(ws.take(k + 1).drop_last() =~= ws.take(k));
        lemma_groups_fail(ws, k + 1, limit);
    } else {
        assert(ws.take(k) =~= ws);
    }
}

/// Reads a row.
fn read_row(line: &Vec<u8>, limit: u64) -> (r: Option<(Vec<u8>, Vec<u64>)>)
    ensures
        match r {
            Some((sp, gs)) => row_of(line@, limit as int) == Some((sp@, sizes(gs@))),
            None => row_of(line@, limit as int) is None,
        },
{
    let space: Vec<u8> = vec![32u8];
    let comma: Vec<u8> = vec![44u8];
    assert(space@ =~= seq![32u8]);
    assert(comma@ =~= seq![44u8]);
    let (sp, gr) = match split_once_at(line, &space) {
        Some(p) => p,
        None => return None,
    };
    let mut k: usize = 0;
    while k < sp.len()
        invariant
            split_once(line@, seq![32u8]) == Some((sp@, gr@)),
            k <= sp@.len(),
            forall|q: int| 0 <= q < k ==> is_spring(#[trigger] sp@[q]),
        decreases sp@.len() - k,
    {
        let c = sp[k];
        if !(c == DAMAGED || c == OPERATIONAL || c == UNKNOWN) {
            assert(!is_spring(sp@[k as int]));
            return None;
        }
        k = k + 1;
    }
    let ws = split_by(&gr, &comma);
    let ghost wv = bytes_view(ws@);
    let mut gs: Vec<u64> = Vec::new();
    let mut k: usize = 0;
    assert(wv.take(0) =~= Seq::<Seq<u8>>::empty());
    assert(sizes(gs@) =~= Seq::<int>::empty());
    while k < ws.len()
        invariant
            split_once(line@, seq![32u8]) == Some((sp@, gr@)),
            forall|q: int| 0 <= q < sp@.len() ==> is_spring(#[trigger] sp@[q]),
            wv == bytes_view(ws@),
            wv == split_on(gr@, seq![44u8]),
            k <= wv.len(),
            group_sizes(wv.take(k as int), limit as int) == Some(sizes(gs@)),
        decreases wv.len() - k,
    {
        proof {
            assert(wv.take(k + 1).drop_last() =~= wv.take(k as int));
            assert(wv.take(k + 1).last() == wv[k as int]);
            assert(wv[k as int] == ws@[k as int]@);
        }
        match parse_unsigned(&ws[k], limit) {
            Some(v) => {
                let ghost before = sizes(gs@);
                gs.push(v);
                assert(sizes(gs@) =~= before.push(v as int));
            },
            None => {
                proof {
                    lemma_groups_fail(wv, k + 1, limit as int);
                }
                return None;
            },
        }
        k = k + 1;
    }
    assert(wv.take(wv.len() as int) =~= wv);
    Some((sp, gs))
}

/// Appends the bytes of `s`.
fn append_bytes(r: &mut Vec<u8>, s: &Vec<u8>)
    ensures
        final(r)@ == old(r)@ + s@,
{
    let ghost start = r@;
    let mut k: usize = 0;
    while k < s.len()
        invariant
            k <= s@.len(),
            r@ == start + s@.take(k as int),
        decreases s@.len() - k,
    {
        r.push(s[k]);
        assert(r@ =~= start + s@.take(k + 1));
        k = k + 1;
    }
    assert(s@.take(s@.len() as int) =~= s@);
}

/// Appends the sizes of `g`.
fn append_sizes(r: &mut Vec<u64>, g: &Vec<u64>)
    ensures
        sizes(final(r)@) == sizes(old(r)@) + sizes(g@),
{
    let ghost start = sizes(r@);
    let mut k: usize = 0;
    while k < g.len()
        invariant
            k <= g@.len(),
            sizes(r@) == start + sizes(g@).take(k as int),
        decreases g@.len() - k,
    {
        let ghost before = sizes(r@);
        r.push(g[k]);
        assert(sizes(r@) =~= before.push(g@[k as int] as int));
        assert(sizes(g@).take(k + 1) =~= sizes(g@).take(k as int).push(g@[k as int] as int));
        assert(sizes(r@) =~= start + sizes(g@).take(k + 1));
        k = k + 1;
    }
    assert(sizes(g@).take(g@.len() as int) =~= sizes(g@));
}

/// Arrangements of one row, capped at 2^64.
fn count_row(line: &Vec<u8>, five: bool) -> (r: Option<u128>)
    ensures
        match r {
            Some(c) => row_count(line@, five) is Some && c == capped(row_count(line@, five)->0),
            None => row_count(line@, five) is None,
        },
{
    let limit: u64 = if five {
        0xFFFF_FFFF_FFFF_FFFF
    } else {
        0xFFFF_FFFF
    };
    let (sp, gs) = match read_row(line, limit) {
        Some(p) => p,
        None => return None,
    };
    if !five {
        return Some(count_arrangements(&sp, &gs));
    }
    let mut s5: Vec<u8> = Vec::new();
    let mut g5: Vec<u64> = Vec::new();
    let q: Vec<u8> = vec![UNKNOWN];
    assert(q@ =~= seq![UNKNOWN]);
    append_bytes(&mut s5, &sp);
    append_bytes(&mut s5, &q);
    append_bytes(&mut s5, &sp);
    append_bytes(&mut s5, &q);
    append_bytes(&mut s5, &sp);
    append_bytes(&mut s5, &q);
    append_bytes(&mut s5, &sp);
    append_bytes(&mut s5, &q);
    append_bytes(&mut s5, &sp);
    append_sizes(&mut g5, &gs);
    append_sizes(&mut g5, &gs);
    append_sizes(&mut g5, &gs);
    append_sizes(&mut g5, &gs);
    append_sizes(&mut g5, &gs);
    assert(s5@ =~= unfolded(sp@));
    assert(sizes(g5@) =~= repeated(sizes(gs@)));
    Some(count_arrangements(&s5, &g5))
}

/// Sum over the rows of their arrangements, capped at 2^64.
fn rows_sum(input: &str, five: bool) -> (r: Option<u128>)
    ensures
        match r {
            Some(t) => rows_total(lines(input.spec_bytes()), five) is Some && t == capped(
                rows_total(lines(input.spec_bytes()), five)->0,
            ),
            None => rows_total(lines(input.spec_bytes()), five) is None,
        },
{
    let rows = split_lines(input.as_bytes());
    let ghost ls = bytes_view(rows@);
    let mut total: u128 = 0;
    let mut k: usize = 0;
    assert(ls.take(0) =~= Seq::<Seq<u8>>::empty());
    while k < rows.len()
        invariant
            ls == bytes_view(rows@),
            ls == lines(input.spec_bytes()),
            k <= ls.len(),
            rows_total(ls.take(k as int), five) is Some,
            rows_total(ls.take(k as int), five)->0 >= 0,
            total == capped(rows_total(ls.take(k as int), five)->0),
        decreases ls.len() - k,
    {
        proof {
            assert(ls.take(k + 1).drop_last() =~= ls.take(k as int));
            assert(ls.take(k + 1).last() == ls[k as int]);
            assert(ls[k as int] == rows@[k as int]@);
        }
        match count_row(&rows[k], five) {
            Some(c) => {
                proof {
                    let l = ls[k as int];
                    match row_of(l, if five { u64::MAX as int } else { u32::MAX as int }) {
                        Some((sp, gs)) => {
                            lemma_arrangements_nonneg(sp, gs);
                            lemma_arrangements_nonneg(unfolded(sp), repeated(gs));
                        },
                        None => {},
                    }
                }
                total = total + c;
                if total > 0x1_0000_0000_0000_0000 {
                    total = 0x1_0000_0000_0000_0000;
                }
            },
            None => {
                proof {
                    lemma_rows_fail(ls, k + 1, five);
                }
                return None;
            },
        }
        k = k + 1;
    }
    assert(ls.take(ls.len() as int) =~= ls);
    Some(total)
}

/// Sum over the rows of the ways to fill in their unknown springs; `None`
/// for a malformed row or a sum above `u32::MAX`.
pub fn part_one(input: &str) -> (r: Option<u32>)
    ensures
        r == match rows_total(lines(input.spec_bytes()), false) {
            Some(t) => if t <= u32::MAX {
                Some(t as u32)
            } else {
                None::<u32>
            },
            None => None::<u32>,
        },
{
    match rows_sum(input, false) {
        Some(t) => if t <= 0xFFFF_FFFF {
            Some(t as u32)
        } else {
            None
        },
        None => None,
    }
}

/// The same sum once every row is unfolded five times; `None` for a
/// malformed row or a sum above `u64::MAX`.
pub fn part_two(input: &str) -> (r: Option<u64>)
    ensures
        r == match rows_total(lines(input.spec_bytes()), true) {
            Some(t) => if t <= u64::MAX {
                Some(t as u64)
            } else {
                None::<u64>
            },
            None => None::<u64>,
        },
{
    match rows_sum(input, true) {
        Some(t) => if t <= 0xFFFF_FFFF_FFFF_FFFF {
            Some(t as u64)
        } else {
            None
        },
        None => None,
    }
}

} // verus!
