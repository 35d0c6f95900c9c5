//! Scratchcards: matching numbers, points, and cards won as copies.

use vstd::prelude::*;
use vstd::string::StringSliceAdditionalSpecFns;
use crate::text::{
    bytes_view, find, find_from, lines, parse_unsigned, slice_of, split_lines, split_words,
    unsigned_value, words,
};

verus! {

/// `": "`, which ends a card's label.
pub open spec fn label_end() -> Seq<u8> {
    seq![58u8, 32]
}

/// `" | "`, which parts the numbers a card has from the winning ones.
pub open spec fn bar() -> Seq<u8> {
    seq![32u8, 124, 32]
}

/// The `u32` values of words, or `None` if one is not such a value.
pub open spec fn numbers(ws: Seq<Seq<u8>>) -> Option<Seq<int>>
    decreases ws.len(),
{
    if ws.len() == 0 {
        Some(Seq::empty())
    } else {
        match (numbers(ws.drop_last()), unsigned_value(ws.last())) {
            (Some(ns), Some(v)) => if v <= u32::MAX {
                Some(ns.push(v))
            } else {
                None
            },
            _ => None,
        }
    }
}

/// How many entries of `a` occur in `b`.
pub open spec fn count_in(a: Seq<int>, b: Seq<int>) -> int
    decreases a.len(),
{
    if a.len() == 0 {
        0
    } else {
        count_in(a.drop_last(), b) + if b.contains(a.last()) {
            1int
        } else {
            0
        }
    }
}

/// A card's number of matches: the numbers it has that are winning ones;
/// `None` for a line that is not a card.
pub open spec fn card_matches(l: Seq<u8>) -> Option<int> {
    match find_from(l, label_end(), 0) {
        None => None,
        Some(i) => {
            let rest = l.subrange(i + 2, l.len() as int);
            match find_from(rest, bar(), 0) {
                None => None,
                Some(j) => match (
                    numbers(words(rest.subrange(0, j))),
                    numbers(words(rest.subrange(j + 3, rest.len() as int))),
                ) {
                    (Some(have), Some(winning)) => Some(count_in(have, winning)),
                    _ => None,
                },
            }
        },
    }
}

/// Match counts of the lines that are cards, in order.
pub open spec fn match_counts(ls: Seq<Seq<u8>>) -> Seq<int>
    decreases ls.len(),
{
    if ls.len() == 0 {
        Seq::empty()
    } else {
        match card_matches(ls.last()) {
            Some(k) => match_counts(ls.drop_last()).push(k),
            None => match_counts(ls.drop_last()),
        }
    }
}

/// 2 to the power `e`.
pub open spec fn pow2(e: int) -> int
    decreases e,
{
    if e <= 0 {
        1
    } else {
        2 * pow2(e - 1)
    }
}

/// Points of a card with `k` matches: 0, or 1 doubled for each match past
/// the first.
pub open spec fn points(k: int) -> int {
    if k <= 0 {
        0
    } else {
        pow2(k - 1)
    }
}

/// Sum of the points of the first `n` cards.
pub open spec fn points_total(ks: Seq<int>, n: int) -> int
    decreases n,
{
    if n <= 0 {
        0
    } else {
        points_total(ks, n - 1) + points(ks[n - 1])
    }
}

/// Copies held of card `i`: the card itself, and one more per copy of each
/// earlier card `j` whose matches reach `i`.
pub open spec fn copies(ks: Seq<int>, i: int) -> int
    decreases i, 1int, 0int,
{
    1 + won_from(ks, i, i)
}

/// Copies of card `i` won from the cards before `j`.
pub open spec fn won_from(ks: Seq<int>, i: int, j: int) -> int
    decreases i, 0int, j,
{
    if j <= 0 || j > i {
        0
    } else {
        won_from(ks, i, j - 1) + if i - (j - 1) <= ks[j - 1] {
            copies(ks, j - 1)
        } else {
            0
        }
    }
}

/// Cards held in the end among the first `n`.
pub open spec fn cards_total(ks: Seq<int>, n: int) -> int
    decreases n,
{
    if n <= 0 {
        0
    } else {
        cards_total(ks, n - 1) + copies(ks, n - 1)
    }
}

/// `a` capped at 2^32.
pub open spec fn capped(a: int) -> int {
    if a > 0x1_0000_0000 {
        0x1_0000_0000
    } else {
        a
    }
}

proof fn lemma_pow2_pos(e: int)
    ensures
        pow2(e) >= 1,
    decreases e,
{
    if e > 0 {
        lemma_pow2_pos(e - 1);
    }
}

proof fn lemma_copies_pos(ks: Seq<int>, i: int)
    ensures
        copies(ks, i) >= 1,
    decreases i, 1int, 0int,
{
    lemma_won_nonneg(ks, i, i);
}

proof fn lemma_won_nonneg(ks: Seq<int>, i: int, j: int)
    ensures
        won_from(ks, i, j) >= 0,
    decreases i, 0int, j,
{
    if j > 0 && j <= i {
        lemma_won_nonneg(ks, i, j - 1);
        if i - (j - 1) <= ks[j - 1] {
            lemma_copies_pos(ks, j - 1);
        }
    }
}

/// The `u32` values of words, if all are such values.
fn parse_numbers(ws: &Vec<Vec<u8>>) -> (r: Option<Vec<u64>>)
    ensures
        match r {
            Some(v) => numbers(bytes_view(ws@)) is Some && v@.len() == numbers(
                bytes_view(ws@),
            )->0.len() && forall|i: int|
                0 <= i < v@.len() ==> #[trigger] v@[i] == numbers(bytes_view(ws@))->0[i],
            None => numbers(bytes_view(ws@)) is None,
        },
{
    let ghost wv = bytes_view(ws@);
    let mut out: Vec<u64> = Vec::new();
    let mut k: usize = 0;
    proof {
        assert(wv.take(0) =~= Seq::<Seq<u8>>::empty());
    }
    while k < ws.len()
        invariant
            wv == bytes_view(ws@),
            k <= wv.len(),
            numbers(wv.take(k as int)) is Some,
            out@.len() == numbers(wv.take(k as int))->0.len(),
            forall|i: int| 0 <= i < out@.len() ==> #[trigger] out@[i] == numbers(wv.take(k as int))->0[i],
        decreases wv.len() - k,
    {
        proof {
            assert(wv.take(k + 1).drop_last() =~= wv.take(k as int));
            assert(wv.take(k + 1).last() == wv[k as int]);
            assert(wv[k as int] == ws@[k as int]@);
        }
        match parse_unsigned(&ws[k], 0xFFFF_FFFF) {
            Some(v) => {
                let ghost before = out@;
                out.push(v);
                proof {
                    assert forall|i: int| 0 <= i < out@.len() implies #[trigger] out@[i]
                        == numbers(wv.take(k + 1))->0[i] by {
                        if i < before.len() {
                            assert(out@[i] == before[i]);
                        }
                    }
                }
            },
            None => {
                proof {
                    lemma_numbers_fail(wv, k + 1);
                }
                return None;
            },
        }
        k = k + 1;
    }
    proof {
        assert(wv.take(wv.len() as int) =~= wv);
    }
    Some(out)
}

proof fn lemma_numbers_fail(ws: Seq<Seq<u8>>, k: int)
    requires
        0 <= k <= ws.len(),
        numbers(ws.take(k)) is None,
    ensures
        numbers(ws) is None,
    decreases ws.len() - k,
{
    if k < ws.len() {
        assert(ws.take(k + 1).drop_last() =~= ws.take(k));
        lemma_numbers_fail(ws, k + 1);
    } else {
        assert(ws.take(k) =~= ws);
    }
}

/// How many entries of `a` occur in `b`.
fn count_matches(a: &Vec<u64>, b: &Vec<u64>, Ghost(sa): Ghost<Seq<int>>, Ghost(sb): Ghost<Seq<int>>) -> (r: usize)
    requires
        a@.len() == sa.len(),
        b@.len() == sb.len(),
        forall|i: int| 0 <= i < a@.len() ==> #[trigger] a@[i] == sa[i],
        forall|i: int| 0 <= i < b@.len() ==> #[trigger] b@[i] == sb[i],
    ensures
        r == count_in(sa, sb),
{
    let mut n: usize = 0;
    let mut i: usize = 0;
    proof {
        assert(sa.take(0) =~= Seq::<int>::empty());
    }
    while i < a.len()
        invariant
            a@.len() == sa.len(),
            b@.len() == sb.len(),
            forall|k: int| 0 <= k < a@.len() ==> #[trigger] a@[k] == sa[k],
            forall|k: int| 0 <= k < b@.len() ==> #[trigger] b@[k] == sb[k],
            i <= a@.len(),
            n <= i,
            n == count_in(sa.take(i as int), sb),
        decreases a@.len() - i,
    {
        let mut j: usize = 0;
        while j < b.len() && b[j] != a[i]
            invariant
                b@.len() == sb.len(),
                forall|k: int| 0 <= k < b@.len() ==> #[trigger] b@[k] == sb[k],
                i < a@.len(),
                a@[i as int] == sa[i as int],
                j <= b@.len(),
                forall|k: int| 0 <= k < j ==> #[trigger] sb[k] != sa[i as int],
            decreases b@.len() - j,
        {
            j = j + 1;
        }
        let found = j < b.len();
        proof {
            if found {
                assert(sb[j as int] == sa[i as int]);
            }
        }
        proof {
            assert(sa.take(i + 1).drop_last() =~= sa.take(i as int));
            assert(sa.take(i + 1).last() == sa[i as int]);
            if !found {
                assert(!sb.contains(sa[i as int])) by {
                    if sb.contains(sa[i as int]) {
                        let k = choose|k: int| 0 <= k < sb.len() && sb[k] == sa[i as int];
                        assert(sb[k] != sa[i as int]);
                    }
                }
            }
        }
        if found {
            n = n + 1;
        }
        i = i + 1;
    }
    proof {
        assert(sa.take(sa.len() as int) =~= sa);
    }
    n
}

/// A card's number of matches.
fn matches_of(line: &Vec<u8>) -> (r: Option<usize>)
    ensures
        match r {
            Some(k) => card_matches(line@) == Some(k as int),
            None => card_matches(line@) is None,
        },
{
    let colon: Vec<u8> = vec![58u8, 32];
    let sep: Vec<u8> = vec![32u8, 124, 32];
    assert(colon@ =~= label_end());
    assert(sep@ =~= bar());
    let i = match find(line, &colon) {
        Some(i) => i,
        None => return None,
    };
    proof {
        crate::text::lemma_find_bounds(line@, label_end(), 0);
        assert(label_end().len() == 2);
        assert(i + 2 <= line@.len());
    }
    let n = line.len();
    let rest = slice_of(line, i + 2, n);
    let j = match find(&rest, &sep) {
        Some(j) => j,
        None => return None,
    };
    proof {
        crate::text::lemma_find_bounds(rest@, bar(), 0);
        assert(bar().len() == 3);
        assert(j + 3 <= rest@.len());
    }
    let have_text = slice_of(&rest, 0, j);
    let winning_text = slice_of(&rest, j + 3, rest.len());
    let have_words = split_words(have_text.as_slice());
    let winning_words = split_words(winning_text.as_slice());
    let have = match parse_numbers(&have_words) {
        Some(v) => v,
        None => return None,
    };
    let winning = match parse_numbers(&winning_words) {
        Some(v) => v,
        None => return None,
    };
    let ghost sa = numbers(bytes_view(have_words@))->0;
    let ghost sb = numbers(bytes_view(winning_words@))->0;
    Some(count_matches(&have, &winning, Ghost(sa), Ghost(sb)))
}

/// Match counts of the lines of a text that are cards.
fn all_matches(input: &str) -> (r: Vec<usize>)
    ensures
        r@.len() == match_counts(lines(input.spec_bytes())).len(),
        forall|i: int|
            0 <= i < r@.len() ==> #[trigger] r@[i] == match_counts(lines(input.spec_bytes()))[i],
{
    let rows = split_lines(input.as_bytes());
    let ghost ls = bytes_view(rows@);
    let mut out: Vec<usize> = Vec::new();
    let mut k: usize = 0;
    proof {
        assert(ls.take(0) =~= Seq::<Seq<u8>>::empty());
    }
    while k < rows.len()
        invariant
            ls == bytes_view(rows@),
            k <= ls.len(),
            out@.len() == match_counts(ls.take(k as int)).len(),
            forall|i: int| 0 <= i < out@.len() ==> #[trigger] out@[i] == match_counts(ls.take(k as int))[i],
        decreases ls.len() - k,
    {
        proof {
            assert(ls.take(k + 1).drop_last() =~= ls.take(k as int));
            assert(ls.take(k + 1).last() == ls[k as int]);
            assert(ls[k as int] == rows@[k as int]@);
        }
        let ghost before = out@;
        match matches_of(&rows[k]) {
            Some(m) => {
                out.push(m);
                proof {
                    assert forall|i: int| 0 <= i < out@.len() implies #[trigger] out@[i]
                        == match_counts(ls.take(k + 1))[i] by {
                        if i < before.len() {
                            assert(out@[i] == before[i]);
                        }
                    }
                }
            },
            None => {},
        }
        k = k + 1;
    }
    proof {
        assert(ls.take(ls.len() as int) =~= ls);
    }
    out
}

/// Points of a card with `k` matches, capped at 2^32.
fn capped_points(k: usize) -> (r: u64)
    ensures
        r == capped(points(k as int)),
{
    if k == 0 {
        return 0;
    }
    let mut p: u64 = 1;
    let mut e: usize = 0;
    while e < k - 1
        invariant
            e <= k - 1,
            p == capped(pow2(e as int)),
        decreases k - 1 - e,
    {
        proof {
            lemma_pow2_pos(e as int);
        }
        p = p * 2;
        if p > 0x1_0000_0000 {
            p = 0x1_0000_0000;
        }
        e = e + 1;
    }
    p
}

/// Total points of the cards; `None` past `u32::MAX`.
pub fn part_one(input: &str) -> (r: Option<u32>)
    ensures
        r == if points_total(
            match_counts(lines(input.spec_bytes())),
            match_counts(lines(input.spec_bytes())).len() as int,
        ) <= u32::MAX {
            Some(
                points_total(
                    match_counts(lines(input.spec_bytes())),
                    match_counts(lines(input.spec_bytes())).len() as int,
                ) as u32,
            )
        } else {
            None::<u32>
        },
{
    let ks = all_matches(input);
    let ghost sk = match_counts(lines(input.spec_bytes()));
    let mut total: u64 = 0;
    let mut i: usize = 0;
    while i < ks.len()
        invariant
            ks@.len() == sk.len(),
            forall|k: int| 0 <= k < ks@.len() ==> #[trigger] ks@[k] == sk[k],
            i <= ks@.len(),
            total == capped(points_total(sk, i as int)),
            points_total(sk, i as int) >= 0,
        decreases ks@.len() - i,
    {
        let p = capped_points(ks[i]);
        proof {
            if sk[i as int] > 0 {
                lemma_pow2_pos(sk[i as int] - 1);
            }
        }
        total = total + p;
        if total > 0x1_0000_0000 {
            total = 0x1_0000_0000;
        }
        i = i + 1;
    }
    if total <= 0xFFFF_FFFF {
        Some(total as u32)
    } else {
        None
    }
}

/// Cards held once every card has won its copies of the cards after it;
/// `None` past `u32::MAX`.
pub fn part_two(input: &str) -> (r: Option<u32>)
    ensures
        r == if cards_total(
            match_counts(lines(input.spec_bytes())),
            match_counts(lines(input.spec_bytes())).len() as int,
        ) <= u32::MAX {
            Some(
                cards_total(
                    match_counts(lines(input.spec_bytes())),
                    match_counts(lines(input.spec_bytes())).len() as int,
                ) as u32,
            )
        } else {
            None::<u32>
        },
{
    let ks = all_matches(input);
    let ghost sk = match_counts(lines(input.spec_bytes()));
    let n = ks.len();
    let mut held: Vec<u64> = Vec::new();
    let mut m: usize = 0;
    while m < n
        invariant
            m <= n,
            held@.len() == m,
            forall|q: int| 0 <= q < m ==> #[trigger] held@[q] == 1,
        decreases n - m,
    {
        held.push(1);
        m = m + 1;
    }
    let mut total: u64 = 0;
    let mut i: usize = 0;
    while i < n
        invariant
            n == ks@.len(),
            ks@.len() == sk.len(),
            forall|k: int| 0 <= k < ks@.len() ==> #[trigger] ks@[k] == sk[k],
            held@.len() == n,
            i <= n,
            forall|q: int| i <= q < n ==> #[trigger] held@[q] == capped(1 + won_from(sk, q, i as int)),
            total == capped(cards_total(sk, i as int)),
            cards_total(sk, i as int) >= 0,
        decreases n - i,
    {
        let c = held[i];
        proof {
            lemma_copies_pos(sk, i as int);
            assert(c == capped(copies(sk, i as int)));
        }
        total = total + c;
        if total > 0x1_0000_0000 {
            total = 0x1_0000_0000;
        }
        let k = ks[i];
        let mut t: usize = i + 1;
        while t < n && t - i <= k
            invariant
                n == ks@.len(),
                held@.len() == n,
                i < n,
                k == sk[i as int],
                c == capped(copies(sk, i as int)),
                i < t <= n,
                t - i <= k + 1,
                forall|q: int| i < q < t ==> #[trigger] held@[q] == capped(1 + won_from(sk, q, i + 1)),
                forall|q: int| t <= q < n ==> #[trigger] held@[q] == capped(1 + won_from(sk, q, i as int)),
            decreases n - t,
        {
            proof {
                lemma_won_nonneg(sk, t as int, i as int);
                lemma_copies_pos(sk, i as int);
                assert(won_from(sk, t as int, i + 1) == won_from(sk, t as int, i as int) + copies(
                    sk,
                    i as int,
                ));
            }
            let mut v = held[t] + c;
            if v > 0x1_0000_0000 {
                v = 0x1_0000_0000;
            }
            held.set(t, v);
            t = t + 1;
        }
        proof {
            assert forall|q: int| i + 1 <= q < n implies #[trigger] held@[q] == capped(
                1 + won_from(sk, q, i + 1),
            ) by {
                if q >= t {
                    assert(q - i > k);
                    assert(won_from(sk, q, i + 1) == won_from(sk, q, i as int));
                }
            }
        }
        i = i + 1;
    }
    if total <= 0xFFFF_FFFF {
        Some(total as u32)
    } else {
        None
    }
}

} // verus!
