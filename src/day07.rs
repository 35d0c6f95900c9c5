//! Camel Cards: hands ranked by type, then card by card; winnings are each
//! bid times its hand's rank.

use vstd::prelude::*;
use vstd::string::StringSliceAdditionalSpecFns;
use crate::text::{bytes_view, lines, parse_unsigned, split_lines, split_once, split_once_at, unsigned_value};

verus! {

/// Strength of a card; with `jokers`, `J` is a joker and the weakest card.
pub open spec fn card_value(c: u8, jokers: bool) -> Option<int> {
    if 50 <= c <= 57 {
        Some(c - 48)
    } else if c == 84 {
        Some(10)
    } else if c == 74 {
        Some(
            if jokers {
                1
            } else {
                11
            },
        )
    } else if c == 81 {
        Some(
            if jokers {
                11
            } else {
                12
            },
        )
    } else if c == 75 {
        Some(
            if jokers {
                12
            } else {
                13
            },
        )
    } else if c == 65 {
        Some(
            if jokers {
                13
            } else {
                14
            },
        )
    } else {
        None
    }
}

/// The strengths of the card bytes of a hand; other bytes are skipped.
pub open spec fn cards_of(s: Seq<u8>, jokers: bool) -> Seq<int>
    decreases s.len(),
{
    if s.len() == 0 {
        Seq::empty()
    } else {
        match card_value(s.last(), jokers) {
            Some(v) => cards_of(s.drop_last(), jokers).push(v),
            None => cards_of(s.drop_last(), jokers),
        }
    }
}

/// How many of the first `n` cards have strength `v`.
pub open spec fn count_among(h: Seq<int>, v: int, n: int) -> int
    decreases n,
{
    if n <= 0 {
        0
    } else {
        count_among(h, v, n - 1) + if h[n - 1] == v {
            1int
        } else {
            0
        }
    }
}

/// Card `k` is a joker.
pub open spec fn is_joker(h: Seq<int>, k: int, jokers: bool) -> bool {
    jokers && h[k] == 1
}

/// Distinct strengths among the first `n` cards, jokers left out.
pub open spec fn kinds(h: Seq<int>, jokers: bool, n: int) -> int
    decreases n,
{
    if n <= 0 {
        0
    } else {
        kinds(h, jokers, n - 1) + if !is_joker(h, n - 1, jokers) && count_among(h, h[n - 1], n - 1)
            == 0 {
            1int
        } else {
            0
        }
    }
}

/// Most cards of one strength among the hand, jokers left out, over the
/// first `n` cards' strengths.
pub open spec fn most(h: Seq<int>, jokers: bool, n: int) -> int
    decreases n,
{
    if n <= 0 {
        0
    } else {
        let c = if is_joker(h, n - 1, jokers) {
            0
        } else {
            count_among(h, h[n - 1], 5)
        };
        let rest = most(h, jokers, n - 1);
        if c > rest {
            c
        } else {
            rest
        }
    }
}

/// Type of a five-card hand, from 0 (high card) to 6 (five of a kind);
/// jokers join the largest group.
pub open spec fn hand_type(h: Seq<int>, jokers: bool) -> int {
    let d = kinds(h, jokers, 5);
    let m = most(h, jokers, 5) + if jokers {
        count_among(h, 1, 5)
    } else {
        0
    };
    if d <= 1 {
        6
    } else if d == 2 {
        if m == 4 {
            5
        } else {
            4
        }
    } else if d == 3 {
        if m == 3 {
            3
        } else {
            2
        }
    } else if d == 4 {
        1
    } else {
        0
    }
}

/// A line's hand: its type, its cards and its bid; `None` for a line
/// without a space, without exactly five cards, or without a `u32` bid.
pub open spec fn hand_of(l: Seq<u8>, jokers: bool) -> Option<(int, Seq<int>, int)> {
    match split_once(l, seq![32u8]) {
        None => None,
        Some((hand, bid)) => {
            let cs = cards_of(hand, jokers);
            if cs.len() != 5 {
                None
            } else {
                match unsigned_value(bid) {
                    Some(v) => if v <= u32::MAX {
                        Some((hand_type(cs, jokers), cs, v))
                    } else {
                        None
                    },
                    None => None,
                }
            }
        },
    }
}

/// The hands of the lines that hold one, in order.
pub open spec fn hands_of(ls: Seq<Seq<u8>>, jokers: bool) -> Seq<(int, Seq<int>, int)>
    decreases ls.len(),
{
    if ls.len() == 0 {
        Seq::empty()
    } else {
        match hand_of(ls.last(), jokers) {
            Some(h) => hands_of(ls.drop_last(), jokers).push(h),
            None => hands_of(ls.drop_last(), jokers),
        }
    }
}

/// Cards `a` come before cards `b` when first compared from card `k` on.
pub open spec fn cards_below(a: Seq<int>, b: Seq<int>, k: int) -> bool
    decreases 5 - k,
{
    if k >= 5 || k < 0 {
        false
    } else if a[k] != b[k] {
        a[k] < b[k]
    } else {
        cards_below(a, b, k + 1)
    }
}

/// Hand `j` ranks below hand `i`: a weaker type, or the same type and
/// weaker cards, or equal hands with `j` listed first.
pub open spec fn ranks_below(hs: Seq<(int, Seq<int>, int)>, j: int, i: int) -> bool {
    ||| hs[j].0 < hs[i].0
    ||| (hs[j].0 == hs[i].0 && cards_below(hs[j].1, hs[i].1, 0))
    ||| (hs[j].0 == hs[i].0 && hs[j].1 == hs[i].1 && j < i)
}

/// Hands among the first `n` that rank below hand `i`.
pub open spec fn below_count(hs: Seq<(int, Seq<int>, int)>, i: int, n: int) -> int
    decreases n,
{
    if n <= 0 {
        0
    } else {
        below_count(hs, i, n - 1) + if ranks_below(hs, n - 1, i) {
            1int
        } else {
            0
        }
    }
}

/// Sum over the first `n` hands of bid times rank, the rank being one more
/// than the number of hands below.
pub open spec fn winnings(hs: Seq<(int, Seq<int>, int)>, n: int) -> int
    decreases n,
{
    if n <= 0 {
        0
    } else {
        winnings(hs, n - 1) + (1 + below_count(hs, n - 1, hs.len() as int)) * hs[n - 1].2
    }
}

/// The values of a vector of strengths.
pub open spec fn ints(v: Seq<u64>) -> Seq<int> {
    Seq::new(v.len(), |i: int| v[i] as int)
}

/// A hand read from a line.
pub struct Hand {
    pub kind: u64,
    pub cards: Vec<u64>,
    pub bid: u64,
}

/// The hands of a vector, as type, cards and bid.
pub open spec fn hands_view(v: Seq<Hand>) -> Seq<(int, Seq<int>, int)> {
    Seq::new(v.len(), |i: int| (v[i].kind as int, ints(v[i].cards@), v[i].bid as int))
}

/// `a` capped at 2^32.
pub open spec fn capped(a: int) -> int {
    if a > 0x1_0000_0000 {
        0x1_0000_0000
    } else {
        a
    }
}

/// The strengths of the card bytes of a hand.
fn read_cards(hand: &Vec<u8>, jokers: bool) -> (r: Vec<u64>)
    ensures
        ints(r@) == cards_of(hand@, jokers),
        forall|i: int| 0 <= i < r@.len() ==> #[trigger] r@[i] <= 14,
{
    let mut r: Vec<u64> = Vec::new();
    let mut k: usize = 0;
    assert(hand@.take(0) =~= Seq::<u8>::empty());
    assert(ints(r@) =~= Seq::<int>::empty());
    while k < hand.len()
        invariant
            k <= hand@.len(),
            ints(r@) == cards_of(hand@.take(k as int), jokers),
            forall|i: int| 0 <= i < r@.len() ==> #[trigger] r@[i] <= 14,
        decreases hand@.len() - k,
    {
        proof {
            assert(hand@.take(k + 1).drop_last() =~= hand@.take(k as int));
            assert(hand@.take(k + 1).last() == hand@[k as int]);
        }
        let c = hand[k];
        let v: u64 = if 50 <= c && c <= 57 {
            (c - 48) as u64
        } else if c == 84 {
            10
        } else if c == 74 {
            if jokers {
                1
            } else {
                11
            }
        } else if c == 81 {
            if jokers {
                11
            } else {
                12
            }
        } else if c == 75 {
            if jokers {
                12
            } else {
                13
            }
        } else if c == 65 {
            if jokers {
                13
            } else {
                14
            }
        } else {
            0
        };
        if v != 0 {
            let ghost before = ints(r@);
            r.push(v);
            assert(ints(r@) =~= before.push(v as int));
        }
        k = k + 1;
    }
    assert(hand@.take(hand@.len() as int) =~= hand@);
    r
}

/// How many of the first `n` cards have strength `v`.
fn count_cards(h: &Vec<u64>, v: u64, n: usize) -> (r: u64)
    requires
        n <= h@.len(),
        n <= 5,
    ensures
        r == count_among(ints(h@), v as int, n as int),
        r <= n,
{
    let mut c: u64 = 0;
    let mut k: usize = 0;
    while k < n
        invariant
            k <= n,
            n <= h@.len(),
            n <= 5,
            c == count_among(ints(h@), v as int, k as int),
            c <= k,
        decreases n - k,
    {
        if h[k] == v {
            c = c + 1;
        }
        k = k + 1;
    }
    c
}

/// Type of a five-card hand.
fn type_of(h: &Vec<u64>, jokers: bool) -> (r: u64)
    requires
        h@.len() == 5,
    ensures
        r == hand_type(ints(h@), jokers),
{
    let ghost hv = ints(h@);
    let mut d: u64 = 0;
    let mut m: u64 = 0;
    let mut k: usize = 0;
    while k < 5
        invariant
            h@.len() == 5,
            hv == ints(h@),
            k <= 5,
            d == kinds(hv, jokers, k as int),
            d <= k,
            m == most(hv, jokers, k as int),
            m <= 5,
        decreases 5 - k,
    {
        let joker = jokers && h[k] == 1;
        if !joker && count_cards(h, h[k], k) == 0 {
            d = d + 1;
        }
        let c = if joker {
            0
        } else {
            count_cards(h, h[k], 5)
        };
        if c > m {
            m = c;
        }
        k = k + 1;
    }
    let j = if jokers {
        count_cards(h, 1, 5)
    } else {
        0
    };
    let top = m + j;
    if d <= 1 {
        6
    } else if d == 2 {
        if top == 4 {
            5
        } else {
            4
        }
    } else if d == 3 {
        if top == 3 {
            3
        } else {
            2
        }
    } else if d == 4 {
        1
    } else {
        0
    }
}

/// Reads a hand from a line.
fn read_hand(line: &Vec<u8>, jokers: bool) -> (r: Option<Hand>)
    ensures
        match r {
            Some(hd) => hand_of(line@, jokers) == Some(
                (hd.kind as int, ints(hd.cards@), hd.bid as int),
            ) && hd.cards@.len() == 5,
            None => hand_of(line@, jokers) is None,
        },
{
    let space: Vec<u8> = vec![32u8];
    assert(space@ =~= seq![32u8]);
    let (hand, bid) = match split_once_at(line, &space) {
        Some(p) => p,
        None => return None,
    };
    let cards = read_cards(&hand, jokers);
    if cards.len() != 5 {
        return None;
    }
    let bid = match parse_unsigned(&bid, 0xFFFF_FFFF) {
        Some(v) => v,
        None => return None,
    };
    let kind = type_of(&cards, jokers);
    Some(Hand { kind, cards, bid })
}

/// Whether hand `j` ranks below hand `i`.
fn below(hs: &Vec<Hand>, j: usize, i: usize) -> (r: bool)
    requires
        j < hs@.len(),
        i < hs@.len(),
        hs@[j as int].cards@.len() == 5,
        hs@[i as int].cards@.len() == 5,
    ensures
        r == ranks_below(hands_view(hs@), j as int, i as int),
{
    let ghost v = hands_view(hs@);
    let a = &hs[j];
    let b = &hs[i];
    if a.kind != b.kind {
        return a.kind < b.kind;
    }
    let ghost ca = ints(a.cards@);
    let ghost cb = ints(b.cards@);
    assert(v[j as int].1 == ca && v[i as int].1 == cb);
    let mut k: usize = 0;
    while k < 5
        invariant
            j < hs@.len(),
            i < hs@.len(),
            v == hands_view(hs@),
            a == hs@[j as int],
            b == hs@[i as int],
            a.kind == b.kind,
            a.cards@.len() == 5,
            b.cards@.len() == 5,
            ca == ints(a.cards@),
            cb == ints(b.cards@),
            k <= 5,
            cards_below(ca, cb, 0) == cards_below(ca, cb, k as int),
            forall|q: int| 0 <= q < k ==> #[trigger] ca[q] == cb[q],
        decreases 5 - k,
    {
        if a.cards[k] != b.cards[k] {
            proof {
                assert(ca[k as int] != cb[k as int]);
                assert(ca != cb);
                assert(v[j as int].0 == v[i as int].0);
            }
            return a.cards[k] < b.cards[k];
        }
        k = k + 1;
    }
    assert(ca =~= cb);
    j < i
}

/// Total winnings of the hands of a text, capped at 2^32.
fn total_winnings(input: &str, jokers: bool) -> (r: u64)
    ensures
        r == capped(winnings(hands_of(lines(input.spec_bytes()), jokers), hands_of(lines(input.spec_bytes()), jokers).len() as int)),
{
    let rows = split_lines(input.as_bytes());
    let ghost ls = bytes_view(rows@);
    let mut hs: Vec<Hand> = Vec::new();
    let mut k: usize = 0;
    assert(ls.take(0) =~= Seq::<Seq<u8>>::empty());
    assert(hands_view(hs@) =~= Seq::<(int, Seq<int>, int)>::empty());
    while k < rows.len()
        invariant
            ls == bytes_view(rows@),
            ls == lines(input.spec_bytes()),
            k <= ls.len(),
            hands_view(hs@) == hands_of(ls.take(k as int), jokers),
            forall|q: int| 0 <= q < hs@.len() ==> (#[trigger] hs@[q]).cards@.len() == 5 && hs@[q].bid <= u32::MAX,
        decreases ls.len() - k,
    {
        proof {
            assert(ls.take(k + 1).drop_last() =~= ls.take(k as int));
            assert(ls.take(k + 1).last() == ls[k as int]);
            assert(ls[k as int] == rows@[k as int]@);
        }
        match read_hand(&rows[k], jokers) {
            Some(hd) => {
                let ghost before = hands_view(hs@);
                proof {
                    crate::text::lemma_unsigned_nonneg(ls[k as int]);
                }
                let ghost entry = (hd.kind as int, ints(hd.cards@), hd.bid as int);
                let ghost old_hs = hs@;
                hs.push(hd);
                assert(hands_view(hs@) =~= before.push(entry));
                assert forall|q: int| 0 <= q < hs@.len() implies (#[trigger] hs@[q]).cards@.len() == 5
                    && hs@[q].bid <= u32::MAX by {
                    if q < old_hs.len() {
                        assert(hs@[q] == old_hs[q]);
                    }
                }
            },
            None => {},
        }
        k = k + 1;
    }
    assert(ls.take(ls.len() as int) =~= ls);
    let ghost hv = hands_view(hs@);
    let n = hs.len();
    let mut total: u64 = 0;
    let mut i: usize = 0;
    while i < n
        invariant
            n == hs@.len(),
            hv == hands_view(hs@),
            forall|q: int| 0 <= q < hs@.len() ==> (#[trigger] hs@[q]).cards@.len() == 5 && hs@[q].bid <= u32::MAX,
            i <= n,
            winnings(hv, i as int) >= 0,
            total == capped(winnings(hv, i as int)),
        decreases n - i,
    {
        let mut c: u64 = 0;
        let mut j: usize = 0;
        while j < n
            invariant
                n == hs@.len(),
                hv == hands_view(hs@),
                forall|q: int| 0 <= q < hs@.len() ==> (#[trigger] hs@[q]).cards@.len() == 5 && hs@[q].bid <= u32::MAX,
                i < n,
                j <= n,
                c == below_count(hv, i as int, j as int),
                c <= j,
            decreases n - j,
        {
            if below(&hs, j, i) {
                c = c + 1;
            }
            j = j + 1;
        }
        let bid = hs[i].bid;
        proof {
            assert(hv[i as int].2 == bid as int);
            assert((c + 1) * bid <= 0x1_0000_0000_0000_0000 * 0xFFFF_FFFF) by (nonlinear_arith)
                requires
                    c <= 0xFFFF_FFFF_FFFF_FFFF,
                    bid <= 0xFFFF_FFFF,
            ;
            assert((c + 1) * bid >= 0) by (nonlinear_arith)
                requires
                    c >= 0,
                    bid >= 0,
            ;
        }
        let term = ((c as u128) + 1) * (bid as u128);
        let mut t = total as u128 + term;
        if t > 0x1_0000_0000 {
            t = 0x1_0000_0000;
        }
        total = t as u64;
        i = i + 1;
    }
    total
}

/// Total winnings: each bid times the rank of its hand, hands ordered by
/// type and then card by card, equal hands in the order listed; `None` past
/// `u32::MAX`.
pub fn part_one(input: &str) -> (r: Option<u32>)
    ensures
        r == if winnings(hands_of(lines(input.spec_bytes()), false), hands_of(lines(input.spec_bytes()), false).len() as int) <= u32::MAX {
            Some(winnings(hands_of(lines(input.spec_bytes()), false), hands_of(lines(input.spec_bytes()), false).len() as int) as u32)
        } else {
            None::<u32>
        },
{
    let t = total_winnings(input, false);
    if t <= 0xFFFF_FFFF {
        Some(t as u32)
    } else {
        None
    }
}

/// Total winnings when `J` is a joker: the weakest card, counted with the
/// largest group for the hand's type.
pub fn part_two(input: &str) -> (r: Option<u32>)
    ensures
        r == if winnings(hands_of(lines(input.spec_bytes()), true), hands_of(lines(input.spec_bytes()), true).len() as int) <= u32::MAX {
            Some(winnings(hands_of(lines(input.spec_bytes()), true), hands_of(lines(input.spec_bytes()), true).len() as int) as u32)
        } else {
            None::<u32>
        },
{
    let t = total_winnings(input, true);
    if t <= 0xFFFF_FFFF {
        Some(t as u32)
    } else {
        None
    }
}

} // verus!
