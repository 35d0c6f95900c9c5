//! Cube games: which games a bag could have produced, and the fewest cubes
//! each game needs.

use vstd::prelude::*;
use vstd::string::StringSliceAdditionalSpecFns;
use crate::text::{
    bytes_view, lines, parse_unsigned, same_bytes, split_by, split_lines, split_on,
    split_once, split_once_at, unsigned_value,
};

verus! {

/// `": "`, after a game's label.
pub open spec fn label_sep() -> Seq<u8> {
    seq![58u8, 32]
}

/// `"; "`, between the pulls of a game.
pub open spec fn pull_sep() -> Seq<u8> {
    seq![59u8, 32]
}

/// `", "`, between the handfuls of a pull.
pub open spec fn handful_sep() -> Seq<u8> {
    seq![44u8, 32]
}

/// A single space.
pub open spec fn space() -> Seq<u8> {
    seq![32u8]
}

/// `"red"`.
pub open spec fn red() -> Seq<u8> {
    seq![114u8, 101, 100]
}

/// `"green"`.
pub open spec fn green() -> Seq<u8> {
    seq![103u8, 114, 101, 101, 110]
}

/// `"blue"`.
pub open spec fn blue() -> Seq<u8> {
    seq![98u8, 108, 117, 101]
}

/// A handful of cubes, `"<count> <colour>"`: the count and the colour.
pub open spec fn handful(c: Seq<u8>) -> Option<(int, Seq<u8>)> {
    match split_once(c, space()) {
        Some((a, col)) => match unsigned_value(a) {
            Some(v) => if v <= u32::MAX {
                Some((v, col))
            } else {
                None
            },
            None => None,
        },
        None => None,
    }
}

/// A bag of 12 red, 13 green and 14 blue cubes could give this handful.
pub open spec fn possible(v: int, col: Seq<u8>) -> bool {
    (col == red() && v <= 12) || (col == green() && v <= 13) || (col == blue() && v <= 14)
}

/// Handfuls checked in order: `None` at the first that cannot be read
/// before an impossible one, `Some(false)` at the first impossible one.
pub open spec fn check_handfuls(cs: Seq<Seq<u8>>) -> Option<bool>
    decreases cs.len(),
{
    if cs.len() == 0 {
        Some(true)
    } else {
        match handful(cs[0]) {
            None => None,
            Some((v, col)) => if possible(v, col) {
                check_handfuls(cs.drop_first())
            } else {
                Some(false)
            },
        }
    }
}

/// Pulls checked in order, each by its handfuls.
pub open spec fn check_pulls(ps: Seq<Seq<u8>>) -> Option<bool>
    decreases ps.len(),
{
    if ps.len() == 0 {
        Some(true)
    } else {
        match check_handfuls(split_on(ps[0], handful_sep())) {
            None => None,
            Some(false) => Some(false),
            Some(true) => check_pulls(ps.drop_first()),
        }
    }
}

/// What a game line adds: its id when the game is possible, else 0; `None`
/// when the line cannot be read.
pub open spec fn game_score(l: Seq<u8>) -> Option<int> {
    match split_once(l, label_sep()) {
        None => None,
        Some((head, body)) => match split_once(head, space()) {
            None => None,
            Some((_, idw)) => match unsigned_value(idw) {
                None => None,
                Some(id) => if id > u32::MAX {
                    None
                } else {
                    match check_pulls(split_on(body, pull_sep())) {
                        None => None,
                        Some(ok) => Some(
                            if ok {
                                id
                            } else {
                                0
                            },
                        ),
                    }
                },
            },
        },
    }
}

/// Sum of the ids of the possible games; `None` if a line cannot be read.
pub open spec fn possible_total(ls: Seq<Seq<u8>>) -> Option<int>
    decreases ls.len(),
{
    if ls.len() == 0 {
        Some(0)
    } else {
        match (possible_total(ls.drop_last()), game_score(ls.last())) {
            (Some(t), Some(g)) => Some(t + g),
            _ => None,
        }
    }
}

/// The larger of two integers.
pub open spec fn larger(a: int, b: int) -> int {
    if a >= b {
        a
    } else {
        b
    }
}

/// Most red, green and blue cubes shown by the readable handfuls.
pub open spec fn fewest(cs: Seq<Seq<u8>>) -> (int, int, int)
    decreases cs.len(),
{
    if cs.len() == 0 {
        (0, 0, 0)
    } else {
        let (r, g, b) = fewest(cs.drop_last());
        match handful(cs.last()) {
            Some((v, col)) => if col == red() {
                (larger(r, v), g, b)
            } else if col == green() {
                (r, larger(g, v), b)
            } else if col == blue() {
                (r, g, larger(b, v))
            } else {
                (r, g, b)
            },
            None => (r, g, b),
        }
    }
}

/// Most cubes of each colour over all pulls.
pub open spec fn fewest_over_pulls(ps: Seq<Seq<u8>>) -> (int, int, int)
    decreases ps.len(),
{
    if ps.len() == 0 {
        (0, 0, 0)
    } else {
        let (r, g, b) = fewest_over_pulls(ps.drop_last());
        let (r2, g2, b2) = fewest(split_on(ps.last(), handful_sep()));
        (larger(r, r2), larger(g, g2), larger(b, b2))
    }
}

/// Power of a game: the product of the fewest cubes of each colour; `None`
/// for a line without a label.
pub open spec fn game_power(l: Seq<u8>) -> Option<int> {
    match split_once(l, label_sep()) {
        None => None,
        Some((_, body)) => {
            let (r, g, b) = fewest_over_pulls(split_on(body, pull_sep()));
            Some(r * g * b)
        },
    }
}

/// Sum of the powers of the games; `None` if a line has no label.
pub open spec fn power_total(ls: Seq<Seq<u8>>) -> Option<int>
    decreases ls.len(),
{
    if ls.len() == 0 {
        Some(0)
    } else {
        match (power_total(ls.drop_last()), game_power(ls.last())) {
            (Some(t), Some(p)) => Some(t + p),
            _ => None,
        }
    }
}

/// `a` capped at 2^32.
pub open spec fn capped(a: int) -> int {
    if a > 0x1_0000_0000 {
        0x1_0000_0000
    } else {
        a
    }
}

/// Colour codes: 0 red, 1 green, 2 blue, 3 any other.
pub open spec fn colour_code(col: Seq<u8>) -> int {
    if col == red() {
        0
    } else if col == green() {
        1
    } else if col == blue() {
        2
    } else {
        3
    }
}

/// Which colour a word names.
fn colour_of(col: &Vec<u8>) -> (r: u8)
    ensures
        r == colour_code(col@),
{
    let rv: Vec<u8> = vec![114u8, 101, 100];
    let gv: Vec<u8> = vec![103u8, 114, 101, 101, 110];
    let bv: Vec<u8> = vec![98u8, 108, 117, 101];
    assert(rv@ =~= red());
    assert(gv@ =~= green());
    assert(bv@ =~= blue());
    if same_bytes(col, &rv) {
        0
    } else if same_bytes(col, &gv) {
        1
    } else if same_bytes(col, &bv) {
        2
    } else {
        3
    }
}

/// Reads a handful: its count and colour code.
fn read_handful(c: &Vec<u8>) -> (r: Option<(u64, u8)>)
    ensures
        match r {
            Some((v, k)) => v <= u32::MAX && match handful(c@) {
                Some((n, col)) => n == v && colour_code(col) == k,
                None => false,
            },
            None => handful(c@) is None,
        },
{
    let sp: Vec<u8> = vec![32u8];
    assert(sp@ =~= space());
    match split_once_at(c, &sp) {
        Some((a, col)) => match parse_unsigned(&a, 0xFFFF_FFFF) {
            Some(v) => Some((v, colour_of(&col))),
            None => None,
        },
        None => None,
    }
}

/// Checks the handfuls of one pull.
fn check_pull(pull: &Vec<u8>) -> (r: Option<bool>)
    ensures
        r == check_handfuls(split_on(pull@, handful_sep())),
{
    let sep: Vec<u8> = vec![44u8, 32];
    assert(sep@ =~= handful_sep());
    let cs = split_by(pull, &sep);
    let ghost cv = bytes_view(cs@);
    let mut k: usize = 0;
    assert(cv.subrange(0, cv.len() as int) =~= cv);
    while k < cs.len()
        invariant
            cv == bytes_view(cs@),
            cv == split_on(pull@, handful_sep()),
            k <= cv.len(),
            check_handfuls(cv) == check_handfuls(cv.subrange(k as int, cv.len() as int)),
        decreases cv.len() - k,
    {
        let ghost rest = cv.subrange(k as int, cv.len() as int);
        proof {
            assert(rest[0] == cv[k as int]);
            assert(cv[k as int] == cs@[k as int]@);
            assert(rest.drop_first() =~= cv.subrange(k + 1, cv.len() as int));
        }
        match read_handful(&cs[k]) {
            None => return None,
            Some((v, code)) => {
                let ok = (code == 0 && v <= 12) || (code == 1 && v <= 13) || (code == 2 && v <= 14);
                if !ok {
                    return Some(false);
                }
            },
        }
        k = k + 1;
    }
    assert(cv.subrange(k as int, cv.len() as int) =~= Seq::<Seq<u8>>::empty());
    Some(true)
}

/// The score of one game line.
fn score_game(line: &Vec<u8>) -> (r: Option<u64>)
    ensures
        match r {
            Some(v) => game_score(line@) == Some(v as int) && v <= u32::MAX,
            None => game_score(line@) is None,
        },
{
    let colon: Vec<u8> = vec![58u8, 32];
    let sp: Vec<u8> = vec![32u8];
    let semi: Vec<u8> = vec![59u8, 32];
    assert(colon@ =~= label_sep());
    assert(sp@ =~= space());
    assert(semi@ =~= pull_sep());
    let (head, body) = match split_once_at(line, &colon) {
        Some(p) => p,
        None => return None,
    };
    let (_, idw) = match split_once_at(&head, &sp) {
        Some(p) => p,
        None => return None,
    };
    let id = match parse_unsigned(&idw, 0xFFFF_FFFF) {
        Some(v) => v,
        None => {
            proof {
                crate::text::lemma_unsigned_nonneg(idw@);
            }
            return None;
        },
    };
    let ps = split_by(&body, &semi);
    let ghost pv = bytes_view(ps@);
    let mut k: usize = 0;
    assert(pv.subrange(0, pv.len() as int) =~= pv);
    assert(check_pulls(pv) is None ==> game_score(line@) is None);
    assert(check_pulls(pv) == Some(false) ==> game_score(line@) == Some(0int));
    assert(check_pulls(pv) == Some(true) ==> game_score(line@) == Some(id as int));
    while k < ps.len()
        invariant
            pv == bytes_view(ps@),
            k <= pv.len(),
            id <= u32::MAX,
            check_pulls(pv) is None ==> game_score(line@) is None,
            check_pulls(pv) == Some(false) ==> game_score(line@) == Some(0int),
            check_pulls(pv) == Some(true) ==> game_score(line@) == Some(id as int),
            check_pulls(pv) == check_pulls(pv.subrange(k as int, pv.len() as int)),
        decreases pv.len() - k,
    {
        let ghost rest = pv.subrange(k as int, pv.len() as int);
        proof {
            assert(rest[0] == pv[k as int]);
            assert(pv[k as int] == ps@[k as int]@);
            assert(rest.drop_first() =~= pv.subrange(k + 1, pv.len() as int));
        }
        match check_pull(&ps[k]) {
            None => return None,
            Some(false) => return Some(0),
            Some(true) => {},
        }
        k = k + 1;
    }
    assert(pv.subrange(k as int, pv.len() as int) =~= Seq::<Seq<u8>>::empty());
    Some(id)
}

proof fn lemma_possible_fails(ls: Seq<Seq<u8>>, k: int)
    requires
        0 <= k <= ls.len(),
        possible_total(ls.take(k)) is None,
    ensures
        possible_total(ls) is None,
    decreases ls.len() - k,
{
    if k < ls.len() {
        assert(ls.take(k + 1).drop_last() =~= ls.take(k));
        lemma_possible_fails(ls, k + 1);
    } else {
        assert(ls.take(k) =~= ls);
    }
}

proof fn lemma_power_fails(ls: Seq<Seq<u8>>, k: int)
    requires
        0 <= k <= ls.len(),
        power_total(ls.take(k)) is None,
    ensures
        power_total(ls) is None,
    decreases ls.len() - k,
{
    if k < ls.len() {
        assert(ls.take(k + 1).drop_last() =~= ls.take(k));
        lemma_power_fails(ls, k + 1);
    } else {
        assert(ls.take(k) =~= ls);
    }
}

/// Sum of the ids of the games a bag of 12 red, 13 green and 14 blue cubes
/// could have produced; `None` if a line cannot be read or the sum passes
/// `u32::MAX`.
pub fn part_one(input: &str) -> (r: Option<u32>)
    ensures
        r == match possible_total(lines(input.spec_bytes())) {
            Some(t) => if t <= u32::MAX {
                Some(t as u32)
            } else {
                None::<u32>
            },
            None => None::<u32>,
        },
{
    let rows = split_lines(input.as_bytes());
    let ghost ls = bytes_view(rows@);
    let mut total: u64 = 0;
    let mut k: usize = 0;
    proof {
        assert(ls.take(0) =~= Seq::<Seq<u8>>::empty());
    }
    while k < rows.len()
        invariant
            ls == bytes_view(rows@),
            ls == lines(input.spec_bytes()),
            k <= ls.len(),
            possible_total(ls.take(k as int)) is Some,
            possible_total(ls.take(k as int))->0 >= 0,
            total == capped(possible_total(ls.take(k as int))->0),
        decreases ls.len() - k,
    {
        proof {
            assert(ls.take(k + 1).drop_last() =~= ls.take(k as int));
            assert(ls.take(k + 1).last() == ls[k as int]);
            assert(ls[k as int] == rows@[k as int]@);
        }
        match score_game(&rows[k]) {
            Some(v) => {
                total = total + v;
                if total > 0x1_0000_0000 {
                    total = 0x1_0000_0000;
                }
            },
            None => {
                proof {
                    lemma_possible_fails(ls, k + 1);
                }
                return None;
            },
        }
        k = k + 1;
    }
    proof {
        assert(ls.take(ls.len() as int) =~= ls);
    }
    if total <= 0xFFFF_FFFF {
        Some(total as u32)
    } else {
        None
    }
}

/// Most cubes of each colour shown in one pull.
fn pull_maxima(pull: &Vec<u8>) -> (r: (u64, u64, u64))
    ensures
        (r.0 as int, r.1 as int, r.2 as int) == fewest(split_on(pull@, handful_sep())),
        r.0 <= u32::MAX && r.1 <= u32::MAX && r.2 <= u32::MAX,
{
    let sep: Vec<u8> = vec![44u8, 32];
    assert(sep@ =~= handful_sep());
    let cs = split_by(pull, &sep);
    let ghost cv = bytes_view(cs@);
    let mut r: u64 = 0;
    let mut g: u64 = 0;
    let mut b: u64 = 0;
    let mut k: usize = 0;
    assert(cv.take(0) =~= Seq::<Seq<u8>>::empty());
    while k < cs.len()
        invariant
            cv == bytes_view(cs@),
            k <= cv.len(),
            (r as int, g as int, b as int) == fewest(cv.take(k as int)),
            r <= u32::MAX && g <= u32::MAX && b <= u32::MAX,
        decreases cv.len() - k,
    {
        proof {
            assert(cv.take(k + 1).drop_last() =~= cv.take(k as int));
            assert(cv.take(k + 1).last() == cv[k as int]);
            assert(cv[k as int] == cs@[k as int]@);
        }
        match read_handful(&cs[k]) {
            Some((v, code)) => {
                if code == 0 {
                    if v > r {
                        r = v;
                    }
                } else if code == 1 {
                    if v > g {
                        g = v;
                    }
                } else if code == 2 {
                    if v > b {
                        b = v;
                    }
                }
            },
            None => {},
        }
        k = k + 1;
    }
    assert(cv.take(cv.len() as int) =~= cv);
    (r, g, b)
}

/// Power of one game line.
fn power_of(line: &Vec<u8>) -> (r: Option<u128>)
    ensures
        match r {
            Some(p) => game_power(line@) == Some(p as int),
            None => game_power(line@) is None,
        },
{
    let colon: Vec<u8> = vec![58u8, 32];
    let semi: Vec<u8> = vec![59u8, 32];
    assert(colon@ =~= label_sep());
    assert(semi@ =~= pull_sep());
    let (_, body) = match split_once_at(line, &colon) {
        Some(p) => p,
        None => return None,
    };
    let ps = split_by(&body, &semi);
    let ghost pv = bytes_view(ps@);
    let mut r: u64 = 0;
    let mut g: u64 = 0;
    let mut b: u64 = 0;
    let mut k: usize = 0;
    assert(pv.take(0) =~= Seq::<Seq<u8>>::empty());
    while k < ps.len()
        invariant
            pv == bytes_view(ps@),
            k <= pv.len(),
            (r as int, g as int, b as int) == fewest_over_pulls(pv.take(k as int)),
            r <= u32::MAX && g <= u32::MAX && b <= u32::MAX,
        decreases pv.len() - k,
    {
        proof {
            assert(pv.take(k + 1).drop_last() =~= pv.take(k as int));
            assert(pv.take(k + 1).last() == pv[k as int]);
            assert(pv[k as int] == ps@[k as int]@);
        }
        let (r2, g2, b2) = pull_maxima(&ps[k]);
        if r2 > r {
            r = r2;
        }
        if g2 > g {
            g = g2;
        }
        if b2 > b {
            b = b2;
        }
        k = k + 1;
    }
    assert(pv.take(pv.len() as int) =~= pv);
    proof {
        assert((r as int) * (g as int) <= 0xFFFF_FFFF * 0xFFFF_FFFF) by (nonlinear_arith)
            requires
                r <= 0xFFFF_FFFF,
                g <= 0xFFFF_FFFF,
        ;
        assert((r as int) * (g as int) * (b as int) <= 0xFFFF_FFFF * 0xFFFF_FFFF * 0xFFFF_FFFF)
            by (nonlinear_arith)
            requires
                r <= 0xFFFF_FFFF,
                g <= 0xFFFF_FFFF,
                b <= 0xFFFF_FFFF,
        ;
    }
    Some((r as u128) * (g as u128) * (b as u128))
}

/// Sum over the games of the product of the fewest red, green and blue
/// cubes each needs; `None` if a line has no label or the sum passes
/// `u32::MAX`.
pub fn part_two(input: &str) -> (r: Option<u32>)
    ensures
        r == match power_total(lines(input.spec_bytes())) {
            Some(t) => if t <= u32::MAX {
                Some(t as u32)
            } else {
                None::<u32>
            },
            None => None::<u32>,
        },
{
    let rows = split_lines(input.as_bytes());
    let ghost ls = bytes_view(rows@);
    let mut total: u128 = 0;
    let mut k: usize = 0;
    proof {
        assert(ls.take(0) =~= Seq::<Seq<u8>>::empty());
    }
    while k < rows.len()
        invariant
            ls == bytes_view(rows@),
            ls == lines(input.spec_bytes()),
            k <= ls.len(),
            power_total(ls.take(k as int)) is Some,
            power_total(ls.take(k as int))->0 >= 0,
            total == capped(power_total(ls.take(k as int))->0),
        decreases ls.len() - k,
    {
        proof {
            assert(ls.take(k + 1).drop_last() =~= ls.take(k as int));
            assert(ls.take(k + 1).last() == ls[k as int]);
            assert(ls[k as int] == rows@[k as int]@);
        }
        match power_of(&rows[k]) {
            Some(p) => {
                if p > 0x1_0000_0000 {
                    total = 0x1_0000_0000;
                } else {
                    total = total + p;
                    if total > 0x1_0000_0000 {
                        total = 0x1_0000_0000;
                    }
                }
            },
            None => {
                proof {
                    lemma_power_fails(ls, k + 1);
                }
                return None;
            },
        }
        k = k + 1;
    }
    proof {
        assert(ls.take(ls.len() as int) =~= ls);
    }
    if total <= 0xFFFF_FFFF {
        Some(total as u32)
    } else {
        None
    }
}

} // verus!
