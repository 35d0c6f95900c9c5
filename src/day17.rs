//! Least heat loss of a crucible crossing a city grid of cost digits.

use vstd::prelude::*;
use vstd::string::StringSliceAdditionalSpecFns;
use crate::grid::{is_rectangular, rows_view, Grid};
use crate::movement::Config;
use crate::search::{answers, min_heat_loss, run_cap, state_space_fits};
use crate::text::{digit_value, is_digit, lemma_pieces_len, lemma_pieces_step, lines, pieces, NEWLINE};

verus! {

/// The costs of one line of digits.
pub open spec fn digit_row(l: Seq<u8>) -> Seq<u32> {
    Seq::new(l.len(), |j: int| digit_value(l[j]))
}

/// The costs of each line.
pub open spec fn digit_rows(ls: Seq<Seq<u8>>) -> Seq<Seq<u32>> {
    Seq::new(ls.len(), |j: int| digit_row(ls[j]))
}

/// The grid a text describes: one row per line, one cost per digit; `None`
/// when a byte is neither a digit nor a newline.
pub open spec fn digit_grid(b: Seq<u8>) -> Option<Seq<Seq<u32>>> {
    if forall|i: int| 0 <= i < b.len() ==> is_digit(#[trigger] b[i]) || b[i] == NEWLINE {
        Some(digit_rows(lines(b)))
    } else {
        None
    }
}

/// What a solver owes for a text under `cfg`: the search's answer when the
/// text is a rectangle of digits whose states fit in memory, else `None`.
pub open spec fn solves(b: Seq<u8>, cfg: Config, r: Option<u32>) -> bool {
    match digit_grid(b) {
        Some(rows) => if is_rectangular(rows) && state_space_fits(rows, cfg) {
            answers(rows, cfg, r)
        } else {
            r is None
        },
        None => r is None,
    }
}

/// Reads a text of digit lines into rows of costs.
pub fn parse_digit_grid(input: &str) -> (r: Option<Vec<Vec<u32>>>)
    ensures
        match r {
            Some(rows) => digit_grid(input.spec_bytes()) == Some(rows_view(rows@)),
            None => digit_grid(input.spec_bytes()) is None,
        },
{
    let b = input.as_bytes();
    let ghost bs = input.spec_bytes();
    let mut rows: Vec<Vec<u32>> = Vec::new();
    let mut cur: Vec<u32> = Vec::new();
    let mut i: usize = 0;
    proof {
        assert(bs.take(0) =~= Seq::<u8>::empty());
        assert(pieces(Seq::<u8>::empty(), NEWLINE) == seq![Seq::<u8>::empty()]);
        assert(digit_row(Seq::<u8>::empty()) =~= Seq::<u32>::empty());
        assert(rows_view(rows@).push(cur@) =~= digit_rows(pieces(bs.take(0), NEWLINE)));
    }
    while i < b.len()
        invariant
            b@ == bs,
            bs == input.spec_bytes(),
            i <= bs.len(),
            forall|j: int| 0 <= j < i ==> is_digit(#[trigger] bs[j]) || bs[j] == NEWLINE,
            rows_view(rows@).push(cur@) == digit_rows(pieces(bs.take(i as int), NEWLINE)),
        decreases bs.len() - i,
    {
        let c = b[i];
        let ghost before = pieces(bs.take(i as int), NEWLINE);
        let ghost old_rows = rows_view(rows@);
        let ghost old_cur = cur@;
        proof {
            lemma_pieces_step(bs, i as int, NEWLINE);
            lemma_pieces_len(bs.take(i as int), NEWLINE);
            assert(old_rows.push(old_cur)[old_rows.len() as int] == old_cur);
            assert(old_rows.push(old_cur) == digit_rows(before));
            assert(digit_rows(before).len() == before.len());
            assert(old_rows.push(old_cur).len() == old_rows.len() + 1);
            assert(old_rows.len() + 1 == before.len());
            assert(digit_rows(before)[before.len() - 1] == digit_row(before.last()));
            assert(old_cur == digit_row(before.last()));
            assert forall|j: int| 0 <= j < old_rows.len() implies old_rows[j] == digit_row(
                before[j],
            ) by {
                assert(old_rows.push(old_cur)[j] == old_rows[j]);
                assert(digit_rows(before)[j] == digit_row(before[j]));
            }
        }
        if c == NEWLINE {
            rows.push(cur);
            cur = Vec::new();
            proof {
                assert(rows_view(rows@) =~= old_rows.push(old_cur));
                assert(digit_row(Seq::<u8>::empty()) =~= Seq::<u32>::empty());
                assert(rows_view(rows@).push(cur@) =~= digit_rows(pieces(bs.take(i + 1), NEWLINE)));
            }
        } else if 48 <= c && c <= 57 {
            cur.push((c - 48) as u32);
            proof {
                assert(rows_view(rows@) =~= old_rows);
                assert(digit_row(before.last().push(c)) =~= old_cur.push(digit_value(c)));
                assert(rows_view(rows@).push(cur@) =~= digit_rows(pieces(bs.take(i + 1), NEWLINE)));
            }
        } else {
            assert(c == bs[i as int]);
            assert(!(is_digit(bs[i as int]) || bs[i as int] == NEWLINE));
            assert(digit_grid(bs) is None);
            return None;
        }
        i = i + 1;
    }
    proof {
        assert(bs.take(bs.len() as int) =~= bs);
        lemma_pieces_len(bs, NEWLINE);
    }
    let ghost all = pieces(bs, NEWLINE);
    let ghost old_rows = rows_view(rows@);
    let ghost old_cur = cur@;
    proof {
        assert(old_rows.push(old_cur)[old_rows.len() as int] == old_cur);
        assert(digit_rows(all)[all.len() - 1] == digit_row(all.last()));
        assert(old_cur == digit_row(all.last()));
    }
    if cur.len() > 0 {
        rows.push(cur);
        proof {
            assert(all.last().len() > 0);
            assert(rows_view(rows@) =~= digit_rows(all));
            assert(lines(bs) == all);
        }
    } else {
        proof {
            assert(all.last().len() == 0);
            assert(lines(bs) == all.drop_last());
            assert(rows_view(rows@) =~= digit_rows(all.drop_last())) by {
                assert forall|j: int| 0 <= j < old_rows.len() implies old_rows[j] == digit_rows(
                    all,
                )[j] by {
                    assert(old_rows.push(old_cur)[j] == old_rows[j]);
                }
            }
        }
    }
    Some(rows)
}

/// Whether a search on `grid` under `cfg` has a table that fits in memory.
pub fn fits_in_memory(grid: &Grid, cfg: Config) -> (r: bool)
    requires
        grid.wf(),
    ensures
        r == state_space_fits(grid@, cfg),
{
    let w = grid.width();
    let h = grid.height();
    let dim = if w > h {
        w
    } else {
        h
    };
    let cap: usize = if (cfg.max_run as usize) < dim {
        cfg.max_run as usize
    } else {
        dim
    };
    assert(cap == run_cap(w as int, h as int, cfg));
    if cap == 0 {
        assert(h * w * 4 * cap == 0) by (nonlinear_arith)
            requires
                cap == 0,
        ;
        return true;
    }
    match h.checked_mul(w) {
        None => {
            assert(h * w <= h * w * 4 * cap) by (nonlinear_arith)
                requires
                    h * w >= 0,
                    cap >= 1,
            ;
            false
        },
        Some(a) => match a.checked_mul(4) {
            None => {
                assert(a * 4 <= a * 4 * cap) by (nonlinear_arith)
                    requires
                        a * 4 >= 0,
                        cap >= 1,
                ;
                false
            },
            Some(b) => b.checked_mul(cap).is_some(),
        },
    }
}

/// Least heat loss from the top-left to the bottom-right block when the
/// crucible turns freely but runs straight at most three blocks.
pub fn part_one(input: &str) -> (r: Option<u32>)
    ensures
        solves(input.spec_bytes(), Config { max_run: 3, min_run_before_turn: 1 }, r),
{
    solve_with(input, Config::basic())
}

/// Least heat loss when the crucible must run four to ten blocks straight
/// before each turn and before stopping.
pub fn part_two(input: &str) -> (r: Option<u32>)
    ensures
        solves(input.spec_bytes(), Config { max_run: 10, min_run_before_turn: 4 }, r),
{
    solve_with(input, Config::extended())
}

/// Parses a text of cost digits and searches it under `cfg`.
pub fn solve_with(input: &str, cfg: Config) -> (r: Option<u32>)
    requires
        cfg.valid(),
    ensures
        solves(input.spec_bytes(), cfg, r),
{
    let rows = match parse_digit_grid(input) {
        Some(rows) => rows,
        None => return None,
    };
    let grid = match Grid::new(rows) {
        Ok(g) => g,
        Err(_) => return None,
    };
    if !fits_in_memory(&grid, cfg) {
        return None;
    }
    match min_heat_loss(&grid, cfg) {
        Ok(a) => a,
        Err(_) => None,
    }
}

} // verus!
