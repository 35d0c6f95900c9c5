//! Engine schematic: numbers next to a symbol are part numbers.

use vstd::prelude::*;
use vstd::string::StringSliceAdditionalSpecFns;
use crate::text::{bytes_view, digit_value, is_digit, lines, split_lines};

verus! {

/// `.`, an empty spot of the schematic.
pub const DOT: u8 = 46;

/// A symbol: neither a dot nor a digit.
pub open spec fn is_symbol(c: u8) -> bool {
    c != DOT && !is_digit(c)
}

/// Cell (`x`, `y`) exists and holds a symbol.
pub open spec fn symbol_at(rows: Seq<Seq<u8>>, x: int, y: int) -> bool {
    0 <= y < rows.len() && 0 <= x < rows[y].len() && is_symbol(rows[y][x])
}

/// One step back, stopping at 0.
pub open spec fn back(v: int) -> int {
    if v > 0 {
        v - 1
    } else {
        0
    }
}

/// A symbol lies in one of the eight cells around (`x`, `y`); a neighbour
/// before row or column 0 is read as row or column 0.
pub open spec fn near_symbol(rows: Seq<Seq<u8>>, x: int, y: int) -> bool {
    ||| symbol_at(rows, x, y + 1)
    ||| symbol_at(rows, x + 1, y)
    ||| symbol_at(rows, x, back(y))
    ||| symbol_at(rows, back(x), y)
    ||| symbol_at(rows, x + 1, y + 1)
    ||| symbol_at(rows, x + 1, back(y))
    ||| symbol_at(rows, back(x), y + 1)
    ||| symbol_at(rows, back(x), back(y))
}

/// Scanning row `y` up to column `n`: the sum of the part numbers that
/// have ended, and the number under way with whether it touches a symbol.
pub open spec fn scan_row(rows: Seq<Seq<u8>>, y: int, n: int) -> (int, Option<(int, bool)>)
    decreases n,
{
    if n <= 0 {
        (0, None)
    } else {
        let (sum, cur) = scan_row(rows, y, n - 1);
        let x = n - 1;
        let row = rows[y];
        let c = row[x];
        if is_digit(c) {
            let (v, adj) = match cur {
                Some((v, a)) => (v * 10 + digit_value(c), a || near_symbol(rows, x, y)),
                None => (digit_value(c) as int, near_symbol(rows, x, y)),
            };
            if x + 1 >= row.len() || !is_digit(row[x + 1]) {
                (if adj {
                    sum + v
                } else {
                    sum
                }, None)
            } else {
                (sum, Some((v, adj)))
            }
        } else {
            (sum, cur)
        }
    }
}

/// Sum of the part numbers of the first `m` rows.
pub open spec fn parts_total(rows: Seq<Seq<u8>>, m: int) -> int
    decreases m,
{
    if m <= 0 {
        0
    } else {
        parts_total(rows, m - 1) + scan_row(rows, m - 1, rows[m - 1].len() as int).0
    }
}

/// `a` capped at 2^32.
pub open spec fn capped(a: int) -> int {
    if a > 0x1_0000_0000 {
        0x1_0000_0000
    } else {
        a
    }
}

proof fn lemma_scan_nonneg(rows: Seq<Seq<u8>>, y: int, n: int)
    ensures
        scan_row(rows, y, n).0 >= 0,
        match scan_row(rows, y, n).1 {
            Some((v, _)) => v >= 0,
            None => true,
        },
    decreases n,
{
    if n > 0 {
        lemma_scan_nonneg(rows, y, n - 1);
    }
}

/// Whether cell (`x`, `y`) exists and holds a symbol.
fn symbol_here(rows: &Vec<Vec<u8>>, x: usize, y: usize) -> (r: bool)
    ensures
        r == symbol_at(bytes_view(rows@), x as int, y as int),
{
    if y < rows.len() {
        assert(bytes_view(rows@)[y as int] == rows@[y as int]@);
        if x < rows[y].len() {
            let c = rows[y][x];
            return c != DOT && !(48 <= c && c <= 57);
        }
    }
    false
}

/// Whether a symbol lies around (`x`, `y`).
fn near(rows: &Vec<Vec<u8>>, x: usize, y: usize) -> (r: bool)
    requires
        y < bytes_view(rows@).len(),
        x < bytes_view(rows@)[y as int].len(),
    ensures
        r == near_symbol(bytes_view(rows@), x as int, y as int),
{
    assert(bytes_view(rows@)[y as int] == rows@[y as int]@);
    let h = rows.len();
    let w = rows[y].len();
    assert(y < h && x < w);
    let bx = if x > 0 {
        x - 1
    } else {
        0
    };
    let by = if y > 0 {
        y - 1
    } else {
        0
    };
    symbol_here(rows, x, y + 1) || symbol_here(rows, x + 1, y) || symbol_here(rows, x, by)
        || symbol_here(rows, bx, y) || symbol_here(rows, x + 1, y + 1) || symbol_here(rows, x + 1, by)
        || symbol_here(rows, bx, y + 1) || symbol_here(rows, bx, by)
}

/// Sum of the numbers next to a symbol; `None` past `u32::MAX`.
pub fn part_one(input: &str) -> (r: Option<u32>)
    ensures
        r == if parts_total(lines(input.spec_bytes()), lines(input.spec_bytes()).len() as int)
            <= u32::MAX {
            Some(
                parts_total(lines(input.spec_bytes()), lines(input.spec_bytes()).len() as int) as u32,
            )
        } else {
            None::<u32>
        },
{
    let rows = split_lines(input.as_bytes());
    let ghost v = bytes_view(rows@);
    let mut total: u64 = 0;
    let mut y: usize = 0;
    while y < rows.len()
        invariant
            v == bytes_view(rows@),
            v == lines(input.spec_bytes()),
            y <= v.len(),
            parts_total(v, y as int) >= 0,
            total == capped(parts_total(v, y as int)),
        decreases v.len() - y,
    {
        assert(v[y as int] == rows@[y as int]@);
        let n = rows[y].len();
        let mut sum: u64 = 0;
        let mut cur: Option<(u64, bool)> = None;
        let mut x: usize = 0;
        while x < n
            invariant
                v == bytes_view(rows@),
                y < v.len(),
                v[y as int] == rows@[y as int]@,
                n == v[y as int].len(),
                x <= n,
                scan_row(v, y as int, x as int).0 >= 0,
                sum == capped(scan_row(v, y as int, x as int).0),
                match (cur, scan_row(v, y as int, x as int).1) {
                    (None, None) => true,
                    (Some((cv, ca)), Some((sv, sa))) => sv >= 0 && cv == capped(sv) && ca == sa,
                    _ => false,
                },
            decreases n - x,
        {
            proof {
                lemma_scan_nonneg(v, y as int, x as int);
            }
            let c = rows[y][x];
            if 48 <= c && c <= 57 {
                let d = (c - 48) as u64;
                let here = near(&rows, x, y);
                let (mut val, adj) = match cur {
                    Some((cv, ca)) => (cv * 10 + d, ca || here),
                    None => (d, here),
                };
                if val > 0x1_0000_0000 {
                    val = 0x1_0000_0000;
                }
                if x + 1 >= n || !(48 <= rows[y][x + 1] && rows[y][x + 1] <= 57) {
                    if adj {
                        sum = sum + val;
                        if sum > 0x1_0000_0000 {
                            sum = 0x1_0000_0000;
                        }
                    }
                    cur = None;
                } else {
                    cur = Some((val, adj));
                }
            }
            x = x + 1;
        }
        proof {
            lemma_scan_nonneg(v, y as int, n as int);
        }
        total = total + sum;
        if total > 0x1_0000_0000 {
            total = 0x1_0000_0000;
        }
        y = y + 1;
    }
    if total <= 0xFFFF_FFFF {
        Some(total as u32)
    } else {
        None
    }
}

} // verus!
