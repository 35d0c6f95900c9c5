//! Load on the north support beams once every round rock has rolled north.

use vstd::prelude::*;
use vstd::string::StringSliceAdditionalSpecFns;
use crate::text::{bytes_view, lines, split_lines};

verus! {

/// A round rock, which rolls.
pub const ROUND: u8 = 79;

/// A cube-shaped rock, which stays put.
pub const CUBE: u8 = 35;

/// An empty space.
pub const EMPTY: u8 = 46;

/// A non-empty rectangle of rocks and empty spaces.
pub open spec fn is_platform(rows: Seq<Seq<u8>>) -> bool {
    &&& rows.len() > 0
    &&& forall|i: int| 0 <= i < rows.len() ==> #[trigger] rows[i].len() == rows[0].len()
    &&& forall|i: int, j: int|
        0 <= i < rows.len() && 0 <= j < rows[i].len() ==> (#[trigger] rows[i][j] == ROUND
            || rows[i][j] == CUBE || rows[i][j] == EMPTY)
}

/// Scanning column `x` down its first `n` rows with everything tilted
/// north: the load so far, and the row the next round rock would stop in.
pub open spec fn column_scan(rows: Seq<Seq<u8>>, x: int, n: int) -> (int, int)
    decreases n,
{
    if n <= 0 {
        (0, 0)
    } else {
        let (load, free) = column_scan(rows, x, n - 1);
        let c = rows[n - 1][x];
        if c == CUBE {
            (load, n)
        } else if c == ROUND {
            (load + rows.len() - free, free + 1)
        } else {
            (load, free)
        }
    }
}

/// Load of the first `m` columns.
pub open spec fn platform_load(rows: Seq<Seq<u8>>, m: int) -> int
    decreases m,
{
    if m <= 0 {
        0
    } else {
        platform_load(rows, m - 1) + column_scan(rows, m - 1, rows.len() as int).0
    }
}

/// Total load of a platform after tilting north: each round rock weighs as
/// many rows as lie from where it stops to the south edge.
pub open spec fn north_load(rows: Seq<Seq<u8>>) -> int {
    platform_load(rows, rows[0].len() as int)
}

proof fn lemma_scan_bounds(rows: Seq<Seq<u8>>, x: int, n: int)
    requires
        0 <= n <= rows.len(),
    ensures
        0 <= column_scan(rows, x, n).1 <= n,
        0 <= column_scan(rows, x, n).0 <= n * rows.len(),
    decreases n,
{
    if n > 0 {
        lemma_scan_bounds(rows, x, n - 1);
        assert((n - 1) * rows.len() + rows.len() == n * rows.len()) by (nonlinear_arith);
    }
}

proof fn lemma_load_nonneg(rows: Seq<Seq<u8>>, m: int)
    ensures
        platform_load(rows, m) >= 0,
    decreases m,
{
    if m > 0 {
        lemma_load_nonneg(rows, m - 1);
        lemma_scan_bounds(rows, m - 1, rows.len() as int);
    }
}

/// Load on the north beams after every round rock rolls north; `None`
/// unless the text is a rectangle of `O`, `#` and `.`, or when the load
/// passes `u32::MAX`.
pub fn part_one(input: &str) -> (r: Option<u32>)
    ensures
        r == if is_platform(lines(input.spec_bytes())) && north_load(lines(input.spec_bytes()))
            <= u32::MAX {
            Some(north_load(lines(input.spec_bytes())) as u32)
        } else {
            None::<u32>
        },
{
    let rows = split_lines(input.as_bytes());
    let ghost v = bytes_view(rows@);
    if rows.len() == 0 {
        return None;
    }
    assert(v[0] == rows@[0]@);
    let w = rows[0].len();
    let h = rows.len();
    let mut y: usize = 0;
    while y < h
        invariant
            v == bytes_view(rows@),
            v == lines(input.spec_bytes()),
            h == v.len(),
            w == v[0].len(),
            y <= h,
            forall|i: int| 0 <= i < y ==> #[trigger] v[i].len() == w,
            forall|i: int, j: int|
                0 <= i < y && 0 <= j < v[i].len() ==> (#[trigger] v[i][j] == ROUND || v[i][j]
                    == CUBE || v[i][j] == EMPTY),
        decreases h - y,
    {
        assert(v[y as int] == rows@[y as int]@);
        if rows[y].len() != w {
            assert(v[y as int].len() != v[0].len());
            return None;
        }
        let mut x: usize = 0;
        while x < w
            invariant
                v == bytes_view(rows@),
                v == lines(input.spec_bytes()),
                h == v.len(),
                w == v[0].len(),
                y < h,
                v[y as int] == rows@[y as int]@,
                v[y as int].len() == w,
                x <= w,
                forall|j: int|
                    0 <= j < x ==> (#[trigger] v[y as int][j] == ROUND || v[y as int][j] == CUBE
                        || v[y as int][j] == EMPTY),
            decreases w - x,
        {
            let c = rows[y][x];
            if c != ROUND && c != CUBE && c != EMPTY {
                assert(!is_platform(v)) by {
                    assert(!(v[y as int][x as int] == ROUND || v[y as int][x as int] == CUBE
                        || v[y as int][x as int] == EMPTY));
                }
                return None;
            }
            x = x + 1;
        }
        y = y + 1;
    }
    assert(is_platform(v));
    let mut total: u128 = 0;
    let mut x: usize = 0;
    while x < w
        invariant
            v == bytes_view(rows@),
            is_platform(v),
            h == v.len(),
            w == v[0].len(),
            x <= w,
            platform_load(v, x as int) >= 0,
            total == if platform_load(v, x as int) > 0x1_0000_0000 {
                0x1_0000_0000
            } else {
                platform_load(v, x as int)
            },
        decreases w - x,
    {
        let mut load: u128 = 0;
        let mut free: u64 = 0;
        let mut y: usize = 0;
        while y < h
            invariant
                v == bytes_view(rows@),
                is_platform(v),
                h == v.len(),
                w == v[0].len(),
                x < w,
                y <= h,
                (load as int, free as int) == if column_scan(v, x as int, y as int).0
                    > 0x1_0000_0000 {
                    (0x1_0000_0000int, column_scan(v, x as int, y as int).1)
                } else {
                    column_scan(v, x as int, y as int)
                },
            decreases h - y,
        {
            proof {
                lemma_scan_bounds(v, x as int, y as int);
                assert(v[y as int] == rows@[y as int]@);
                assert(v[y as int].len() == w);
            }
            let c = rows[y][x];
            if c == CUBE {
                free = (y + 1) as u64;
            } else if c == ROUND {
                load = load + (h as u128 - free as u128);
                if load > 0x1_0000_0000 {
                    load = 0x1_0000_0000;
                }
                free = free + 1;
            }
            y = y + 1;
        }
        proof {
            lemma_scan_bounds(v, x as int, h as int);
            lemma_load_nonneg(v, x as int);
        }
        total = total + load;
        if total > 0x1_0000_0000 {
            total = 0x1_0000_0000;
        }
        x = x + 1;
    }
    if total <= 0xFFFF_FFFF {
        Some(total as u32)
    } else {
        None
    }
}

} // verus!
