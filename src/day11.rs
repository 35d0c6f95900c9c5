//! Distances between galaxies of an image whose empty rows and columns
//! have expanded.

use vstd::prelude::*;
use vstd::string::StringSliceAdditionalSpecFns;
use crate::text::{bytes_view, lines, split_lines};

verus! {

/// The byte that marks a galaxy.
pub const GALAXY: u8 = 35;

/// Largest expansion factor the solvers accept.
pub const MAX_FACTOR: u64 = 1_000_000;

/// A non-empty image whose rows all have one length.
pub open spec fn is_image(rows: Seq<Seq<u8>>) -> bool {
    &&& rows.len() > 0
    &&& forall|i: int| 0 <= i < rows.len() ==> #[trigger] rows[i].len() == rows[0].len()
}

/// Row `y` holds no galaxy.
pub open spec fn row_empty(rows: Seq<Seq<u8>>, y: int) -> bool {
    forall|x: int| 0 <= x < rows[y].len() ==> #[trigger] rows[y][x] != GALAXY
}

/// Column `x` holds no galaxy.
pub open spec fn col_empty(rows: Seq<Seq<u8>>, x: int) -> bool {
    forall|y: int| 0 <= y < rows.len() ==> #[trigger] rows[y][x] != GALAXY
}

/// Where column `x` starts once every empty column is `f` columns wide.
pub open spec fn expanded_x(rows: Seq<Seq<u8>>, x: int, f: int) -> int
    decreases x,
{
    if x <= 0 {
        0
    } else {
        expanded_x(rows, x - 1, f) + if col_empty(rows, x - 1) {
            f
        } else {
            1
        }
    }
}

/// Where row `y` starts once every empty row is `f` rows tall.
pub open spec fn expanded_y(rows: Seq<Seq<u8>>, y: int, f: int) -> int
    decreases y,
{
    if y <= 0 {
        0
    } else {
        expanded_y(rows, y - 1, f) + if row_empty(rows, y - 1) {
            f
        } else {
            1
        }
    }
}

/// Galaxies of row `y` among its first `n` cells, left to right.
pub open spec fn row_galaxies(rows: Seq<Seq<u8>>, y: int, n: int) -> Seq<(int, int)>
    decreases n,
{
    if n <= 0 {
        Seq::empty()
    } else if rows[y][n - 1] == GALAXY {
        row_galaxies(rows, y, n - 1).push((n - 1, y))
    } else {
        row_galaxies(rows, y, n - 1)
    }
}

/// Galaxies of the first `m` rows, in reading order.
pub open spec fn galaxies_upto(rows: Seq<Seq<u8>>, m: int) -> Seq<(int, int)>
    decreases m,
{
    if m <= 0 {
        Seq::empty()
    } else {
        galaxies_upto(rows, m - 1) + row_galaxies(rows, m - 1, rows[m - 1].len() as int)
    }
}

/// Manhattan distance between two cells after expansion.
pub open spec fn distance(rows: Seq<Seq<u8>>, f: int, a: (int, int), b: (int, int)) -> int {
    let dx = expanded_x(rows, a.0, f) - expanded_x(rows, b.0, f);
    let dy = expanded_y(rows, a.1, f) - expanded_y(rows, b.1, f);
    (if dx >= 0 {
        dx
    } else {
        -dx
    }) + (if dy >= 0 {
        dy
    } else {
        -dy
    })
}

/// Sum of the distances from `p` to each of `g`.
pub open spec fn distances_to(rows: Seq<Seq<u8>>, f: int, g: Seq<(int, int)>, p: (int, int)) -> int
    decreases g.len(),
{
    if g.len() == 0 {
        0
    } else {
        distances_to(rows, f, g.drop_last(), p) + distance(rows, f, g.last(), p)
    }
}

/// Sum of the distances over all pairs of `g`.
pub open spec fn pair_total(rows: Seq<Seq<u8>>, f: int, g: Seq<(int, int)>) -> int
    decreases g.len(),
{
    if g.len() == 0 {
        0
    } else {
        pair_total(rows, f, g.drop_last()) + distances_to(rows, f, g.drop_last(), g.last())
    }
}

/// Sum of the expanded distances over all pairs of galaxies of an image.
pub open spec fn galaxy_total(rows: Seq<Seq<u8>>, f: int) -> int {
    pair_total(rows, f, galaxies_upto(rows, rows.len() as int))
}

/// `a` capped at `u128::MAX`.
pub open spec fn capped(a: int) -> int {
    if a > u128::MAX {
        u128::MAX as int
    } else {
        a
    }
}

/// The cells of a vector of points.
pub open spec fn points_view(v: Seq<(usize, usize)>) -> Seq<(int, int)> {
    Seq::new(v.len(), |i: int| (v[i].0 as int, v[i].1 as int))
}

proof fn lemma_expanded_bounds(rows: Seq<Seq<u8>>, x: int, y: int, f: int)
    requires
        f >= 1,
        x >= 0,
        y >= 0,
    ensures
        0 <= expanded_x(rows, x, f) <= f * x,
        0 <= expanded_y(rows, y, f) <= f * y,
    decreases x + y,
{
    if x > 0 {
        lemma_expanded_bounds(rows, x - 1, y, f);
        assert(f * (x - 1) + f == f * x) by (nonlinear_arith);
    } else if y > 0 {
        lemma_expanded_bounds(rows, x, y - 1, f);
        assert(f * (y - 1) + f == f * y) by (nonlinear_arith);
    }
}

proof fn lemma_distance_nonneg(rows: Seq<Seq<u8>>, f: int, g: Seq<(int, int)>, p: (int, int))
    ensures
        distances_to(rows, f, g, p) >= 0,
    decreases g.len(),
{
    if g.len() > 0 {
        lemma_distance_nonneg(rows, f, g.drop_last(), p);
    }
}

/// Whether column `x` holds no galaxy.
fn column_is_empty(rows: &Vec<Vec<u8>>, x: usize) -> (r: bool)
    requires
        is_image(bytes_view(rows@)),
        x < bytes_view(rows@)[0].len(),
    ensures
        r == col_empty(bytes_view(rows@), x as int),
{
    let ghost v = bytes_view(rows@);
    let mut y: usize = 0;
    while y < rows.len()
        invariant
            v == bytes_view(rows@),
            is_image(v),
            x < v[0].len(),
            y <= v.len(),
            forall|k: int| 0 <= k < y ==> #[trigger] v[k][x as int] != GALAXY,
        decreases v.len() - y,
    {
        assert(v[y as int] == rows@[y as int]@);
        assert(v[y as int].len() == v[0].len());
        if rows[y][x] == GALAXY {
            return false;
        }
        y = y + 1;
    }
    true
}

/// Whether row `y` holds no galaxy.
fn row_is_empty(row: &Vec<u8>) -> (r: bool)
    ensures
        r == forall|x: int| 0 <= x < row@.len() ==> #[trigger] row@[x] != GALAXY,
{
    let mut x: usize = 0;
    while x < row.len()
        invariant
            x <= row@.len(),
            forall|k: int| 0 <= k < x ==> #[trigger] row@[k] != GALAXY,
        decreases row@.len() - x,
    {
        if row[x] == GALAXY {
            return false;
        }
        x = x + 1;
    }
    true
}

/// `f * k` stays far below `u128::MAX` for the sizes a `usize` can hold.
proof fn lemma_scaled_small(f: int, k: int)
    requires
        0 <= f <= 1_000_000,
        0 <= k <= 0xFFFF_FFFF_FFFF_FFFF,
    ensures
        f * k <= 1_000_000 * 0x1_0000_0000_0000_0000,
{
    assert(f * k <= 1_000_000 * 0x1_0000_0000_0000_0000) by (nonlinear_arith)
        requires
            0 <= f <= 1_000_000,
            0 <= k <= 0xFFFF_FFFF_FFFF_FFFF,
    ;
}

/// Expanded start of each column, and one past the last.
fn column_starts(rows: &Vec<Vec<u8>>, f: u64) -> (ex: Vec<u128>)
    requires
        is_image(bytes_view(rows@)),
        1 <= f <= MAX_FACTOR,
    ensures
        ex@.len() == bytes_view(rows@)[0].len() + 1,
        forall|k: int|
            0 <= k <= bytes_view(rows@)[0].len() ==> #[trigger] ex@[k] == expanded_x(
                bytes_view(rows@),
                k,
                f as int,
            ),
{
    let ghost v = bytes_view(rows@);
    assert(v[0] == rows@[0]@);
    let w = rows[0].len();
    let mut ex: Vec<u128> = Vec::new();
    ex.push(0);
    let mut x: usize = 0;
    while x < w
        invariant
            v == bytes_view(rows@),
            is_image(v),
            w == v[0].len(),
            1 <= f <= MAX_FACTOR,
            x <= w,
            ex@.len() == x + 1,
            forall|k: int| 0 <= k <= x ==> #[trigger] ex@[k] == expanded_x(v, k, f as int),
        decreases w - x,
    {
        proof {
            lemma_expanded_bounds(v, x as int, 0, f as int);
            lemma_scaled_small(f as int, x as int);
        }
        let step: u128 = if column_is_empty(rows, x) {
            f as u128
        } else {
            1
        };
        ex.push(ex[x] + step);
        x = x + 1;
    }
    ex
}

/// Expanded start of each row, and one past the last.
fn row_starts(rows: &Vec<Vec<u8>>, f: u64) -> (ey: Vec<u128>)
    requires
        is_image(bytes_view(rows@)),
        1 <= f <= MAX_FACTOR,
    ensures
        ey@.len() == bytes_view(rows@).len() + 1,
        forall|k: int|
            0 <= k <= bytes_view(rows@).len() ==> #[trigger] ey@[k] == expanded_y(
                bytes_view(rows@),
                k,
                f as int,
            ),
{
    let ghost v = bytes_view(rows@);
    let h = rows.len();
    let mut ey: Vec<u128> = Vec::new();
    ey.push(0);
    let mut y: usize = 0;
    while y < h
        invariant
            v == bytes_view(rows@),
            is_image(v),
            h == v.len(),
            1 <= f <= MAX_FACTOR,
            y <= h,
            ey@.len() == y + 1,
            forall|k: int| 0 <= k <= y ==> #[trigger] ey@[k] == expanded_y(v, k, f as int),
        decreases h - y,
    {
        proof {
            lemma_expanded_bounds(v, 0, y as int, f as int);
            lemma_scaled_small(f as int, y as int);
            assert(v[y as int] == rows@[y as int]@);
        }
        let step: u128 = if row_is_empty(&rows[y]) {
            f as u128
        } else {
            1
        };
        ey.push(ey[y] + step);
        y = y + 1;
    }
    ey
}

/// The galaxies of an image in reading order.
fn galaxy_cells(rows: &Vec<Vec<u8>>) -> (g: Vec<(usize, usize)>)
    requires
        is_image(bytes_view(rows@)),
    ensures
        points_view(g@) == galaxies_upto(bytes_view(rows@), bytes_view(rows@).len() as int),
        forall|k: int|
            0 <= k < g@.len() ==> #[trigger] g@[k].0 < bytes_view(rows@)[0].len() && g@[k].1
                < bytes_view(rows@).len(),
{
    let ghost v = bytes_view(rows@);
    assert(v[0] == rows@[0]@);
    let w = rows[0].len();
    let h = rows.len();
    let mut g: Vec<(usize, usize)> = Vec::new();
    let mut y: usize = 0;
    assert(points_view(g@) =~= galaxies_upto(v, 0));
    while y < h
        invariant
            v == bytes_view(rows@),
            is_image(v),
            h == v.len(),
            w == v[0].len(),
            y <= h,
            points_view(g@) == galaxies_upto(v, y as int),
            forall|k: int| 0 <= k < g@.len() ==> #[trigger] g@[k].0 < w && g@[k].1 < h,
        decreases h - y,
    {
        let mut x: usize = 0;
        assert(v[y as int] == rows@[y as int]@);
        assert(v[y as int].len() == w);
        assert(galaxies_upto(v, y as int) + row_galaxies(v, y as int, 0) =~= galaxies_upto(
            v,
            y as int,
        ));
        while x < w
            invariant
                v == bytes_view(rows@),
                is_image(v),
                h == v.len(),
                w == v[0].len(),
                y < h,
                v[y as int] == rows@[y as int]@,
                v[y as int].len() == w,
                x <= w,
                points_view(g@) == galaxies_upto(v, y as int) + row_galaxies(v, y as int, x as int),
                forall|k: int| 0 <= k < g@.len() ==> #[trigger] g@[k].0 < w && g@[k].1 < h,
            decreases w - x,
        {
            let ghost before = points_view(g@);
            if rows[y][x] == GALAXY {
                let ghost old_g = g@;
                g.push((x, y));
                proof {
                    assert forall|k: int| 0 <= k < g@.len() implies #[trigger] g@[k].0 < w
                        && g@[k].1 < h by {
                        if k < old_g.len() {
                            assert(g@[k] == old_g[k]);
                        }
                    }
                    assert(points_view(g@) =~= before.push((x as int, y as int)));
                    assert(galaxies_upto(v, y as int) + row_galaxies(v, y as int, x + 1) =~= (
                    galaxies_upto(v, y as int) + row_galaxies(v, y as int, x as int)).push(
                        (x as int, y as int),
                    ));
                }
            } else {
                proof {
                    assert(points_view(g@) =~= before);
                }
            }
            x = x + 1;
        }
        proof {
            assert(galaxies_upto(v, y + 1) == galaxies_upto(v, y as int) + row_galaxies(
                v,
                y as int,
                v[y as int].len() as int,
            ));
        }
        y = y + 1;
    }
    g
}

/// Sum over all pairs of `g` of their expanded distances, capped.
fn pair_distances(
    g: &Vec<(usize, usize)>,
    ex: &Vec<u128>,
    ey: &Vec<u128>,
    Ghost(v): Ghost<Seq<Seq<u8>>>,
    f: u64,
) -> (total: u128)
    requires
        is_image(v),
        1 <= f <= MAX_FACTOR,
        ex@.len() == v[0].len() + 1,
        ey@.len() == v.len() + 1,
        forall|k: int| 0 <= k <= v[0].len() ==> #[trigger] ex@[k] == expanded_x(v, k, f as int),
        forall|k: int| 0 <= k <= v.len() ==> #[trigger] ey@[k] == expanded_y(v, k, f as int),
        forall|k: int| 0 <= k < g@.len() ==> #[trigger] g@[k].0 < v[0].len() && g@[k].1 < v.len(),
    ensures
        total == capped(pair_total(v, f as int, points_view(g@))),
{
    let ghost gs = points_view(g@);
    let mut total: u128 = 0;
    let mut j: usize = 0;
    proof {
        assert(gs.take(0) =~= Seq::<(int, int)>::empty());
    }
    while j < g.len()
        invariant
            is_image(v),
            1 <= f <= MAX_FACTOR,
            ex@.len() == v[0].len() + 1,
            ey@.len() == v.len() + 1,
            forall|k: int| 0 <= k <= v[0].len() ==> #[trigger] ex@[k] == expanded_x(v, k, f as int),
            forall|k: int| 0 <= k <= v.len() ==> #[trigger] ey@[k] == expanded_y(v, k, f as int),
            forall|k: int| 0 <= k < g@.len() ==> #[trigger] g@[k].0 < v[0].len() && g@[k].1 < v.len(),
            gs == points_view(g@),
            j <= gs.len(),
            total == capped(pair_total(v, f as int, gs.take(j as int))),
            pair_total(v, f as int, gs.take(j as int)) >= 0,
        decreases gs.len() - j,
    {
        let mut i: usize = 0;
        let ghost pj = gs[j as int];
        proof {
            assert(gs.take(0) =~= Seq::<(int, int)>::empty());
        }
        while i < j
            invariant
                is_image(v),
                1 <= f <= MAX_FACTOR,
                ex@.len() == v[0].len() + 1,
                ey@.len() == v.len() + 1,
                forall|k: int| 0 <= k <= v[0].len() ==> #[trigger] ex@[k] == expanded_x(v, k, f as int),
                forall|k: int| 0 <= k <= v.len() ==> #[trigger] ey@[k] == expanded_y(v, k, f as int),
                forall|k: int| 0 <= k < g@.len() ==> #[trigger] g@[k].0 < v[0].len() && g@[k].1 < v.len(),
                gs == points_view(g@),
                i <= j < gs.len(),
                pj == gs[j as int],
                pair_total(v, f as int, gs.take(j as int)) >= 0,
                distances_to(v, f as int, gs.take(i as int), pj) >= 0,
                total == capped(
                    pair_total(v, f as int, gs.take(j as int)) + distances_to(
                        v,
                        f as int,
                        gs.take(i as int),
                        pj,
                    ),
                ),
            decreases j - i,
        {
            let a = g[i];
            let b = g[j];
            let ax = ex[a.0];
            let bx = ex[b.0];
            let ay = ey[a.1];
            let by = ey[b.1];
            proof {
                lemma_expanded_bounds(v, a.0 as int, a.1 as int, f as int);
                lemma_expanded_bounds(v, b.0 as int, b.1 as int, f as int);
                lemma_scaled_small(f as int, a.0 as int);
                lemma_scaled_small(f as int, b.0 as int);
                lemma_scaled_small(f as int, a.1 as int);
                lemma_scaled_small(f as int, b.1 as int);
            }
            let dx = if ax >= bx {
                ax - bx
            } else {
                bx - ax
            };
            let dy = if ay >= by {
                ay - by
            } else {
                by - ay
            };
            let d = dx + dy;
            proof {
                assert(gs.take(i + 1).drop_last() =~= gs.take(i as int));
                assert(gs.take(i + 1).last() == gs[i as int]);
                assert(d == distance(v, f as int, gs[i as int], pj));
            }
            if d > u128::MAX - total {
                total = u128::MAX;
            } else {
                total = total + d;
            }
            i = i + 1;
        }
        proof {
            assert(gs.take(j + 1).drop_last() =~= gs.take(j as int));
            assert(gs.take(j + 1).last() == pj);
        }
        j = j + 1;
    }
    proof {
        assert(gs.take(gs.len() as int) =~= gs);
    }
    total
}

/// Sum of expanded distances over all pairs of galaxies when each empty
/// row and column counts `f` times, capped at `u128::MAX`; `None` unless
/// the text is an image.
pub fn galaxy_distances(input: &str, f: u64) -> (r: Option<u128>)
    requires
        1 <= f <= MAX_FACTOR,
    ensures
        match r {
            Some(t) => is_image(lines(input.spec_bytes())) && t == capped(
                galaxy_total(lines(input.spec_bytes()), f as int),
            ),
            None => !is_image(lines(input.spec_bytes())),
        },
{
    let rows = split_lines(input.as_bytes());
    let ghost v = bytes_view(rows@);
    if rows.len() == 0 {
        return None;
    }
    let w = rows[0].len();
    let h = rows.len();
    assert(v[0] == rows@[0]@);
    let mut y: usize = 0;
    while y < h
        invariant
            v == bytes_view(rows@),
            v == lines(input.spec_bytes()),
            h == v.len(),
            w == v[0].len(),
            y <= h,
            forall|k: int| 0 <= k < y ==> #[trigger] v[k].len() == w,
        decreases h - y,
    {
        assert(v[y as int] == rows@[y as int]@);
        if rows[y].len() != w {
            assert(v[y as int].len() != v[0].len());
            return None;
        }
        y = y + 1;
    }
    assert(is_image(v));
    let ex = column_starts(&rows, f);
    let ey = row_starts(&rows, f);
    let g = galaxy_cells(&rows);
    Some(pair_distances(&g, &ex, &ey, Ghost(v), f))
}

/// Sum of the shortest distances between all pairs of galaxies when each
/// empty row and column counts twice; `None` unless the text is an image
/// whose total fits in a `u32`.
pub fn part_one(input: &str) -> (r: Option<u32>)
    ensures
        r == if is_image(lines(input.spec_bytes())) && galaxy_total(lines(input.spec_bytes()), 2)
            <= u32::MAX {
            Some(galaxy_total(lines(input.spec_bytes()), 2) as u32)
        } else {
            None::<u32>
        },
{
    match galaxy_distances(input, 2) {
        Some(t) => if t <= 0xFFFF_FFFF {
            Some(t as u32)
        } else {
            None
        },
        None => None,
    }
}

/// Sum of the distances when each empty row and column counts a million
/// times; `None` unless the text is an image whose total is below
/// `u128::MAX`.
pub fn part_two(input: &str) -> (r: Option<u128>)
    ensures
        r == if is_image(lines(input.spec_bytes())) && galaxy_total(
            lines(input.spec_bytes()),
            1_000_000,
        ) < u128::MAX {
            Some(galaxy_total(lines(input.spec_bytes()), 1_000_000) as u128)
        } else {
            None::<u128>
        },
{
    match galaxy_distances(input, MAX_FACTOR) {
        Some(t) => if t < u128::MAX {
            Some(t)
        } else {
            None
        },
        None => None,
    }
}

} // verus!
