//! Beams of light through a contraption of mirrors and splitters: which
//! tiles they energize.

use vstd::prelude::*;
use vstd::string::StringSliceAdditionalSpecFns;
use crate::index::{lemma_mix_bound, lemma_mix_inj};
use crate::movement::{step_from, Direction};
use crate::text::{bytes_view, lines, split_lines};

verus! {

/// `.`: the beam passes.
pub const OPEN: u8 = 46;

/// `-`: splits a vertical beam east and west.
pub const FLAT_SPLITTER: u8 = 45;

/// `|`: splits a horizontal beam north and south.
pub const UPRIGHT_SPLITTER: u8 = 124;

/// `/`: a mirror.
pub const SLASH: u8 = 47;

/// `\`: a mirror.
pub const BACKSLASH: u8 = 92;

/// Whether a byte is a tile of the contraption.
pub open spec fn is_tile(c: u8) -> bool {
    c == OPEN || c == FLAT_SPLITTER || c == UPRIGHT_SPLITTER || c == SLASH || c == BACKSLASH
}

/// A non-empty rectangle of tiles.
pub open spec fn is_contraption(rows: Seq<Seq<u8>>) -> bool {
    &&& rows.len() > 0
    &&& rows[0].len() > 0
    &&& forall|i: int| 0 <= i < rows.len() ==> #[trigger] rows[i].len() == rows[0].len()
    &&& forall|i: int, j: int|
        0 <= i < rows.len() && 0 <= j < rows[i].len() ==> is_tile(#[trigger] rows[i][j])
}

/// Directions a beam leaves tile `c` in, having entered it going `d`.
pub open spec fn out_dirs(c: u8, d: Direction) -> Seq<Direction> {
    if c == FLAT_SPLITTER && (d == Direction::North || d == Direction::South) {
        seq![Direction::West, Direction::East]
    } else if c == UPRIGHT_SPLITTER && (d == Direction::East || d == Direction::West) {
        seq![Direction::North, Direction::South]
    } else if c == SLASH {
        seq![
            match d {
                Direction::East => Direction::North,
                Direction::West => Direction::South,
                Direction::North => Direction::East,
                Direction::South => Direction::West,
            },
        ]
    } else if c == BACKSLASH {
        seq![
            match d {
                Direction::East => Direction::South,
                Direction::West => Direction::North,
                Direction::North => Direction::West,
                Direction::South => Direction::East,
            },
        ]
    } else {
        seq![d]
    }
}

/// A beam on a tile, heading in a direction.
#[derive(PartialEq, Eq, Structural, Clone, Copy, Debug)]
pub struct Beam {
    pub x: usize,
    pub y: usize,
    pub dir: Direction,
}

/// The beam lies on the contraption.
pub open spec fn on_board(rows: Seq<Seq<u8>>, b: Beam) -> bool {
    b.y < rows.len() && b.x < rows[0].len()
}

/// Beam `a` passes on as beam `b` on the next tile.
pub open spec fn step(rows: Seq<Seq<u8>>, a: Beam, b: Beam) -> bool {
    &&& on_board(rows, a)
    &&& on_board(rows, b)
    &&& out_dirs(rows[a.y as int][a.x as int], a.dir).contains(b.dir)
    &&& b.x == a.x + b.dir.dx()
    &&& b.y == a.y + b.dir.dy()
}

/// Consecutive beams of `p` each pass on to the next.
pub open spec fn beam_path(rows: Seq<Seq<u8>>, p: Seq<Beam>) -> bool {
    forall|i: int| 0 <= i < p.len() - 1 ==> step(rows, #[trigger] p[i], p[i + 1])
}

/// Beam `b` follows from beam `a`.
pub open spec fn reachable(rows: Seq<Seq<u8>>, a: Beam, b: Beam) -> bool {
    exists|p: Seq<Beam>| p.len() >= 1 && p[0] == a && p.last() == b && beam_path(rows, p)
}

/// Tile (`x`, `y`) carries a beam that follows from `start`.
pub open spec fn energized(rows: Seq<Seq<u8>>, start: Beam, x: usize, y: usize) -> bool {
    ||| reachable(rows, start, Beam { x, y, dir: Direction::North })
    ||| reachable(rows, start, Beam { x, y, dir: Direction::East })
    ||| reachable(rows, start, Beam { x, y, dir: Direction::South })
    ||| reachable(rows, start, Beam { x, y, dir: Direction::West })
}

/// Energized tiles among the first `n` of row `y`.
pub open spec fn energized_in_row(rows: Seq<Seq<u8>>, start: Beam, y: int, n: int) -> int
    decreases n,
{
    if n <= 0 {
        0
    } else {
        energized_in_row(rows, start, y, n - 1) + if energized(
            rows,
            start,
            (n - 1) as usize,
            y as usize,
        ) {
            1int
        } else {
            0
        }
    }
}

/// Energized tiles among the first `m` rows.
pub open spec fn energized_total(rows: Seq<Seq<u8>>, start: Beam, m: int) -> int
    decreases m,
{
    if m <= 0 {
        0
    } else {
        energized_total(rows, start, m - 1) + energized_in_row(
            rows,
            start,
            m - 1,
            rows[0].len() as int,
        )
    }
}

/// Number of tiles energized by a beam entering at `start`.
pub open spec fn energy(rows: Seq<Seq<u8>>, start: Beam) -> int {
    energized_total(rows, start, rows.len() as int)
}

/// Table position of a beam.
pub open spec fn bidx(w: int, b: Beam) -> int {
    (b.y * w + b.x) * 4 + b.dir.ordinal()
}

/// Entries still unvisited.
pub open spec fn unvisited(v: Seq<bool>) -> nat
    decreases v.len(),
{
    if v.len() == 0 {
        0
    } else {
        unvisited(v.drop_last()) + if v.last() {
            0nat
        } else {
            1
        }
    }
}

proof fn lemma_unvisited_mark(v: Seq<bool>, i: int)
    requires
        0 <= i < v.len(),
        !v[i],
    ensures
        unvisited(v.update(i, true)) < unvisited(v),
    decreases v.len(),
{
    let u = v.update(i, true);
    if i == v.len() - 1 {
        assert(u.drop_last() =~= v.drop_last());
    } else {
        lemma_unvisited_mark(v.drop_last(), i);
        assert(u.drop_last() =~= v.drop_last().update(i, true));
    }
}

proof fn lemma_bidx(w: int, h: int, a: Beam, b: Beam)
    requires
        a.x < w,
        a.y < h,
        b.x < w,
        b.y < h,
    ensures
        0 <= bidx(w, a) < h * w * 4,
        bidx(w, a) == bidx(w, b) ==> a == b,
{
    lemma_mix_bound(a.y as int, a.x as int, h, w);
    lemma_mix_bound(a.y * w + a.x, a.dir.ordinal(), h * w, 4);
    lemma_mix_bound(b.y as int, b.x as int, h, w);
    lemma_mix_bound(b.y * w + b.x, b.dir.ordinal(), h * w, 4);
    if bidx(w, a) == bidx(w, b) {
        lemma_mix_inj(a.y * w + a.x, a.dir.ordinal(), b.y * w + b.x, b.dir.ordinal(), 4);
        lemma_mix_inj(a.y as int, a.x as int, b.y as int, b.x as int, w);
    }
}

proof fn lemma_extend_path(rows: Seq<Seq<u8>>, start: Beam, b: Beam, t: Beam)
    requires
        reachable(rows, start, b),
        step(rows, b, t),
    ensures
        reachable(rows, start, t),
{
    let p = choose|p: Seq<Beam>| p.len() >= 1 && p[0] == start && p.last() == b && beam_path(rows, p);
    let q = p.push(t);
    assert forall|i: int| 0 <= i < q.len() - 1 implies step(rows, #[trigger] q[i], q[i + 1]) by {
        if i < p.len() - 1 {
            assert(q[i] == p[i] && q[i + 1] == p[i + 1]);
        } else {
            assert(q[i] == b);
        }
    }
    assert(q[0] == start);
    assert(q.last() == t);
    assert(q.len() >= 1 && q[0] == start && q.last() == t && beam_path(rows, q));
}

/// Directions a beam leaves a tile in.
fn exits(c: u8, d: Direction) -> (r: (Direction, Option<Direction>))
    ensures
        out_dirs(c, d) == match r.1 {
            None => seq![r.0],
            Some(e) => seq![r.0, e],
        },
{
    if c == FLAT_SPLITTER && (d == Direction::North || d == Direction::South) {
        (Direction::West, Some(Direction::East))
    } else if c == UPRIGHT_SPLITTER && (d == Direction::East || d == Direction::West) {
        (Direction::North, Some(Direction::South))
    } else if c == SLASH {
        (
            match d {
                Direction::East => Direction::North,
                Direction::West => Direction::South,
                Direction::North => Direction::East,
                Direction::South => Direction::West,
            },
            None,
        )
    } else if c == BACKSLASH {
        (
            match d {
                Direction::East => Direction::South,
                Direction::West => Direction::North,
                Direction::North => Direction::West,
                Direction::South => Direction::East,
            },
            None,
        )
    } else {
        (d, None)
    }
}

/// Every visited beam waits in the work list or has passed on to visited
/// beams.
pub open spec fn closed_or_waiting(
    rows: Seq<Seq<u8>>,
    visited: Seq<bool>,
    work: Seq<Beam>,
    skip: Option<Beam>,
) -> bool {
    let w = rows[0].len() as int;
    forall|b: Beam|
        on_board(rows, b) && #[trigger] visited[bidx(w, b)] && skip != Some(b) ==> (exists|i: int|
            0 <= i < work.len() && work[i] == b) || (forall|t: Beam|
            #[trigger] step(rows, b, t) ==> visited[bidx(w, t)])
}

/// Visits beam `t` if it is new, queueing it.
fn visit(visited: &mut Vec<bool>, work: &mut Vec<Beam>, t: Beam, w: usize, h: usize)
    requires
        t.x < w,
        t.y < h,
        old(visited)@.len() == h * w * 4,
        h * w * 4 <= usize::MAX,
    ensures
        final(visited)@ == old(visited)@.update(bidx(w as int, t), true),
        old(visited)@[bidx(w as int, t)] ==> final(work)@ == old(work)@,
        !old(visited)@[bidx(w as int, t)] ==> final(work)@ == old(work)@.push(t) && unvisited(
            final(visited)@,
        ) < unvisited(old(visited)@),
{
    proof {
        lemma_bidx(w as int, h as int, t, t);
        lemma_mix_bound(t.y as int, t.x as int, h as int, w as int);
        assert(h * w <= h * w * 4);
        assert(0 <= t.y * w <= t.y * w + t.x) by (nonlinear_arith)
            requires
                t.x >= 0,
                t.y >= 0,
                w >= 0,
        ;
    }
    let i = (t.y * w + t.x) * 4 + t.dir.to_ordinal();
    if !visited[i] {
        proof {
            lemma_unvisited_mark(visited@, i as int);
        }
        visited.set(i, true);
        work.push(t);
    } else {
        assert(visited@.update(i as int, true) =~= visited@);
    }
}

/// Every table entry set in `a` is set in `b`.
pub open spec fn grows(a: Seq<bool>, b: Seq<bool>) -> bool {
    a.len() == b.len() && forall|j: int| 0 <= j < a.len() && #[trigger] a[j] ==> b[j]
}

/// Expanding the beam taken off the work list keeps every visited beam
/// waiting or passed on.
proof fn lemma_after_expand(
    rows: Seq<Seq<u8>>,
    before: Seq<bool>,
    after: Seq<bool>,
    rest: Seq<Beam>,
    work: Seq<Beam>,
    b: Beam,
)
    requires
        closed_or_waiting(rows, before, rest, Some(b)),
        grows(before, after),
        rest.len() <= work.len(),
        forall|i: int| 0 <= i < rest.len() ==> #[trigger] work[i] == rest[i],
        forall|t: Beam| #[trigger] step(rows, b, t) ==> after[bidx(rows[0].len() as int, t)],
        forall|c: Beam|
            on_board(rows, c) && #[trigger] after[bidx(rows[0].len() as int, c)] && !before[bidx(
                rows[0].len() as int,
                c,
            )] ==> exists|i: int| 0 <= i < work.len() && work[i] == c,
        forall|c: Beam|
            on_board(rows, c) ==> 0 <= #[trigger] bidx(rows[0].len() as int, c) < before.len(),
    ensures
        closed_or_waiting(rows, after, work, None),
{
    let w = rows[0].len() as int;
    assert forall|c: Beam| on_board(rows, c) && #[trigger] after[bidx(w, c)] && None::<Beam> != Some(
        c,
    ) implies (exists|i: int| 0 <= i < work.len() && work[i] == c) || (forall|t: Beam|
        #[trigger] step(rows, c, t) ==> after[bidx(w, t)]) by {
        if c == b {
        } else if !before[bidx(w, c)] {
        } else if exists|i: int| 0 <= i < rest.len() && rest[i] == c {
            let i = choose|i: int| 0 <= i < rest.len() && rest[i] == c;
            assert(work[i] == c);
        } else {
            assert forall|t: Beam| #[trigger] step(rows, c, t) implies after[bidx(w, t)] by {
                assert(before[bidx(w, t)]);
            }
        }
    }
}

/// Once no beam waits, every beam along a path from a visited beam is
/// visited.
proof fn lemma_path_visited(rows: Seq<Seq<u8>>, visited: Seq<bool>, p: Seq<Beam>, i: int)
    requires
        closed_or_waiting(rows, visited, Seq::empty(), None),
        beam_path(rows, p),
        0 <= i < p.len(),
        on_board(rows, p[0]),
        visited[bidx(rows[0].len() as int, p[0])],
    ensures
        on_board(rows, p[i]),
        visited[bidx(rows[0].len() as int, p[i])],
    decreases i,
{
    if i > 0 {
        lemma_path_visited(rows, visited, p, i - 1);
        assert(step(rows, p[i - 1], p[i]));
        assert(!(exists|k: int| 0 <= k < Seq::<Beam>::empty().len() && Seq::<Beam>::empty()[k]
            == p[i - 1]));
    }
}

/// Once no beam waits, every beam that follows from `start` is visited.
proof fn lemma_closed_complete(rows: Seq<Seq<u8>>, visited: Seq<bool>, start: Beam, b: Beam)
    requires
        closed_or_waiting(rows, visited, Seq::empty(), None),
        on_board(rows, start),
        visited[bidx(rows[0].len() as int, start)],
        reachable(rows, start, b),
    ensures
        on_board(rows, b),
        visited[bidx(rows[0].len() as int, b)],
{
    let p = choose|p: Seq<Beam>| p.len() >= 1 && p[0] == start && p.last() == b && beam_path(rows, p);
    lemma_path_visited(rows, visited, p, p.len() - 1);
}

/// Passes beam `b` on in direction `d`, visiting the beam it becomes.
fn follow(
    visited: &mut Vec<bool>,
    work: &mut Vec<Beam>,
    b: Beam,
    d: Direction,
    w: usize,
    h: usize,
    Ghost(v): Ghost<Seq<Seq<u8>>>,
    Ghost(start): Ghost<Beam>,
)
    requires
        is_contraption(v),
        w == v[0].len(),
        h == v.len(),
        on_board(v, b),
        out_dirs(v[b.y as int][b.x as int], b.dir).contains(d),
        reachable(v, start, b),
        old(visited)@.len() == h * w * 4,
        h * w * 4 <= usize::MAX,
        forall|x: Beam| on_board(v, x) && #[trigger] old(visited)@[bidx(w as int, x)] ==> reachable(
            v,
            start,
            x,
        ),
    ensures
        grows(old(visited)@, final(visited)@),
        forall|x: Beam| on_board(v, x) && #[trigger] final(visited)@[bidx(w as int, x)] ==> reachable(
            v,
            start,
            x,
        ),
        forall|t: Beam| #[trigger] step(v, b, t) && t.dir == d ==> final(visited)@[bidx(w as int, t)],
        final(work)@.len() >= old(work)@.len(),
        forall|i: int| 0 <= i < old(work)@.len() ==> #[trigger] final(work)@[i] == old(work)@[i],
        forall|x: Beam|
            on_board(v, x) && #[trigger] final(visited)@[bidx(w as int, x)] && !old(visited)@[bidx(
                w as int,
                x,
            )] ==> exists|i: int| 0 <= i < final(work)@.len() && final(work)@[i] == x,
        forall|i: int|
            old(work)@.len() <= i < final(work)@.len() ==> on_board(v, #[trigger] final(work)@[i])
                && final(visited)@[bidx(w as int, final(work)@[i])],
        unvisited(final(visited)@) < unvisited(old(visited)@) || (final(visited)@ == old(
            visited,
        )@ && final(work)@ == old(work)@),
{
    match step_from(b.x, b.y, d, w, h) {
        Some(p) => {
            let t = Beam { x: p.0, y: p.1, dir: d };
            let ghost vis_a = visited@;
            let ghost work_a = work@;
            proof {
                assert(step(v, b, t));
                lemma_extend_path(v, start, b, t);
                lemma_bidx(w as int, h as int, t, t);
            }
            visit(visited, work, t, w, h);
            proof {
                assert forall|x: Beam| on_board(v, x) && #[trigger] visited@[bidx(w as int, x)]
                    implies reachable(v, start, x) by {
                    lemma_bidx(w as int, h as int, x, t);
                    if x != t {
                        assert(visited@[bidx(w as int, x)] == vis_a[bidx(w as int, x)]);
                    }
                }
                assert forall|x: Beam|
                    on_board(v, x) && #[trigger] visited@[bidx(w as int, x)] && !vis_a[bidx(
                        w as int,
                        x,
                    )] implies exists|i: int| 0 <= i < work@.len() && work@[i] == x by {
                    lemma_bidx(w as int, h as int, x, t);
                    assert(work@[work@.len() - 1] == x);
                }
                assert forall|u: Beam| #[trigger] step(v, b, u) && u.dir == d implies visited@[bidx(
                    w as int,
                    u,
                )] by {
                    assert(u == t);
                }
            }
        },
        None => {},
    }
}

/// Tiles energized by a beam entering at `start`.
fn energize(rows: &Vec<Vec<u8>>, start: Beam) -> (r: u64)
    requires
        is_contraption(bytes_view(rows@)),
        on_board(bytes_view(rows@), start),
        bytes_view(rows@).len() * bytes_view(rows@)[0].len() * 4 <= usize::MAX,
    ensures
        r == energy(bytes_view(rows@), start),
{
    let ghost v = bytes_view(rows@);
    assert(v[0] == rows@[0]@);
    let w = rows[0].len();
    let h = rows.len();
    let n = h * w * 4;
    let mut visited: Vec<bool> = Vec::new();
    let mut k: usize = 0;
    while k < n
        invariant
            visited@.len() == k,
            k <= n,
            forall|j: int| 0 <= j < k ==> !#[trigger] visited@[j],
        decreases n - k,
    {
        visited.push(false);
        k = k + 1;
    }
    let mut work: Vec<Beam> = Vec::new();
    proof {
        lemma_bidx(w as int, h as int, start, start);
        assert forall|b: Beam| on_board(v, b) implies !#[trigger] visited@[bidx(w as int, b)] by {
            lemma_bidx(w as int, h as int, b, b);
        }
    }
    visit(&mut visited, &mut work, start, w, h);
    proof {
        let p = seq![start];
        assert(p.last() == start && p[0] == start);
        assert(beam_path(v, p));
        assert forall|b: Beam| on_board(v, b) && #[trigger] visited@[bidx(w as int, b)] implies b
            == start by {
            lemma_bidx(w as int, h as int, b, start);
        }
        assert(work@[0] == start);
        assert forall|b: Beam| on_board(v, b) implies 0 <= #[trigger] bidx(w as int, b) < n by {
            lemma_bidx(w as int, h as int, b, b);
        }
    }
    while work.len() > 0
        invariant
            v == bytes_view(rows@),
            is_contraption(v),
            w == v[0].len(),
            h == v.len(),
            n == h * w * 4,
            visited@.len() == n,
            on_board(v, start),
            visited@[bidx(w as int, start)],
            n <= usize::MAX,
            forall|b: Beam| on_board(v, b) ==> 0 <= #[trigger] bidx(w as int, b) < n,
            forall|b: Beam| on_board(v, b) && #[trigger] visited@[bidx(w as int, b)] ==> reachable(
                v,
                start,
                b,
            ),
            forall|i: int|
                0 <= i < work@.len() ==> on_board(v, #[trigger] work@[i]) && visited@[bidx(
                    w as int,
                    work@[i],
                )],
            closed_or_waiting(v, visited@, work@, None),
        decreases unvisited(visited@), work@.len(),
    {
        let ghost work0 = work@;
        let ghost vis0 = visited@;
        let b = match work.pop() {
            Some(b) => b,
            None => return 0,
        };
        let ghost rest = work@;
        proof {
            assert(b == work0.last());
            assert(rest =~= work0.drop_last());
            assert forall|c: Beam|
                on_board(v, c) && #[trigger] vis0[bidx(w as int, c)] && Some(b) != Some(c) implies (
            exists|i: int| 0 <= i < rest.len() && rest[i] == c) || (forall|t: Beam|
                #[trigger] step(v, c, t) ==> vis0[bidx(w as int, t)]) by {
                if exists|i: int| 0 <= i < work0.len() && work0[i] == c {
                    let i = choose|i: int| 0 <= i < work0.len() && work0[i] == c;
                    assert(i != work0.len() - 1);
                    assert(rest[i] == c);
                }
            }
            assert(on_board(v, b));
            assert(v[b.y as int] == rows@[b.y as int]@);
            assert(v[b.y as int].len() == w);
        }
        let c = rows[b.y][b.x];
        let (d1, d2) = exits(c, b.dir);
        proof {
            assert(out_dirs(c, b.dir)[0] == d1);
        }
        follow(&mut visited, &mut work, b, d1, w, h, Ghost(v), Ghost(start));
        let ghost vis_b = visited@;
        let ghost work_b = work@;
        if let Some(e) = d2 {
            proof {
                assert(out_dirs(c, b.dir)[1] == e);
            }
            follow(&mut visited, &mut work, b, e, w, h, Ghost(v), Ghost(start));
        }
        proof {
            assert forall|t: Beam| #[trigger] step(v, b, t) implies visited@[bidx(w as int, t)] by {
                if t.dir == d1 {
                    assert(vis_b[bidx(w as int, t)]);
                } else {
                    assert(out_dirs(c, b.dir).contains(t.dir));
                    let k = choose|k: int|
                        0 <= k < out_dirs(c, b.dir).len() && out_dirs(c, b.dir)[k] == t.dir;
                    assert(d2 is Some && t.dir == d2->0);
                }
            }
            assert forall|i: int| 0 <= i < rest.len() implies #[trigger] work@[i] == rest[i] by {
                assert(work_b[i] == rest[i]);
            }
            assert forall|x: Beam|
                on_board(v, x) && #[trigger] visited@[bidx(w as int, x)] && !vis0[bidx(w as int, x)]
                implies exists|i: int| 0 <= i < work@.len() && work@[i] == x by {
                if vis_b[bidx(w as int, x)] {
                    let i = choose|i: int| 0 <= i < work_b.len() && work_b[i] == x;
                    assert(work@[i] == x);
                }
            }
            assert forall|i: int| 0 <= i < work@.len() implies on_board(v, #[trigger] work@[i])
                && visited@[bidx(w as int, work@[i])] by {
                if i < work_b.len() {
                    assert(work@[i] == work_b[i]);
                    if i < rest.len() {
                        assert(work0[i] == rest[i]);
                    }
                }
            }
            lemma_after_expand(v, vis0, visited@, rest, work@, b);
        }
    }
    proof {
        assert forall|b: Beam| on_board(v, b) implies (#[trigger] visited@[bidx(w as int, b)]
            <==> reachable(v, start, b)) by {
            if reachable(v, start, b) {
                lemma_closed_complete(v, visited@, start, b);
            }
        }
    }
    let mut count: u64 = 0;
    let mut y: usize = 0;
    while y < h
        invariant
            v == bytes_view(rows@),
            is_contraption(v),
            w == v[0].len(),
            h == v.len(),
            n == h * w * 4,
            visited@.len() == n,
            y <= h,
            forall|b: Beam| on_board(v, b) ==> 0 <= #[trigger] bidx(w as int, b) < n,
            forall|b: Beam| on_board(v, b) ==> (#[trigger] visited@[bidx(w as int, b)] <==> reachable(
                v,
                start,
                b,
            )),
            count == energized_total(v, start, y as int),
            count <= y * w,
        decreases h - y,
    {
        let mut x: usize = 0;
        let ghost before = count;
        while x < w
            invariant
                v == bytes_view(rows@),
                is_contraption(v),
                w == v[0].len(),
                h == v.len(),
                n == h * w * 4,
                visited@.len() == n,
                y < h,
                x <= w,
                forall|b: Beam| on_board(v, b) ==> 0 <= #[trigger] bidx(w as int, b) < n,
                forall|b: Beam| on_board(v, b) ==> (#[trigger] visited@[bidx(w as int, b)]
                    <==> reachable(v, start, b)),
                before == energized_total(v, start, y as int),
                before <= y * w,
                count == before + energized_in_row(v, start, y as int, x as int),
                count <= before + x,
            decreases w - x,
        {
            let bn = Beam { x, y, dir: Direction::North };
            let be = Beam { x, y, dir: Direction::East };
            let bs = Beam { x, y, dir: Direction::South };
            let bw = Beam { x, y, dir: Direction::West };
            proof {
                lemma_mix_bound(y as int, x as int, h as int, w as int);
            }
            let base = (y * w + x) * 4;
            let lit = visited[base] || visited[base + 1] || visited[base + 2] || visited[base + 3];
            proof {
                assert(bidx(w as int, bn) == base);
                assert(bidx(w as int, be) == base + 1);
                assert(bidx(w as int, bs) == base + 2);
                assert(bidx(w as int, bw) == base + 3);
                assert(lit == energized(v, start, x, y));
            }
            if lit {
                count = count + 1;
            }
            x = x + 1;
        }
        proof {
            assert((y + 1) * w == y * w + w) by (nonlinear_arith);
        }
        y = y + 1;
    }
    count
}

/// The rows of a text that is a contraption small enough to search.
fn read_contraption(input: &str) -> (r: Option<Vec<Vec<u8>>>)
    ensures
        match r {
            Some(rows) => bytes_view(rows@) == lines(input.spec_bytes()) && is_contraption(
                bytes_view(rows@),
            ) && bytes_view(rows@).len() * bytes_view(rows@)[0].len() * 4 <= usize::MAX,
            None => !(is_contraption(lines(input.spec_bytes())) && lines(input.spec_bytes()).len()
                * lines(input.spec_bytes())[0].len() * 4 <= usize::MAX),
        },
{
    let rows = split_lines(input.as_bytes());
    let ghost v = bytes_view(rows@);
    if rows.len() == 0 {
        return None;
    }
    assert(v[0] == rows@[0]@);
    let w = rows[0].len();
    let h = rows.len();
    if w == 0 {
        return None;
    }
    let mut y: usize = 0;
    while y < h
        invariant
            v == bytes_view(rows@),
            v == lines(input.spec_bytes()),
            h == v.len(),
            w == v[0].len(),
            w > 0,
            y <= h,
            forall|i: int| 0 <= i < y ==> #[trigger] v[i].len() == w,
            forall|i: int, j: int|
                0 <= i < y && 0 <= j < v[i].len() ==> is_tile(#[trigger] v[i][j]),
        decreases h - y,
    {
        assert(v[y as int] == rows@[y as int]@);
        if rows[y].len() != w {
            assert(v[y as int].len() != v[0].len());
            return None;
        }
        let mut x: usize = 0;
        while x < w
            invariant
                v == bytes_view(rows@),
                v == lines(input.spec_bytes()),
                h == v.len(),
                w == v[0].len(),
                y < h,
                v[y as int] == rows@[y as int]@,
                v[y as int].len() == w,
                x <= w,
                forall|j: int| 0 <= j < x ==> is_tile(#[trigger] v[y as int][j]),
            decreases w - x,
        {
            let c = rows[y][x];
            if !(c == OPEN || c == FLAT_SPLITTER || c == UPRIGHT_SPLITTER || c == SLASH || c
                == BACKSLASH) {
                assert(!is_tile(v[y as int][x as int]));
                return None;
            }
            x = x + 1;
        }
        y = y + 1;
    }
    match h.checked_mul(w) {
        None => {
            assert(h * w <= h * w * 4);
            None
        },
        Some(a) => match a.checked_mul(4) {
            None => None,
            Some(_) => Some(rows),
        },
    }
}

/// Tiles energized by a beam entering the top-left tile heading east;
/// `None` unless the text is a contraption whose beam table fits in memory,
/// or when the count passes `u32::MAX`.
pub fn part_one(input: &str) -> (r: Option<u32>)
    ensures
        r == if is_contraption(lines(input.spec_bytes())) && lines(input.spec_bytes()).len()
            * lines(input.spec_bytes())[0].len() * 4 <= usize::MAX && energy(
            lines(input.spec_bytes()),
            Beam { x: 0, y: 0, dir: Direction::East },
        ) <= u32::MAX {
            Some(
                energy(lines(input.spec_bytes()), Beam { x: 0, y: 0, dir: Direction::East }) as u32,
            )
        } else {
            None::<u32>
        },
{
    let rows = match read_contraption(input) {
        Some(rows) => rows,
        None => return None,
    };
    let e = energize(&rows, Beam { x: 0, y: 0, dir: Direction::East });
    if e <= 0xFFFF_FFFF {
        Some(e as u32)
    } else {
        None
    }
}

/// Every way a beam can enter from an edge: down each column from the top,
/// up each column from the bottom, right along each row from the left, left
/// along each row from the right.
pub open spec fn edge_starts(w: int, h: int) -> Seq<Beam> {
    Seq::new(w as nat, |x: int| Beam { x: x as usize, y: 0, dir: Direction::South }) + Seq::new(
        w as nat,
        |x: int| Beam { x: x as usize, y: (h - 1) as usize, dir: Direction::North },
    ) + Seq::new(h as nat, |y: int| Beam { x: 0, y: y as usize, dir: Direction::East }) + Seq::new(
        h as nat,
        |y: int| Beam { x: (w - 1) as usize, y: y as usize, dir: Direction::West },
    )
}

/// Most tiles energized by any of `starts`.
pub open spec fn best_energy(rows: Seq<Seq<u8>>, starts: Seq<Beam>) -> int
    decreases starts.len(),
{
    if starts.len() == 0 {
        0
    } else {
        let rest = best_energy(rows, starts.drop_last());
        let e = energy(rows, starts.last());
        if e > rest {
            e
        } else {
            rest
        }
    }
}

/// Most tiles energized by a beam entering from any edge tile, heading
/// away from that edge; `None` unless the text is a contraption whose beam
/// table fits in memory, or when the count passes `u32::MAX`.
pub fn part_two(input: &str) -> (r: Option<u32>)
    ensures
        r == if is_contraption(lines(input.spec_bytes())) && lines(input.spec_bytes()).len()
            * lines(input.spec_bytes())[0].len() * 4 <= usize::MAX && best_energy(
            lines(input.spec_bytes()),
            edge_starts(lines(input.spec_bytes())[0].len() as int, lines(input.spec_bytes()).len() as int),
        ) <= u32::MAX {
            Some(
                best_energy(
                    lines(input.spec_bytes()),
                    edge_starts(
                        lines(input.spec_bytes())[0].len() as int,
                        lines(input.spec_bytes()).len() as int,
                    ),
                ) as u32,
            )
        } else {
            None::<u32>
        },
{
    let rows = match read_contraption(input) {
        Some(rows) => rows,
        None => return None,
    };
    let ghost v = bytes_view(rows@);
    assert(v[0] == rows@[0]@);
    let w = rows[0].len();
    let h = rows.len();
    let ghost all = edge_starts(w as int, h as int);
    let mut starts: Vec<Beam> = Vec::new();
    let mut x: usize = 0;
    while x < w
        invariant
            starts@.len() == x,
            x <= w,
            forall|k: int| 0 <= k < x ==> #[trigger] starts@[k] == all[k],
            all == edge_starts(w as int, h as int),
        decreases w - x,
    {
        starts.push(Beam { x, y: 0, dir: Direction::South });
        x = x + 1;
    }
    let mut x: usize = 0;
    while x < w
        invariant
            starts@.len() == w + x,
            x <= w,
            forall|k: int| 0 <= k < w + x ==> #[trigger] starts@[k] == all[k],
            all == edge_starts(w as int, h as int),
            h >= 1,
        decreases w - x,
    {
        starts.push(Beam { x, y: h - 1, dir: Direction::North });
        x = x + 1;
    }
    let mut y: usize = 0;
    while y < h
        invariant
            starts@.len() == 2 * w + y,
            y <= h,
            forall|k: int| 0 <= k < 2 * w + y ==> #[trigger] starts@[k] == all[k],
            all == edge_starts(w as int, h as int),
            h >= 1,
        decreases h - y,
    {
        starts.push(Beam { x: 0, y, dir: Direction::East });
        y = y + 1;
    }
    let mut y: usize = 0;
    while y < h
        invariant
            starts@.len() == 2 * w + h + y,
            y <= h,
            forall|k: int| 0 <= k < 2 * w + h + y ==> #[trigger] starts@[k] == all[k],
            all == edge_starts(w as int, h as int),
            h >= 1,
            w >= 1,
        decreases h - y,
    {
        starts.push(Beam { x: w - 1, y, dir: Direction::West });
        y = y + 1;
    }
    assert(starts@ =~= all);
    let mut best: u64 = 0;
    let mut k: usize = 0;
    assert(all.take(0) =~= Seq::<Beam>::empty());
    while k < starts.len()
        invariant
            v == bytes_view(rows@),
            v == lines(input.spec_bytes()),
            is_contraption(v),
            v.len() * v[0].len() * 4 <= usize::MAX,
            w == v[0].len(),
            h == v.len(),
            starts@ == all,
            forall|i: int| 0 <= i < all.len() ==> on_board(v, #[trigger] all[i]),
            k <= all.len(),
            best == best_energy(v, all.take(k as int)),
        decreases all.len() - k,
    {
        let e = energize(&rows, starts[k]);
        proof {
            assert(all.take(k + 1).drop_last() =~= all.take(k as int));
            assert(all.take(k + 1).last() == all[k as int]);
        }
        if e > best {
            best = e;
        }
        k = k + 1;
    }
    assert(all.take(all.len() as int) =~= all);
    if best <= 0xFFFF_FFFF {
        Some(best as u32)
    } else {
        None
    }
}

} // verus!
