//! Directions, run-length constraints, and what a legal route is.

use vstd::prelude::*;
use crate::grid::{cell_cost, in_grid, is_rectangular};

verus! {

/// One of the four cardinal directions; North is towards row 0.
#[derive(PartialEq, Eq, Structural, Clone, Copy, Debug, Hash)]
pub enum Direction {
    North,
    East,
    South,
    West,
}

impl Direction {
    /// The direction that reverses this one.
    pub open spec fn opposite(self) -> Direction {
        match self {
            Direction::North => Direction::South,
            Direction::East => Direction::West,
            Direction::South => Direction::North,
            Direction::West => Direction::East,
        }
    }

    /// Column offset of one move.
    pub open spec fn dx(self) -> int {
        match self {
            Direction::East => 1,
            Direction::West => -1,
            _ => 0,
        }
    }

    /// Row offset of one move.
    pub open spec fn dy(self) -> int {
        match self {
            Direction::North => -1,
            Direction::South => 1,
            _ => 0,
        }
    }

    /// Position of this direction in the order North, East, South, West.
    pub open spec fn ordinal(self) -> int {
        match self {
            Direction::North => 0,
            Direction::East => 1,
            Direction::South => 2,
            Direction::West => 3,
        }
    }

    /// The two directions perpendicular to this one: the legal turns.
    pub fn flip(&self) -> (r: [Direction; 2])
        ensures
            r[0] == if *self == Direction::North || *self == Direction::South {
                Direction::East
            } else {
                Direction::North
            },
            r[1] == if *self == Direction::North || *self == Direction::South {
                Direction::West
            } else {
                Direction::South
            },
            r[0] != *self && r[0] != self.opposite(),
            r[1] != *self && r[1] != self.opposite(),
    {
        match self {
            Direction::North | Direction::South => [Direction::East, Direction::West],
            Direction::East | Direction::West => [Direction::North, Direction::South],
        }
    }

    /// The direction of ordinal `i`.
    pub fn from_ordinal(i: usize) -> (r: Direction)
        requires
            i < 4,
        ensures
            r.ordinal() == i,
    {
        if i == 0 {
            Direction::North
        } else if i == 1 {
            Direction::East
        } else if i == 2 {
            Direction::South
        } else {
            Direction::West
        }
    }

    /// Runtime form of `ordinal`.
    pub fn to_ordinal(&self) -> (r: usize)
        ensures
            r as int == self.ordinal(),
    {
        match self {
            Direction::North => 0,
            Direction::East => 1,
            Direction::South => 2,
            Direction::West => 3,
        }
    }
}

/// Run-length limits on a route: at most `max_run` moves in one direction,
/// and at least `min_run_before_turn` before a turn or before stopping.
#[derive(PartialEq, Eq, Structural, Clone, Copy, Debug)]
pub struct Config {
    pub max_run: u32,
    pub min_run_before_turn: u32,
}

impl Config {
    /// Whether the limits make sense: `1 <= min_run_before_turn <= max_run`.
    pub open spec fn valid(self) -> bool {
        1 <= self.min_run_before_turn <= self.max_run
    }

    /// At most three moves straight, turns at any time.
    pub fn basic() -> (r: Config)
        ensures
            r.max_run == 3 && r.min_run_before_turn == 1,
    {
        Config { max_run: 3, min_run_before_turn: 1 }
    }

    /// At least four and at most ten moves straight before a turn.
    pub fn extended() -> (r: Config)
        ensures
            r.max_run == 10 && r.min_run_before_turn == 4,
    {
        Config { max_run: 10, min_run_before_turn: 4 }
    }

    /// Runtime form of `valid`.
    pub fn is_valid(&self) -> (r: bool)
        ensures
            r == self.valid(),
    {
        1 <= self.min_run_before_turn && self.min_run_before_turn <= self.max_run
    }
}

/// Whether move `m` may follow a run of `run` moves in direction `d`.
pub open spec fn move_allowed(cfg: Config, d: Direction, run: int, m: Direction) -> bool {
    if m == d {
        run < cfg.max_run
    } else {
        m != d.opposite() && run >= cfg.min_run_before_turn
    }
}

/// Runtime form of `move_allowed`.
pub fn can_move(cfg: Config, d: Direction, run: u32, m: Direction) -> (r: bool)
    ensures
        r == move_allowed(cfg, d, run as int, m),
{
    if m == d {
        run < cfg.max_run
    } else {
        let reverse = match d {
            Direction::North => m == Direction::South,
            Direction::East => m == Direction::West,
            Direction::South => m == Direction::North,
            Direction::West => m == Direction::East,
        };
        !reverse && run >= cfg.min_run_before_turn
    }
}

/// The cell one move from (`x`, `y`), if it lies in a `w` by `h` grid.
pub fn step_from(x: usize, y: usize, m: Direction, w: usize, h: usize) -> (r: Option<(usize, usize)>)
    requires
        x < w,
        y < h,
    ensures
        match r {
            Some(p) => p.0 == x + m.dx() && p.1 == y + m.dy() && p.0 < w && p.1 < h,
            None => !(0 <= x + m.dx() < w && 0 <= y + m.dy() < h),
        },
{
    match m {
        Direction::North => if y > 0 {
            Some((x, y - 1))
        } else {
            None
        },
        Direction::East => if x + 1 < w {
            Some((x + 1, y))
        } else {
            None
        },
        Direction::South => if y + 1 < h {
            Some((x, y + 1))
        } else {
            None
        },
        Direction::West => if x > 0 {
            Some((x - 1, y))
        } else {
            None
        },
    }
}

/// Where a route of moves ends, starting from the top-left cell.
pub open spec fn position_after(moves: Seq<Direction>) -> (int, int)
    decreases moves.len(),
{
    if moves.len() == 0 {
        (0, 0)
    } else {
        let p = position_after(moves.drop_last());
        (p.0 + moves.last().dx(), p.1 + moves.last().dy())
    }
}

/// Number of moves at the end of a route made in its last direction.
pub open spec fn final_run(moves: Seq<Direction>) -> int
    decreases moves.len(),
{
    if moves.len() == 0 {
        0
    } else if moves.len() == 1 {
        1
    } else if moves.last() == moves[moves.len() - 2] {
        final_run(moves.drop_last()) + 1
    } else {
        1
    }
}

/// A route stays in the grid, never reverses, never runs straight more than
/// `max_run` moves, and never turns before `min_run_before_turn` moves.
pub open spec fn legal_route(rows: Seq<Seq<u32>>, cfg: Config, moves: Seq<Direction>) -> bool
    decreases moves.len(),
{
    if moves.len() == 0 {
        true
    } else {
        let prev = moves.drop_last();
        let p = position_after(moves);
        &&& legal_route(rows, cfg, prev)
        &&& in_grid(rows, p.0, p.1)
        &&& (prev.len() == 0 || move_allowed(cfg, prev.last(), final_run(prev), moves.last()))
    }
}

/// Sum of the costs of the cells a route enters (the start cell is free).
pub open spec fn route_cost(rows: Seq<Seq<u32>>, moves: Seq<Direction>) -> int
    decreases moves.len(),
{
    if moves.len() == 0 {
        0
    } else {
        let p = position_after(moves);
        route_cost(rows, moves.drop_last()) + cell_cost(rows, p.0, p.1)
    }
}

/// The bottom-right cell.
pub open spec fn goal(rows: Seq<Seq<u32>>) -> (int, int) {
    (rows[0].len() - 1, rows.len() - 1)
}

/// A legal route that ends on the goal after a final run long enough to stop.
pub open spec fn completes(rows: Seq<Seq<u32>>, cfg: Config, moves: Seq<Direction>) -> bool {
    &&& legal_route(rows, cfg, moves)
    &&& position_after(moves) == goal(rows)
    &&& (moves.len() == 0 || final_run(moves) >= cfg.min_run_before_turn)
}

/// `c` is the least cost of a completing route.
pub open spec fn is_min_cost(rows: Seq<Seq<u32>>, cfg: Config, c: int) -> bool {
    &&& exists|m: Seq<Direction>| completes(rows, cfg, m) && route_cost(rows, m) == c
    &&& forall|m: Seq<Direction>| completes(rows, cfg, m) ==> c <= route_cost(rows, m)
}

/// Search-graph vertex: a cell, the direction of the last move, and how many
/// moves in a row were made in that direction.
#[derive(PartialEq, Eq, Structural, Clone, Copy, Debug, Hash)]
pub struct AugmentedState {
    pub x: usize,
    pub y: usize,
    pub dir: Direction,
    pub run: u32,
}

/// The state a non-empty route ends in.
pub open spec fn state_of(moves: Seq<Direction>) -> (int, int, Direction, int) {
    let p = position_after(moves);
    (p.0, p.1, moves.last(), final_run(moves))
}

/// Whether `s` is the state a non-empty route ends in.
pub open spec fn ends_in(moves: Seq<Direction>, s: AugmentedState) -> bool {
    moves.len() > 0 && state_of(moves) == (s.x as int, s.y as int, s.dir, s.run as int)
}

/// Route costs are never negative.
pub proof fn lemma_route_cost_nonneg(rows: Seq<Seq<u32>>, moves: Seq<Direction>)
    ensures
        route_cost(rows, moves) >= 0,
        moves.len() > 0 ==> route_cost(rows, moves) >= route_cost(rows, moves.drop_last()),
    decreases moves.len(),
{
    if moves.len() > 0 {
        lemma_route_cost_nonneg(rows, moves.drop_last());
    }
}

/// Extending a route by one allowed move that stays in the grid.
pub proof fn lemma_extend(rows: Seq<Seq<u32>>, cfg: Config, moves: Seq<Direction>, m: Direction)
    requires
        legal_route(rows, cfg, moves),
        moves.len() > 0,
        move_allowed(cfg, moves.last(), final_run(moves), m),
        in_grid(rows, position_after(moves).0 + m.dx(), position_after(moves).1 + m.dy()),
    ensures
        legal_route(rows, cfg, moves.push(m)),
        position_after(moves.push(m)) == (
            position_after(moves).0 + m.dx(),
            position_after(moves).1 + m.dy(),
        ),
        final_run(moves.push(m)) == if m == moves.last() {
            final_run(moves) + 1
        } else {
            1
        },
        route_cost(rows, moves.push(m)) == route_cost(rows, moves) + cell_cost(
            rows,
            position_after(moves).0 + m.dx(),
            position_after(moves).1 + m.dy(),
        ),
{
    assert(moves.push(m).drop_last() =~= moves);
}

/// A one-move route.
pub proof fn lemma_first_move(rows: Seq<Seq<u32>>, cfg: Config, m: Direction)
    requires
        in_grid(rows, m.dx(), m.dy()),
    ensures
        legal_route(rows, cfg, seq![m]),
        position_after(seq![m]) == (m.dx(), m.dy()),
        final_run(seq![m]) == 1,
        route_cost(rows, seq![m]) == cell_cost(rows, m.dx(), m.dy()),
{
    assert(seq![m].drop_last() =~= Seq::<Direction>::empty());
    assert(position_after(Seq::<Direction>::empty()) == (0int, 0int));
    assert(seq![m].last() == m);
    assert(legal_route(rows, cfg, Seq::<Direction>::empty()));
    assert(route_cost(rows, Seq::<Direction>::empty()) == 0);
}

/// Facts about the state a legal non-empty route ends in: its run is between
/// 1 and `max_run`, its cell is in the grid, and so is the cell where its
/// final run began, so the run is shorter than the grid is long.
pub proof fn lemma_route_state(rows: Seq<Seq<u32>>, cfg: Config, moves: Seq<Direction>)
    requires
        legal_route(rows, cfg, moves),
        moves.len() > 0,
        cfg.valid(),
        is_rectangular(rows),
    ensures
        1 <= final_run(moves) <= cfg.max_run,
        in_grid(rows, position_after(moves).0, position_after(moves).1),
        in_grid(
            rows,
            position_after(moves).0 - final_run(moves) * moves.last().dx(),
            position_after(moves).1 - final_run(moves) * moves.last().dy(),
        ),
    decreases moves.len(),
{
    let prev = moves.drop_last();
    let m = moves.last();
    if prev.len() == 0 {
        assert(position_after(prev) == (0int, 0int));
        assert(final_run(moves) == 1);
        assert(1 * m.dx() == m.dx() && 1 * m.dy() == m.dy());
    } else {
        lemma_route_state(rows, cfg, prev);
        let r = final_run(prev);
        let p = position_after(prev);
        assert(moves[moves.len() - 2] == prev.last());
        if m == prev.last() {
            assert(final_run(moves) == r + 1);
            assert((r + 1) * m.dx() == r * m.dx() + m.dx()) by (nonlinear_arith);
            assert((r + 1) * m.dy() == r * m.dy() + m.dy()) by (nonlinear_arith);
        } else {
            assert(final_run(moves) == 1);
            assert(1 * m.dx() == m.dx() && 1 * m.dy() == m.dy());
        }
    }
}

} // verus!
