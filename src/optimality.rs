//! Facts about the least route cost that the search reports.

use vstd::prelude::*;
use crate::grid::{cell_cost, in_grid, is_rectangular};
use crate::movement::{
    completes, final_run, goal, lemma_extend, lemma_route_cost_nonneg,
    lemma_route_state, legal_route, move_allowed, position_after, route_cost, Config, Direction,
};
use crate::search::{answers, cost_bound};

verus! {

/// The search's answer is a function of the grid and the configuration:
/// any two answers for the same inputs are equal.
pub proof fn answer_is_unique(rows: Seq<Seq<u32>>, cfg: Config, r1: Option<u32>, r2: Option<u32>)
    requires
        answers(rows, cfg, r1),
        answers(rows, cfg, r2),
    ensures
        r1 == r2,
{
    match (r1, r2) {
        (Some(a), Some(b)) => {
            let ma = choose|m: Seq<Direction>| completes(rows, cfg, m) && route_cost(rows, m) == a;
            let mb = choose|m: Seq<Direction>| completes(rows, cfg, m) && route_cost(rows, m) == b;
            assert(a <= route_cost(rows, mb));
            assert(b <= route_cost(rows, ma));
        },
        (Some(a), None) => {
            let ma = choose|m: Seq<Direction>| completes(rows, cfg, m) && route_cost(rows, m) == a;
            assert(route_cost(rows, ma) > cost_bound());
        },
        (None, Some(b)) => {
            let mb = choose|m: Seq<Direction>| completes(rows, cfg, m) && route_cost(rows, m) == b;
            assert(route_cost(rows, mb) > cost_bound());
        },
        (None, None) => {},
    }
}

/// On a grid of one cell the start is the goal, and the answer is 0 under
/// every valid configuration.
pub proof fn single_cell_costs_nothing(rows: Seq<Seq<u32>>, cfg: Config, r: Option<u32>)
    requires
        rows.len() == 1,
        rows[0].len() == 1,
        cfg.valid(),
        answers(rows, cfg, r),
    ensures
        r == Some(0u32),
{
    let empty = Seq::<Direction>::empty();
    assert(position_after(empty) == (0int, 0int));
    assert(legal_route(rows, cfg, empty));
    assert(route_cost(rows, empty) == 0);
    assert(completes(rows, cfg, empty));
}

/// Two grids of the same shape.
pub open spec fn same_shape(a: Seq<Seq<u32>>, b: Seq<Seq<u32>>) -> bool {
    &&& a.len() == b.len()
    &&& forall|i: int| 0 <= i < a.len() ==> #[trigger] a[i].len() == b[i].len()
}

/// Legality depends on the grid's shape alone, and a grid whose costs are no
/// lower gives every route a cost no lower.
proof fn lemma_shape_and_cost(
    a: Seq<Seq<u32>>,
    b: Seq<Seq<u32>>,
    cfg: Config,
    moves: Seq<Direction>,
)
    requires
        same_shape(a, b),
        forall|x: int, y: int| in_grid(a, x, y) ==> cell_cost(a, x, y) <= #[trigger] cell_cost(b, x, y),
    ensures
        legal_route(a, cfg, moves) == legal_route(b, cfg, moves),
        legal_route(a, cfg, moves) ==> route_cost(a, moves) <= route_cost(b, moves),
    decreases moves.len(),
{
    if moves.len() > 0 {
        lemma_shape_and_cost(a, b, cfg, moves.drop_last());
        let p = position_after(moves);
        if 0 <= p.1 < a.len() {
            assert(a[p.1].len() == b[p.1].len());
        }
    }
}

/// Raising the cost of one cell never lowers the least cost: if the raised
/// grid has an answer within the bound, so has the grid before, and it is no
/// larger.
pub proof fn raising_a_cell_never_lowers_the_minimum(
    rows: Seq<Seq<u32>>,
    cfg: Config,
    x: int,
    y: int,
    v: u32,
    before: Option<u32>,
    after: Option<u32>,
)
    requires
        is_rectangular(rows),
        in_grid(rows, x, y),
        v >= rows[y][x],
        answers(rows, cfg, before),
        answers(rows.update(y, rows[y].update(x, v)), cfg, after),
    ensures
        after is Some ==> before is Some && before->0 <= after->0,
{
    let raised = rows.update(y, rows[y].update(x, v));
    assert(same_shape(rows, raised));
    assert forall|i: int, j: int| in_grid(rows, i, j) implies cell_cost(rows, i, j)
        <= #[trigger] cell_cost(raised, i, j) by {
        if j == y && i == x {
        } else if j == y {
            assert(raised[j][i] == rows[j][i]);
        } else {
            assert(raised[j] == rows[j]);
        }
    }
    if after is Some {
        let b = after->0;
        let m = choose|m: Seq<Direction>| completes(raised, cfg, m) && route_cost(raised, m) == b;
        lemma_shape_and_cost(rows, raised, cfg, m);
        assert(goal(rows) == goal(raised));
        assert(completes(rows, cfg, m));
        if before is None {
            assert(route_cost(rows, m) > cost_bound());
        }
    }
}

/// A walk: moves that stay in the grid, with no limit on runs or reversals.
pub open spec fn stays_in_grid(rows: Seq<Seq<u32>>, moves: Seq<Direction>) -> bool
    decreases moves.len(),
{
    if moves.len() == 0 {
        true
    } else {
        let p = position_after(moves);
        stays_in_grid(rows, moves.drop_last()) && in_grid(rows, p.0, p.1)
    }
}

/// `c` is the least cost of a walk from the top-left to the bottom-right
/// cell: the plain shortest-path distance between them.
pub open spec fn is_shortest_walk(rows: Seq<Seq<u32>>, c: int) -> bool {
    &&& exists|m: Seq<Direction>|
        stays_in_grid(rows, m) && position_after(m) == goal(rows) && route_cost(rows, m) == c
    &&& forall|m: Seq<Direction>|
        stays_in_grid(rows, m) && position_after(m) == goal(rows) ==> c <= route_cost(rows, m)
}

proof fn lemma_legal_is_walk(rows: Seq<Seq<u32>>, cfg: Config, moves: Seq<Direction>)
    requires
        legal_route(rows, cfg, moves),
    ensures
        stays_in_grid(rows, moves),
    decreases moves.len(),
{
    if moves.len() > 0 {
        lemma_legal_is_walk(rows, cfg, moves.drop_last());
    }
}

/// With turns allowed at once and runs longer than the grid allowed, every
/// walk can be shortened to a legal route to the same cell, no dearer:
/// each step back along the last move is cancelled against it.
proof fn lemma_walk_to_route(rows: Seq<Seq<u32>>, cfg: Config, walk: Seq<Direction>) -> (route:
    Seq<Direction>)
    requires
        is_rectangular(rows),
        cfg.min_run_before_turn == 1,
        cfg.max_run >= rows.len(),
        cfg.max_run >= rows[0].len(),
        stays_in_grid(rows, walk),
    ensures
        legal_route(rows, cfg, route),
        position_after(route) == position_after(walk),
        route_cost(rows, route) <= route_cost(rows, walk),
    decreases walk.len(),
{
    if walk.len() == 0 {
        walk
    } else {
        let prev = walk.drop_last();
        let m = walk.last();
        let r = lemma_walk_to_route(rows, cfg, prev);
        lemma_route_cost_nonneg(rows, walk);
        let p = position_after(walk);
        if r.len() > 0 && m == r.last().opposite() {
            let shorter = r.drop_last();
            lemma_route_cost_nonneg(rows, r);
            let q = position_after(r);
            assert(in_grid(rows, q.0, q.1)) by {
                lemma_route_state(rows, cfg, r);
            }
            assert(rows[q.1].len() == rows[0].len());
            shorter
        } else {
            if r.len() > 0 {
                lemma_route_state(rows, cfg, r);
                let q = position_after(r);
                let k = final_run(r);
                let d = r.last();
                assert(rows[q.1].len() == rows[0].len());
                if m == d {
                    assert(k * d.dx() == 0 || k * d.dx() == k || k * d.dx() == -k) by (
                    nonlinear_arith)
                        requires
                            d.dx() == 0 || d.dx() == 1 || d.dx() == -1,
                    ;
                    assert(k * d.dy() == 0 || k * d.dy() == k || k * d.dy() == -k) by (
                    nonlinear_arith)
                        requires
                            d.dy() == 0 || d.dy() == 1 || d.dy() == -1,
                    ;
                    assert(d.dx() == 0 ==> k * d.dx() == 0) by (nonlinear_arith);
                    assert(d.dy() == 0 ==> k * d.dy() == 0) by (nonlinear_arith);
                    assert(d.dx() == 1 ==> k * d.dx() == k) by (nonlinear_arith);
                    assert(d.dy() == 1 ==> k * d.dy() == k) by (nonlinear_arith);
                    assert(d.dx() == -1 ==> k * d.dx() == -k) by (nonlinear_arith);
                    assert(d.dy() == -1 ==> k * d.dy() == -k) by (nonlinear_arith);
                    assert(rows[q.1 - k * d.dy()].len() == rows[0].len());
                    assert(rows[p.1].len() == rows[0].len());
                }
                assert(move_allowed(cfg, d, k, m));
                lemma_extend(rows, cfg, r, m);
            } else {
                assert(position_after(r) == (0int, 0int));
                assert(r.push(m).drop_last() =~= r);
            }
            r.push(m)
        }
    }
}

/// With `min_run_before_turn` 1 and `max_run` at least the grid's longer
/// side, run limits never bind: the answer is the plain shortest-path
/// distance from the top-left to the bottom-right cell.
pub proof fn unlimited_runs_give_plain_shortest_path(
    rows: Seq<Seq<u32>>,
    cfg: Config,
    r: Option<u32>,
)
    requires
        is_rectangular(rows),
        cfg.min_run_before_turn == 1,
        cfg.max_run >= rows.len(),
        cfg.max_run >= rows[0].len(),
        answers(rows, cfg, r),
    ensures
        match r {
            Some(c) => is_shortest_walk(rows, c as int),
            None => forall|m: Seq<Direction>|
                stays_in_grid(rows, m) && position_after(m) == goal(rows) ==> route_cost(rows, m)
                    > cost_bound(),
        },
{
    assert forall|m: Seq<Direction>|
        stays_in_grid(rows, m) && position_after(m) == goal(rows) && route_cost(rows, m)
            <= cost_bound() implies r is Some && r->0 <= route_cost(rows, m) by {
        let route = lemma_walk_to_route(rows, cfg, m);
        if route.len() > 0 {
            lemma_route_state(rows, cfg, route);
        }
        assert(completes(rows, cfg, route));
    }
    if r is Some {
        let c = r->0;
        let best = choose|m: Seq<Direction>| completes(rows, cfg, m) && route_cost(rows, m) == c;
        lemma_legal_is_walk(rows, cfg, best);
        assert forall|m: Seq<Direction>|
            stays_in_grid(rows, m) && position_after(m) == goal(rows) implies c <= route_cost(
            rows,
            m,
        ) by {
            if route_cost(rows, m) > cost_bound() {
            }
        }
    }
}

} // verus!
