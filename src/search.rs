//! Uniform-cost search over augmented states (cell, direction, run length).
//!
//! The driver always expands the cheapest frontier entry and stops at the
//! first goal state with a long enough run that it takes out. Its
//! correctness rests on three facts: every recorded best cost is the cost of
//! some legal route ending in that state; every recorded state is either
//! queued at its recorded cost or expanded, with all its successors relaxed;
//! and no goal state has been expanded before the search stops. A route
//! cheaper than the cheapest queued entry would then end in an expanded goal
//! state, so the first goal state taken out is optimal; when the frontier
//! runs dry, every legal route ends in a recorded state no dearer than it.

use vstd::prelude::*;
use crate::grid::{cell_cost, in_grid, is_rectangular, Grid};
use crate::index::{lemma_mix_bound, lemma_mix_inj};
use crate::movement::{
    can_move, completes, step_from, ends_in, final_run, goal, is_min_cost, lemma_extend, lemma_first_move,
    lemma_route_cost_nonneg, lemma_route_state, legal_route, move_allowed, position_after,
    route_cost, AugmentedState, Config, Direction,
};

verus! {

/// Why a search was refused before it began.
#[derive(PartialEq, Eq, Structural, Clone, Copy, Debug)]
pub enum SearchError {
    /// `min_run_before_turn` is 0 or larger than `max_run`.
    InvalidConfiguration,
}

/// Largest cost the search records; routes dearer than this are not followed.
pub open spec fn cost_bound() -> int {
    u32::MAX as int
}

/// Longest run a state can carry: `max_run`, or the grid's longer side,
/// which no straight run inside the grid can reach.
pub open spec fn run_cap(w: int, h: int, cfg: Config) -> int {
    let dim = if w > h {
        w
    } else {
        h
    };
    if cfg.max_run < dim {
        cfg.max_run as int
    } else {
        dim
    }
}

/// Number of augmented states of a grid under a configuration.
pub open spec fn state_count(rows: Seq<Seq<u32>>, cfg: Config) -> int {
    rows.len() * rows[0].len() * 4 * run_cap(rows[0].len() as int, rows.len() as int, cfg)
}

/// Whether the best-cost table of a search fits in memory indices.
pub open spec fn state_space_fits(rows: Seq<Seq<u32>>, cfg: Config) -> bool {
    state_count(rows, cfg) <= usize::MAX
}

/// The search is answered: `Some(c)` with `c` the least cost of a completing
/// route, or `None` when every completing route costs more than `u32::MAX`.
pub open spec fn answers(rows: Seq<Seq<u32>>, cfg: Config, r: Option<u32>) -> bool {
    match r {
        Some(c) => is_min_cost(rows, cfg, c as int),
        None => forall|m: Seq<Direction>|
            completes(rows, cfg, m) ==> route_cost(rows, m) > cost_bound(),
    }
}

/// The grid's sides fit in `usize`.
pub open spec fn sized(rows: Seq<Seq<u32>>) -> bool {
    rows.len() <= usize::MAX && rows[0].len() <= usize::MAX
}

/// A state that can be indexed in a grid of `w` by `h` with runs up to `cap`.
pub open spec fn valid_state(w: int, h: int, cap: int, s: AugmentedState) -> bool {
    &&& s.x < w
    &&& s.y < h
    &&& 1 <= s.run <= cap
}

/// Position of a state in the best-cost table.
pub open spec fn idx(w: int, cap: int, s: AugmentedState) -> int {
    ((s.y * w + s.x) * 4 + s.dir.ordinal()) * cap + (s.run - 1)
}

/// The state after the first move of a route.
pub open spec fn seed(m: Direction) -> AugmentedState {
    AugmentedState { x: m.dx() as usize, y: m.dy() as usize, dir: m, run: 1 }
}

/// The state after one more move `m` from `s`.
pub open spec fn succ(s: AugmentedState, m: Direction) -> AugmentedState {
    AugmentedState {
        x: (s.x + m.dx()) as usize,
        y: (s.y + m.dy()) as usize,
        dir: m,
        run: (if m == s.dir {
            s.run + 1
        } else {
            1
        }) as u32,
    }
}

/// The state a non-empty route ends in, as a value.
pub open spec fn end_state(moves: Seq<Direction>) -> AugmentedState {
    AugmentedState {
        x: position_after(moves).0 as usize,
        y: position_after(moves).1 as usize,
        dir: moves.last(),
        run: final_run(moves) as u32,
    }
}

/// Entry `i` of the table holds a cost of at most `bound`.
pub open spec fn reached_within(best: Seq<Option<u32>>, i: int, bound: int) -> bool {
    0 <= i < best.len() && best[i] is Some && best[i]->0 <= bound
}

/// `c` improves on a table entry.
pub open spec fn better(c: u32, old: Option<u32>) -> bool {
    match old {
        None => true,
        Some(e) => c < e,
    }
}

/// A record of a state reached and the cost of reaching it.
#[derive(PartialEq, Eq, Structural, Clone, Copy, Debug)]
pub struct FrontierEntry {
    pub state: AugmentedState,
    pub cost: u32,
}

/// Every recorded cost belongs to a legal route, kept in `wit`.
pub open spec fn recorded(
    rows: Seq<Seq<u32>>,
    cfg: Config,
    cap: int,
    best: Seq<Option<u32>>,
    wit: Map<AugmentedState, Seq<Direction>>,
) -> bool {
    let w = rows[0].len() as int;
    let h = rows.len() as int;
    forall|s: AugmentedState|
        valid_state(w, h, cap, s) && (#[trigger] best[idx(w, cap, s)]) is Some ==> {
            &&& wit.contains_key(s)
            &&& legal_route(rows, cfg, wit[s])
            &&& ends_in(wit[s], s)
            &&& route_cost(rows, wit[s]) == best[idx(w, cap, s)]->0
        }
}

/// Every successor of `s` reached at cost `c` is recorded at no more than
/// that cost, unless that cost passes the bound.
pub open spec fn settled(
    rows: Seq<Seq<u32>>,
    cfg: Config,
    cap: int,
    best: Seq<Option<u32>>,
    s: AugmentedState,
    c: int,
    upto: int,
) -> bool {
    let w = rows[0].len() as int;
    forall|m: Direction|
        #![trigger succ(s, m)]
        m.ordinal() < upto && move_allowed(cfg, s.dir, s.run as int, m) && in_grid(
            rows,
            s.x + m.dx(),
            s.y + m.dy(),
        ) && c + cell_cost(rows, s.x + m.dx(), s.y + m.dy()) <= cost_bound() ==> reached_within(
            best,
            idx(w, cap, succ(s, m)),
            c + cell_cost(rows, s.x + m.dx(), s.y + m.dy()),
        )
}

/// Entry `(s, c)` waits in the frontier.
pub open spec fn pending(frontier: Seq<FrontierEntry>, s: AugmentedState, c: int) -> bool {
    exists|i: int| 0 <= i < frontier.len() && frontier[i].state == s && frontier[i].cost == c
}

/// Each recorded state, other than `skip` when `skipping`, is in the frontier
/// at its recorded cost or has been settled.
pub open spec fn pending_or_settled(
    rows: Seq<Seq<u32>>,
    cfg: Config,
    cap: int,
    best: Seq<Option<u32>>,
    frontier: Seq<FrontierEntry>,
    skipping: bool,
    skip: AugmentedState,
) -> bool {
    let w = rows[0].len() as int;
    let h = rows.len() as int;
    forall|s: AugmentedState|
        valid_state(w, h, cap, s) && (#[trigger] best[idx(w, cap, s)]) is Some && !(skipping && s
            == skip) ==> pending(frontier, s, best[idx(w, cap, s)]->0 as int) || settled(
            rows,
            cfg,
            cap,
            best,
            s,
            best[idx(w, cap, s)]->0 as int,
            4,
        )
}

/// Every first move among the first `upto` directions is recorded at no more than its cost.
pub open spec fn seeded(rows: Seq<Seq<u32>>, cap: int, best: Seq<Option<u32>>, upto: int) -> bool {
    let w = rows[0].len() as int;
    forall|m: Direction|
        #![trigger seed(m)]
        m.ordinal() < upto && in_grid(rows, m.dx(), m.dy()) && cell_cost(rows, m.dx(), m.dy()) <= cost_bound()
            ==> reached_within(best, idx(w, cap, seed(m)), cell_cost(rows, m.dx(), m.dy()))
}

/// Every frontier entry names an indexable state.
pub open spec fn frontier_ok(w: int, h: int, cap: int, frontier: Seq<FrontierEntry>) -> bool {
    forall|i: int| 0 <= i < frontier.len() ==> valid_state(w, h, cap, #[trigger] frontier[i].state)
}

/// Weight of a table entry in the termination measure.
pub open spec fn weight(o: Option<u32>) -> nat {
    match o {
        None => 0x1_0000_0000nat,
        Some(c) => c as nat,
    }
}

/// Sum of the weights of a table: it drops with every improvement.
pub open spec fn potential(best: Seq<Option<u32>>) -> nat
    decreases best.len(),
{
    if best.len() == 0 {
        0
    } else {
        potential(best.drop_last()) + weight(best.last())
    }
}

proof fn lemma_potential_update(best: Seq<Option<u32>>, i: int, v: Option<u32>)
    requires
        0 <= i < best.len(),
        weight(v) < weight(best[i]),
    ensures
        potential(best.update(i, v)) < potential(best),
    decreases best.len(),
{
    let b2 = best.update(i, v);
    if i == best.len() - 1 {
        assert(b2.drop_last() =~= best.drop_last());
    } else {
        lemma_potential_update(best.drop_last(), i, v);
        assert(b2.drop_last() =~= best.drop_last().update(i, v));
    }
}

/// Valid states have table positions below the state count.
proof fn lemma_idx_bound(w: int, h: int, cap: int, s: AugmentedState)
    requires
        valid_state(w, h, cap, s),
    ensures
        0 <= idx(w, cap, s) < h * w * 4 * cap,
{
    lemma_mix_bound(s.y as int, s.x as int, h, w);
    lemma_mix_bound(s.y * w + s.x, s.dir.ordinal(), h * w, 4);
    lemma_mix_bound((s.y * w + s.x) * 4 + s.dir.ordinal(), s.run - 1, h * w * 4, cap);
}

/// Distinct valid states have distinct table positions.
proof fn lemma_idx_inj(w: int, h: int, cap: int, s: AugmentedState, t: AugmentedState)
    requires
        valid_state(w, h, cap, s),
        valid_state(w, h, cap, t),
        idx(w, cap, s) == idx(w, cap, t),
    ensures
        s == t,
{
    lemma_mix_bound(s.y as int, s.x as int, h, w);
    lemma_mix_bound(t.y as int, t.x as int, h, w);
    lemma_mix_bound(s.y * w + s.x, s.dir.ordinal(), h * w, 4);
    lemma_mix_bound(t.y * w + t.x, t.dir.ordinal(), h * w, 4);
    lemma_mix_inj(
        (s.y * w + s.x) * 4 + s.dir.ordinal(),
        s.run - 1,
        (t.y * w + t.x) * 4 + t.dir.ordinal(),
        t.run - 1,
        cap,
    );
    lemma_mix_inj(s.y * w + s.x, s.dir.ordinal(), t.y * w + t.x, t.dir.ordinal(), 4);
    lemma_mix_inj(s.y as int, s.x as int, t.y as int, t.x as int, w);
}

/// The state a legal route ends in is valid and is what `end_state` names.
proof fn lemma_end_state(rows: Seq<Seq<u32>>, cfg: Config, moves: Seq<Direction>)
    requires
        is_rectangular(rows),
        sized(rows),
        cfg.valid(),
        legal_route(rows, cfg, moves),
        moves.len() > 0,
    ensures
        valid_state(
            rows[0].len() as int,
            rows.len() as int,
            run_cap(rows[0].len() as int, rows.len() as int, cfg),
            end_state(moves),
        ),
        ends_in(moves, end_state(moves)),
{
    lemma_route_state(rows, cfg, moves);
    let p = position_after(moves);
    let r = final_run(moves);
    let m = moves.last();
    let w = rows[0].len() as int;
    let h = rows.len() as int;
    let dx = m.dx();
    let dy = m.dy();
    assert(rows[p.1].len() == w);
    assert(-1 <= dx <= 1 && -1 <= dy <= 1);
    assert(r * dx == 0 || r * dx == r || r * dx == -r) by (nonlinear_arith)
        requires
            dx == 0 || dx == 1 || dx == -1,
    ;
    assert(r * dy == 0 || r * dy == r || r * dy == -r) by (nonlinear_arith)
        requires
            dy == 0 || dy == 1 || dy == -1,
    ;
    assert(dx == 0 ==> r * dx == 0) by (nonlinear_arith);
    assert(dy == 0 ==> r * dy == 0) by (nonlinear_arith);
    assert(dx == 1 ==> r * dx == r) by (nonlinear_arith);
    assert(dy == 1 ==> r * dy == r) by (nonlinear_arith);
    assert(dx == -1 ==> r * dx == -r) by (nonlinear_arith);
    assert(dy == -1 ==> r * dy == -r) by (nonlinear_arith);
    assert(rows[p.1 - r * m.dy()].len() == w);
}

/// Once every recorded state is settled and every first move seeded, each
/// legal route within the bound ends in a state recorded at no more than
/// its cost.
proof fn lemma_reach(
    rows: Seq<Seq<u32>>,
    cfg: Config,
    best: Seq<Option<u32>>,
    wit: Map<AugmentedState, Seq<Direction>>,
    moves: Seq<Direction>,
)
    requires
        is_rectangular(rows),
        sized(rows),
        cfg.valid(),
        best.len() == state_count(rows, cfg),
        recorded(
            rows,
            cfg,
            run_cap(rows[0].len() as int, rows.len() as int, cfg),
            best,
            wit,
        ),
        pending_or_settled(
            rows,
            cfg,
            run_cap(rows[0].len() as int, rows.len() as int, cfg),
            best,
            Seq::empty(),
            false,
            seed(Direction::North),
        ),
        seeded(rows, run_cap(rows[0].len() as int, rows.len() as int, cfg), best, 4),
        legal_route(rows, cfg, moves),
        moves.len() > 0,
        route_cost(rows, moves) <= cost_bound(),
    ensures
        reached_within(
            best,
            idx(
                rows[0].len() as int,
                run_cap(rows[0].len() as int, rows.len() as int, cfg),
                end_state(moves),
            ),
            route_cost(rows, moves),
        ),
    decreases moves.len(),
{
    let w = rows[0].len() as int;
    let h = rows.len() as int;
    let cap = run_cap(w, h, cfg);
    let prev = moves.drop_last();
    let m = moves.last();
    lemma_end_state(rows, cfg, moves);
    if prev.len() == 0 {
        assert(position_after(prev) == (0int, 0int));
        assert(final_run(moves) == 1);
        assert(end_state(moves) == seed(m));
        assert(route_cost(rows, prev) == 0);
    } else {
        lemma_route_cost_nonneg(rows, moves);
        lemma_reach(rows, cfg, best, wit, prev);
        lemma_end_state(rows, cfg, prev);
        let s = end_state(prev);
        let c = best[idx(w, cap, s)]->0 as int;
        assert(moves[moves.len() - 2] == prev.last());
        assert(!pending(Seq::<FrontierEntry>::empty(), s, c));
        assert(settled(rows, cfg, cap, best, s, c, 4));
        assert(succ(s, m) == end_state(moves));
    }
}

/// Every entry recorded in `a` is recorded in `b` at no greater cost.
pub open spec fn improves(a: Seq<Option<u32>>, b: Seq<Option<u32>>) -> bool {
    &&& a.len() == b.len()
    &&& forall|j: int|
        0 <= j < a.len() && (#[trigger] a[j]) is Some ==> b[j] is Some && b[j]->0 <= a[j]->0
}

proof fn lemma_settled_mono(
    rows: Seq<Seq<u32>>,
    cfg: Config,
    cap: int,
    a: Seq<Option<u32>>,
    b: Seq<Option<u32>>,
    s: AugmentedState,
    c: int,
    upto: int,
)
    requires
        is_rectangular(rows),
        sized(rows),
        cfg.valid(),
        cap == run_cap(rows[0].len() as int, rows.len() as int, cfg),
        a.len() == state_count(rows, cfg),
        improves(a, b),
        settled(rows, cfg, cap, a, s, c, upto),
        valid_state(rows[0].len() as int, rows.len() as int, cap, s),
    ensures
        settled(rows, cfg, cap, b, s, c, upto),
{
    let w = rows[0].len() as int;
    assert forall|m: Direction|
        m.ordinal() < upto && move_allowed(cfg, s.dir, s.run as int, m) && in_grid(
            rows,
            s.x + m.dx(),
            s.y + m.dy(),
        ) && c + cell_cost(rows, s.x + m.dx(), s.y + m.dy()) <= cost_bound() implies reached_within(
            b,
            idx(w, cap, #[trigger] succ(s, m)),
            c + cell_cost(rows, s.x + m.dx(), s.y + m.dy()),
        ) by {
        let j = idx(w, cap, succ(s, m));
        assert(reached_within(a, j, c + cell_cost(rows, s.x + m.dx(), s.y + m.dy())));
        assert(a[j] is Some);
    }
}

/// A state's successor stays in the grid and carries an indexable run.
proof fn lemma_succ_valid(
    rows: Seq<Seq<u32>>,
    cfg: Config,
    route: Seq<Direction>,
    s: AugmentedState,
    m: Direction,
)
    requires
        is_rectangular(rows),
        sized(rows),
        cfg.valid(),
        legal_route(rows, cfg, route),
        ends_in(route, s),
        move_allowed(cfg, s.dir, s.run as int, m),
        in_grid(rows, s.x + m.dx(), s.y + m.dy()),
    ensures
        legal_route(rows, cfg, route.push(m)),
        ends_in(route.push(m), succ(s, m)),
        route_cost(rows, route.push(m)) == route_cost(rows, route) + cell_cost(
            rows,
            s.x + m.dx(),
            s.y + m.dy(),
        ),
        valid_state(
            rows[0].len() as int,
            rows.len() as int,
            run_cap(rows[0].len() as int, rows.len() as int, cfg),
            succ(s, m),
        ),
        end_state(route.push(m)) == succ(s, m),
{
    lemma_extend(rows, cfg, route, m);
    lemma_end_state(rows, cfg, route.push(m));
    assert(route.push(m).last() == m);
}

/// Recording a cheaper cost for `v`, reached by route `rt`, keeps every
/// recorded cost backed by a route.
proof fn lemma_improve_recorded(
    rows: Seq<Seq<u32>>,
    cfg: Config,
    cap: int,
    best: Seq<Option<u32>>,
    wit: Map<AugmentedState, Seq<Direction>>,
    v: AugmentedState,
    cand: u32,
    rt: Seq<Direction>,
)
    requires
        is_rectangular(rows),
        sized(rows),
        cfg.valid(),
        cap == run_cap(rows[0].len() as int, rows.len() as int, cfg),
        best.len() == state_count(rows, cfg),
        valid_state(rows[0].len() as int, rows.len() as int, cap, v),
        recorded(rows, cfg, cap, best, wit),
        legal_route(rows, cfg, rt),
        ends_in(rt, v),
        route_cost(rows, rt) == cand,
    ensures
        recorded(
            rows,
            cfg,
            cap,
            best.update(idx(rows[0].len() as int, cap, v), Some(cand)),
            wit.insert(v, rt),
        ),
{
    let w = rows[0].len() as int;
    let h = rows.len() as int;
    let vi = idx(w, cap, v);
    let b2 = best.update(vi, Some(cand));
    let w2 = wit.insert(v, rt);
    lemma_idx_bound(w, h, cap, v);
    assert forall|s: AugmentedState|
        valid_state(w, h, cap, s) && (#[trigger] b2[idx(w, cap, s)]) is Some implies {
            &&& w2.contains_key(s)
            &&& legal_route(rows, cfg, w2[s])
            &&& ends_in(w2[s], s)
            &&& route_cost(rows, w2[s]) == b2[idx(w, cap, s)]->0
        } by {
        lemma_idx_bound(w, h, cap, s);
        if s != v {
            if idx(w, cap, s) == vi {
                lemma_idx_inj(w, h, cap, s, v);
            }
            assert(b2[idx(w, cap, s)] == best[idx(w, cap, s)]);
        }
    }
}

/// Recording a cheaper cost for `v` and queueing it keeps every other
/// recorded state queued or settled, and `v` queued.
proof fn lemma_improve_pending(
    rows: Seq<Seq<u32>>,
    cfg: Config,
    cap: int,
    best: Seq<Option<u32>>,
    frontier: Seq<FrontierEntry>,
    skipping: bool,
    skip: AugmentedState,
    v: AugmentedState,
    cand: u32,
)
    requires
        is_rectangular(rows),
        sized(rows),
        cfg.valid(),
        cap == run_cap(rows[0].len() as int, rows.len() as int, cfg),
        best.len() == state_count(rows, cfg),
        valid_state(rows[0].len() as int, rows.len() as int, cap, v),
        better(cand, best[idx(rows[0].len() as int, cap, v)]),
        pending_or_settled(rows, cfg, cap, best, frontier, skipping, skip),
    ensures
        improves(best, best.update(idx(rows[0].len() as int, cap, v), Some(cand))),
        pending_or_settled(
            rows,
            cfg,
            cap,
            best.update(idx(rows[0].len() as int, cap, v), Some(cand)),
            frontier.push(FrontierEntry { state: v, cost: cand }),
            skipping,
            skip,
        ),
{
    let w = rows[0].len() as int;
    let h = rows.len() as int;
    let vi = idx(w, cap, v);
    let b2 = best.update(vi, Some(cand));
    let f2 = frontier.push(FrontierEntry { state: v, cost: cand });
    lemma_idx_bound(w, h, cap, v);
    assert(improves(best, b2));
    assert forall|s: AugmentedState|
        valid_state(w, h, cap, s) && (#[trigger] b2[idx(w, cap, s)]) is Some && !(skipping && s
            == skip) implies pending(f2, s, b2[idx(w, cap, s)]->0 as int) || settled(
            rows,
            cfg,
            cap,
            b2,
            s,
            b2[idx(w, cap, s)]->0 as int,
            4,
        ) by {
        lemma_idx_bound(w, h, cap, s);
        if s == v {
            assert(f2[frontier.len() as int] == FrontierEntry { state: v, cost: cand });
        } else {
            if idx(w, cap, s) == vi {
                lemma_idx_inj(w, h, cap, s, v);
            }
            let c = best[idx(w, cap, s)]->0 as int;
            assert(b2[idx(w, cap, s)] == best[idx(w, cap, s)]);
            if pending(frontier, s, c) {
                let i = choose|i: int|
                    0 <= i < frontier.len() && frontier[i].state == s && frontier[i].cost == c;
                assert(f2[i] == frontier[i]);
            } else {
                lemma_settled_mono(rows, cfg, cap, best, b2, s, c, 4);
            }
        }
    }
}

/// The first-move bounds survive an improvement.
proof fn lemma_seeded_mono(
    rows: Seq<Seq<u32>>,
    cfg: Config,
    cap: int,
    a: Seq<Option<u32>>,
    b: Seq<Option<u32>>,
    upto: int,
)
    requires
        is_rectangular(rows),
        sized(rows),
        cfg.valid(),
        cap == run_cap(rows[0].len() as int, rows.len() as int, cfg),
        a.len() == state_count(rows, cfg),
        improves(a, b),
        seeded(rows, cap, a, upto),
    ensures
        seeded(rows, cap, b, upto),
{
    let w = rows[0].len() as int;
    assert forall|m: Direction|
        m.ordinal() < upto && in_grid(rows, m.dx(), m.dy()) && cell_cost(rows, m.dx(), m.dy())
            <= cost_bound() implies reached_within(
            b,
            idx(w, cap, #[trigger] seed(m)),
            cell_cost(rows, m.dx(), m.dy()),
        ) by {
        let j = idx(w, cap, seed(m));
        assert(reached_within(a, j, cell_cost(rows, m.dx(), m.dy())));
    }
}

/// Table position of `s`, computed.
fn state_index(w: usize, h: usize, cap: u32, s: AugmentedState) -> (r: usize)
    requires
        valid_state(w as int, h as int, cap as int, s),
        h * w * 4 * cap <= usize::MAX,
    ensures
        r as int == idx(w as int, cap as int, s),
        r < h * w * 4 * cap,
{
    proof {
        lemma_idx_bound(w as int, h as int, cap as int, s);
        lemma_mix_bound(s.y as int, s.x as int, h as int, w as int);
        lemma_mix_bound(s.y * w + s.x, s.dir.ordinal(), h * w, 4);
        assert(h * w * 4 <= h * w * 4 * cap) by (nonlinear_arith)
            requires
                cap >= 1,
                h * w * 4 >= 0,
        ;
        assert(0 <= s.y * w <= s.y * w + s.x);
        assert(((s.y * w + s.x) * 4 + s.dir.ordinal()) * cap <= idx(w as int, cap as int, s));
        assert((s.y * w + s.x) * 4 + s.dir.ordinal() >= 0);
        assert(0 <= ((s.y * w + s.x) * 4 + s.dir.ordinal()) * cap) by (nonlinear_arith)
            requires
                (s.y * w + s.x) * 4 + s.dir.ordinal() >= 0,
                cap >= 0,
        ;
    }
    let a = s.y * w + s.x;
    let b = a * 4 + s.dir.to_ordinal();
    b * (cap as usize) + (s.run as usize - 1)
}

/// Records `cost` for the state at `i` and queues it, when it improves on
/// the table.
fn relax(
    best: &mut Vec<Option<u32>>,
    frontier: &mut Vec<FrontierEntry>,
    i: usize,
    s: AugmentedState,
    cost: u32,
) -> (improved: bool)
    requires
        i < old(best)@.len(),
    ensures
        improved == better(cost, old(best)@[i as int]),
        improved ==> final(best)@ == old(best)@.update(i as int, Some(cost)) && final(frontier)@
            == old(frontier)@.push(FrontierEntry { state: s, cost }),
        !improved ==> final(best)@ == old(best)@ && final(frontier)@ == old(frontier)@,
{
    let improved = match best[i] {
        None => true,
        Some(e) => cost < e,
    };
    if improved {
        best.set(i, Some(cost));
        frontier.push(FrontierEntry { state: s, cost });
    }
    improved
}

/// Takes out a frontier entry of least cost.
fn pop_cheapest(frontier: &mut Vec<FrontierEntry>) -> (r: (FrontierEntry, Ghost<int>))
    requires
        old(frontier)@.len() > 0,
    ensures
        0 <= r.1@ < old(frontier)@.len(),
        r.0 == old(frontier)@[r.1@],
        final(frontier)@ == old(frontier)@.update(r.1@, old(frontier)@.last()).drop_last(),
        forall|j: int| 0 <= j < old(frontier)@.len() ==> r.0.cost <= #[trigger] old(frontier)@[j].cost,
{
    let mut k: usize = 0;
    let mut i: usize = 1;
    while i < frontier.len()
        invariant
            frontier@ == old(frontier)@,
            0 <= k < i <= frontier@.len(),
            forall|j: int| 0 <= j < i ==> frontier@[k as int].cost <= #[trigger] frontier@[j].cost,
        decreases frontier@.len() - i,
    {
        if frontier[i].cost < frontier[k].cost {
            k = i;
        }
        i = i + 1;
    }
    let e = frontier.swap_remove(k);
    (e, Ghost(k as int))
}

/// Popping one entry keeps every other queued (state, cost) pair queued.
proof fn lemma_pop_keeps(
    old_f: Seq<FrontierEntry>,
    new_f: Seq<FrontierEntry>,
    i: int,
    s: AugmentedState,
    c: int,
)
    requires
        0 <= i < old_f.len(),
        new_f == old_f.update(i, old_f.last()).drop_last(),
        pending(old_f, s, c),
        !(old_f[i].state == s && old_f[i].cost == c),
    ensures
        pending(new_f, s, c),
{
    let j = choose|j: int| 0 <= j < old_f.len() && old_f[j].state == s && old_f[j].cost == c;
    if j == old_f.len() - 1 {
        assert(new_f[i] == old_f[j]);
    } else {
        assert(new_f[j] == old_f[j]);
    }
}

/// A state on the goal cell whose run is long enough to stop.
pub open spec fn acceptable_goal(w: int, h: int, cfg: Config, s: AugmentedState) -> bool {
    s.x == w - 1 && s.y == h - 1 && s.run >= cfg.min_run_before_turn
}

/// Each recorded state, other than `skip` when `skipping`, is in the frontier
/// at its recorded cost or has been expanded.
pub open spec fn pending_or_done(
    rows: Seq<Seq<u32>>,
    cap: int,
    best: Seq<Option<u32>>,
    frontier: Seq<FrontierEntry>,
    done: Set<AugmentedState>,
    skipping: bool,
    skip: AugmentedState,
) -> bool {
    let w = rows[0].len() as int;
    let h = rows.len() as int;
    forall|s: AugmentedState|
        valid_state(w, h, cap, s) && (#[trigger] best[idx(w, cap, s)]) is Some && !(skipping && s
            == skip) ==> pending(frontier, s, best[idx(w, cap, s)]->0 as int) || done.contains(s)
}

/// No expanded state is an acceptable goal state.
pub open spec fn no_goal_done(w: int, h: int, cfg: Config, done: Set<AugmentedState>) -> bool {
    forall|s: AugmentedState| #[trigger] done.contains(s) ==> !acceptable_goal(w, h, cfg, s)
}

/// Recording a cheaper cost for `v` and queueing it keeps every recorded
/// state queued or expanded.
proof fn lemma_improve_done(
    rows: Seq<Seq<u32>>,
    cfg: Config,
    cap: int,
    best: Seq<Option<u32>>,
    frontier: Seq<FrontierEntry>,
    done: Set<AugmentedState>,
    skip: AugmentedState,
    v: AugmentedState,
    cand: u32,
)
    requires
        is_rectangular(rows),
        sized(rows),
        cfg.valid(),
        cap == run_cap(rows[0].len() as int, rows.len() as int, cfg),
        best.len() == state_count(rows, cfg),
        valid_state(rows[0].len() as int, rows.len() as int, cap, v),
        pending_or_done(rows, cap, best, frontier, done, false, skip),
    ensures
        pending_or_done(
            rows,
            cap,
            best.update(idx(rows[0].len() as int, cap, v), Some(cand)),
            frontier.push(FrontierEntry { state: v, cost: cand }),
            done,
            false,
            skip,
        ),
{
    let w = rows[0].len() as int;
    let h = rows.len() as int;
    let vi = idx(w, cap, v);
    let b2 = best.update(vi, Some(cand));
    let f2 = frontier.push(FrontierEntry { state: v, cost: cand });
    lemma_idx_bound(w, h, cap, v);
    assert forall|s: AugmentedState|
        valid_state(w, h, cap, s) && (#[trigger] b2[idx(w, cap, s)]) is Some implies pending(
            f2,
            s,
            b2[idx(w, cap, s)]->0 as int,
        ) || done.contains(s) by {
        lemma_idx_bound(w, h, cap, s);
        if s == v {
            assert(f2[frontier.len() as int] == FrontierEntry { state: v, cost: cand });
        } else {
            if idx(w, cap, s) == vi {
                lemma_idx_inj(w, h, cap, s, v);
            }
            let c = best[idx(w, cap, s)]->0 as int;
            assert(b2[idx(w, cap, s)] == best[idx(w, cap, s)]);
            if pending(frontier, s, c) {
                let i = choose|i: int|
                    0 <= i < frontier.len() && frontier[i].state == s && frontier[i].cost == c;
                assert(f2[i] == frontier[i]);
            }
        }
    }
}

/// While the cheapest frontier entry costs `c` and no acceptable goal state
/// has been expanded, every legal route dearer than nothing but cheaper than
/// `c` ends in an expanded state recorded at no more than its cost.
proof fn lemma_below_frontier(
    rows: Seq<Seq<u32>>,
    cfg: Config,
    best: Seq<Option<u32>>,
    frontier: Seq<FrontierEntry>,
    done: Set<AugmentedState>,
    cur: AugmentedState,
    c: int,
    moves: Seq<Direction>,
)
    requires
        is_rectangular(rows),
        sized(rows),
        cfg.valid(),
        best.len() == state_count(rows, cfg),
        pending_or_settled(
            rows,
            cfg,
            run_cap(rows[0].len() as int, rows.len() as int, cfg),
            best,
            frontier,
            true,
            cur,
        ),
        pending_or_done(
            rows,
            run_cap(rows[0].len() as int, rows.len() as int, cfg),
            best,
            frontier,
            done,
            true,
            cur,
        ),
        seeded(rows, run_cap(rows[0].len() as int, rows.len() as int, cfg), best, 4),
        best[idx(rows[0].len() as int, run_cap(rows[0].len() as int, rows.len() as int, cfg), cur)]
            == Some(c as u32),
        0 <= c <= cost_bound(),
        forall|i: int| 0 <= i < frontier.len() ==> c <= #[trigger] frontier[i].cost,
        legal_route(rows, cfg, moves),
        moves.len() > 0,
        route_cost(rows, moves) < c,
    ensures
        reached_within(
            best,
            idx(
                rows[0].len() as int,
                run_cap(rows[0].len() as int, rows.len() as int, cfg),
                end_state(moves),
            ),
            route_cost(rows, moves),
        ),
        done.contains(end_state(moves)),
    decreases moves.len(),
{
    let w = rows[0].len() as int;
    let h = rows.len() as int;
    let cap = run_cap(w, h, cfg);
    let prev = moves.drop_last();
    let m = moves.last();
    lemma_end_state(rows, cfg, moves);
    if prev.len() == 0 {
        assert(position_after(prev) == (0int, 0int));
        assert(final_run(moves) == 1);
        assert(end_state(moves) == seed(m));
        assert(route_cost(rows, prev) == 0);
    } else {
        lemma_route_cost_nonneg(rows, moves);
        lemma_below_frontier(rows, cfg, best, frontier, done, cur, c, prev);
        lemma_end_state(rows, cfg, prev);
        let s = end_state(prev);
        let bs = best[idx(w, cap, s)]->0 as int;
        assert(moves[moves.len() - 2] == prev.last());
        assert(s != cur);
        assert(!pending(frontier, s, bs)) by {
            if pending(frontier, s, bs) {
                let i = choose|i: int|
                    0 <= i < frontier.len() && frontier[i].state == s && frontier[i].cost == bs;
                assert(c <= frontier[i].cost);
            }
        }
        assert(settled(rows, cfg, cap, best, s, bs, 4));
        assert(succ(s, m) == end_state(moves));
    }
    let e = end_state(moves);
    let be = best[idx(w, cap, e)]->0 as int;
    assert(e != cur);
    assert(!pending(frontier, e, be)) by {
        if pending(frontier, e, be) {
            let i = choose|i: int|
                0 <= i < frontier.len() && frontier[i].state == e && frontier[i].cost == be;
            assert(c <= frontier[i].cost);
        }
    }
}

/// The first acceptable goal state taken from the frontier carries the
/// least cost of any completing route.
proof fn lemma_first_goal_is_min(
    rows: Seq<Seq<u32>>,
    cfg: Config,
    best: Seq<Option<u32>>,
    wit: Map<AugmentedState, Seq<Direction>>,
    frontier: Seq<FrontierEntry>,
    done: Set<AugmentedState>,
    cur: AugmentedState,
    c: u32,
)
    requires
        is_rectangular(rows),
        sized(rows),
        cfg.valid(),
        !(rows.len() == 1 && rows[0].len() == 1),
        best.len() == state_count(rows, cfg),
        recorded(rows, cfg, run_cap(rows[0].len() as int, rows.len() as int, cfg), best, wit),
        pending_or_settled(
            rows,
            cfg,
            run_cap(rows[0].len() as int, rows.len() as int, cfg),
            best,
            frontier,
            true,
            cur,
        ),
        pending_or_done(
            rows,
            run_cap(rows[0].len() as int, rows.len() as int, cfg),
            best,
            frontier,
            done,
            true,
            cur,
        ),
        no_goal_done(rows[0].len() as int, rows.len() as int, cfg, done),
        seeded(rows, run_cap(rows[0].len() as int, rows.len() as int, cfg), best, 4),
        valid_state(
            rows[0].len() as int,
            rows.len() as int,
            run_cap(rows[0].len() as int, rows.len() as int, cfg),
            cur,
        ),
        best[idx(rows[0].len() as int, run_cap(rows[0].len() as int, rows.len() as int, cfg), cur)]
            == Some(c),
        acceptable_goal(rows[0].len() as int, rows.len() as int, cfg, cur),
        forall|i: int| 0 <= i < frontier.len() ==> c <= #[trigger] frontier[i].cost,
    ensures
        answers(rows, cfg, Some(c)),
{
    let w = rows[0].len() as int;
    let h = rows.len() as int;
    let cap = run_cap(w, h, cfg);
    let route = wit[cur];
    assert(completes(rows, cfg, route));
    assert forall|m: Seq<Direction>| completes(rows, cfg, m) implies c <= route_cost(rows, m) by {
        if route_cost(rows, m) < c {
            if m.len() == 0 {
                assert(position_after(m) == (0int, 0int));
            } else {
                lemma_below_frontier(rows, cfg, best, frontier, done, cur, c as int, m);
                lemma_end_state(rows, cfg, m);
                assert(acceptable_goal(w, h, cfg, end_state(m)));
            }
        }
    }
}

/// Goal states with an acceptable run, scanned so far, are no cheaper than
/// the answer held.
pub open spec fn scan_bound(
    rows: Seq<Seq<u32>>,
    cfg: Config,
    cap: int,
    best: Seq<Option<u32>>,
    answer: Option<u32>,
    k: int,
    r: int,
) -> bool {
    let w = rows[0].len() as int;
    let h = rows.len() as int;
    forall|s: AugmentedState|
        valid_state(w, h, cap, s) && s.x == w - 1 && s.y == h - 1 && s.run
            >= cfg.min_run_before_turn && (s.dir.ordinal() < k || (s.dir.ordinal() == k && s.run
            < r)) && (#[trigger] best[idx(w, cap, s)]) is Some ==> answer is Some && answer->0
            <= best[idx(w, cap, s)]->0
}

/// The scan's answer is least over completing routes within the bound.
proof fn lemma_answer(
    rows: Seq<Seq<u32>>,
    cfg: Config,
    best: Seq<Option<u32>>,
    wit: Map<AugmentedState, Seq<Direction>>,
    answer: Option<u32>,
    ans_route: Seq<Direction>,
)
    requires
        is_rectangular(rows),
        sized(rows),
        cfg.valid(),
        best.len() == state_count(rows, cfg),
        recorded(
            rows,
            cfg,
            run_cap(rows[0].len() as int, rows.len() as int, cfg),
            best,
            wit,
        ),
        pending_or_settled(
            rows,
            cfg,
            run_cap(rows[0].len() as int, rows.len() as int, cfg),
            best,
            Seq::empty(),
            false,
            seed(Direction::North),
        ),
        seeded(rows, run_cap(rows[0].len() as int, rows.len() as int, cfg), best, 4),
        scan_bound(
            rows,
            cfg,
            run_cap(rows[0].len() as int, rows.len() as int, cfg),
            best,
            answer,
            4,
            0,
        ),
        rows.len() == 1 && rows[0].len() == 1 ==> answer is Some && answer->0 == 0,
        answer is Some ==> completes(rows, cfg, ans_route) && route_cost(rows, ans_route)
            == answer->0,
    ensures
        answers(rows, cfg, answer),
{
    let w = rows[0].len() as int;
    let h = rows.len() as int;
    let cap = run_cap(w, h, cfg);
    assert forall|m: Seq<Direction>|
        completes(rows, cfg, m) && route_cost(rows, m) <= cost_bound() implies answer is Some
        && answer->0 <= route_cost(rows, m) by {
        if m.len() == 0 {
            assert(position_after(m) == (0int, 0int));
        } else {
            lemma_reach(rows, cfg, best, wit, m);
            lemma_end_state(rows, cfg, m);
            let s = end_state(m);
            assert(best[idx(w, cap, s)] is Some);
        }
    }
    if answer is Some {
        assert forall|m: Seq<Direction>| completes(rows, cfg, m) implies answer->0 <= route_cost(
            rows,
            m,
        ) by {
            if route_cost(rows, m) > cost_bound() {
            }
        }
    }
}

/// Least cost of a route from the top-left cell to the bottom-right cell
/// whose runs respect `cfg`: `Ok(Some(c))` with `c` that least cost,
/// `Ok(None)` when no such route costs at most `u32::MAX`, and
/// `InvalidConfiguration` unless `1 <= min_run_before_turn <= max_run`.
#[verifier::rlimit(60)]
pub fn min_heat_loss(grid: &Grid, cfg: Config) -> (r: Result<Option<u32>, SearchError>)
    requires
        grid.wf(),
        state_space_fits(grid@, cfg),
    ensures
        match r {
            Ok(a) => cfg.valid() && answers(grid@, cfg, a),
            Err(e) => !cfg.valid() && e == SearchError::InvalidConfiguration,
        },
{
    if !cfg.is_valid() {
        return Err(SearchError::InvalidConfiguration);
    }
    let ghost rows = grid@;
    let w = grid.width();
    let h = grid.height();
    let dim = if w > h {
        w
    } else {
        h
    };
    let cap: u32 = if (cfg.max_run as usize) < dim {
        cfg.max_run
    } else {
        dim as u32
    };
    assert(cap == run_cap(w as int, h as int, cfg));
    proof {
        assert(h * w <= h * w * 4 * cap) by (nonlinear_arith)
            requires
                cap >= 1,
                h >= 1,
                w >= 1,
        ;
        assert(h * w * 4 <= h * w * 4 * cap) by (nonlinear_arith)
            requires
                cap >= 1,
                h >= 1,
                w >= 1,
        ;
    }
    let n: usize = h * w * 4 * (cap as usize);
    let mut best: Vec<Option<u32>> = Vec::new();
    let mut i: usize = 0;
    while i < n
        invariant
            best@.len() == i,
            i <= n,
            forall|j: int| 0 <= j < i ==> (#[trigger] best@[j]) is None,
        decreases n - i,
    {
        best.push(None);
        i = i + 1;
    }
    let mut frontier: Vec<FrontierEntry> = Vec::new();
    let ghost mut wit: Map<AugmentedState, Seq<Direction>> = Map::empty();
    let ghost nowhere = seed(Direction::North);
    let ghost mut done: Set<AugmentedState> = Set::empty();
    proof {
        assert forall|s: AugmentedState|
            valid_state(w as int, h as int, cap as int, s) implies (#[trigger] best@[idx(
                w as int,
                cap as int,
                s,
            )]) is None by {
            lemma_idx_bound(w as int, h as int, cap as int, s);
        }
    }
    let mut k: usize = 0;
    while k < 4
        invariant
            grid.wf(),
            rows == grid@,
            sized(rows),
            cfg.valid(),
            w == rows[0].len(),
            h == rows.len(),
            cap == run_cap(w as int, h as int, cfg),
            n == state_count(rows, cfg),
            n == h * w * 4 * cap,
            n <= usize::MAX,
            k <= 4,
            best@.len() == n,
            recorded(rows, cfg, cap as int, best@, wit),
            pending_or_settled(rows, cfg, cap as int, best@, frontier@, false, nowhere),
            pending_or_done(rows, cap as int, best@, frontier@, done, false, nowhere),
            no_goal_done(w as int, h as int, cfg, done),
            w == 1 && h == 1 ==> frontier@.len() == 0,
            seeded(rows, cap as int, best@, k as int),
            frontier_ok(w as int, h as int, cap as int, frontier@),
        decreases 4 - k,
    {
        let m = Direction::from_ordinal(k);
        if let Some(p) = step_from(0, 0, m, w, h) {
            let c = grid.cost(p.0, p.1);
            let v = AugmentedState { x: p.0, y: p.1, dir: m, run: 1 };
            let vi = state_index(w, h, cap, v);
            let ghost b0 = best@;
            let ghost f0 = frontier@;
            proof {
                assert(v == seed(m));
                lemma_first_move(rows, cfg, m);
            }
            let improved = relax(&mut best, &mut frontier, vi, v, c);
            proof {
                if improved {
                    lemma_improve_recorded(rows, cfg, cap as int, b0, wit, v, c, seq![m]);
                    lemma_improve_pending(rows, cfg, cap as int, b0, f0, false, nowhere, v, c);
                    lemma_improve_done(rows, cfg, cap as int, b0, f0, done, nowhere, v, c);
                    lemma_seeded_mono(rows, cfg, cap as int, b0, best@, k as int);
                    wit = wit.insert(v, seq![m]);
                }
                assert forall|i: int| 0 <= i < frontier@.len() implies valid_state(
                    w as int,
                    h as int,
                    cap as int,
                    #[trigger] frontier@[i].state,
                ) by {
                    if i < f0.len() {
                        assert(frontier@[i] == f0[i]);
                    }
                }
                assert(reached_within(best@, vi as int, c as int));
            }
        }
        k = k + 1;
    }
    while frontier.len() > 0
        invariant
            grid.wf(),
            rows == grid@,
            sized(rows),
            cfg.valid(),
            w == rows[0].len(),
            h == rows.len(),
            cap == run_cap(w as int, h as int, cfg),
            n == state_count(rows, cfg),
            n == h * w * 4 * cap,
            n <= usize::MAX,
            best@.len() == n,
            recorded(rows, cfg, cap as int, best@, wit),
            pending_or_settled(rows, cfg, cap as int, best@, frontier@, false, nowhere),
            pending_or_done(rows, cap as int, best@, frontier@, done, false, nowhere),
            no_goal_done(w as int, h as int, cfg, done),
            w == 1 && h == 1 ==> frontier@.len() == 0,
            seeded(rows, cap as int, best@, 4),
            frontier_ok(w as int, h as int, cap as int, frontier@),
        decreases potential(best@), frontier@.len(),
    {
        let ghost f_before = frontier@;
        let (e, Ghost(pi)) = pop_cheapest(&mut frontier);
        let cur = e.state;
        let c = e.cost;
        let ci = state_index(w, h, cap, cur);
        let fresh = match best[ci] {
            Some(b) => b == c,
            None => false,
        };
        proof {
            assert forall|s: AugmentedState|
                valid_state(w as int, h as int, cap as int, s) && (#[trigger] best@[idx(
                    w as int,
                    cap as int,
                    s,
                )]) is Some && !(fresh && s == cur) implies pending(
                frontier@,
                s,
                best@[idx(w as int, cap as int, s)]->0 as int,
            ) || settled(
                rows,
                cfg,
                cap as int,
                best@,
                s,
                best@[idx(w as int, cap as int, s)]->0 as int,
                4,
            ) by {
                let bc = best@[idx(w as int, cap as int, s)]->0 as int;
                if pending(f_before, s, bc) {
                    if f_before[pi].state == s && f_before[pi].cost == bc {
                        assert(s == cur);
                    } else {
                        lemma_pop_keeps(f_before, frontier@, pi, s, bc);
                    }
                }
            }
            assert forall|s: AugmentedState|
                valid_state(w as int, h as int, cap as int, s) && (#[trigger] best@[idx(
                    w as int,
                    cap as int,
                    s,
                )]) is Some && !(fresh && s == cur) implies pending(
                frontier@,
                s,
                best@[idx(w as int, cap as int, s)]->0 as int,
            ) || done.contains(s) by {
                let bc = best@[idx(w as int, cap as int, s)]->0 as int;
                if pending(f_before, s, bc) {
                    if f_before[pi].state == s && f_before[pi].cost == bc {
                        assert(s == cur);
                    } else {
                        lemma_pop_keeps(f_before, frontier@, pi, s, bc);
                    }
                }
            }
            assert forall|i: int| 0 <= i < frontier@.len() implies valid_state(
                w as int,
                h as int,
                cap as int,
                #[trigger] frontier@[i].state,
            ) && c <= frontier@[i].cost by {
                if i == pi {
                    assert(frontier@[i] == f_before.last());
                } else {
                    assert(frontier@[i] == f_before[i]);
                }
            }
        }
        if fresh && cur.x == w - 1 && cur.y == h - 1 && cur.run >= cfg.min_run_before_turn {
            proof {
                lemma_first_goal_is_min(rows, cfg, best@, wit, frontier@, done, cur, c);
            }
            return Ok(Some(c));
        }
        proof {
            if fresh {
                done = done.insert(cur);
            }
        }
        if fresh {
            let ghost start_potential = potential(best@);
            let ghost len0 = frontier@.len();
            let ghost route = wit[cur];
            let mut d: usize = 0;
            while d < 4
                invariant
                    grid.wf(),
                    rows == grid@,
                    sized(rows),
                    cfg.valid(),
                    w == rows[0].len(),
                    h == rows.len(),
                    cap == run_cap(w as int, h as int, cfg),
                    n == state_count(rows, cfg),
                    n == h * w * 4 * cap,
                    n <= usize::MAX,
                    d <= 4,
                    best@.len() == n,
                    valid_state(w as int, h as int, cap as int, cur),
                    ci == idx(w as int, cap as int, cur),
                    ci < n,
                    best@[ci as int] == Some(c),
                    legal_route(rows, cfg, route),
                    ends_in(route, cur),
                    route_cost(rows, route) == c,
                    recorded(rows, cfg, cap as int, best@, wit),
                    pending_or_settled(rows, cfg, cap as int, best@, frontier@, true, cur),
                    pending_or_done(rows, cap as int, best@, frontier@, done, false, nowhere),
                    no_goal_done(w as int, h as int, cfg, done),
                    !(w == 1 && h == 1),
                    settled(rows, cfg, cap as int, best@, cur, c as int, d as int),
                    seeded(rows, cap as int, best@, 4),
                    frontier_ok(w as int, h as int, cap as int, frontier@),
                    potential(best@) < start_potential || (potential(best@) == start_potential && frontier@.len() == len0),
                decreases 4 - d,
            {
                let m = Direction::from_ordinal(d);
                let ghost b0 = best@;
                let ghost f0 = frontier@;
                if can_move(cfg, cur.dir, cur.run, m) {
                    if let Some(p) = step_from(cur.x, cur.y, m, w, h) {
                        let cost = grid.cost(p.0, p.1);
                        if cost <= u32::MAX - c {
                            let cand = c + cost;
                            let nrun: u32 = if m == cur.dir {
                                cur.run + 1
                            } else {
                                1
                            };
                            let v = AugmentedState { x: p.0, y: p.1, dir: m, run: nrun };
                            proof {
                                lemma_succ_valid(rows, cfg, route, cur, m);
                                assert(v == succ(cur, m));
                                assert(m.dx() != 0 || m.dy() != 0);
                                assert(v != cur);
                            }
                            let vi = state_index(w, h, cap, v);
                            proof {
                                if vi == ci {
                                    lemma_idx_inj(w as int, h as int, cap as int, v, cur);
                                }
                            }
                            let improved = relax(&mut best, &mut frontier, vi, v, cand);
                            proof {
                                if improved {
                                    lemma_improve_recorded(
                                        rows,
                                        cfg,
                                        cap as int,
                                        b0,
                                        wit,
                                        v,
                                        cand,
                                        route.push(m),
                                    );
                                    lemma_improve_pending(
                                        rows,
                                        cfg,
                                        cap as int,
                                        b0,
                                        f0,
                                        true,
                                        cur,
                                        v,
                                        cand,
                                    );
                                    lemma_improve_done(
                                        rows,
                                        cfg,
                                        cap as int,
                                        b0,
                                        f0,
                                        done,
                                        nowhere,
                                        v,
                                        cand,
                                    );
                                    lemma_seeded_mono(rows, cfg, cap as int, b0, best@, 4);
                                    lemma_settled_mono(
                                        rows,
                                        cfg,
                                        cap as int,
                                        b0,
                                        best@,
                                        cur,
                                        c as int,
                                        d as int,
                                    );
                                    wit = wit.insert(v, route.push(m));
                                    lemma_potential_update(b0, vi as int, Some(cand));
                                    assert forall|i: int| 0 <= i < frontier@.len() implies valid_state(
                                        w as int,
                                        h as int,
                                        cap as int,
                                        #[trigger] frontier@[i].state,
                                    ) by {
                                        if i < f0.len() {
                                            assert(frontier@[i] == f0[i]);
                                        }
                                    }
                                }
                                assert(reached_within(best@, vi as int, cand as int));
                                if improved {
                                    assert(best@ == b0.update(vi as int, Some(cand)));
                                    assert(best@[ci as int] == b0[ci as int]);
                                }
                            }
                        }
                    }
                }
                d = d + 1;
            }
        }
    }
    let mut answer: Option<u32> = if w == 1 && h == 1 {
        Some(0)
    } else {
        None
    };
    let ghost mut ans_route: Seq<Direction> = Seq::empty();
    proof {
        if w == 1 && h == 1 {
            assert(position_after(ans_route) == (0int, 0int));
            assert(legal_route(rows, cfg, ans_route));
            assert(route_cost(rows, ans_route) == 0);
        }
    }
    let mut k: usize = 0;
    while k < 4
        invariant
            grid.wf(),
            rows == grid@,
            sized(rows),
            cfg.valid(),
            w == rows[0].len(),
            h == rows.len(),
            cap == run_cap(w as int, h as int, cfg),
            n == state_count(rows, cfg),
            n == h * w * 4 * cap,
            n <= usize::MAX,
            k <= 4,
            best@.len() == n,
            recorded(rows, cfg, cap as int, best@, wit),
            scan_bound(rows, cfg, cap as int, best@, answer, k as int, 0),
            w == 1 && h == 1 ==> answer is Some && answer->0 == 0,
            answer is Some ==> completes(rows, cfg, ans_route) && route_cost(rows, ans_route)
                == answer->0,
        decreases 4 - k,
    {
        let dir = Direction::from_ordinal(k);
        let mut r: u64 = cfg.min_run_before_turn as u64;
        while r <= cap as u64
            invariant
                grid.wf(),
                rows == grid@,
                sized(rows),
                cfg.valid(),
                w == rows[0].len(),
                h == rows.len(),
                cap == run_cap(w as int, h as int, cfg),
                n == state_count(rows, cfg),
                n == h * w * 4 * cap,
                n <= usize::MAX,
                k < 4,
                dir.ordinal() == k,
                cfg.min_run_before_turn <= r <= cfg.max_run as u64 + 1,
                best@.len() == n,
                recorded(rows, cfg, cap as int, best@, wit),
                scan_bound(rows, cfg, cap as int, best@, answer, k as int, r as int),
                w == 1 && h == 1 ==> answer is Some && answer->0 == 0,
                answer is Some ==> completes(rows, cfg, ans_route) && route_cost(rows, ans_route)
                    == answer->0,
            decreases cfg.max_run as u64 + 1 - r,
        {
            let s = AugmentedState { x: w - 1, y: h - 1, dir, run: r as u32 };
            let si = state_index(w, h, cap, s);
            if let Some(c) = best[si] {
                let take = match answer {
                    None => true,
                    Some(a) => c < a,
                };
                if take {
                    proof {
                        ans_route = wit[s];
                        assert(best@[idx(w as int, cap as int, s)] is Some);
                        if w == 1 && h == 1 {
                            lemma_route_cost_nonneg(rows, ans_route);
                        }
                    }
                    answer = Some(c);
                }
            }
            r = r + 1;
        }
        k = k + 1;
    }
    proof {
        lemma_answer(rows, cfg, best@, wit, answer, ans_route);
    }
    Ok(answer)
}

} // verus!
