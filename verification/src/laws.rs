use vstd::prelude::*;

use crate::course::{moves_to, pos_in_bounds, step_ok, trace_ok, SearchState};
use crate::engine::{
    goal_trace, is_goal, is_minimal_goal_cost, lemma_trace_cost_nonneg, no_goal_trace,
    search_success, trace_cost,
};
use crate::grid::{Grid, Limit, Position};

verus! {

/// A successful search outcome's cost is a minimal goal cost.
pub proof fn lemma_success_is_minimal(
    g: Grid,
    min_line: int,
    max_line: int,
    c: int,
    path: Seq<Position>,
)
    requires
        search_success(g, min_line, max_line, c, path),
    ensures
        is_minimal_goal_cost(g, min_line, max_line, c),
{
    let t = choose|t: Seq<SearchState>|
        #[trigger] goal_trace(g, min_line, max_line, t) && trace_cost(g, t) == c && path
            == t.map_values(|s: SearchState| s.pos);
    assert(goal_trace(g, min_line, max_line, t) && trace_cost(g, t) == c);
}

/// Determinism of the reported cost: the minimal goal cost of a given
/// grid and constraint pair is unique, so repeated queries on identical
/// input must report the same cost, whichever optimal path each one
/// reconstructs.
pub proof fn lemma_minimal_cost_unique(g: Grid, min_line: int, max_line: int, c1: int, c2: int)
    requires
        is_minimal_goal_cost(g, min_line, max_line, c1),
        is_minimal_goal_cost(g, min_line, max_line, c2),
    ensures
        c1 == c2,
{
    let t1 = choose|t: Seq<SearchState>|
        #[trigger] goal_trace(g, min_line, max_line, t) && trace_cost(g, t) == c1;
    let t2 = choose|t: Seq<SearchState>|
        #[trigger] goal_trace(g, min_line, max_line, t) && trace_cost(g, t) == c2;
    assert(trace_cost(g, t1) >= c2);
    assert(trace_cost(g, t2) >= c1);
}

/// The boundary case of a one-by-one grid, where the start cell is the
/// target: with `min_line` greater than one no route can satisfy the
/// stopped-after-a-run condition, and with `min_line` equal to one the
/// empty route succeeds at cost zero.
pub proof fn lemma_unit_grid(g: Grid, min_line: int, max_line: int)
    requires
        g.wf(),
        g.spec_width() == 1,
        g.spec_height() == 1,
        1 <= min_line <= max_line,
    ensures
        min_line > 1 ==> no_goal_trace(g, min_line, max_line),
        min_line == 1 ==> is_minimal_goal_cost(g, min_line, max_line, 0),
{
    assert forall|s1: SearchState, s2: SearchState| !(#[trigger] step_ok(
        1,
        1,
        min_line,
        max_line,
        s1,
        s2,
    )) by {
        if step_ok(1, 1, min_line, max_line, s1, s2) {
            assert(s1.pos.row == 0 && s1.pos.col == 0 && s2.pos.row == 0 && s2.pos.col == 0);
            assert(moves_to(s1.pos, s2.course.direction, s2.pos));
            assert(false);
        }
    }
    assert forall|t: Seq<SearchState>|
        #[trigger] trace_ok(1, 1, min_line, max_line, t) implies t.len() == 1 by {
        if t.len() >= 2 {
            assert(step_ok(1, 1, min_line, max_line, t[0], t[1]));
        }
    }
    if min_line > 1 {
        assert forall|t: Seq<SearchState>| !(#[trigger] goal_trace(g, min_line, max_line, t)) by {
            if goal_trace(g, min_line, max_line, t) {
                assert(t.len() == 1);
                assert(t[0].course.within_line == 1);
                assert(is_goal(1, 1, min_line, t[0]));
            }
        }
    }
    if min_line == 1 {
        let seed = SearchState {
            pos: Position { row: 0, col: 0 },
            course: crate::course::Course {
                direction: crate::course::Direction::Right,
                within_line: 1,
            },
        };
        let t0: Seq<SearchState> = seq![seed];
        assert(trace_ok(1, 1, min_line, max_line, t0));
        assert(goal_trace(g, min_line, max_line, t0) && trace_cost(g, t0) == 0);
        assert forall|t: Seq<SearchState>|
            #[trigger] goal_trace(g, min_line, max_line, t) implies trace_cost(g, t) >= 0 by {
            lemma_trace_cost_nonneg(g, t);
        }
    }
}

/// One grid step in any direction, with no course bookkeeping.
pub open spec fn adjacent(p1: Position, p2: Position) -> bool {
    ||| (p1.row == p2.row && (p1.col + 1 == p2.col || p2.col + 1 == p1.col))
    ||| (p1.col == p2.col && (p1.row + 1 == p2.row || p2.row + 1 == p1.row))
}

/// An ordinary grid walk: it starts at the top-left corner and each step
/// moves to an adjacent in-bounds cell, with no run-length rules at all.
pub open spec fn plain_route(g: Grid, ps: Seq<Position>) -> bool {
    &&& ps.len() >= 1
    &&& ps[0].row == 0 && ps[0].col == 0
    &&& forall|i: int|
        0 <= i < ps.len() ==> pos_in_bounds(g.spec_width(), g.spec_height(), #[trigger] ps[i])
    &&& forall|i: int| 1 <= i < ps.len() ==> adjacent(ps[i - 1], #[trigger] ps[i])
}

/// The cost of an ordinary walk: the entry costs of every cell after the
/// first.
pub open spec fn route_cost(g: Grid, ps: Seq<Position>) -> int
    decreases ps.len(),
{
    if ps.len() <= 1 {
        0
    } else {
        route_cost(g, ps.drop_last()) + g.cost_at(
            ps[ps.len() - 1].row as int,
            ps[ps.len() - 1].col as int,
        )
    }
}

/// Every legal constrained route is, cell for cell, an ordinary grid
/// walk of exactly the same cost.  Hence the constrained minimum is
/// always realized by a plain walk of equal cost, and can never beat the
/// unconstrained shortest-path cost, whatever `min_line` and `max_line`
/// are.
pub proof fn lemma_trace_is_plain_route(g: Grid, min_line: int, max_line: int, t: Seq<SearchState>)
    requires
        g.wf(),
        1 <= min_line <= max_line,
        trace_ok(g.spec_width(), g.spec_height(), min_line, max_line, t),
    ensures
        plain_route(g, t.map_values(|s: SearchState| s.pos)),
        route_cost(g, t.map_values(|s: SearchState| s.pos)) == trace_cost(g, t),
    decreases t.len(),
{
    let w = g.spec_width();
    let h = g.spec_height();
    let ps = t.map_values(|s: SearchState| s.pos);
    assert(ps.len() == t.len());
    assert(forall|i: int| 0 <= i < t.len() ==> #[trigger] ps[i] == t[i].pos);
    if t.len() == 1 {
        crate::course::lemma_trace_states_wf(w, h, min_line, max_line, t, 0);
    } else {
        let n = t.len() as int;
        let tp = t.subrange(0, n - 1);
        crate::course::lemma_trace_prefix(w, h, min_line, max_line, t, n - 1);
        lemma_trace_is_plain_route(g, min_line, max_line, tp);
        let pp = tp.map_values(|s: SearchState| s.pos);
        assert(pp =~= ps.subrange(0, n - 1));
        assert(pp =~= ps.drop_last());
        assert(tp =~= t.drop_last());
        assert(step_ok(w, h, min_line, max_line, t[n - 2], t[n - 1]));
        crate::course::lemma_trace_states_wf(w, h, min_line, max_line, t, n - 1);
        assert forall|i: int| 1 <= i < ps.len() implies adjacent(ps[i - 1], #[trigger] ps[i]) by {
            if i < n - 1 {
                assert(pp[i] == ps[i] && pp[i - 1] == ps[i - 1]);
                assert(adjacent(pp[i - 1], pp[i]));
            } else {
                assert(moves_to(t[n - 2].pos, t[n - 1].course.direction, t[n - 1].pos));
            }
        }
        assert forall|i: int| 0 <= i < ps.len() implies pos_in_bounds(w, h, #[trigger] ps[i]) by {
            if i < n - 1 {
                assert(pp[i] == ps[i]);
                assert(pos_in_bounds(w, h, pp[i]));
            }
        }
    }
}

/// A reported success yields an ordinary walk to the target corner of
/// exactly the reported cost: the run-constrained optimum never
/// undercuts the plain shortest-path cost.
pub proof fn lemma_success_gives_plain_route(
    g: Grid,
    min_line: int,
    max_line: int,
    c: int,
    path: Seq<Position>,
)
    requires
        g.wf(),
        1 <= min_line <= max_line,
        search_success(g, min_line, max_line, c, path),
    ensures
        plain_route(g, path),
        route_cost(g, path) == c,
        path[path.len() - 1].row + 1 == g.spec_height(),
        path[path.len() - 1].col + 1 == g.spec_width(),
{
    let t = choose|t: Seq<SearchState>|
        #[trigger] goal_trace(g, min_line, max_line, t) && trace_cost(g, t) == c && path
            == t.map_values(|s: SearchState| s.pos);
    lemma_trace_is_plain_route(g, min_line, max_line, t);
    assert(path[path.len() - 1] == t[t.len() - 1].pos);
}

} // verus!
