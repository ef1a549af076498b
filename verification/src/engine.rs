use vstd::prelude::*;

use crate::course::{
    is_seed, lemma_trace_prefix, lemma_trace_push, lemma_trace_states_wf, state_wf,
    step_ok, trace_ok, Course, Direction, SearchState,
};
use crate::errors::SearchError;
use crate::grid::{Grid, Limit, Position};

verus! {

/// The cumulative cost of a route: the sum of the entry costs of every
/// cell after the first.  The start cell's own cost is never charged.
pub open spec fn trace_cost(g: Grid, t: Seq<SearchState>) -> int
    decreases t.len(),
{
    if t.len() <= 1 {
        0
    } else {
        trace_cost(g, t.drop_last()) + g.cost_at(
            t[t.len() - 1].pos.row as int,
            t[t.len() - 1].pos.col as int,
        )
    }
}

/// The goal condition: the bottom-right cell, reached on a run of at
/// least `min_line` cells.
pub open spec fn is_goal(w: int, h: int, min_line: int, s: SearchState) -> bool {
    &&& s.pos.row + 1 == h
    &&& s.pos.col + 1 == w
    &&& s.course.within_line >= min_line
}

/// A legal route that ends on the goal.
pub open spec fn goal_trace(g: Grid, min_line: int, max_line: int, t: Seq<SearchState>) -> bool {
    &&& trace_ok(g.spec_width(), g.spec_height(), min_line, max_line, t)
    &&& is_goal(g.spec_width(), g.spec_height(), min_line, t[t.len() - 1])
}

/// No legal route reaches the goal.
pub open spec fn no_goal_trace(g: Grid, min_line: int, max_line: int) -> bool {
    forall|t: Seq<SearchState>| !(#[trigger] goal_trace(g, min_line, max_line, t))
}

/// `c` is the cost of some legal goal route and no legal goal route is
/// cheaper.
pub open spec fn is_minimal_goal_cost(g: Grid, min_line: int, max_line: int, c: int) -> bool {
    &&& exists|t: Seq<SearchState>|
        #[trigger] goal_trace(g, min_line, max_line, t) && trace_cost(g, t) == c
    &&& forall|t: Seq<SearchState>|
        #[trigger] goal_trace(g, min_line, max_line, t) ==> trace_cost(g, t) >= c
}

/// A successful search outcome: the cost is minimal and the reported
/// path is the cell sequence of a goal route realizing it.
pub open spec fn search_success(
    g: Grid,
    min_line: int,
    max_line: int,
    c: int,
    path: Seq<Position>,
) -> bool {
    &&& exists|t: Seq<SearchState>|
        #[trigger] goal_trace(g, min_line, max_line, t) && trace_cost(g, t) == c && path
            == t.map_values(|s: SearchState| s.pos)
    &&& forall|t: Seq<SearchState>|
        #[trigger] goal_trace(g, min_line, max_line, t) ==> trace_cost(g, t) >= c
}

/// No two elements of `t` are equal: each search state settles at most
/// once during one query.
pub open spec fn distinct_states(t: Seq<SearchState>) -> bool {
    forall|i: int, j: int| 0 <= i < j < t.len() ==> t[i] != t[j]
}

// ---------------------------------------------------------------------
// Cost arithmetic over traces.
// ---------------------------------------------------------------------

/// Route costs are sums of cell costs, hence nonnegative.
pub proof fn lemma_trace_cost_nonneg(g: Grid, t: Seq<SearchState>)
    ensures
        trace_cost(g, t) >= 0,
    decreases t.len(),
{
    if t.len() > 1 {
        lemma_trace_cost_nonneg(g, t.drop_last());
    }
}

/// Appending one state adds exactly that cell's entry cost.
pub proof fn lemma_trace_cost_push(g: Grid, t: Seq<SearchState>, s: SearchState)
    requires
        t.len() >= 1,
    ensures
        trace_cost(g, t.push(s)) == trace_cost(g, t) + g.cost_at(s.pos.row as int, s.pos.col as int),
{
    let t2 = t.push(s);
    assert(t2.drop_last() =~= t);
    assert(t2[t2.len() - 1] == s);
}

// ---------------------------------------------------------------------
// The settled bitmap: a dense index over well-formed search states.
// ---------------------------------------------------------------------

/// A fixed numbering of the four directions.
pub open spec fn dir_index(d: Direction) -> int {
    match d {
        Direction::Left => 0,
        Direction::Right => 1,
        Direction::Up => 2,
        Direction::Down => 3,
    }
}

/// The dense index of a state in a `w * h * 4 * max_line` bitmap.
pub open spec fn state_index(w: int, max_line: int, s: SearchState) -> int {
    ((s.pos.row * w + s.pos.col) * 4 + dir_index(s.course.direction)) * max_line + (
    s.course.within_line - 1)
}

/// The state index stays within the bitmap for well-formed states.
pub proof fn lemma_state_index_bounds(w: int, h: int, max_line: int, s: SearchState)
    requires
        1 <= w,
        1 <= h,
        1 <= max_line,
        state_wf(w, h, max_line, s),
    ensures
        0 <= state_index(w, max_line, s) < h * w * 4 * max_line,
{
    let row = s.pos.row as int;
    let col = s.pos.col as int;
    let di = dir_index(s.course.direction);
    let run = s.course.within_line as int;
    assert(0 <= di < 4);
    assert(row * w + col < h * w) by (nonlinear_arith)
        requires
            0 <= row,
            row < h,
            0 <= col,
            col < w,
            1 <= w,
    ;
    assert((row * w + col) * 4 + di < h * w * 4) by (nonlinear_arith)
        requires
            0 <= di < 4,
            row * w + col < h * w,
    ;
    assert(((row * w + col) * 4 + di) * max_line + (run - 1) < h * w * 4 * max_line)
        by (nonlinear_arith)
        requires
            1 <= run <= max_line,
            (row * w + col) * 4 + di < h * w * 4,
            1 <= max_line,
    ;
    assert(0 <= ((row * w + col) * 4 + di) * max_line + (run - 1)) by (nonlinear_arith)
        requires
            0 <= row,
            0 <= col,
            0 <= di,
            1 <= run,
            1 <= w,
            1 <= max_line,
    ;
}

/// Distinct well-formed states get distinct indices.
pub proof fn lemma_state_index_injective(
    w: int,
    h: int,
    max_line: int,
    s1: SearchState,
    s2: SearchState,
)
    requires
        1 <= w,
        1 <= h,
        1 <= max_line,
        state_wf(w, h, max_line, s1),
        state_wf(w, h, max_line, s2),
        state_index(w, max_line, s1) == state_index(w, max_line, s2),
    ensures
        s1 == s2,
{
    let b1 = (s1.pos.row * w + s1.pos.col) * 4 + dir_index(s1.course.direction);
    let b2 = (s2.pos.row * w + s2.pos.col) * 4 + dir_index(s2.course.direction);
    let r1 = s1.course.within_line - 1;
    let r2 = s2.course.within_line - 1;
    assert(b1 == b2 && r1 == r2) by (nonlinear_arith)
        requires
            b1 * max_line + r1 == b2 * max_line + r2,
            0 <= r1 < max_line,
            0 <= r2 < max_line,
    ;
    let a1 = s1.pos.row * w + s1.pos.col;
    let a2 = s2.pos.row * w + s2.pos.col;
    let d1 = dir_index(s1.course.direction);
    let d2 = dir_index(s2.course.direction);
    assert(a1 == a2 && d1 == d2) by (nonlinear_arith)
        requires
            a1 * 4 + d1 == a2 * 4 + d2,
            0 <= d1 < 4,
            0 <= d2 < 4,
    ;
    assert(s1.pos.row == s2.pos.row && s1.pos.col == s2.pos.col) by (nonlinear_arith)
        requires
            s1.pos.row * w + s1.pos.col == s2.pos.row * w + s2.pos.col,
            0 <= s1.pos.col < w,
            0 <= s2.pos.col < w,
            0 <= s1.pos.row,
            0 <= s2.pos.row,
    ;
}

/// How many entries of a boolean sequence are set.
pub open spec fn count_trues(s: Seq<bool>) -> int
    decreases s.len(),
{
    if s.len() == 0 {
        0
    } else {
        count_trues(s.drop_last()) + if s[s.len() - 1] {
            1int
        } else {
            0int
        }
    }
}

/// The count of set entries never exceeds the length.
pub proof fn lemma_count_trues_le_len(s: Seq<bool>)
    ensures
        0 <= count_trues(s) <= s.len(),
    decreases s.len(),
{
    if s.len() > 0 {
        lemma_count_trues_le_len(s.drop_last());
    }
}

/// Setting one false entry to true raises the count by exactly one.
pub proof fn lemma_count_trues_update(s: Seq<bool>, j: int)
    requires
        0 <= j < s.len(),
        !s[j],
    ensures
        count_trues(s.update(j, true)) == count_trues(s) + 1,
    decreases s.len(),
{
    let s2 = s.update(j, true);
    if j == s.len() - 1 {
        assert(s2.drop_last() =~= s.drop_last());
    } else {
        assert(s2.drop_last() =~= s.drop_last().update(j, true));
        lemma_count_trues_update(s.drop_last(), j);
    }
}

/// Appending an entry adds one to the count when it is set.
pub proof fn lemma_count_trues_push(s: Seq<bool>, b: bool)
    ensures
        count_trues(s.push(b)) == count_trues(s) + if b {
            1int
        } else {
            0int
        },
{
    assert(s.push(b).drop_last() =~= s);
}

// ---------------------------------------------------------------------
// The frontier and the search invariants.
// ---------------------------------------------------------------------

/// A frontier candidate: a state, the cumulative cost at which it was
/// generated, the cell sequence that produced it, and (ghost) the route
/// witnessing that cost.
pub struct FrontierEntry {
    pub state: SearchState,
    pub cost: u64,
    pub path: Vec<Position>,
    pub wit: Ghost<Seq<SearchState>>,
}

/// Each frontier entry carries a legal route ending at its state whose
/// cumulative cost is exactly the entry's cost, and whose cells are the
/// entry's path.
pub open spec fn entry_inv(g: Grid, min_line: int, max_line: int, e: FrontierEntry) -> bool {
    &&& trace_ok(g.spec_width(), g.spec_height(), min_line, max_line, e.wit@)
    &&& e.wit@[e.wit@.len() - 1] == e.state
    &&& trace_cost(g, e.wit@) == e.cost
    &&& e.path@ == e.wit@.map_values(|s: SearchState| s.pos)
    &&& state_wf(g.spec_width(), g.spec_height(), max_line, e.state)
}

/// Is `s` marked in the settled bitmap?
pub open spec fn settled_in(g: Grid, max_line: int, arrv: Seq<bool>, s: SearchState) -> bool {
    arrv[state_index(g.spec_width(), max_line, s)]
}

/// The bitmap and the ghost cost map agree on which well-formed states
/// are settled, and settled costs are nonnegative.
pub open spec fn inv_dom(
    g: Grid,
    max_line: int,
    arrv: Seq<bool>,
    gd: Map<SearchState, int>,
) -> bool {
    &&& forall|s: SearchState|
        state_wf(g.spec_width(), g.spec_height(), max_line, s) ==> ((#[trigger] settled_in(
            g,
            max_line,
            arrv,
            s,
        )) <==> gd.dom().contains(s))
    &&& forall|s: SearchState|
        #[trigger] gd.dom().contains(s) ==> state_wf(g.spec_width(), g.spec_height(), max_line, s)
            && 0 <= gd[s]
}

/// Every legal route ending in a settled state costs at least that
/// state's recorded cost: settled costs are lower bounds.
pub open spec fn inv_settled_bound(
    g: Grid,
    min_line: int,
    max_line: int,
    gd: Map<SearchState, int>,
) -> bool {
    forall|t: Seq<SearchState>|
        (#[trigger] trace_ok(g.spec_width(), g.spec_height(), min_line, max_line, t))
            && gd.dom().contains(t[t.len() - 1]) ==> trace_cost(g, t) >= gd[t[t.len() - 1]]
}

/// Every frontier entry satisfies `entry_inv`.
pub open spec fn inv_entries(g: Grid, min_line: int, max_line: int, fv: Seq<FrontierEntry>) -> bool {
    forall|j: int| 0 <= j < fv.len() ==> entry_inv(g, min_line, max_line, #[trigger] fv[j])
}

/// Relaxation: every legal step from a settled state to an unsettled one
/// is covered by a frontier entry at least as cheap as going through the
/// settled state.
pub open spec fn inv_edges(
    g: Grid,
    min_line: int,
    max_line: int,
    arrv: Seq<bool>,
    gd: Map<SearchState, int>,
    fv: Seq<FrontierEntry>,
) -> bool {
    forall|s1: SearchState, s2: SearchState|
        gd.dom().contains(s1) && (#[trigger] step_ok(
            g.spec_width(),
            g.spec_height(),
            min_line,
            max_line,
            s1,
            s2,
        )) && !settled_in(g, max_line, arrv, s2) ==> exists|j: int|
            0 <= j < fv.len() && (#[trigger] fv[j]).state == s2 && fv[j].cost <= gd[s1]
                + g.cost_at(s2.pos.row as int, s2.pos.col as int)
}

/// Every unsettled seed is covered by a frontier entry of cost zero.
pub open spec fn inv_seeds(
    g: Grid,
    max_line: int,
    arrv: Seq<bool>,
    fv: Seq<FrontierEntry>,
) -> bool {
    forall|s: SearchState|
        (#[trigger] is_seed(s)) && state_wf(g.spec_width(), g.spec_height(), max_line, s)
            && !settled_in(g, max_line, arrv, s) ==> exists|j: int|
            0 <= j < fv.len() && (#[trigger] fv[j]).state == s && fv[j].cost == 0
}

/// No settled state satisfies the goal condition (the search returns as
/// soon as it pops one).
pub open spec fn inv_no_goal_settled(
    g: Grid,
    min_line: int,
    gd: Map<SearchState, int>,
) -> bool {
    forall|s: SearchState|
        #[trigger] gd.dom().contains(s) ==> !is_goal(g.spec_width(), g.spec_height(), min_line, s)
}

/// All costs in play stay below nine per settled state, which keeps the
/// cumulative-cost arithmetic within `u64`.
pub open spec fn inv_costs(
    g: Grid,
    max_line: int,
    arrv: Seq<bool>,
    gd: Map<SearchState, int>,
    fv: Seq<FrontierEntry>,
) -> bool {
    &&& forall|j: int|
        0 <= j < fv.len() ==> (#[trigger] fv[j]).cost <= 9 * count_trues(arrv) + 9
    &&& forall|s: SearchState| #[trigger] gd.dom().contains(s) ==> gd[s] <= 9 * count_trues(arrv)
}

/// The heart of the correctness argument: while the invariants hold, any
/// legal route ending in an unsettled state costs at least `bound`
/// whenever every frontier entry costs at least `bound`.
pub proof fn lemma_trace_bound(
    g: Grid,
    min_line: int,
    max_line: int,
    arrv: Seq<bool>,
    gd: Map<SearchState, int>,
    fv: Seq<FrontierEntry>,
    t: Seq<SearchState>,
    bound: int,
)
    requires
        g.wf(),
        1 <= min_line <= max_line,
        inv_dom(g, max_line, arrv, gd),
        inv_settled_bound(g, min_line, max_line, gd),
        inv_edges(g, min_line, max_line, arrv, gd, fv),
        inv_seeds(g, max_line, arrv, fv),
        trace_ok(g.spec_width(), g.spec_height(), min_line, max_line, t),
        !settled_in(g, max_line, arrv, t[t.len() - 1]),
        forall|k: int| 0 <= k < fv.len() ==> (#[trigger] fv[k]).cost >= bound,
    ensures
        trace_cost(g, t) >= bound,
    decreases t.len(),
{
    let w = g.spec_width();
    let h = g.spec_height();
    let n = t.len() as int;
    let s = t[n - 1];
    lemma_trace_states_wf(w, h, min_line, max_line, t, n - 1);
    if n == 1 {
        assert(is_seed(s));
        let j = choose|j: int|
            0 <= j < fv.len() && (#[trigger] fv[j]).state == s && fv[j].cost == 0;
        assert(fv[j].cost >= bound);
    } else {
        let p = t[n - 2];
        let tp = t.subrange(0, n - 1);
        lemma_trace_prefix(w, h, min_line, max_line, t, n - 1);
        lemma_trace_states_wf(w, h, min_line, max_line, t, n - 2);
        assert(step_ok(w, h, min_line, max_line, t[n - 2], t[n - 1]));
        assert(tp =~= t.drop_last());
        assert(tp[tp.len() - 1] == p);
        assert(trace_cost(g, t) == trace_cost(g, tp) + g.cost_at(
            s.pos.row as int,
            s.pos.col as int,
        ));
        if gd.dom().contains(p) {
            assert(trace_ok(w, h, min_line, max_line, tp));
            assert(trace_cost(g, tp) >= gd[p]);
            let j = choose|j: int|
                0 <= j < fv.len() && (#[trigger] fv[j]).state == s && fv[j].cost <= gd[p]
                    + g.cost_at(s.pos.row as int, s.pos.col as int);
            assert(fv[j].cost >= bound);
        } else {
            assert(!settled_in(g, max_line, arrv, p));
            lemma_trace_bound(g, min_line, max_line, arrv, gd, fv, tp, bound);
        }
    }
}

// ---------------------------------------------------------------------
// Executable pieces of the search.
// ---------------------------------------------------------------------

/// From one state, at most one legal step exists per direction.
proof fn lemma_step_determined(
    w: int,
    h: int,
    min_line: int,
    max_line: int,
    u: SearchState,
    a: SearchState,
    b: SearchState,
)
    requires
        step_ok(w, h, min_line, max_line, u, a),
        step_ok(w, h, min_line, max_line, u, b),
        a.course.direction == b.course.direction,
    ensures
        a == b,
{
}

/// An all-false bitmap of the requested size.
pub(crate) fn fill_false(n: usize) -> (v: Vec<bool>)
    ensures
        v@.len() == n,
        count_trues(v@) == 0,
        forall|i: int| 0 <= i < n ==> !v@[i],
{
    let mut v: Vec<bool> = Vec::new();
    let mut i: usize = 0;
    while i < n
        invariant
            0 <= i <= n,
            v@.len() == i,
            count_trues(v@) == 0,
            forall|k: int| 0 <= k < i ==> !v@[k],
        decreases n - i,
    {
        proof {
            lemma_count_trues_push(v@, false);
        }
        v.push(false);
        i = i + 1;
    }
    v
}

/// The dense bitmap index of a well-formed state.
fn state_index_exec(w: usize, h: usize, max_line: u64, s: SearchState) -> (i: usize)
    requires
        1 <= w,
        1 <= h,
        1 <= max_line,
        state_wf(w as int, h as int, max_line as int, s),
        h * w * 4 * max_line <= usize::MAX,
    ensures
        i == state_index(w as int, max_line as int, s),
        i < h * w * 4 * max_line,
{
    proof {
        lemma_state_index_bounds(w as int, h as int, max_line as int, s);
        let row = s.pos.row as int;
        let col = s.pos.col as int;
        let di = dir_index(s.course.direction);
        let run = s.course.within_line as int;
        assert(row * w + col < h * w) by (nonlinear_arith)
            requires
                0 <= row,
                row < h,
                0 <= col,
                col < w,
                1 <= w,
        ;
        assert(h * w <= h * w * 4 * max_line && h * w * 4 <= h * w * 4 * max_line && max_line <= h
            * w * 4 * max_line) by (nonlinear_arith)
            requires
                1 <= w,
                1 <= h,
                1 <= max_line,
        ;
        assert((row * w + col) * 4 + di < h * w * 4) by (nonlinear_arith)
            requires
                0 <= di < 4,
                row * w + col < h * w,
        ;
        assert(0 <= (row * w + col) * 4 + di) by (nonlinear_arith)
            requires
                0 <= row,
                0 <= col,
                0 <= di,
                1 <= w,
        ;
        assert(((row * w + col) * 4 + di) * max_line <= (h * w * 4 - 1) * max_line)
            by (nonlinear_arith)
            requires
                (row * w + col) * 4 + di <= h * w * 4 - 1,
                0 <= (row * w + col) * 4 + di,
                1 <= max_line,
        ;
    }
    let di: usize = match s.course.direction {
        Direction::Left => 0,
        Direction::Right => 1,
        Direction::Up => 2,
        Direction::Down => 3,
    };
    let a: usize = s.pos.row * w + s.pos.col;
    let b: usize = a * 4 + di;
    let ml: usize = max_line as usize;
    let run1: usize = (s.course.within_line - 1) as usize;
    b * ml + run1
}

/// The index of a cheapest frontier entry (the first such entry, which
/// makes the tie-break deterministic).
fn find_min_index(frontier: &Vec<FrontierEntry>) -> (j: usize)
    requires
        frontier@.len() >= 1,
    ensures
        0 <= j < frontier@.len(),
        forall|k: int|
            0 <= k < frontier@.len() ==> frontier@[j as int].cost <= (#[trigger] frontier@[k]).cost,
{
    let mut j: usize = 0;
    let mut k: usize = 1;
    while k < frontier.len()
        invariant
            0 <= j < k <= frontier@.len(),
            forall|m: int|
                0 <= m < k ==> frontier@[j as int].cost <= (#[trigger] frontier@[m]).cost,
        decreases frontier@.len() - k,
    {
        if frontier[k].cost < frontier[j].cost {
            j = k;
        }
        k = k + 1;
    }
    j
}

/// Expands one direction out of a freshly settled state `u`: pushes the
/// legal, not-yet-settled successor (if any) onto the frontier, priced at
/// `u`'s settled cost plus the entered cell's cost.
#[verifier::rlimit(30)]
fn expand_dir(
    grid: &Grid,
    min_line: u64,
    max_line: u64,
    u: SearchState,
    ucost: u64,
    upath: &Vec<Position>,
    Ghost(uwit): Ghost<Seq<SearchState>>,
    new_dir: Direction,
    settled: &Vec<bool>,
    frontier: &mut Vec<FrontierEntry>,
    Ghost(gd): Ghost<Map<SearchState, int>>,
)
    requires
        grid.wf(),
        1 <= min_line <= max_line,
        grid.spec_height() * grid.spec_width() * 4 * max_line <= usize::MAX,
        settled@.len() == grid.spec_height() * grid.spec_width() * 4 * max_line,
        9 * settled@.len() + 18 <= u64::MAX,
        state_wf(grid.spec_width(), grid.spec_height(), max_line as int, u),
        gd.dom().contains(u),
        gd[u] == ucost,
        ucost <= 9 * count_trues(settled@),
        trace_ok(grid.spec_width(), grid.spec_height(), min_line as int, max_line as int, uwit),
        uwit[uwit.len() - 1] == u,
        trace_cost(*grid, uwit) == ucost,
        upath@ == uwit.map_values(|s: SearchState| s.pos),
        inv_entries(*grid, min_line as int, max_line as int, old(frontier)@),
        forall|j: int|
            0 <= j < old(frontier)@.len() ==> (#[trigger] old(frontier)@[j]).cost <= 9
                * count_trues(settled@) + 9,
    ensures
        final(frontier)@.len() >= old(frontier)@.len(),
        forall|j: int|
            0 <= j < old(frontier)@.len() ==> #[trigger] final(frontier)@[j] == old(frontier)@[j],
        inv_entries(*grid, min_line as int, max_line as int, final(frontier)@),
        forall|j: int|
            0 <= j < final(frontier)@.len() ==> (#[trigger] final(frontier)@[j]).cost <= 9
                * count_trues(settled@) + 9,
        forall|s2: SearchState|
            s2.course.direction == new_dir && #[trigger] step_ok(
                grid.spec_width(),
                grid.spec_height(),
                min_line as int,
                max_line as int,
                u,
                s2,
            ) && !settled_in(*grid, max_line as int, settled@, s2) ==> exists|j: int|
                0 <= j < final(frontier)@.len() && (#[trigger] final(frontier)@[j]).state == s2
                    && final(frontier)@[j].cost <= gd[u] + grid.cost_at(
                    s2.pos.row as int,
                    s2.pos.col as int,
                ),
{
    let ghost w = grid.spec_width();
    let ghost h = grid.spec_height();
    let r = u.course.go(&u.pos, new_dir, grid, min_line, max_line);
    match r {
        None => {},
        Some((np, nc)) => {
            let s2 = SearchState { pos: np, course: nc };
            proof {
                assert(step_ok(w, h, min_line as int, max_line as int, u, s2));
                assert(state_wf(w, h, max_line as int, s2));
            }
            let sidx = state_index_exec(grid.width(), grid.height(), max_line, s2);
            if !settled[sidx] {
                proof {
                    lemma_count_trues_le_len(settled@);
                }
                let cell = grid.entry_cost(np);
                let cost2 = ucost + cell;
                let mut path2 = upath.clone();
                path2.push(np);
                let ghost wit2 = uwit.push(s2);
                proof {
                    lemma_trace_push(w, h, min_line as int, max_line as int, uwit, s2);
                    lemma_trace_cost_push(*grid, uwit, s2);
                    assert(upath@ =~= uwit.map_values(|s: SearchState| s.pos));
                    assert(path2@ =~= wit2.map_values(|s: SearchState| s.pos));
                }
                let e2 = FrontierEntry { state: s2, cost: cost2, path: path2, wit: Ghost(wit2) };
                proof {
                    assert(entry_inv(*grid, min_line as int, max_line as int, e2));
                }
                frontier.push(e2);
                proof {
                    let fv = frontier@;
                    let nlen = fv.len() as int;
                    assert(fv[nlen - 1] == e2);
                    assert forall|s3: SearchState|
                        s3.course.direction == new_dir && #[trigger] step_ok(
                            w,
                            h,
                            min_line as int,
                            max_line as int,
                            u,
                            s3,
                        ) && !settled_in(*grid, max_line as int, settled@, s3) implies exists|
                        j: int,
                    |
                        0 <= j < fv.len() && (#[trigger] fv[j]).state == s3 && fv[j].cost <= gd[u]
                            + grid.cost_at(s3.pos.row as int, s3.pos.col as int) by {
                        lemma_step_determined(
                            w,
                            h,
                            min_line as int,
                            max_line as int,
                            u,
                            s3,
                            s2,
                        );
                        assert(fv[nlen - 1].state == s3 && fv[nlen - 1].cost <= gd[u]
                            + grid.cost_at(s3.pos.row as int, s3.pos.col as int));
                    }
                }
            } else {
                proof {
                    assert(settled_in(*grid, max_line as int, settled@, s2));
                }
            }
        },
    }
}

/// When a cheapest frontier entry pops unsettled, every legal goal route
/// costs at least that entry's cost: popping in cost order makes the
/// first goal pop globally optimal.
proof fn lemma_goal_minimal(
    g: Grid,
    min_line: int,
    max_line: int,
    arrv: Seq<bool>,
    gd: Map<SearchState, int>,
    fv0: Seq<FrontierEntry>,
    bound: int,
)
    requires
        g.wf(),
        1 <= min_line <= max_line,
        inv_dom(g, max_line, arrv, gd),
        inv_settled_bound(g, min_line, max_line, gd),
        inv_edges(g, min_line, max_line, arrv, gd, fv0),
        inv_seeds(g, max_line, arrv, fv0),
        inv_no_goal_settled(g, min_line, gd),
        forall|k: int| 0 <= k < fv0.len() ==> (#[trigger] fv0[k]).cost >= bound,
    ensures
        forall|t: Seq<SearchState>|
            #[trigger] goal_trace(g, min_line, max_line, t) ==> trace_cost(g, t) >= bound,
{
    let wi = g.spec_width();
    let hi = g.spec_height();
    assert forall|t: Seq<SearchState>|
        #[trigger] goal_trace(g, min_line, max_line, t) implies trace_cost(g, t) >= bound by {
        let last = t[t.len() - 1];
        lemma_trace_states_wf(wi, hi, min_line, max_line, t, t.len() - 1);
        if settled_in(g, max_line, arrv, last) {
            assert(gd.dom().contains(last));
            assert(!is_goal(wi, hi, min_line, last));
        } else {
            lemma_trace_bound(g, min_line, max_line, arrv, gd, fv0, t, bound);
        }
    }
}

/// Settling the popped state: updating the bitmap and recording the
/// popped cost re-establishes the settled-state invariants, and the
/// frontier invariants survive in a weakened form that the expansion
/// phase then completes.
#[verifier::rlimit(100)]
#[verifier::spinoff_prover]
proof fn lemma_settle_update(
    g: Grid,
    min_line: int,
    max_line: int,
    settled0: Seq<bool>,
    settled1: Seq<bool>,
    gd0: Map<SearchState, int>,
    gd1: Map<SearchState, int>,
    fv0: Seq<FrontierEntry>,
    jmin: int,
)
    requires
        g.wf(),
        1 <= min_line <= max_line,
        inv_dom(g, max_line, settled0, gd0),
        inv_settled_bound(g, min_line, max_line, gd0),
        inv_entries(g, min_line, max_line, fv0),
        inv_edges(g, min_line, max_line, settled0, gd0, fv0),
        inv_seeds(g, max_line, settled0, fv0),
        inv_no_goal_settled(g, min_line, gd0),
        inv_costs(g, max_line, settled0, gd0, fv0),
        settled0.len() == g.spec_height() * g.spec_width() * 4 * max_line,
        0 <= jmin < fv0.len(),
        !settled_in(g, max_line, settled0, fv0[jmin].state),
        !is_goal(g.spec_width(), g.spec_height(), min_line, fv0[jmin].state),
        forall|k: int| 0 <= k < fv0.len() ==> (#[trigger] fv0[k]).cost >= fv0[jmin].cost,
        settled1 == settled0.update(
            state_index(g.spec_width(), max_line, fv0[jmin].state),
            true,
        ),
        gd1 == gd0.insert(fv0[jmin].state, fv0[jmin].cost as int),
    ensures
        count_trues(settled1) == count_trues(settled0) + 1,
        settled1.len() == settled0.len(),
        forall|s: SearchState|
            state_wf(g.spec_width(), g.spec_height(), max_line, s) && s != fv0[jmin].state
                ==> #[trigger] settled_in(g, max_line, settled1, s) == settled_in(
                g,
                max_line,
                settled0,
                s,
            ),
        settled_in(g, max_line, settled1, fv0[jmin].state),
        inv_dom(g, max_line, settled1, gd1),
        inv_settled_bound(g, min_line, max_line, gd1),
        inv_no_goal_settled(g, min_line, gd1),
        forall|s: SearchState|
            #[trigger] gd1.dom().contains(s) ==> gd1[s] <= 9 * count_trues(settled1),
        inv_entries(g, min_line, max_line, fv0.remove(jmin)),
        inv_seeds(g, max_line, settled1, fv0.remove(jmin)),
        forall|j: int|
            0 <= j < fv0.remove(jmin).len() ==> (#[trigger] fv0.remove(jmin)[j]).cost <= 9
                * count_trues(settled1) + 9,
        forall|s1: SearchState, s2: SearchState|
            gd0.dom().contains(s1) && (#[trigger] step_ok(
                g.spec_width(),
                g.spec_height(),
                min_line,
                max_line,
                s1,
                s2,
            )) && !settled_in(g, max_line, settled1, s2) ==> exists|j: int|
                0 <= j < fv0.remove(jmin).len() && (#[trigger] fv0.remove(jmin)[j]).state == s2
                    && fv0.remove(jmin)[j].cost <= gd0[s1] + g.cost_at(
                    s2.pos.row as int,
                    s2.pos.col as int,
                ),
{
    let wi = g.spec_width();
    let hi = g.spec_height();
    let u = fv0[jmin].state;
    let c = fv0[jmin].cost as int;
    let sidx = state_index(wi, max_line, u);
    assert(entry_inv(g, min_line, max_line, fv0[jmin]));
    assert(state_wf(wi, hi, max_line, u));
    lemma_state_index_bounds(wi, hi, max_line, u);
    lemma_count_trues_update(settled0, sidx);
    assert forall|s: SearchState|
        state_wf(wi, hi, max_line, s) && s != u implies #[trigger] settled_in(
        g,
        max_line,
        settled1,
        s,
    ) == settled_in(g, max_line, settled0, s) by {
        lemma_state_index_bounds(wi, hi, max_line, s);
        if state_index(wi, max_line, s) == sidx {
            lemma_state_index_injective(wi, hi, max_line, s, u);
        }
    }
    // Settled costs stay lower bounds: the new key's bound comes from the
    // frontier minimality at pop time.
    assert forall|t: Seq<SearchState>|
        (#[trigger] trace_ok(wi, hi, min_line, max_line, t)) && gd1.dom().contains(
            t[t.len() - 1],
        ) implies trace_cost(g, t) >= gd1[t[t.len() - 1]] by {
        let last = t[t.len() - 1];
        if last == u {
            lemma_trace_bound(g, min_line, max_line, settled0, gd0, fv0, t, c);
        } else {
            assert(gd0.dom().contains(last));
        }
    }
    assert forall|s: SearchState| state_wf(wi, hi, max_line, s) implies ((#[trigger] settled_in(
        g,
        max_line,
        settled1,
        s,
    )) <==> gd1.dom().contains(s)) by {
        if s != u {
            assert(settled_in(g, max_line, settled1, s) == settled_in(g, max_line, settled0, s));
            assert(gd1.dom().contains(s) == gd0.dom().contains(s));
        }
    }
    assert forall|s: SearchState| #[trigger] gd1.dom().contains(s) implies gd1[s] <= 9
        * count_trues(settled1) by {
        if s != u {
            assert(gd0.dom().contains(s) && gd1[s] == gd0[s]);
        }
    }
    // Edges out of previously settled states survive the bitmap update
    // and the removal of the (now settled) popped entry.
    assert forall|s1: SearchState, s2: SearchState|
        gd0.dom().contains(s1) && (#[trigger] step_ok(wi, hi, min_line, max_line, s1, s2))
            && !settled_in(g, max_line, settled1, s2) implies exists|j: int|
        0 <= j < fv0.len() && (#[trigger] fv0[j]).state == s2 && fv0[j].cost <= gd0[s1]
            + g.cost_at(s2.pos.row as int, s2.pos.col as int) by {
        assert(state_wf(wi, hi, max_line, s2));
        assert(s2 != u);
        assert(!settled_in(g, max_line, settled0, s2));
    }
    assert forall|s: SearchState|
        (#[trigger] is_seed(s)) && state_wf(wi, hi, max_line, s) && !settled_in(
            g,
            max_line,
            settled1,
            s,
        ) implies exists|j: int|
        0 <= j < fv0.len() && (#[trigger] fv0[j]).state == s && fv0[j].cost == 0 by {
        assert(s != u);
        assert(!settled_in(g, max_line, settled0, s));
    }
    lemma_frontier_remove(
        g,
        min_line,
        max_line,
        settled1,
        gd0,
        fv0,
        jmin,
        9 * count_trues(settled0) + 9,
    );
}

/// After the four direction expansions, the edge and seed invariants
/// hold of the final frontier: old witnesses persist (pushes only
/// append) and the freshly settled state's edges are covered by the
/// expansion ensures.
proof fn lemma_assemble_edges(
    g: Grid,
    min_line: int,
    max_line: int,
    arrv: Seq<bool>,
    gd0: Map<SearchState, int>,
    gd1: Map<SearchState, int>,
    u: SearchState,
    fv1: Seq<FrontierEntry>,
    fv2: Seq<FrontierEntry>,
    fv3: Seq<FrontierEntry>,
    fv4: Seq<FrontierEntry>,
    fv5: Seq<FrontierEntry>,
)
    requires
        gd1 == gd0.insert(u, gd1[u]),
        gd1.dom().contains(u),
        // weakened edges over the frontier after removal:
        forall|s1: SearchState, s2: SearchState|
            gd0.dom().contains(s1) && (#[trigger] step_ok(
                g.spec_width(),
                g.spec_height(),
                min_line,
                max_line,
                s1,
                s2,
            )) && !settled_in(g, max_line, arrv, s2) ==> exists|j: int|
                0 <= j < fv1.len() && (#[trigger] fv1[j]).state == s2 && fv1[j].cost <= gd0[s1]
                    + g.cost_at(s2.pos.row as int, s2.pos.col as int),
        inv_seeds(g, max_line, arrv, fv1),
        // the four coverage facts, one per direction:
        forall|s2: SearchState|
            s2.course.direction == Direction::Right && (#[trigger] step_ok(
                g.spec_width(),
                g.spec_height(),
                min_line,
                max_line,
                u,
                s2,
            )) && !settled_in(g, max_line, arrv, s2) ==> exists|j: int|
                0 <= j < fv2.len() && (#[trigger] fv2[j]).state == s2 && fv2[j].cost <= gd1[u]
                    + g.cost_at(s2.pos.row as int, s2.pos.col as int),
        forall|s2: SearchState|
            s2.course.direction == Direction::Down && (#[trigger] step_ok(
                g.spec_width(),
                g.spec_height(),
                min_line,
                max_line,
                u,
                s2,
            )) && !settled_in(g, max_line, arrv, s2) ==> exists|j: int|
                0 <= j < fv3.len() && (#[trigger] fv3[j]).state == s2 && fv3[j].cost <= gd1[u]
                    + g.cost_at(s2.pos.row as int, s2.pos.col as int),
        forall|s2: SearchState|
            s2.course.direction == Direction::Left && (#[trigger] step_ok(
                g.spec_width(),
                g.spec_height(),
                min_line,
                max_line,
                u,
                s2,
            )) && !settled_in(g, max_line, arrv, s2) ==> exists|j: int|
                0 <= j < fv4.len() && (#[trigger] fv4[j]).state == s2 && fv4[j].cost <= gd1[u]
                    + g.cost_at(s2.pos.row as int, s2.pos.col as int),
        forall|s2: SearchState|
            s2.course.direction == Direction::Up && (#[trigger] step_ok(
                g.spec_width(),
                g.spec_height(),
                min_line,
                max_line,
                u,
                s2,
            )) && !settled_in(g, max_line, arrv, s2) ==> exists|j: int|
                0 <= j < fv5.len() && (#[trigger] fv5[j]).state == s2 && fv5[j].cost <= gd1[u]
                    + g.cost_at(s2.pos.row as int, s2.pos.col as int),
        // pushes only append:
        fv1.len() <= fv2.len() <= fv3.len() <= fv4.len() <= fv5.len(),
        forall|j: int| 0 <= j < fv1.len() ==> #[trigger] fv2[j] == fv1[j],
        forall|j: int| 0 <= j < fv2.len() ==> #[trigger] fv3[j] == fv2[j],
        forall|j: int| 0 <= j < fv3.len() ==> #[trigger] fv4[j] == fv3[j],
        forall|j: int| 0 <= j < fv4.len() ==> #[trigger] fv5[j] == fv4[j],
    ensures
        inv_edges(g, min_line, max_line, arrv, gd1, fv5),
        inv_seeds(g, max_line, arrv, fv5),
{
    let wi = g.spec_width();
    let hi = g.spec_height();
    assert forall|j: int| 0 <= j < fv1.len() implies #[trigger] fv5[j] == fv1[j] by {
        assert(fv2[j] == fv1[j]);
        assert(fv3[j] == fv2[j]);
        assert(fv4[j] == fv3[j]);
    }
    assert forall|j: int| 0 <= j < fv2.len() implies #[trigger] fv5[j] == fv2[j] by {
        assert(fv3[j] == fv2[j]);
        assert(fv4[j] == fv3[j]);
    }
    assert forall|j: int| 0 <= j < fv3.len() implies #[trigger] fv5[j] == fv3[j] by {
        assert(fv4[j] == fv3[j]);
    }
    assert forall|s1: SearchState, s2: SearchState|
        gd1.dom().contains(s1) && (#[trigger] step_ok(wi, hi, min_line, max_line, s1, s2))
            && !settled_in(g, max_line, arrv, s2) implies exists|j: int|
        0 <= j < fv5.len() && (#[trigger] fv5[j]).state == s2 && fv5[j].cost <= gd1[s1]
            + g.cost_at(s2.pos.row as int, s2.pos.col as int) by {
        if s1 == u {
            match s2.course.direction {
                Direction::Right => {
                    let j0 = choose|j: int|
                        0 <= j < fv2.len() && (#[trigger] fv2[j]).state == s2 && fv2[j].cost
                            <= gd1[u] + g.cost_at(s2.pos.row as int, s2.pos.col as int);
                    assert(fv5[j0] == fv2[j0]);
                },
                Direction::Down => {
                    let j0 = choose|j: int|
                        0 <= j < fv3.len() && (#[trigger] fv3[j]).state == s2 && fv3[j].cost
                            <= gd1[u] + g.cost_at(s2.pos.row as int, s2.pos.col as int);
                    assert(fv5[j0] == fv3[j0]);
                },
                Direction::Left => {
                    let j0 = choose|j: int|
                        0 <= j < fv4.len() && (#[trigger] fv4[j]).state == s2 && fv4[j].cost
                            <= gd1[u] + g.cost_at(s2.pos.row as int, s2.pos.col as int);
                    assert(fv5[j0] == fv4[j0]);
                },
                Direction::Up => {},
            }
        } else {
            assert(gd0.dom().contains(s1) && gd1[s1] == gd0[s1]);
            let j0 = choose|j: int|
                0 <= j < fv1.len() && (#[trigger] fv1[j]).state == s2 && fv1[j].cost <= gd0[s1]
                    + g.cost_at(s2.pos.row as int, s2.pos.col as int);
            assert(fv5[j0] == fv1[j0]);
        }
    }
    assert forall|s: SearchState|
        (#[trigger] is_seed(s)) && state_wf(wi, hi, max_line, s) && !settled_in(
            g,
            max_line,
            arrv,
            s,
        ) implies exists|j: int|
        0 <= j < fv5.len() && (#[trigger] fv5[j]).state == s && fv5[j].cost == 0 by {
        let j0 = choose|j: int|
            0 <= j < fv1.len() && (#[trigger] fv1[j]).state == s && fv1[j].cost == 0;
        assert(fv5[j0] == fv1[j0]);
    }
}

/// Removing a frontier entry whose state is already settled (lazy
/// deletion) preserves the frontier invariants: a settled entry can never
/// be the covering witness for an unsettled state.
proof fn lemma_frontier_remove(
    g: Grid,
    min_line: int,
    max_line: int,
    arrv: Seq<bool>,
    gd: Map<SearchState, int>,
    fv0: Seq<FrontierEntry>,
    jmin: int,
    cb: int,
)
    requires
        0 <= jmin < fv0.len(),
        inv_entries(g, min_line, max_line, fv0),
        inv_edges(g, min_line, max_line, arrv, gd, fv0),
        inv_seeds(g, max_line, arrv, fv0),
        forall|j: int| 0 <= j < fv0.len() ==> (#[trigger] fv0[j]).cost <= cb,
        settled_in(g, max_line, arrv, fv0[jmin].state),
    ensures
        inv_entries(g, min_line, max_line, fv0.remove(jmin)),
        inv_edges(g, min_line, max_line, arrv, gd, fv0.remove(jmin)),
        inv_seeds(g, max_line, arrv, fv0.remove(jmin)),
        forall|j: int|
            0 <= j < fv0.remove(jmin).len() ==> (#[trigger] fv0.remove(jmin)[j]).cost <= cb,
{
    let w = g.spec_width();
    let h = g.spec_height();
    let fv1 = fv0.remove(jmin);
    assert(fv1.len() == fv0.len() - 1);
    assert forall|j: int| 0 <= j < fv1.len() implies #[trigger] fv1[j] == if j < jmin {
        fv0[j]
    } else {
        fv0[j + 1]
    } by {}
    assert forall|s1: SearchState, s2: SearchState|
        gd.dom().contains(s1) && (#[trigger] step_ok(w, h, min_line, max_line, s1, s2))
            && !settled_in(g, max_line, arrv, s2) implies exists|j: int|
        0 <= j < fv1.len() && (#[trigger] fv1[j]).state == s2 && fv1[j].cost <= gd[s1] + g.cost_at(
            s2.pos.row as int,
            s2.pos.col as int,
        ) by {
        let j0 = choose|j: int|
            0 <= j < fv0.len() && (#[trigger] fv0[j]).state == s2 && fv0[j].cost <= gd[s1]
                + g.cost_at(s2.pos.row as int, s2.pos.col as int);
        assert(j0 != jmin);
        if j0 < jmin {
            assert(fv1[j0] == fv0[j0]);
        } else {
            assert(fv1[j0 - 1] == fv0[j0]);
        }
    }
    assert forall|s: SearchState|
        (#[trigger] is_seed(s)) && state_wf(w, h, max_line, s) && !settled_in(
            g,
            max_line,
            arrv,
            s,
        ) implies exists|j: int|
        0 <= j < fv1.len() && (#[trigger] fv1[j]).state == s && fv1[j].cost == 0 by {
        let j0 = choose|j: int| 0 <= j < fv0.len() && (#[trigger] fv0[j]).state == s && fv0[j].cost
            == 0;
        assert(j0 != jmin);
        if j0 < jmin {
            assert(fv1[j0] == fv0[j0]);
        } else {
            assert(fv1[j0 - 1] == fv0[j0]);
        }
    }
}

/// Drives the full search and additionally returns the settlement log:
/// the states finalized during the query, in order, each at most once.
///
/// On success the returned cost is exactly the minimum over all legal
/// goal routes and the returned path realizes it; `None` is returned
/// exactly when no legal route reaches the goal.
#[verifier::rlimit(100)]
pub fn find_len_traced(grid: &Grid, min_line: u64, max_line: u64) -> (r: (
    Option<(u64, Vec<Position>)>,
    Vec<SearchState>,
))
    requires
        grid.wf(),
        1 <= min_line <= max_line,
        grid.spec_height() * grid.spec_width() * 4 * max_line <= usize::MAX,
        grid.spec_height() * grid.spec_width() * 4 * max_line <= 0x0100_0000_0000_0000,
    ensures
        match r.0 {
            Some(cp) => search_success(
                *grid,
                min_line as int,
                max_line as int,
                cp.0 as int,
                cp.1@,
            ),
            None => no_goal_trace(*grid, min_line as int, max_line as int),
        },
        distinct_states(r.1@),
        forall|i: int|
            0 <= i < r.1@.len() ==> state_wf(
                grid.spec_width(),
                grid.spec_height(),
                max_line as int,
                #[trigger] r.1@[i],
            ),
{
    let ghost g = *grid;
    let ghost ml = min_line as int;
    let ghost xl = max_line as int;
    let w = grid.width();
    let h = grid.height();
    let ghost wi = g.spec_width();
    let ghost hi = g.spec_height();
    proof {
        assert(hi * wi <= hi * wi * 4 * xl && hi * wi * 4 <= hi * wi * 4 * xl && xl <= hi * wi * 4
            * xl) by (nonlinear_arith)
            requires
                1 <= wi,
                1 <= hi,
                1 <= xl,
        ;
    }
    let ml_us: usize = max_line as usize;
    let size: usize = h * w * 4 * ml_us;
    let mut settled: Vec<bool> = fill_false(size);
    let mut log: Vec<SearchState> = Vec::new();
    let ghost mut gd: Map<SearchState, int> = Map::empty();
    let mut frontier: Vec<FrontierEntry> = Vec::new();

    let start = Position { row: 0, col: 0 };
    let seed_r = SearchState { pos: start, course: Course { direction: Direction::Right, within_line: 1 } };
    let seed_d = SearchState { pos: start, course: Course { direction: Direction::Down, within_line: 1 } };
    let mut path_r: Vec<Position> = Vec::new();
    path_r.push(start);
    let mut path_d: Vec<Position> = Vec::new();
    path_d.push(start);
    let ghost wit_r: Seq<SearchState> = seq![seed_r];
    let ghost wit_d: Seq<SearchState> = seq![seed_d];
    let e_r = FrontierEntry { state: seed_r, cost: 0, path: path_r, wit: Ghost(wit_r) };
    let e_d = FrontierEntry { state: seed_d, cost: 0, path: path_d, wit: Ghost(wit_d) };
    proof {
        assert(seq![seed_r].map_values(|s: SearchState| s.pos) =~= e_r.path@);
        assert(seq![seed_d].map_values(|s: SearchState| s.pos) =~= e_d.path@);
        assert(entry_inv(g, ml, xl, e_r));
        assert(entry_inv(g, ml, xl, e_d));
    }
    frontier.push(e_r);
    frontier.push(e_d);
    proof {
        assert(gd.dom() =~= Set::<SearchState>::empty());
        assert forall|s: SearchState| state_wf(wi, hi, xl, s) implies !(#[trigger] settled_in(
            g,
            xl,
            settled@,
            s,
        )) by {
            lemma_state_index_bounds(wi, hi, xl, s);
        }
        assert forall|s: SearchState|
            (#[trigger] is_seed(s)) && state_wf(wi, hi, xl, s) && !settled_in(
                g,
                xl,
                settled@,
                s,
            ) implies exists|j: int|
            0 <= j < frontier@.len() && (#[trigger] frontier@[j]).state == s && frontier@[j].cost
                == 0 by {
            if s.course.direction == Direction::Right {
                assert(s == seed_r);
                assert(frontier@[0].state == s && frontier@[0].cost == 0);
            } else {
                assert(s == seed_d);
                assert(frontier@[1].state == s && frontier@[1].cost == 0);
            }
        }
        assert(inv_entries(g, ml, xl, frontier@));
        assert(inv_costs(g, xl, settled@, gd, frontier@));
    }
    while frontier.len() > 0
        invariant
            g == *grid,
            grid.wf(),
            1 <= min_line <= max_line,
            ml == min_line as int,
            xl == max_line as int,
            wi == g.spec_width(),
            hi == g.spec_height(),
            w as int == wi,
            h as int == hi,
            size as int == hi * wi * 4 * xl,
            size <= 0x0100_0000_0000_0000,
            settled@.len() == size,
            inv_dom(g, xl, settled@, gd),
            inv_settled_bound(g, ml, xl, gd),
            inv_entries(g, ml, xl, frontier@),
            inv_edges(g, ml, xl, settled@, gd, frontier@),
            inv_seeds(g, xl, settled@, frontier@),
            inv_no_goal_settled(g, ml, gd),
            inv_costs(g, xl, settled@, gd, frontier@),
            distinct_states(log@),
            forall|i: int|
                0 <= i < log@.len() ==> state_wf(wi, hi, xl, #[trigger] log@[i]) && settled_in(
                    g,
                    xl,
                    settled@,
                    log@[i],
                ),
        decreases size as int - count_trues(settled@), frontier@.len(),
    {
        proof {
            lemma_count_trues_le_len(settled@);
        }
        let jmin = find_min_index(&frontier);
        let ghost fv0 = frontier@;
        let e = frontier.remove(jmin);
        proof {
            assert(e == fv0[jmin as int]);
            assert(entry_inv(g, ml, xl, fv0[jmin as int]));
        }
        let sidx = state_index_exec(w, h, max_line, e.state);
        if settled[sidx] {
            proof {
                assert(settled_in(g, xl, settled@, e.state));
                lemma_frontier_remove(
                    g,
                    ml,
                    xl,
                    settled@,
                    gd,
                    fv0,
                    jmin as int,
                    9 * count_trues(settled@) + 9,
                );
            }
            continue;
        }
        proof {
            assert(!settled_in(g, xl, settled@, e.state));
        }
        if e.state.pos.row + 1 == h && e.state.pos.col + 1 == w && e.state.course.within_line
            >= min_line {
            proof {
                assert(is_goal(wi, hi, ml, e.state));
                assert(goal_trace(g, ml, xl, e.wit@));
                lemma_goal_minimal(g, ml, xl, settled@, gd, fv0, e.cost as int);
                assert(search_success(g, ml, xl, e.cost as int, e.path@));
            }
            return (Some((e.cost, e.path)), log);
        }
        // Settle: mark the state, record its (provably minimal) cost.
        let ghost settled0 = settled@;
        let ghost gd0 = gd;
        let ghost ct0 = count_trues(settled0);
        settled.set(sidx, true);
        proof {
            gd = gd.insert(e.state, e.cost as int);
            assert(!is_goal(wi, hi, ml, e.state));
            lemma_settle_update(g, ml, xl, settled0, settled@, gd0, gd, fv0, jmin as int);
        }
        let ghost fv1 = frontier@;
        let ghost log0 = log@;
        log.push(e.state);
        proof {
            let lg = log@;
            assert(lg[lg.len() - 1] == e.state);
            assert forall|i: int, j: int| 0 <= i < j < lg.len() implies lg[i] != lg[j] by {
                if j == lg.len() - 1 {
                    assert(lg[i] == log0[i]);
                    assert(settled_in(g, xl, settled0, log0[i]));
                    assert(!settled_in(g, xl, settled0, e.state));
                } else {
                    assert(lg[i] == log0[i] && lg[j] == log0[j]);
                }
            }
            assert forall|i: int| 0 <= i < lg.len() implies state_wf(wi, hi, xl, #[trigger] lg[i])
                && settled_in(g, xl, settled@, lg[i]) by {
                if i < lg.len() - 1 {
                    assert(lg[i] == log0[i]);
                    assert(settled_in(g, xl, settled0, log0[i]));
                    if log0[i] != e.state {
                        assert(settled_in(g, xl, settled@, log0[i]) == settled_in(
                            g,
                            xl,
                            settled0,
                            log0[i],
                        ));
                    }
                }
            }
        }
        expand_dir(
            grid,
            min_line,
            max_line,
            e.state,
            e.cost,
            &e.path,
            Ghost(e.wit@),
            Direction::Right,
            &settled,
            &mut frontier,
            Ghost(gd),
        );
        let ghost fv2 = frontier@;
        expand_dir(
            grid,
            min_line,
            max_line,
            e.state,
            e.cost,
            &e.path,
            Ghost(e.wit@),
            Direction::Down,
            &settled,
            &mut frontier,
            Ghost(gd),
        );
        let ghost fv3 = frontier@;
        expand_dir(
            grid,
            min_line,
            max_line,
            e.state,
            e.cost,
            &e.path,
            Ghost(e.wit@),
            Direction::Left,
            &settled,
            &mut frontier,
            Ghost(gd),
        );
        let ghost fv4 = frontier@;
        expand_dir(
            grid,
            min_line,
            max_line,
            e.state,
            e.cost,
            &e.path,
            Ghost(e.wit@),
            Direction::Up,
            &settled,
            &mut frontier,
            Ghost(gd),
        );
        proof {
            assert(gd == gd0.insert(e.state, gd[e.state]));
            lemma_assemble_edges(
                g,
                ml,
                xl,
                settled@,
                gd0,
                gd,
                e.state,
                fv1,
                fv2,
                fv3,
                fv4,
                frontier@,
            );
            lemma_count_trues_le_len(settled@);
        }
    }
    proof {
        assert forall|t: Seq<SearchState>| !(#[trigger] goal_trace(g, ml, xl, t)) by {
            if goal_trace(g, ml, xl, t) {
                let last = t[t.len() - 1];
                lemma_trace_states_wf(wi, hi, ml, xl, t, t.len() - 1);
                if settled_in(g, xl, settled@, last) {
                    assert(gd.dom().contains(last));
                    assert(!is_goal(wi, hi, ml, last));
                } else {
                    lemma_trace_bound(g, ml, xl, settled@, gd, frontier@, t, trace_cost(g, t) + 1);
                }
            }
        }
    }
    (None, log)
}

/// The one-shot query: the minimal cumulative cost from the top-left to
/// the bottom-right cell under the run-length rules, together with an
/// optimal path, or `None` exactly when no legal route exists.
pub fn find_len(grid: &Grid, min_line: u64, max_line: u64) -> (r: Option<(u64, Vec<Position>)>)
    requires
        grid.wf(),
        1 <= min_line <= max_line,
        grid.spec_height() * grid.spec_width() * 4 * max_line <= usize::MAX,
        grid.spec_height() * grid.spec_width() * 4 * max_line <= 0x0100_0000_0000_0000,
    ensures
        match r {
            Some(cp) => search_success(
                *grid,
                min_line as int,
                max_line as int,
                cp.0 as int,
                cp.1@,
            ),
            None => no_goal_trace(*grid, min_line as int, max_line as int),
        },
{
    let (outcome, _trace) = find_len_traced(grid, min_line, max_line);
    outcome
}

/// The same query with a typed error: `NoPathFound` exactly when the
/// frontier is exhausted without satisfying the goal condition.
pub fn shortest_path(grid: &Grid, min_line: u64, max_line: u64) -> (r: Result<
    (u64, Vec<Position>),
    SearchError,
>)
    requires
        grid.wf(),
        1 <= min_line <= max_line,
        grid.spec_height() * grid.spec_width() * 4 * max_line <= usize::MAX,
        grid.spec_height() * grid.spec_width() * 4 * max_line <= 0x0100_0000_0000_0000,
    ensures
        match r {
            Ok(cp) => search_success(
                *grid,
                min_line as int,
                max_line as int,
                cp.0 as int,
                cp.1@,
            ),
            Err(e) => e == SearchError::NoPathFound && no_goal_trace(
                *grid,
                min_line as int,
                max_line as int,
            ),
        },
{
    match find_len(grid, min_line, max_line) {
        Some(cp) => Ok(cp),
        None => Err(SearchError::NoPathFound),
    }
}

} // verus!
