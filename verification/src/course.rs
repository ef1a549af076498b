use vstd::prelude::*;

use crate::grid::Limit;
use crate::grid::Position;

verus! {

/// One of the four movement directions on the grid.
#[derive(Debug, PartialEq, Eq, Clone, Copy, Structural)]
pub enum Direction {
    Left,
    Right,
    Up,
    Down,
}

/// The inverse of a direction; moving toward the inverse of the current
/// direction is never legal.
pub open spec fn opposite_of(d: Direction) -> Direction {
    match d {
        Direction::Left => Direction::Right,
        Direction::Right => Direction::Left,
        Direction::Up => Direction::Down,
        Direction::Down => Direction::Up,
    }
}

impl Direction {
    /// The inverse direction.
    pub fn opposite(&self) -> (r: Direction)
        ensures
            r == opposite_of(*self),
    {
        match self {
            Direction::Left => Direction::Right,
            Direction::Right => Direction::Left,
            Direction::Up => Direction::Down,
            Direction::Down => Direction::Up,
        }
    }
}

/// How the path is currently moving: a direction together with the count
/// of consecutive cells already traversed in that direction (at least 1).
#[derive(Debug, PartialEq, Eq, Clone, Copy, Structural)]
pub struct Course {
    pub direction: Direction,
    pub within_line: u64,
}

/// The unit of deduplication during the search: a position plus the
/// course on which it was reached.
#[derive(Debug, PartialEq, Eq, Clone, Copy, Structural)]
pub struct SearchState {
    pub pos: Position,
    pub course: Course,
}

/// `p` lies inside a `w` by `h` grid.
pub open spec fn pos_in_bounds(w: int, h: int, p: Position) -> bool {
    p.row < h && p.col < w
}

/// Taking one step from `p1` in direction `d` lands exactly on `p2`.
pub open spec fn moves_to(p1: Position, d: Direction, p2: Position) -> bool {
    match d {
        Direction::Left => p1.row == p2.row && p2.col + 1 == p1.col,
        Direction::Right => p1.row == p2.row && p1.col + 1 == p2.col,
        Direction::Up => p1.col == p2.col && p2.row + 1 == p1.row,
        Direction::Down => p1.col == p2.col && p1.row + 1 == p2.row,
    }
}

/// A search state whose position is on the grid and whose run length is
/// between 1 and `max_line`.
pub open spec fn state_wf(w: int, h: int, max_line: int, s: SearchState) -> bool {
    &&& pos_in_bounds(w, h, s.pos)
    &&& 1 <= s.course.within_line <= max_line
}

/// The legal single-step transition relation of the course model:
/// the move stays on the grid, never reverses, extends a straight run
/// only below `max_line`, and turns only once the run has reached
/// `min_line`.
pub open spec fn step_ok(
    w: int,
    h: int,
    min_line: int,
    max_line: int,
    s1: SearchState,
    s2: SearchState,
) -> bool {
    &&& pos_in_bounds(w, h, s1.pos)
    &&& pos_in_bounds(w, h, s2.pos)
    &&& moves_to(s1.pos, s2.course.direction, s2.pos)
    &&& s2.course.direction != opposite_of(s1.course.direction)
    &&& if s2.course.direction == s1.course.direction {
        s1.course.within_line < max_line && s2.course.within_line == s1.course.within_line + 1
    } else {
        s1.course.within_line >= min_line && s2.course.within_line == 1
    }
}

/// The two seed states of a search: the start corner, run length 1,
/// heading right or down.  Seeds bypass the `min_line` check because no
/// prior run exists to have satisfied it.
pub open spec fn is_seed(s: SearchState) -> bool {
    &&& s.pos.row == 0
    &&& s.pos.col == 0
    &&& s.course.within_line == 1
    &&& (s.course.direction == Direction::Right || s.course.direction == Direction::Down)
}

/// A legal route through the state space: it begins at a seed and every
/// consecutive pair is a legal step.
pub open spec fn trace_ok(
    w: int,
    h: int,
    min_line: int,
    max_line: int,
    t: Seq<SearchState>,
) -> bool {
    &&& t.len() >= 1
    &&& is_seed(t[0])
    &&& forall|i: int| 1 <= i < t.len() ==> step_ok(w, h, min_line, max_line, t[i - 1], #[trigger] t[i])
}

/// Every state on a legal trace is well formed.
pub proof fn lemma_trace_states_wf(
    w: int,
    h: int,
    min_line: int,
    max_line: int,
    t: Seq<SearchState>,
    i: int,
)
    requires
        trace_ok(w, h, min_line, max_line, t),
        1 <= min_line <= max_line,
        1 <= w,
        1 <= h,
        0 <= i < t.len(),
    ensures
        state_wf(w, h, max_line, t[i]),
    decreases i,
{
    if i == 0 {
        assert(is_seed(t[0]));
    } else {
        lemma_trace_states_wf(w, h, min_line, max_line, t, i - 1);
        assert(step_ok(w, h, min_line, max_line, t[i - 1], t[i]));
    }
}

/// A prefix of a legal trace is itself a legal trace.
pub proof fn lemma_trace_prefix(
    w: int,
    h: int,
    min_line: int,
    max_line: int,
    t: Seq<SearchState>,
    n: int,
)
    requires
        trace_ok(w, h, min_line, max_line, t),
        1 <= n <= t.len(),
    ensures
        trace_ok(w, h, min_line, max_line, t.subrange(0, n)),
{
    let p = t.subrange(0, n);
    assert(p[0] == t[0]);
    assert forall|i: int| 1 <= i < p.len() implies step_ok(
        w,
        h,
        min_line,
        max_line,
        p[i - 1],
        #[trigger] p[i],
    ) by {
        assert(p[i] == t[i]);
        assert(p[i - 1] == t[i - 1]);
        assert(step_ok(w, h, min_line, max_line, t[i - 1], t[i]));
    }
}

/// Extending a legal trace by one legal step keeps it legal.
pub proof fn lemma_trace_push(
    w: int,
    h: int,
    min_line: int,
    max_line: int,
    t: Seq<SearchState>,
    s: SearchState,
)
    requires
        trace_ok(w, h, min_line, max_line, t),
        step_ok(w, h, min_line, max_line, t[t.len() - 1], s),
    ensures
        trace_ok(w, h, min_line, max_line, t.push(s)),
{
    let t2 = t.push(s);
    assert(t2[0] == t[0]);
    assert forall|i: int| 1 <= i < t2.len() implies step_ok(
        w,
        h,
        min_line,
        max_line,
        t2[i - 1],
        #[trigger] t2[i],
    ) by {
        if i < t.len() {
            assert(t2[i] == t[i]);
            assert(t2[i - 1] == t[i - 1]);
            assert(step_ok(w, h, min_line, max_line, t[i - 1], t[i]));
        } else {
            assert(t2[i] == s);
            assert(t2[i - 1] == t[t.len() - 1]);
        }
    }
}

impl Course {
    /// Attempts one step from `pos` in `new_dir` under this course.
    ///
    /// Returns the new position and course exactly when the step is legal
    /// per the course model (`step_ok`); returns `None` exactly when no
    /// state in direction `new_dir` is reachable by a legal step.
    pub fn go<T: Limit>(
        &self,
        pos: &Position,
        new_dir: Direction,
        limits: &T,
        min_line: u64,
        max_line: u64,
    ) -> (r: Option<(Position, Course)>)
        requires
            pos_in_bounds(limits.spec_width(), limits.spec_height(), *pos),
        ensures
            match r {
                Some(pc) => {
                    &&& pc.1.direction == new_dir
                    &&& step_ok(
                        limits.spec_width(),
                        limits.spec_height(),
                        min_line as int,
                        max_line as int,
                        SearchState { pos: *pos, course: *self },
                        SearchState { pos: pc.0, course: pc.1 },
                    )
                },
                None => forall|s2: SearchState|
                    s2.course.direction == new_dir ==> !(#[trigger] step_ok(
                        limits.spec_width(),
                        limits.spec_height(),
                        min_line as int,
                        max_line as int,
                        SearchState { pos: *pos, course: *self },
                        s2,
                    )),
            },
    {
        let w = limits.width();
        let h = limits.height();
        if new_dir == self.direction.opposite() {
            return None;
        }
        let new_pos: Position = match new_dir {
            Direction::Left => {
                if pos.col == 0 {
                    return None;
                }
                Position { row: pos.row, col: pos.col - 1 }
            },
            Direction::Right => {
                if pos.col + 1 >= w {
                    return None;
                }
                Position { row: pos.row, col: pos.col + 1 }
            },
            Direction::Up => {
                if pos.row == 0 {
                    return None;
                }
                Position { row: pos.row - 1, col: pos.col }
            },
            Direction::Down => {
                if pos.row + 1 >= h {
                    return None;
                }
                Position { row: pos.row + 1, col: pos.col }
            },
        };
        if new_dir == self.direction {
            if self.within_line >= max_line {
                return None;
            }
            Some((new_pos, Course { direction: new_dir, within_line: self.within_line + 1 }))
        } else {
            if self.within_line < min_line {
                return None;
            }
            Some((new_pos, Course { direction: new_dir, within_line: 1 }))
        }
    }
}

} // verus!
