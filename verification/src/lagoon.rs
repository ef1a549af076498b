use vstd::prelude::*;

use crate::grid::{digit_val, is_digit_char};

verus! {

/// One of the four digging directions.
#[derive(Debug, PartialEq, Eq, Clone, Copy, Structural)]
pub enum Direction {
    Left,
    Right,
    Up,
    Down,
}

/// The movement offset of a direction, in (row, column) form.
pub open spec fn offset_of(d: Direction) -> (int, int) {
    match d {
        Direction::Left => (0, -1),
        Direction::Right => (0, 1),
        Direction::Up => (-1, 0),
        Direction::Down => (1, 0),
    }
}

/// Where `steps` moves in direction `d` land, starting from `pos`.
pub open spec fn jump_of(d: Direction, pos: (int, int), steps: int) -> (int, int) {
    (pos.0 + steps * offset_of(d).0, pos.1 + steps * offset_of(d).1)
}

impl Direction {
    /// The movement offset, in (row, column) form.
    pub fn offset(&self) -> (r: (i64, i64))
        ensures
            (r.0 as int, r.1 as int) == offset_of(*self),
    {
        match self {
            Direction::Left => (0, -1),
            Direction::Right => (0, 1),
            Direction::Up => (-1, 0),
            Direction::Down => (1, 0),
        }
    }

    /// Takes `steps` moves at once.
    pub fn jump(&self, pos: (i64, i64), steps: i64) -> (r: (i64, i64))
        requires
            i64::MIN <= pos.0 - steps,
            pos.0 + steps <= i64::MAX,
            i64::MIN <= pos.1 - steps,
            pos.1 + steps <= i64::MAX,
            i64::MIN <= pos.0 + steps,
            pos.0 - steps <= i64::MAX,
            i64::MIN <= pos.1 + steps,
            pos.1 - steps <= i64::MAX,
        ensures
            (r.0 as int, r.1 as int) == jump_of(*self, (pos.0 as int, pos.1 as int), steps as int),
    {
        match self {
            Direction::Left => (pos.0, pos.1 - steps),
            Direction::Right => (pos.0, pos.1 + steps),
            Direction::Up => (pos.0 - steps, pos.1),
            Direction::Down => (pos.0 + steps, pos.1),
        }
    }
}

/// Twice the signed area of the polygon given by `p[0 .. n]`, by the
/// shoelace formula over consecutive vertex pairs.
pub open spec fn shoelace(p: Seq<(i64, i64)>, n: int) -> int
    decreases n,
{
    if n <= 0 {
        0
    } else {
        shoelace(p, n - 1) + p[n - 1].1 * p[n].0 - p[n].1 * p[n - 1].0
    }
}

/// The unsigned area of the polygon whose vertices are `poly` (the last
/// vertex is expected to repeat the first): half the absolute shoelace
/// sum.
pub fn area(poly: &Vec<(i64, i64)>) -> (r: i64)
    requires
        poly@.len() >= 1,
        poly@.len() <= 0x10_0000,
        forall|i: int|
            0 <= i < poly@.len() ==> -0x10_0000 <= (#[trigger] poly@[i]).0 <= 0x10_0000
                && -0x10_0000 <= poly@[i].1 <= 0x10_0000,
    ensures
        r == (if shoelace(poly@, poly@.len() - 1) >= 0 {
            shoelace(poly@, poly@.len() - 1)
        } else {
            -shoelace(poly@, poly@.len() - 1)
        }) / 2,
        r >= 0,
{
    let mut sum: i64 = 0;
    let mut i: usize = 0;
    let n = poly.len();
    while i < n - 1
        invariant
            poly@.len() == n >= 1,
            n <= 0x10_0000,
            0 <= i <= n - 1,
            forall|k: int|
                0 <= k < poly@.len() ==> -0x10_0000 <= (#[trigger] poly@[k]).0 <= 0x10_0000
                    && -0x10_0000 <= poly@[k].1 <= 0x10_0000,
            sum == shoelace(poly@, i as int),
            -(i as int) * 0x200_0000_0000 <= sum <= (i as int) * 0x200_0000_0000,
        decreases n - 1 - i,
    {
        let a = poly[i];
        let b = poly[i + 1];
        proof {
            assert(-0x100_0000_0000 <= a.1 as int * b.0 as int <= 0x100_0000_0000)
                by (nonlinear_arith)
                requires
                    -0x10_0000 <= a.1 <= 0x10_0000,
                    -0x10_0000 <= b.0 <= 0x10_0000,
            ;
            assert(-0x100_0000_0000 <= b.1 as int * a.0 as int <= 0x100_0000_0000)
                by (nonlinear_arith)
                requires
                    -0x10_0000 <= b.1 <= 0x10_0000,
                    -0x10_0000 <= a.0 <= 0x10_0000,
            ;
        }
        let t1 = a.1 * b.0;
        let t2 = b.1 * a.0;
        proof {
            assert((i as int) * 0x200_0000_0000 <= 0x10_0000 * 0x200_0000_0000)
                by (nonlinear_arith)
                requires
                    0 <= i <= 0x10_0000,
            ;
            assert((i as int + 1) * 0x200_0000_0000 == (i as int) * 0x200_0000_0000
                + 0x200_0000_0000);
        }
        let s1 = sum + t1;
        sum = s1 - t2;
        i = i + 1;
    }
    let r = if sum < 0 {
        -sum
    } else {
        sum
    };
    r / 2
}

} // verus!
