use vstd::prelude::*;

use crate::errors::SearchError;

verus! {

/// A cell coordinate: row index and column index, both zero-based.
#[derive(Debug, PartialEq, Eq, Clone, Copy, Structural)]
pub struct Position {
    pub row: usize,
    pub col: usize,
}

/// The narrow capability the course model needs from a grid: its
/// rectangular bounds.  The search itself does not depend on a concrete
/// grid representation for move legality, only on this interface.
pub trait Limit {
    spec fn spec_width(&self) -> int;

    spec fn spec_height(&self) -> int;

    fn width(&self) -> (r: usize)
        ensures
            r == self.spec_width(),
    ;

    fn height(&self) -> (r: usize)
        ensures
            r == self.spec_height(),
    ;
}

/// Is `ch` an ASCII decimal digit?
pub open spec fn is_digit_char(ch: char) -> bool {
    48 <= ch as int <= 57
}

/// The numeric value of an ASCII decimal digit.
pub open spec fn digit_val(ch: char) -> int {
    ch as int - 48
}

/// Every row of `lines` has the same length as the first, and the grid is
/// nonempty in both dimensions.
pub open spec fn lines_rectangular(lines: Seq<Seq<char>>) -> bool {
    &&& lines.len() >= 1
    &&& lines[0].len() >= 1
    &&& forall|r: int| 0 <= r < lines.len() ==> (#[trigger] lines[r]).len() == lines[0].len()
}

/// Every character of `lines` is an ASCII decimal digit.
pub open spec fn lines_all_digits(lines: Seq<Seq<char>>) -> bool {
    forall|r: int, c: int|
        0 <= r < lines.len() && 0 <= c < lines[r].len() ==> is_digit_char(
            #[trigger] lines[r][c],
        )
}

/// An immutable rectangular grid of per-cell entry costs, each a single
/// decimal digit.  Constructed once and never mutated.
#[derive(Debug)]
pub struct Grid {
    pub cells: Vec<Vec<u8>>,
    pub width: usize,
    pub height: usize,
}

impl Grid {
    /// Well-formedness: dimensions are positive and match the cell
    /// storage, and every cost is a single digit.
    pub open spec fn wf(&self) -> bool {
        &&& self.height >= 1
        &&& self.width >= 1
        &&& self.cells@.len() == self.height
        &&& forall|r: int|
            0 <= r < self.cells@.len() ==> (#[trigger] self.cells@[r])@.len() == self.width
        &&& forall|r: int, c: int|
            0 <= r < self.cells@.len() && 0 <= c < self.cells@[r]@.len() ==> (#[trigger] self
                .cells@[r]@[c]) <= 9
    }

    /// The cost charged for entering the cell at row `r`, column `c`.
    pub open spec fn cost_at(&self, r: int, c: int) -> int {
        self.cells@[r]@[c] as int
    }

    /// Is `p` inside the grid?
    pub open spec fn contains(&self, p: Position) -> bool {
        p.row < self.height && p.col < self.width
    }

    /// Builds a grid from textual lines, one character per cell.
    ///
    /// Fails with `InvalidDimensions` when the lines are empty or not all
    /// of one positive length, and with `ParseError` when a character is
    /// not an ASCII digit; succeeds exactly otherwise.
    pub fn parse(lines: &Vec<String>) -> (r: Result<Grid, SearchError>)
        ensures
            match r {
                Ok(g) => {
                    &&& lines_rectangular(lines.deep_view())
                    &&& lines_all_digits(lines.deep_view())
                    &&& g.wf()
                    &&& g.spec_height() == lines.deep_view().len()
                    &&& g.spec_width() == lines.deep_view()[0].len()
                    &&& forall|rr: int, cc: int|
                        0 <= rr < g.spec_height() && 0 <= cc < g.spec_width() ==> g.cost_at(rr, cc)
                            == digit_val(#[trigger] lines.deep_view()[rr][cc])
                },
                Err(SearchError::InvalidDimensions) => !lines_rectangular(lines.deep_view()),
                Err(SearchError::ParseError) => lines_rectangular(lines.deep_view())
                    && !lines_all_digits(lines.deep_view()),
                Err(_) => false,
            },
    {
        let ghost lv = lines.deep_view();
        proof {
            assert(lv.len() == lines@.len());
            assert(forall|r: int| 0 <= r < lv.len() ==> #[trigger] lv[r] == lines@[r]@);
        }
        if lines.len() == 0 {
            return Err(SearchError::InvalidDimensions);
        }
        let width = lines[0].unicode_len();
        if width == 0 {
            assert(lv[0].len() == 0);
            return Err(SearchError::InvalidDimensions);
        }
        let mut i: usize = 0;
        while i < lines.len()
            invariant
                0 <= i <= lines.len(),
                lv == lines.deep_view(),
                lv.len() == lines.len(),
                forall|r: int| 0 <= r < lv.len() ==> lv[r] == lines@[r]@,
                width == lv[0].len(),
                forall|r: int| 0 <= r < i ==> (#[trigger] lv[r]).len() == width,
            decreases lines.len() - i,
        {
            if lines[i].unicode_len() != width {
                assert(lv[i as int].len() != lv[0].len());
                assert(!lines_rectangular(lv));
                return Err(SearchError::InvalidDimensions);
            }
            i = i + 1;
        }
        assert(lines_rectangular(lv));
        let mut cells: Vec<Vec<u8>> = Vec::new();
        let mut r: usize = 0;
        while r < lines.len()
            invariant
                0 <= r <= lines.len(),
                lv == lines.deep_view(),
                lv.len() == lines.len(),
                forall|k: int| 0 <= k < lv.len() ==> lv[k] == lines@[k]@,
                lines_rectangular(lv),
                width == lv[0].len(),
                cells@.len() == r,
                forall|k: int| 0 <= k < r ==> (#[trigger] cells@[k])@.len() == width,
                forall|k: int, c: int|
                    0 <= k < r && 0 <= c < width ==> is_digit_char(#[trigger] lv[k][c]),
                forall|k: int, c: int|
                    0 <= k < r && 0 <= c < width ==> cells@[k]@[c] == digit_val(
                        #[trigger] lv[k][c],
                    ),
            decreases lines.len() - r,
        {
            let line = &lines[r];
            let mut row: Vec<u8> = Vec::new();
            let mut c: usize = 0;
            while c < width
                invariant
                    0 <= c <= width,
                    lv == lines.deep_view(),
                    lv.len() == lines.len(),
                    r < lines.len(),
                    line == &lines@[r as int],
                    line@ == lv[r as int],
                    width == lv[0].len(),
                    lines_rectangular(lv),
                    row@.len() == c,
                    forall|j: int| 0 <= j < c ==> is_digit_char(#[trigger] lv[r as int][j]),
                    forall|j: int|
                        0 <= j < c ==> (#[trigger] row@[j]) == digit_val(lv[r as int][j]),
                decreases width - c,
            {
                let ch = line.as_str().get_char(c);
                let code = ch as u32;
                if code < 48 || code > 57 {
                    return Err(SearchError::ParseError);
                }
                row.push((code - 48) as u8);
                c = c + 1;
            }
            cells.push(row);
            r = r + 1;
        }
        assert(lines_all_digits(lv)) by {
            assert(forall|k: int, c: int|
                0 <= k < lv.len() && 0 <= c < lv[k].len() ==> is_digit_char(
                    #[trigger] lv[k][c],
                ));
        }
        let g = Grid { cells, width, height: lines.len() };
        assert forall|k: int, c: int|
            0 <= k < g.cells@.len() && 0 <= c < g.cells@[k]@.len() implies (
        #[trigger] g.cells@[k]@[c]) <= 9 by {
            assert(is_digit_char(lv[k][c]));
            assert(g.cells@[k]@[c] == digit_val(lv[k][c]));
        }
        assert(g.wf());
        Ok(g)
    }

    /// Bounds-checked constant-time cost lookup: the cost of entering
    /// `p`, or `OutOfBounds` when `p` lies outside the grid.
    pub fn cost(&self, p: Position) -> (r: Result<u64, SearchError>)
        requires
            self.wf(),
        ensures
            match r {
                Ok(v) => self.contains(p) && v == self.cost_at(p.row as int, p.col as int),
                Err(e) => !self.contains(p) && e == SearchError::OutOfBounds,
            },
    {
        if p.row < self.height && p.col < self.width {
            Ok(self.cells[p.row][p.col] as u64)
        } else {
            Err(SearchError::OutOfBounds)
        }
    }

    /// Unchecked lookup for callers that have proved `p` in bounds.
    pub fn entry_cost(&self, p: Position) -> (r: u64)
        requires
            self.wf(),
            self.contains(p),
        ensures
            r == self.cost_at(p.row as int, p.col as int),
            r <= 9,
    {
        self.cells[p.row][p.col] as u64
    }
}

impl Limit for Grid {
    open spec fn spec_width(&self) -> int {
        self.width as int
    }

    open spec fn spec_height(&self) -> int {
        self.height as int
    }

    fn width(&self) -> (r: usize) {
        self.width
    }

    fn height(&self) -> (r: usize) {
        self.height
    }
}

} // verus!
