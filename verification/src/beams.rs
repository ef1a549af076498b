use vstd::prelude::*;

use crate::course::Direction;
use crate::engine::{count_trues, dir_index, fill_false, lemma_count_trues_le_len,
    lemma_count_trues_update};
use crate::errors::SearchError;
use crate::grid::Limit;

verus! {

/// The lean of a mirror cell: toward the lower right, or the upper
/// right.
#[derive(Debug, PartialEq, Eq, Clone, Copy, Structural)]
pub enum MirrorType {
    RightDown,
    RightUp,
}

/// The orientation of a splitter cell.
#[derive(Debug, PartialEq, Eq, Clone, Copy, Structural)]
pub enum PipeType {
    Horizontal,
    Vertical,
}

/// One cell of the contraption: empty floor, a mirror, or a splitter.
#[derive(Debug, PartialEq, Eq, Clone, Copy, Structural)]
pub enum Cell {
    Empty,
    Mirror(MirrorType),
    Pipe(PipeType),
}

/// A beam head: the direction it travels and the cell it is on.
#[derive(Debug, PartialEq, Eq, Clone, Copy, Structural)]
pub struct PathElement {
    pub direction: Direction,
    pub row: usize,
    pub col: usize,
}

/// The grid of mirrors and splitters a beam bounces through.
#[derive(Debug)]
pub struct Contraption {
    pub cells: Vec<Vec<Cell>>,
    pub width: usize,
    pub height: usize,
}

/// The cell a character denotes, if any.
pub open spec fn cell_of_char(c: char) -> Option<Cell> {
    if c == '.' {
        Some(Cell::Empty)
    } else if c == '|' {
        Some(Cell::Pipe(PipeType::Vertical))
    } else if c == '-' {
        Some(Cell::Pipe(PipeType::Horizontal))
    } else if c == '/' {
        Some(Cell::Mirror(MirrorType::RightUp))
    } else if c == '\\' {
        Some(Cell::Mirror(MirrorType::RightDown))
    } else {
        None
    }
}

impl Contraption {
    /// Well-formedness: positive, rectangular cell storage.
    pub open spec fn wf(&self) -> bool {
        &&& self.height >= 1
        &&& self.width >= 1
        &&& self.cells@.len() == self.height
        &&& forall|r: int|
            0 <= r < self.cells@.len() ==> (#[trigger] self.cells@[r])@.len() == self.width
    }

    /// The cell at row `r`, column `c`.
    pub open spec fn at(&self, r: int, c: int) -> Cell {
        self.cells@[r]@[c]
    }

    /// Builds a contraption from textual lines; fails with
    /// `InvalidDimensions` when the lines are empty or not rectangular,
    /// and with `ParseError` when a character denotes no cell.
    pub fn parse(lines: &Vec<String>) -> (r: Result<Contraption, SearchError>)
        ensures
            match r {
                Ok(m) => {
                    &&& crate::grid::lines_rectangular(lines.deep_view())
                    &&& m.wf()
                    &&& m.spec_height() == lines.deep_view().len()
                    &&& m.spec_width() == lines.deep_view()[0].len()
                    &&& forall|rr: int, cc: int|
                        0 <= rr < m.spec_height() && 0 <= cc < m.spec_width() ==> cell_of_char(
                            #[trigger] lines.deep_view()[rr][cc],
                        ) == Some(m.at(rr, cc))
                },
                Err(SearchError::InvalidDimensions) => !crate::grid::lines_rectangular(
                    lines.deep_view(),
                ),
                Err(SearchError::ParseError) => crate::grid::lines_rectangular(lines.deep_view())
                    && exists|rr: int, cc: int|
                    0 <= rr < lines.deep_view().len() && 0 <= cc
                        < lines.deep_view()[0].len() && cell_of_char(
                        #[trigger] lines.deep_view()[rr][cc],
                    ) is None,
                Err(_) => false,
            },
    {
        let ghost lv = lines.deep_view();
        proof {
            assert(lv.len() == lines@.len());
            assert(forall|r: int| 0 <= r < lv.len() ==> #[trigger] lv[r] == lines@[r]@);
        }
        if lines.len() == 0 {
            return Err(SearchError::InvalidDimensions);
        }
        let width = lines[0].as_str().unicode_len();
        if width == 0 {
            assert(lv[0].len() == 0);
            return Err(SearchError::InvalidDimensions);
        }
        let mut i: usize = 0;
        while i < lines.len()
            invariant
                0 <= i <= lines.len(),
                lv == lines.deep_view(),
                lv.len() == lines.len(),
                forall|r: int| 0 <= r < lv.len() ==> lv[r] == lines@[r]@,
                width == lv[0].len(),
                forall|r: int| 0 <= r < i ==> (#[trigger] lv[r]).len() == width,
            decreases lines.len() - i,
        {
            if lines[i].as_str().unicode_len() != width {
                assert(lv[i as int].len() != lv[0].len());
                assert(!crate::grid::lines_rectangular(lv));
                return Err(SearchError::InvalidDimensions);
            }
            i = i + 1;
        }
        assert(crate::grid::lines_rectangular(lv));
        let mut cells: Vec<Vec<Cell>> = Vec::new();
        let mut r: usize = 0;
        while r < lines.len()
            invariant
                0 <= r <= lines.len(),
                lv == lines.deep_view(),
                lv.len() == lines.len(),
                forall|k: int| 0 <= k < lv.len() ==> lv[k] == lines@[k]@,
                crate::grid::lines_rectangular(lv),
                width == lv[0].len(),
                cells@.len() == r,
                forall|k: int| 0 <= k < r ==> (#[trigger] cells@[k])@.len() == width,
                forall|k: int, c: int|
                    0 <= k < r && 0 <= c < width ==> cell_of_char(#[trigger] lv[k][c]) == Some(
                        cells@[k]@[c],
                    ),
            decreases lines.len() - r,
        {
            let line = &lines[r];
            let mut row: Vec<Cell> = Vec::new();
            let mut c: usize = 0;
            while c < width
                invariant
                    0 <= c <= width,
                    lv == lines.deep_view(),
                    lv.len() == lines.len(),
                    r < lines.len(),
                    line == &lines@[r as int],
                    line@ == lv[r as int],
                    width == lv[0].len(),
                    crate::grid::lines_rectangular(lv),
                    row@.len() == c,
                    forall|j: int|
                        0 <= j < c ==> cell_of_char(#[trigger] lv[r as int][j]) == Some(
                            row@[j],
                        ),
                decreases width - c,
            {
                let ch = line.as_str().get_char(c);
                let cell = if ch == '.' {
                    Cell::Empty
                } else if ch == '|' {
                    Cell::Pipe(PipeType::Vertical)
                } else if ch == '-' {
                    Cell::Pipe(PipeType::Horizontal)
                } else if ch == '/' {
                    Cell::Mirror(MirrorType::RightUp)
                } else if ch == '\\' {
                    Cell::Mirror(MirrorType::RightDown)
                } else {
                    return Err(SearchError::ParseError);
                };
                row.push(cell);
                c = c + 1;
            }
            cells.push(row);
            r = r + 1;
        }
        let m = Contraption { cells, width, height: lines.len() };
        Ok(m)
    }
}

impl Limit for Contraption {
    open spec fn spec_width(&self) -> int {
        self.width as int
    }

    open spec fn spec_height(&self) -> int {
        self.height as int
    }

    fn width(&self) -> (r: usize) {
        self.width
    }

    fn height(&self) -> (r: usize) {
        self.height
    }
}

/// Which directions a beam travelling `d` leaves a cell in: straight
/// through empty floor and aligned splitters, turned by mirrors, split
/// in two by crosswise splitters.
pub open spec fn out_dirs(d: Direction, c: Cell) -> Seq<Direction> {
    match c {
        Cell::Empty => seq![d],
        Cell::Mirror(m) => match m {
            MirrorType::RightDown => match d {
                Direction::Up => seq![Direction::Left],
                Direction::Down => seq![Direction::Right],
                Direction::Left => seq![Direction::Up],
                Direction::Right => seq![Direction::Down],
            },
            MirrorType::RightUp => match d {
                Direction::Up => seq![Direction::Right],
                Direction::Down => seq![Direction::Left],
                Direction::Left => seq![Direction::Down],
                Direction::Right => seq![Direction::Up],
            },
        },
        Cell::Pipe(p) => match p {
            PipeType::Horizontal => match d {
                Direction::Up => seq![Direction::Left, Direction::Right],
                Direction::Down => seq![Direction::Left, Direction::Right],
                Direction::Left => seq![Direction::Left],
                Direction::Right => seq![Direction::Right],
            },
            PipeType::Vertical => match d {
                Direction::Up => seq![Direction::Up],
                Direction::Down => seq![Direction::Down],
                Direction::Left => seq![Direction::Up, Direction::Down],
                Direction::Right => seq![Direction::Up, Direction::Down],
            },
        },
    }
}

/// Is the beam head on the grid?
pub open spec fn elem_in_bounds(w: int, h: int, e: PathElement) -> bool {
    e.row < h && e.col < w
}

/// One step from `(row, col)` in direction `d`, or `None` off the grid.
pub open spec fn moved(w: int, h: int, row: int, col: int, d: Direction) -> Option<PathElement> {
    match d {
        Direction::Up => if row >= 1 && row - 1 < h && 0 <= col < w {
            Some(PathElement { direction: d, row: (row - 1) as usize, col: col as usize })
        } else {
            None
        },
        Direction::Down => if row + 1 < h && 0 <= col < w {
            Some(PathElement { direction: d, row: (row + 1) as usize, col: col as usize })
        } else {
            None
        },
        Direction::Left => if col >= 1 && col - 1 < w && 0 <= row < h {
            Some(PathElement { direction: d, row: row as usize, col: (col - 1) as usize })
        } else {
            None
        },
        Direction::Right => if col + 1 < w && 0 <= row < h {
            Some(PathElement { direction: d, row: row as usize, col: (col + 1) as usize })
        } else {
            None
        },
    }
}

/// The in-bounds successors reached by following `ds` out of `e`.
pub open spec fn elems_of_dirs(w: int, h: int, e: PathElement, ds: Seq<Direction>) -> Seq<
    PathElement,
>
    decreases ds.len(),
{
    if ds.len() == 0 {
        Seq::empty()
    } else {
        match moved(w, h, e.row as int, e.col as int, ds[0]) {
            Some(x) => seq![x] + elems_of_dirs(w, h, e, ds.drop_first()),
            None => elems_of_dirs(w, h, e, ds.drop_first()),
        }
    }
}

/// The successors of a beam head.
pub open spec fn next_spec(m: Contraption, e: PathElement) -> Seq<PathElement> {
    elems_of_dirs(
        m.spec_width(),
        m.spec_height(),
        e,
        out_dirs(e.direction, m.at(e.row as int, e.col as int)),
    )
}

/// Successors stay on the grid.
proof fn lemma_elems_in_bounds(w: int, h: int, e: PathElement, ds: Seq<Direction>, j: int)
    requires
        0 <= j < elems_of_dirs(w, h, e, ds).len(),
    ensures
        elem_in_bounds(w, h, elems_of_dirs(w, h, e, ds)[j]),
    decreases ds.len(),
{
    if ds.len() > 0 {
        match moved(w, h, e.row as int, e.col as int, ds[0]) {
            Some(x) => {
                if j > 0 {
                    lemma_elems_in_bounds(w, h, e, ds.drop_first(), j - 1);
                }
            },
            None => {
                lemma_elems_in_bounds(w, h, e, ds.drop_first(), j);
            },
        }
    }
}


/// A legal beam history: it begins at `start` and each element is a
/// successor of the one before.
pub open spec fn beam_trace(m: Contraption, start: PathElement, t: Seq<PathElement>) -> bool {
    &&& t.len() >= 1
    &&& t[0] == start
    &&& forall|i: int| 1 <= i < t.len() ==> next_spec(m, t[i - 1]).contains(#[trigger] t[i])
}

/// A beam from `start` eventually occupies `e`.
pub open spec fn beam_reaches(m: Contraption, start: PathElement, e: PathElement) -> bool {
    exists|t: Seq<PathElement>| #[trigger] beam_trace(m, start, t) && t[t.len() - 1] == e
}

/// Extending a history by one successor keeps it legal.
proof fn lemma_beam_extend(m: Contraption, start: PathElement, t: Seq<PathElement>, s: PathElement)
    requires
        beam_trace(m, start, t),
        next_spec(m, t[t.len() - 1]).contains(s),
    ensures
        beam_trace(m, start, t.push(s)),
{
    let t2 = t.push(s);
    assert(t2[0] == t[0]);
    assert forall|i: int| 1 <= i < t2.len() implies next_spec(m, t2[i - 1]).contains(
        #[trigger] t2[i],
    ) by {
        if i < t.len() {
            assert(t2[i] == t[i] && t2[i - 1] == t[i - 1]);
            assert(next_spec(m, t[i - 1]).contains(t[i]));
        } else {
            assert(t2[i] == s && t2[i - 1] == t[t.len() - 1]);
        }
    }
}

/// The dense bitmap index of a beam head.
pub open spec fn pidx(w: int, e: PathElement) -> int {
    (e.row * w + e.col) * 4 + dir_index(e.direction)
}

/// Is `e` marked in the bitmap?
pub open spec fn visited_at(w: int, bits: Seq<bool>, e: PathElement) -> bool {
    bits[pidx(w, e)]
}

/// Is the cell `(r, c)` marked in the cell bitmap?
pub open spec fn cell_at(w: int, bits: Seq<bool>, r: int, c: int) -> bool {
    bits[r * w + c]
}

proof fn lemma_pidx_bounds(w: int, h: int, e: PathElement)
    requires
        1 <= w,
        1 <= h,
        elem_in_bounds(w, h, e),
    ensures
        0 <= pidx(w, e) < h * w * 4,
{
    let row = e.row as int;
    let col = e.col as int;
    let di = dir_index(e.direction);
    assert(0 <= di < 4);
    assert(row * w + col < h * w) by (nonlinear_arith)
        requires
            0 <= row,
            row < h,
            0 <= col,
            col < w,
            1 <= w,
    ;
    assert((row * w + col) * 4 + di < h * w * 4) by (nonlinear_arith)
        requires
            0 <= di < 4,
            row * w + col < h * w,
    ;
    assert(0 <= (row * w + col) * 4 + di) by (nonlinear_arith)
        requires
            0 <= row,
            0 <= col,
            0 <= di,
            1 <= w,
    ;
}

proof fn lemma_pidx_injective(w: int, h: int, e1: PathElement, e2: PathElement)
    requires
        1 <= w,
        1 <= h,
        elem_in_bounds(w, h, e1),
        elem_in_bounds(w, h, e2),
        pidx(w, e1) == pidx(w, e2),
    ensures
        e1 == e2,
{
    let a1 = e1.row * w + e1.col;
    let a2 = e2.row * w + e2.col;
    let d1 = dir_index(e1.direction);
    let d2 = dir_index(e2.direction);
    assert(a1 == a2 && d1 == d2) by (nonlinear_arith)
        requires
            a1 * 4 + d1 == a2 * 4 + d2,
            0 <= d1 < 4,
            0 <= d2 < 4,
    ;
    assert(e1.row == e2.row && e1.col == e2.col) by (nonlinear_arith)
        requires
            e1.row * w + e1.col == e2.row * w + e2.col,
            0 <= e1.col < w,
            0 <= e2.col < w,
            0 <= e1.row,
            0 <= e2.row,
    ;
}

proof fn lemma_cell_index_injective(w: int, r1: int, c1: int, r2: int, c2: int)
    requires
        0 <= c1 < w,
        0 <= c2 < w,
        0 <= r1,
        0 <= r2,
        r1 * w + c1 == r2 * w + c2,
    ensures
        r1 == r2 && c1 == c2,
{
    assert(r1 == r2 && c1 == c2) by (nonlinear_arith)
        requires
            r1 * w + c1 == r2 * w + c2,
            0 <= c1 < w,
            0 <= c2 < w,
            0 <= r1,
            0 <= r2,
    ;
}


/// One executable step, mirroring `moved`.
fn step_exec(w: usize, h: usize, e: &PathElement, d: Direction) -> (r: Option<PathElement>)
    ensures
        r == moved(w as int, h as int, e.row as int, e.col as int, d),
{
    match d {
        Direction::Up => {
            if e.row >= 1 && e.row - 1 < h && e.col < w {
                Some(PathElement { direction: d, row: e.row - 1, col: e.col })
            } else {
                None
            }
        },
        Direction::Down => {
            if e.row < h && e.row + 1 < h && e.col < w {
                Some(PathElement { direction: d, row: e.row + 1, col: e.col })
            } else {
                None
            }
        },
        Direction::Left => {
            if e.col >= 1 && e.col - 1 < w && e.row < h {
                Some(PathElement { direction: d, row: e.row, col: e.col - 1 })
            } else {
                None
            }
        },
        Direction::Right => {
            if e.col < w && e.col + 1 < w && e.row < h {
                Some(PathElement { direction: d, row: e.row, col: e.col + 1 })
            } else {
                None
            }
        },
    }
}

/// The in-bounds successors of a beam head, exactly as `next_spec` has
/// them.
fn next_of(m: &Contraption, e: &PathElement) -> (r: Vec<PathElement>)
    requires
        m.wf(),
        elem_in_bounds(m.spec_width(), m.spec_height(), *e),
    ensures
        r@ == next_spec(*m, *e),
        forall|k: int|
            0 <= k < r@.len() ==> elem_in_bounds(
                m.spec_width(),
                m.spec_height(),
                #[trigger] r@[k],
            ),
{
    let ghost wi = m.spec_width();
    let ghost hi = m.spec_height();
    let w = m.width();
    let h = m.height();
    let cell = m.cells[e.row][e.col];
    let d = e.direction;
    let (d1, d2): (Direction, Option<Direction>) = match (d, cell) {
        (_, Cell::Empty) => (d, None),
        (Direction::Up, Cell::Mirror(MirrorType::RightDown)) => (Direction::Left, None),
        (Direction::Up, Cell::Mirror(MirrorType::RightUp)) => (Direction::Right, None),
        (Direction::Down, Cell::Mirror(MirrorType::RightDown)) => (Direction::Right, None),
        (Direction::Down, Cell::Mirror(MirrorType::RightUp)) => (Direction::Left, None),
        (Direction::Left, Cell::Mirror(MirrorType::RightDown)) => (Direction::Up, None),
        (Direction::Left, Cell::Mirror(MirrorType::RightUp)) => (Direction::Down, None),
        (Direction::Right, Cell::Mirror(MirrorType::RightDown)) => (Direction::Down, None),
        (Direction::Right, Cell::Mirror(MirrorType::RightUp)) => (Direction::Up, None),
        (Direction::Up, Cell::Pipe(PipeType::Horizontal)) => (
            Direction::Left,
            Some(Direction::Right),
        ),
        (Direction::Down, Cell::Pipe(PipeType::Horizontal)) => (
            Direction::Left,
            Some(Direction::Right),
        ),
        (Direction::Left, Cell::Pipe(PipeType::Horizontal)) => (Direction::Left, None),
        (Direction::Right, Cell::Pipe(PipeType::Horizontal)) => (Direction::Right, None),
        (Direction::Up, Cell::Pipe(PipeType::Vertical)) => (Direction::Up, None),
        (Direction::Down, Cell::Pipe(PipeType::Vertical)) => (Direction::Down, None),
        (Direction::Left, Cell::Pipe(PipeType::Vertical)) => (
            Direction::Up,
            Some(Direction::Down),
        ),
        (Direction::Right, Cell::Pipe(PipeType::Vertical)) => (
            Direction::Up,
            Some(Direction::Down),
        ),
    };
    let ghost ds = out_dirs(d, m.at(e.row as int, e.col as int));
    proof {
        assert(cell == m.at(e.row as int, e.col as int));
        assert(elems_of_dirs(wi, hi, *e, Seq::<Direction>::empty()) =~= Seq::<
            PathElement,
        >::empty());
    }
    let mut r: Vec<PathElement> = Vec::new();
    match step_exec(w, h, e, d1) {
        Some(x) => {
            r.push(x);
        },
        None => {},
    }
    match d2 {
        Some(dd) => {
            match step_exec(w, h, e, dd) {
                Some(x) => {
                    r.push(x);
                },
                None => {},
            }
            proof {
                assert(ds =~= seq![d1, dd]);
                assert(ds.drop_first() =~= seq![dd]);
                assert(seq![dd].drop_first() =~= Seq::<Direction>::empty());
                assert(elems_of_dirs(wi, hi, *e, seq![dd]) == match moved(
                    wi,
                    hi,
                    e.row as int,
                    e.col as int,
                    dd,
                ) {
                    Some(x) => seq![x] + elems_of_dirs(wi, hi, *e, Seq::<Direction>::empty()),
                    None => elems_of_dirs(wi, hi, *e, Seq::<Direction>::empty()),
                });
                assert(r@ =~= next_spec(*m, *e));
            }
        },
        None => {
            proof {
                assert(ds =~= seq![d1]);
                assert(ds.drop_first() =~= Seq::<Direction>::empty());
                assert(r@ =~= next_spec(*m, *e));
            }
        },
    }
    proof {
        assert forall|k: int| 0 <= k < r@.len() implies elem_in_bounds(
            m.spec_width(),
            m.spec_height(),
            #[trigger] r@[k],
        ) by {
            lemma_elems_in_bounds(m.spec_width(), m.spec_height(), *e, ds, k);
        }
    }
    r
}

/// The cells a beam from `start` energizes, one flag per cell in
/// row-major order.
pub open spec fn energized_cells(m: Contraption, start: PathElement) -> Seq<bool> {
    Seq::new(
        (m.spec_height() * m.spec_width()) as nat,
        |i: int|
            exists|d: Direction|
                #[trigger] beam_reaches(
                    m,
                    start,
                    PathElement {
                        direction: d,
                        row: (i / m.spec_width()) as usize,
                        col: (i % m.spec_width()) as usize,
                    },
                ),
    )
}

/// How many cells a beam from `start` energizes.
pub open spec fn energized_count(m: Contraption, start: PathElement) -> int {
    count_trues(energized_cells(m, start))
}

/// Every settled beam head's successors are settled or pending, and the
/// start itself is settled or pending.
pub open spec fn beam_closure(
    m: Contraption,
    start: PathElement,
    bits: Seq<bool>,
    pend: Seq<PathElement>,
) -> bool {
    &&& forall|e: PathElement, k: int|
        elem_in_bounds(m.spec_width(), m.spec_height(), e) && visited_at(m.spec_width(), bits, e)
            && 0 <= k < next_spec(m, e).len() ==> (visited_at(
            m.spec_width(),
            bits,
            #[trigger] next_spec(m, e)[k],
        ) || exists|j: int| 0 <= j < pend.len() && pend[j] == next_spec(m, e)[k])
    &&& (visited_at(m.spec_width(), bits, start) || exists|j: int|
        0 <= j < pend.len() && pend[j] == start)
}

/// Settled beam heads are reachable, pending ones too, and the cell
/// bitmap marks exactly the cells with some settled head.
pub open spec fn beam_state_inv(
    m: Contraption,
    start: PathElement,
    bits: Seq<bool>,
    pend: Seq<PathElement>,
    cbits: Seq<bool>,
) -> bool {
    &&& forall|e: PathElement|
        elem_in_bounds(m.spec_width(), m.spec_height(), e) && #[trigger] visited_at(
            m.spec_width(),
            bits,
            e,
        ) ==> beam_reaches(m, start, e)
    &&& forall|j: int|
        0 <= j < pend.len() ==> elem_in_bounds(m.spec_width(), m.spec_height(), #[trigger] pend[j])
            && beam_reaches(m, start, pend[j])
    &&& forall|r2: int, c2: int|
        0 <= r2 < m.spec_height() && 0 <= c2 < m.spec_width() ==> ((#[trigger] cell_at(
            m.spec_width(),
            cbits,
            r2,
            c2,
        )) <==> exists|d: Direction|
            #[trigger] visited_at(
                m.spec_width(),
                bits,
                PathElement { direction: d, row: r2 as usize, col: c2 as usize },
            ))
}

/// Discarding an already-settled pending entry preserves the closure:
/// a settled entry is never the covering witness for an unsettled head.
proof fn lemma_beam_discard(
    m: Contraption,
    start: PathElement,
    bits: Seq<bool>,
    pend0: Seq<PathElement>,
)
    requires
        pend0.len() >= 1,
        beam_closure(m, start, bits, pend0),
        visited_at(m.spec_width(), bits, pend0[pend0.len() - 1]),
    ensures
        beam_closure(m, start, bits, pend0.drop_last()),
{
    let wi = m.spec_width();
    let pend1 = pend0.drop_last();
    assert forall|e: PathElement, k: int|
        elem_in_bounds(wi, m.spec_height(), e) && visited_at(wi, bits, e) && 0 <= k < next_spec(
            m,
            e,
        ).len() implies (visited_at(wi, bits, #[trigger] next_spec(m, e)[k]) || exists|j: int|
        0 <= j < pend1.len() && pend1[j] == next_spec(m, e)[k]) by {
        let s = next_spec(m, e)[k];
        if !visited_at(wi, bits, s) {
            let j0 = choose|j: int| 0 <= j < pend0.len() && pend0[j] == s;
            assert(j0 < pend0.len() - 1);
            assert(pend1[j0] == s);
        }
    }
    if !visited_at(wi, bits, start) {
        let j0 = choose|j: int| 0 <= j < pend0.len() && pend0[j] == start;
        assert(j0 < pend0.len() - 1);
        assert(pend1[j0] == start);
    }
}

/// Settling a popped head and pushing its unsettled successors restores
/// the closure.
proof fn lemma_beam_assemble(
    m: Contraption,
    start: PathElement,
    bits0: Seq<bool>,
    bits1: Seq<bool>,
    pend0: Seq<PathElement>,
    pend2: Seq<PathElement>,
    e: PathElement,
)
    requires
        pend0.len() >= 1,
        pend0[pend0.len() - 1] == e,
        beam_closure(m, start, bits0, pend0),
        elem_in_bounds(m.spec_width(), m.spec_height(), start),
        !visited_at(m.spec_width(), bits0, start) ==> !visited_at(m.spec_width(), bits1, start)
            || start == e,
        !visited_at(m.spec_width(), bits0, e),
        visited_at(m.spec_width(), bits1, e),
        elem_in_bounds(m.spec_width(), m.spec_height(), e),
        forall|e2: PathElement|
            elem_in_bounds(m.spec_width(), m.spec_height(), e2) && e2 != e ==> #[trigger]
            visited_at(m.spec_width(), bits1, e2) == visited_at(m.spec_width(), bits0, e2),
        pend2.len() >= pend0.len() - 1,
        forall|j: int| 0 <= j < pend0.len() - 1 ==> #[trigger] pend2[j] == pend0[j],
        forall|k: int|
            0 <= k < next_spec(m, e).len() ==> (visited_at(
                m.spec_width(),
                bits1,
                #[trigger] next_spec(m, e)[k],
            ) || exists|j: int| 0 <= j < pend2.len() && pend2[j] == next_spec(m, e)[k]),
    ensures
        beam_closure(m, start, bits1, pend2),
{
    let wi = m.spec_width();
    let hi = m.spec_height();
    assert forall|e2: PathElement, k: int|
        elem_in_bounds(wi, hi, e2) && visited_at(wi, bits1, e2) && 0 <= k < next_spec(
            m,
            e2,
        ).len() implies (visited_at(wi, bits1, #[trigger] next_spec(m, e2)[k]) || exists|j: int|
        0 <= j < pend2.len() && pend2[j] == next_spec(m, e2)[k]) by {
        let s = next_spec(m, e2)[k];
        lemma_elems_in_bounds(
            wi,
            hi,
            e2,
            out_dirs(e2.direction, m.at(e2.row as int, e2.col as int)),
            k,
        );
        assert(elem_in_bounds(wi, hi, s));
        if e2 != e {
            assert(visited_at(wi, bits0, e2));
            if !visited_at(wi, bits1, s) {
                if s == e {
                    assert(visited_at(wi, bits1, s));
                } else {
                    assert(visited_at(wi, bits1, s) == visited_at(wi, bits0, s));
                    assert(!visited_at(wi, bits0, s));
                    let j0 = choose|j: int| 0 <= j < pend0.len() && pend0[j] == s;
                    if j0 == pend0.len() - 1 {
                        assert(pend0[j0] == e);
                    } else {
                        assert(pend2[j0] == s);
                    }
                }
            }
        }
    }
    if !visited_at(wi, bits1, start) {
        assert(start != e);
        assert(!visited_at(wi, bits0, start));
        let j0 = choose|j: int| 0 <= j < pend0.len() && pend0[j] == start;
        assert(j0 < pend0.len() - 1);
        assert(pend2[j0] == start);
    }
}

/// Marking one more settled head keeps the cell bitmap exact, once its
/// own cell is marked.
proof fn lemma_cellmap_update(
    m: Contraption,
    start: PathElement,
    bits0: Seq<bool>,
    bits1: Seq<bool>,
    cbits0: Seq<bool>,
    cbits1: Seq<bool>,
    e: PathElement,
)
    requires
        m.wf(),
        elem_in_bounds(m.spec_width(), m.spec_height(), e),
        forall|e2: PathElement|
            elem_in_bounds(m.spec_width(), m.spec_height(), e2) && e2 != e ==> #[trigger]
            visited_at(m.spec_width(), bits1, e2) == visited_at(m.spec_width(), bits0, e2),
        visited_at(m.spec_width(), bits1, e),
        forall|r2: int, c2: int|
            0 <= r2 < m.spec_height() && 0 <= c2 < m.spec_width() ==> ((#[trigger] cell_at(
                m.spec_width(),
                cbits0,
                r2,
                c2,
            )) <==> exists|d: Direction|
                #[trigger] visited_at(
                    m.spec_width(),
                    bits0,
                    PathElement { direction: d, row: r2 as usize, col: c2 as usize },
                )),
        cell_at(m.spec_width(), cbits1, e.row as int, e.col as int),
        forall|r2: int, c2: int|
            0 <= r2 < m.spec_height() && 0 <= c2 < m.spec_width() && !(r2 == e.row as int && c2
                == e.col as int) ==> #[trigger] cell_at(m.spec_width(), cbits1, r2, c2) == cell_at(
                m.spec_width(),
                cbits0,
                r2,
                c2,
            ),
    ensures
        forall|r2: int, c2: int|
            0 <= r2 < m.spec_height() && 0 <= c2 < m.spec_width() ==> ((#[trigger] cell_at(
                m.spec_width(),
                cbits1,
                r2,
                c2,
            )) <==> exists|d: Direction|
                #[trigger] visited_at(
                    m.spec_width(),
                    bits1,
                    PathElement { direction: d, row: r2 as usize, col: c2 as usize },
                )),
{
    let wi = m.spec_width();
    let hi = m.spec_height();
    assert forall|r2: int, c2: int|
        0 <= r2 < hi && 0 <= c2 < wi implies ((#[trigger] cell_at(wi, cbits1, r2, c2)) <==> exists|
        d: Direction,
    |
        #[trigger] visited_at(
            wi,
            bits1,
            PathElement { direction: d, row: r2 as usize, col: c2 as usize },
        )) by {
        if r2 == e.row as int && c2 == e.col as int {
            assert(visited_at(
                wi,
                bits1,
                PathElement { direction: e.direction, row: r2 as usize, col: c2 as usize },
            ));
        } else {
            assert(cell_at(wi, cbits1, r2, c2) == cell_at(wi, cbits0, r2, c2));
            if cell_at(wi, cbits0, r2, c2) {
                let d = choose|d: Direction|
                    #[trigger] visited_at(
                        wi,
                        bits0,
                        PathElement { direction: d, row: r2 as usize, col: c2 as usize },
                    );
                let e2 = PathElement { direction: d, row: r2 as usize, col: c2 as usize };
                assert(e2 != e);
                assert(visited_at(wi, bits1, e2) == visited_at(wi, bits0, e2));
                assert(visited_at(wi, bits1, e2));
            } else {
                assert forall|d: Direction|
                    !(#[trigger] visited_at(
                        wi,
                        bits1,
                        PathElement { direction: d, row: r2 as usize, col: c2 as usize },
                    )) by {
                    let e2 = PathElement { direction: d, row: r2 as usize, col: c2 as usize };
                    assert(e2 != e);
                    assert(visited_at(wi, bits1, e2) == visited_at(wi, bits0, e2));
                }
            }
        }
    }
}

/// Pushes the unsettled successors of a freshly settled head.
#[verifier::rlimit(60)]
#[verifier::spinoff_prover]
fn expand_beam(
    m: &Contraption,
    e: PathElement,
    visited: &Vec<bool>,
    pending: &mut Vec<PathElement>,
    Ghost(start): Ghost<PathElement>,
)
    requires
        m.wf(),
        elem_in_bounds(m.spec_width(), m.spec_height(), e),
        beam_reaches(*m, start, e),
        m.spec_height() * m.spec_width() * 4 <= usize::MAX,
        visited@.len() == m.spec_height() * m.spec_width() * 4,
        forall|j: int|
            0 <= j < old(pending)@.len() ==> elem_in_bounds(
                m.spec_width(),
                m.spec_height(),
                #[trigger] old(pending)@[j],
            ) && beam_reaches(*m, start, old(pending)@[j]),
    ensures
        final(pending)@.len() >= old(pending)@.len(),
        forall|j: int|
            0 <= j < old(pending)@.len() ==> #[trigger] final(pending)@[j] == old(pending)@[j],
        forall|j: int|
            0 <= j < final(pending)@.len() ==> elem_in_bounds(
                m.spec_width(),
                m.spec_height(),
                #[trigger] final(pending)@[j],
            ) && beam_reaches(*m, start, final(pending)@[j]),
        forall|k: int|
            0 <= k < next_spec(*m, e).len() ==> (visited_at(
                m.spec_width(),
                visited@,
                #[trigger] next_spec(*m, e)[k],
            ) || exists|j: int|
                0 <= j < final(pending)@.len() && final(pending)@[j] == next_spec(*m, e)[k]),
{
    let ghost wi = m.spec_width();
    let ghost hi = m.spec_height();
    let ghost mm = *m;
    let w = m.width();
    let h = m.height();
    let succ = next_of(m, &e);
    let ghost pend1 = pending@;
    let mut k: usize = 0;
    while k < succ.len()
        invariant
            mm == *m,
            m.wf(),
            wi == mm.spec_width(),
            hi == mm.spec_height(),
            w as int == wi,
            h as int == hi,
            hi * wi * 4 <= usize::MAX,
            visited@.len() == hi * wi * 4,
            elem_in_bounds(wi, hi, e),
            beam_reaches(mm, start, e),
            succ@ == next_spec(mm, e),
            forall|j: int| 0 <= j < succ@.len() ==> elem_in_bounds(wi, hi, #[trigger] succ@[j]),
            0 <= k <= succ@.len(),
            pend1.len() <= pending@.len(),
            forall|j: int| 0 <= j < pend1.len() ==> #[trigger] pending@[j] == pend1[j],
            forall|j: int|
                0 <= j < pending@.len() ==> elem_in_bounds(wi, hi, #[trigger] pending@[j])
                    && beam_reaches(mm, start, pending@[j]),
            forall|j: int|
                0 <= j < k ==> (visited_at(wi, visited@, #[trigger] succ@[j]) || exists|j2: int|
                    0 <= j2 < pending@.len() && pending@[j2] == succ@[j]),
        decreases succ@.len() - k,
    {
        let s = succ[k];
        proof {
            lemma_pidx_bounds(wi, hi, s);
            assert(s.row * w + s.col < hi * wi) by (nonlinear_arith)
                requires
                    w as int == wi,
                    0 <= s.row < hi,
                    0 <= s.col < wi,
                    1 <= wi,
            ;
        }
        let sidx = (s.row * w + s.col) * 4 + match s.direction {
            Direction::Left => 0,
            Direction::Right => 1,
            Direction::Up => 2,
            Direction::Down => 3,
        };
        proof {
            assert(sidx as int == pidx(wi, s));
        }
        let ghost pend_before = pending@;
        if !visited[sidx] {
            proof {
                let t = choose|t: Seq<PathElement>|
                    #[trigger] beam_trace(mm, start, t) && t[t.len() - 1] == e;
                lemma_beam_extend(mm, start, t, s);
                assert(beam_trace(mm, start, t.push(s)) && t.push(s)[t.push(s).len() - 1] == s);
                assert(beam_reaches(mm, start, s));
            }
            pending.push(s);
        }
        proof {
            assert forall|j: int|
                0 <= j < k + 1 implies (visited_at(wi, visited@, #[trigger] succ@[j]) || exists|
                j2: int,
            |
                0 <= j2 < pending@.len() && pending@[j2] == succ@[j]) by {
                if j < k {
                    if !visited_at(wi, visited@, succ@[j]) {
                        let j2 = choose|j2: int|
                            0 <= j2 < pend_before.len() && pend_before[j2] == succ@[j];
                        assert(pending@[j2] == succ@[j]);
                    }
                } else {
                    if !visited_at(wi, visited@, s) {
                        assert(pending@[pending@.len() - 1] == s);
                    }
                }
            }
        }
        k = k + 1;
    }
}

/// Follows a beam from `p` until every reachable head has been seen, and
/// counts the energized cells: exactly the cells some reachable beam
/// head occupies.
#[verifier::rlimit(100)]
pub fn start_from(p: PathElement, map: &Contraption) -> (r: u64)
    requires
        map.wf(),
        elem_in_bounds(map.spec_width(), map.spec_height(), p),
        map.spec_height() * map.spec_width() * 4 <= usize::MAX,
    ensures
        r == energized_count(*map, p),
{
    let w = map.width();
    let h = map.height();
    let ghost wi = map.spec_width();
    let ghost hi = map.spec_height();
    let ghost mm = *map;
    proof {
        assert(hi * wi <= hi * wi * 4 && wi <= hi * wi && hi * wi * 4 == (hi * wi) * 4)
            by (nonlinear_arith)
            requires
                1 <= wi,
                1 <= hi,
        ;
    }
    let size = h * w * 4;
    let mut visited = fill_false(size);
    let mut cellbits = fill_false(h * w);
    let mut cells: u64 = 0;
    let mut pending: Vec<PathElement> = Vec::new();
    pending.push(p);
    proof {
        let t0: Seq<PathElement> = seq![p];
        assert(beam_trace(mm, p, t0));
        assert(beam_reaches(mm, p, p));
        lemma_count_trues_le_len(cellbits@);
        assert forall|e: PathElement| elem_in_bounds(wi, hi, e) implies !(#[trigger] visited_at(
            wi,
            visited@,
            e,
        )) by {
            lemma_pidx_bounds(wi, hi, e);
        }
        assert forall|r2: int, c2: int| 0 <= r2 < hi && 0 <= c2 < wi implies !(#[trigger] cell_at(
            wi,
            cellbits@,
            r2,
            c2,
        )) by {
            assert(r2 * wi + c2 < hi * wi && 0 <= r2 * wi + c2) by (nonlinear_arith)
                requires
                    0 <= r2 < hi,
                    0 <= c2 < wi,
                    1 <= wi,
            ;
        }
        assert(pending@[0] == p);
    }
    while pending.len() > 0
        invariant
            mm == *map,
            map.wf(),
            wi == mm.spec_width(),
            hi == mm.spec_height(),
            w as int == wi,
            h as int == hi,
            elem_in_bounds(wi, hi, p),
            size as int == hi * wi * 4,
            hi * wi * 4 <= usize::MAX,
            visited@.len() == size,
            cellbits@.len() == hi * wi,
            beam_state_inv(mm, p, visited@, pending@, cellbits@),
            beam_closure(mm, p, visited@, pending@),
            cells as int == count_trues(cellbits@),
            cells <= cellbits@.len(),
        decreases size as int - count_trues(visited@), pending@.len(),
    {
        proof {
            lemma_count_trues_le_len(visited@);
        }
        let ghost pending0 = pending@;
        let e = match pending.pop() {
            Some(e) => e,
            None => {
                return cells;
            },
        };
        proof {
            assert(e == pending0[pending0.len() - 1]);
            assert(elem_in_bounds(wi, hi, e) && beam_reaches(mm, p, e));
            lemma_pidx_bounds(wi, hi, e);
            assert(e.row * w + e.col < hi * wi) by (nonlinear_arith)
                requires
                    w as int == wi,
                    0 <= e.row < hi,
                    0 <= e.col < wi,
                    1 <= wi,
            ;
        }
        let vidx = (e.row * w + e.col) * 4 + match e.direction {
            Direction::Left => 0,
            Direction::Right => 1,
            Direction::Up => 2,
            Direction::Down => 3,
        };
        proof {
            assert(vidx as int == pidx(wi, e));
        }
        if visited[vidx] {
            proof {
                assert(visited_at(wi, visited@, e));
                lemma_beam_discard(mm, p, visited@, pending0);
                assert(pending@ =~= pending0.drop_last());
            }
            continue;
        }
        let ghost visited0 = visited@;
        visited.set(vidx, true);
        proof {
            lemma_count_trues_update(visited0, vidx as int);
            assert forall|e2: PathElement|
                elem_in_bounds(wi, hi, e2) && e2 != e implies #[trigger] visited_at(
                wi,
                visited@,
                e2,
            ) == visited_at(wi, visited0, e2) by {
                lemma_pidx_bounds(wi, hi, e2);
                if pidx(wi, e2) == pidx(wi, e) {
                    lemma_pidx_injective(wi, hi, e2, e);
                }
            }
            assert(visited_at(wi, visited@, e));
        }
        let cidx = e.row * w + e.col;
        let ghost cellbits0 = cellbits@;
        if !cellbits[cidx] {
            cellbits.set(cidx, true);
            cells = cells + 1;
            proof {
                lemma_count_trues_update(cellbits0, cidx as int);
                lemma_count_trues_le_len(cellbits@);
            }
        }
        proof {
            assert(cell_at(wi, cellbits@, e.row as int, e.col as int));
            assert forall|r2: int, c2: int|
                0 <= r2 < hi && 0 <= c2 < wi && !(r2 == e.row as int && c2
                    == e.col as int) implies #[trigger] cell_at(wi, cellbits@, r2, c2) == cell_at(
                wi,
                cellbits0,
                r2,
                c2,
            ) by {
                assert(0 <= r2 * wi + c2 < hi * wi) by (nonlinear_arith)
                    requires
                        0 <= r2 < hi,
                        0 <= c2 < wi,
                        1 <= wi,
                ;
                if r2 * wi + c2 == e.row as int * wi + e.col as int {
                    lemma_cell_index_injective(wi, r2, c2, e.row as int, e.col as int);
                }
            }
            lemma_cellmap_update(mm, p, visited0, visited@, cellbits0, cellbits@, e);
        }
        expand_beam(map, e, &visited, &mut pending, Ghost(p));
        proof {
            lemma_beam_assemble(mm, p, visited0, visited@, pending0, pending@, e);
            lemma_count_trues_le_len(visited@);
        }
    }
    proof {
        assert forall|i: int| 0 <= i < cellbits@.len() implies cellbits@[i] == energized_cells(
            mm,
            p,
        )[i] by {
            let r2 = i / wi;
            let c2 = i % wi;
            assert(0 <= r2 < hi && 0 <= c2 < wi && r2 * wi + c2 == i) by (nonlinear_arith)
                requires
                    0 <= i < hi * wi,
                    1 <= wi,
                    r2 == i / wi,
                    c2 == i % wi,
                    1 <= hi,
            ;
            assert(cell_at(wi, cellbits@, r2, c2) == cellbits@[i]);
            if cellbits@[i] {
                let d = choose|d: Direction|
                    #[trigger] visited_at(
                        wi,
                        visited@,
                        PathElement { direction: d, row: r2 as usize, col: c2 as usize },
                    );
                let e2 = PathElement { direction: d, row: r2 as usize, col: c2 as usize };
                assert(beam_reaches(mm, p, e2));
            }
            if energized_cells(mm, p)[i] {
                let d = choose|d: Direction|
                    #[trigger] beam_reaches(
                        mm,
                        p,
                        PathElement { direction: d, row: r2 as usize, col: c2 as usize },
                    );
                let e2 = PathElement { direction: d, row: r2 as usize, col: c2 as usize };
                let t = choose|t: Seq<PathElement>|
                    #[trigger] beam_trace(mm, p, t) && t[t.len() - 1] == e2;
                assert forall|e3: PathElement, k3: int|
                    elem_in_bounds(wi, hi, e3) && visited_at(wi, visited@, e3) && 0 <= k3
                        < next_spec(mm, e3).len() implies visited_at(
                    wi,
                    visited@,
                    #[trigger] next_spec(mm, e3)[k3],
                ) && elem_in_bounds(wi, hi, next_spec(mm, e3)[k3]) by {
                    lemma_elems_in_bounds(
                        wi,
                        hi,
                        e3,
                        out_dirs(e3.direction, mm.at(e3.row as int, e3.col as int)),
                        k3,
                    );
                }
                lemma_beam_closed(mm, p, wi, hi, visited@, t);
                assert(visited_at(wi, visited@, e2));
                assert(cell_at(wi, cellbits@, r2, c2));
            }
        }
        assert(cellbits@ =~= energized_cells(mm, p));
    }
    cells
}

/// A visited set closed under successors contains everything a beam can
/// reach.
proof fn lemma_beam_closed(
    m: Contraption,
    start: PathElement,
    w: int,
    h: int,
    bits: Seq<bool>,
    t: Seq<PathElement>,
)
    requires
        w == m.spec_width(),
        h == m.spec_height(),
        elem_in_bounds(w, h, start),
        visited_at(w, bits, start),
        forall|e: PathElement, k: int|
            elem_in_bounds(w, h, e) && visited_at(w, bits, e) && 0 <= k < next_spec(m, e).len()
                ==> visited_at(w, bits, #[trigger] next_spec(m, e)[k]) && elem_in_bounds(
                w,
                h,
                next_spec(m, e)[k],
            ),
        beam_trace(m, start, t),
    ensures
        visited_at(w, bits, t[t.len() - 1]),
        elem_in_bounds(w, h, t[t.len() - 1]),
    decreases t.len(),
{
    let n = t.len() as int;
    if n == 1 {
        assert(t[0] == start);
    } else {
        let tp = t.subrange(0, n - 1);
        assert(tp[0] == t[0]);
        assert forall|i: int| 1 <= i < tp.len() implies next_spec(m, tp[i - 1]).contains(
            #[trigger] tp[i],
        ) by {
            assert(tp[i] == t[i] && tp[i - 1] == t[i - 1]);
            assert(next_spec(m, t[i - 1]).contains(t[i]));
        }
        lemma_beam_closed(m, start, w, h, bits, tp);
        let prev = t[n - 2];
        assert(next_spec(m, prev).contains(t[n - 1]));
        let k = choose|k: int|
            0 <= k < next_spec(m, prev).len() && next_spec(m, prev)[k] == t[n - 1];
        assert(visited_at(w, bits, next_spec(m, prev)[k]));
    }
}


/// `m` is the contraption the lines denote.
pub open spec fn parsed_from(m: Contraption, lv: Seq<Seq<char>>) -> bool {
    &&& crate::grid::lines_rectangular(lv)
    &&& m.wf()
    &&& m.spec_height() == lv.len()
    &&& m.spec_width() == lv[0].len()
    &&& forall|rr: int, cc: int|
        0 <= rr < m.spec_height() && 0 <= cc < m.spec_width() ==> cell_of_char(
            #[trigger] lv[rr][cc],
        ) == Some(m.at(rr, cc))
}

/// The beams the second task tries: rightward and leftward from every
/// row edge, then downward and upward from every column edge.
pub open spec fn boundary_starts(m: Contraption) -> Seq<PathElement> {
    Seq::new(
        (2 * m.spec_height()) as nat,
        |i: int|
            if i % 2 == 0 {
                PathElement { direction: Direction::Right, row: (i / 2) as usize, col: 0 }
            } else {
                PathElement {
                    direction: Direction::Left,
                    row: (i / 2) as usize,
                    col: (m.spec_width() - 1) as usize,
                }
            },
    ) + Seq::new(
        (2 * m.spec_width()) as nat,
        |i: int|
            if i % 2 == 0 {
                PathElement { direction: Direction::Down, row: 0, col: (i / 2) as usize }
            } else {
                PathElement {
                    direction: Direction::Up,
                    row: (m.spec_height() - 1) as usize,
                    col: (i / 2) as usize,
                }
            },
    )
}

/// The best energized-cell count over the first `k` tried beams.
pub open spec fn best_energized(m: Contraption, ss: Seq<PathElement>, k: int) -> int
    decreases k,
{
    if k <= 0 {
        0
    } else {
        let b = best_energized(m, ss, k - 1);
        let v = energized_count(m, ss[k - 1]);
        if v > b {
            v
        } else {
            b
        }
    }
}

/// Tries a beam from every boundary edge of the contraption the lines
/// denote, and reports the best energized-cell count.  Returns `None`
/// exactly when the lines denote no contraption, or its state space
/// exceeds the machine's address range.
pub fn sixteenth_task_2(lines: &Vec<String>) -> (r: Option<u64>)
    ensures
        match r {
            Some(v) => exists|m: Contraption|
                #[trigger] parsed_from(m, lines.deep_view()) && m.spec_height() * m.spec_width()
                    * 4 <= usize::MAX && v as int == best_energized(
                    m,
                    boundary_starts(m),
                    boundary_starts(m).len() as int,
                ),
            None => forall|m: Contraption|
                #[trigger] parsed_from(m, lines.deep_view()) ==> m.spec_height() * m.spec_width()
                    * 4 > usize::MAX,
        },
{
    let ghost lv = lines.deep_view();
    let m = match Contraption::parse(lines) {
        Ok(m) => m,
        Err(err) => {
            proof {
                assert forall|m2: Contraption| #[trigger] parsed_from(m2, lv) implies m2
                    .spec_height() * m2.spec_width() * 4 > usize::MAX by {
                    if err == SearchError::ParseError {
                        let (rr, cc) = choose|rr: int, cc: int|
                            0 <= rr < lv.len() && 0 <= cc < lv[0].len() && cell_of_char(
                                #[trigger] lv[rr][cc],
                            ) is None;
                        assert(cell_of_char(lv[rr][cc]) == Some(m2.at(rr, cc)));
                    }
                }
            }
            return None;
        },
    };
    proof {
        assert(parsed_from(m, lv));
    }
    let w = m.width();
    let h = m.height();
    let ghost wi = m.spec_width();
    let ghost hi = m.spec_height();
    let size_ok = match h.checked_mul(w) {
        Some(hw) => hw.checked_mul(4).is_some(),
        None => false,
    };
    if !size_ok {
        proof {
            assert(hi * wi * 4 > usize::MAX) by (nonlinear_arith)
                requires
                    hi * wi > usize::MAX || (hi * wi <= usize::MAX && (hi * wi) * 4 > usize::MAX
                        && hi * wi * 4 == (hi * wi) * 4),
                    hi * wi * 4 == (hi * wi) * 4,
            ;
            assert forall|m2: Contraption| #[trigger] parsed_from(m2, lv) implies m2.spec_height()
                * m2.spec_width() * 4 > usize::MAX by {
                assert(m2.spec_height() == hi && m2.spec_width() == wi);
            }
        }
        return None;
    }
    proof {
        assert(hi * wi * 4 == (hi * wi) * 4 && hi * wi <= hi * wi * 4) by (nonlinear_arith)
            requires
                1 <= hi,
                1 <= wi,
        ;
    }
    let ghost ss = boundary_starts(m);
    proof {
        assert(ss.len() == 2 * hi + 2 * wi);
    }
    let mut best: u64 = 0;
    let mut row: usize = 0;
    while row < h
        invariant
            m.wf(),
            wi == m.spec_width(),
            hi == m.spec_height(),
            w as int == wi,
            h as int == hi,
            hi * wi * 4 <= usize::MAX,
            ss == boundary_starts(m),
            ss.len() == 2 * hi + 2 * wi,
            0 <= row <= h,
            best as int == best_energized(m, ss, 2 * row as int),
        decreases h - row,
    {
        let ghost i0 = 2 * row as int;
        proof {
            assert(i0 % 2 == 0 && i0 / 2 == row as int && (i0 + 1) % 2 == 1 && (i0 + 1) / 2
                == row as int) by (nonlinear_arith)
                requires
                    i0 == 2 * row as int,
                    0 <= row,
            ;
            assert(ss[i0] == PathElement { direction: Direction::Right, row, col: 0 });
            assert(ss[i0 + 1] == PathElement {
                direction: Direction::Left,
                row,
                col: (wi - 1) as usize,
            });
        }
        let v1 = start_from(PathElement { direction: Direction::Right, row, col: 0 }, &m);
        if v1 > best {
            best = v1;
        }
        proof {
            assert(best as int == best_energized(m, ss, i0 + 1));
        }
        let v2 = start_from(
            PathElement { direction: Direction::Left, row, col: w - 1 },
            &m,
        );
        if v2 > best {
            best = v2;
        }
        proof {
            assert(best as int == best_energized(m, ss, i0 + 2));
        }
        row = row + 1;
    }
    let mut col: usize = 0;
    while col < w
        invariant
            m.wf(),
            wi == m.spec_width(),
            hi == m.spec_height(),
            w as int == wi,
            h as int == hi,
            hi * wi * 4 <= usize::MAX,
            ss == boundary_starts(m),
            ss.len() == 2 * hi + 2 * wi,
            0 <= col <= w,
            best as int == best_energized(m, ss, 2 * hi + 2 * col as int),
        decreases w - col,
    {
        let ghost i0 = 2 * hi + 2 * col as int;
        proof {
            assert((i0 - 2 * hi) % 2 == 0 && (i0 - 2 * hi) / 2 == col as int && (i0 + 1 - 2 * hi)
                % 2 == 1 && (i0 + 1 - 2 * hi) / 2 == col as int) by (nonlinear_arith)
                requires
                    i0 == 2 * hi + 2 * col as int,
                    0 <= col,
                    0 <= hi,
            ;
            assert(ss[i0] == PathElement { direction: Direction::Down, row: 0, col });
            assert(ss[i0 + 1] == PathElement {
                direction: Direction::Up,
                row: (hi - 1) as usize,
                col,
            });
        }
        let v1 = start_from(PathElement { direction: Direction::Down, row: 0, col }, &m);
        if v1 > best {
            best = v1;
        }
        proof {
            assert(best as int == best_energized(m, ss, i0 + 1));
        }
        let v2 = start_from(
            PathElement { direction: Direction::Up, row: h - 1, col },
            &m,
        );
        if v2 > best {
            best = v2;
        }
        proof {
            assert(best as int == best_energized(m, ss, i0 + 2));
        }
        col = col + 1;
    }
    proof {
        assert(best as int == best_energized(m, ss, ss.len() as int));
    }
    Some(best)
}

} // verus!
