//! Rectangular boards and pieces of single-character cells.
use vstd::prelude::*;
use vstd::string::*;

use crate::text::{lines_of, split_newlines, strip_cr, lemma_split_nonempty};

verus! {

/// The character of an empty cell.
pub const EMPTY: char = '.';

/// What a read outside the grid returns; never stored in a grid.
pub const OUTSIDE: char = '-';

/// Every character but the empty cell and the outside sentinel marks an
/// occupied cell.
pub open spec fn is_occupied(c: char) -> bool {
    c != EMPTY && c != OUTSIDE
}

/// Rows of equal, positive length, and at least one row.
pub open spec fn rectangular(rows: Seq<Seq<char>>) -> bool {
    &&& rows.len() >= 1
    &&& rows[0].len() >= 1
    &&& forall|i: int| 0 <= i < rows.len() ==> #[trigger] rows[i].len() == rows[0].len()
}

/// A rectangular grid whose sides fit in an `isize`.
pub open spec fn well_formed(rows: Seq<Seq<char>>) -> bool {
    &&& rectangular(rows)
    &&& rows.len() <= isize::MAX
    &&& rows[0].len() <= isize::MAX
}

pub open spec fn height_of(rows: Seq<Seq<char>>) -> int {
    rows.len() as int
}

pub open spec fn width_of(rows: Seq<Seq<char>>) -> int {
    if rows.len() == 0 {
        0
    } else {
        rows[0].len() as int
    }
}

pub open spec fn in_bounds(rows: Seq<Seq<char>>, i: int, j: int) -> bool {
    0 <= i < height_of(rows) && 0 <= j < width_of(rows)
}

/// The cell at `(i, j)`, or the outside sentinel off the grid.
pub open spec fn cell_at(rows: Seq<Seq<char>>, i: int, j: int) -> char {
    if in_bounds(rows, i, j) {
        rows[i][j]
    } else {
        OUTSIDE
    }
}

pub open spec fn occupied_at(rows: Seq<Seq<char>>, i: int, j: int) -> bool {
    is_occupied(cell_at(rows, i, j))
}

pub open spec fn rows_view(cells: Seq<Vec<char>>) -> Seq<Seq<char>> {
    cells.map_values(|r: Vec<char>| r@)
}

pub proof fn lemma_rows_view(cells: Seq<Vec<char>>)
    ensures
        rows_view(cells).len() == cells.len(),
        forall|i: int| 0 <= i < cells.len() ==> #[trigger] rows_view(cells)[i] == cells[i]@,
{
}

/// The errors of grid construction, rotation and writes.
#[derive(Clone, Copy, Debug, PartialEq, Eq, Hash, Structural)]
pub enum GridError {
    /// A rotation by an angle other than 0, 90, 180 or 270 degrees, taken
    /// modulo 360.
    Configuration,
    /// A write outside the grid.
    OutOfBounds,
    /// Text that is empty or whose lines differ in length.
    InputFormat,
}

/// A rectangular matrix of cells, stored row by row.
#[derive(Debug, Eq, Hash)]
pub struct Grid {
    cells: Vec<Vec<char>>,
}

impl View for Grid {
    type V = Seq<Seq<char>>;

    closed spec fn view(&self) -> Seq<Seq<char>> {
        rows_view(self.cells@)
    }
}

impl Grid {
    pub open spec fn wf(&self) -> bool {
        well_formed(self@)
    }

    /// The grid with the given rows, which must all have the same, positive
    /// length.
    pub fn new(cells: Vec<Vec<char>>) -> (r: Grid)
        requires
            well_formed(rows_view(cells@)),
        ensures
            r@ == rows_view(cells@),
    {
        Grid { cells }
    }

    /// Reads one row per line of `text`. A `'.'` is an empty cell; any other
    /// character marks an occupied one. Fails on empty text and on lines of
    /// different lengths.
    pub fn parse(text: &str) -> (r: Result<Grid, GridError>)
        requires
            text@.len() <= isize::MAX,
        ensures
            rectangular(lines_of(text@)) <==> r.is_ok(),
            r matches Ok(g) ==> g@ == lines_of(text@) && g.wf(),
            r matches Err(e) ==> e == GridError::InputFormat,
    {
        let n = text.unicode_len();
        let mut rows: Vec<Vec<char>> = Vec::new();
        let mut current: Vec<char> = Vec::new();
        let mut k: usize = 0;
        proof {
            assert(text@.take(0) =~= Seq::<char>::empty());
        }
        while k < n
            invariant
                n == text@.len(),
                n <= isize::MAX,
                k <= n,
                split_newlines(text@.take(k as int)).len() >= 1,
                rows_view(rows@) == split_newlines(text@.take(k as int)).drop_last().map_values(
                    |l: Seq<char>| strip_cr(l),
                ),
                current@ == split_newlines(text@.take(k as int)).last(),
                rows.len() + (if current.len() > 0 { 1int } else { 0int }) <= k,
                current.len() <= k,
                forall|i: int| 0 <= i < rows.len() ==> #[trigger] rows[i].len() <= k,
            decreases n - k,
        {
            let c = text.get_char(k);
            proof {
                lemma_rows_view(rows@);
            }
            let ghost before = split_newlines(text@.take(k as int));
            proof {
                assert(text@.take(k + 1).drop_last() =~= text@.take(k as int));
                lemma_split_nonempty(text@.take(k as int));
            }
            if c == '\n' {
                if current.len() > 0 && current[current.len() - 1] == '\r' {
                    current.pop();
                }
                assert(current@ == strip_cr(before.last()));
                let ghost old_rows = rows@;
                rows.push(current);
                current = Vec::new();
                proof {
                    lemma_rows_view(rows@);
                    assert(rows_view(rows@) =~= rows_view(old_rows).push(strip_cr(before.last())));
                    assert(before.map_values(|l: Seq<char>| strip_cr(l)) =~= before.drop_last().map_values(
                        |l: Seq<char>| strip_cr(l),
                    ).push(strip_cr(before.last())));
                    let after = split_newlines(text@.take(k + 1));
                    assert(after == before.push(Seq::empty()));
                    assert(after.drop_last() =~= before);
                    assert(rows_view(rows@) =~= after.drop_last().map_values(
                        |l: Seq<char>| strip_cr(l),
                    ));
                    assert(current@ =~= after.last());
                }
            } else {
                current.push(c);
                proof {
                    let after = split_newlines(text@.take(k + 1));
                    assert(after == before.update(before.len() - 1, before.last().push(c)));
                    assert(after.drop_last() =~= before.drop_last());
                }
            }
            k = k + 1;
        }
        proof {
            assert(text@.take(n as int) =~= text@);
        }
        proof {
            lemma_rows_view(rows@);
        }
        if current.len() > 0 {
            let ghost old_rows = rows@;
            rows.push(current);
            proof {
                lemma_rows_view(rows@);
                assert(rows_view(rows@) =~= rows_view(old_rows).push(split_newlines(text@).last()));
                assert(rows_view(rows@) =~= lines_of(text@));
            }
        } else {
            assert(rows_view(rows@) =~= lines_of(text@));
        }
        proof {
            lemma_rows_view(rows@);
        }
        if rows.len() == 0 {
            return Err(GridError::InputFormat);
        }
        let width = rows[0].len();
        if width == 0 {
            return Err(GridError::InputFormat);
        }
        let mut r: usize = 1;
        while r < rows.len()
            invariant
                1 <= r <= rows.len(),
                width == rows[0].len(),
                rows_view(rows@) == lines_of(text@),
                rows.len() <= isize::MAX,
                1 <= width <= isize::MAX,
                forall|i: int| 0 <= i < r ==> #[trigger] rows[i].len() == width,
            decreases rows.len() - r,
        {
            if rows[r].len() != width {
                proof {
                    lemma_rows_view(rows@);
                }
                assert(rows_view(rows@)[r as int].len() != rows_view(rows@)[0].len());
                return Err(GridError::InputFormat);
            }
            r = r + 1;
        }
        let grid = Grid { cells: rows };
        proof {
            lemma_rows_view(grid.cells@);
        }
        assert forall|i: int| 0 <= i < grid@.len() implies #[trigger] grid@[i].len() == grid@[0].len() by {
            assert(rows[i].len() == width);
        }
        assert(grid@[0].len() == width);
        assert(rectangular(grid@));
        Ok(grid)
    }

    /// The cell at row `i` and column `j`, or `'-'` off the grid.
    pub fn cell(&self, i: isize, j: isize) -> (r: char)
        requires
            self.wf(),
        ensures
            r == cell_at(self@, i as int, j as int),
    {
        proof {
            lemma_rows_view(self.cells@);
        }
        if i < 0 || i >= self.cells.len() as isize || j < 0 || j >= self.cells[0].len() as isize {
            OUTSIDE
        } else {
            assert(self@[i as int].len() == self@[0].len());
            self.cells[i as usize][j as usize]
        }
    }

    /// Overwrites the cell at `(i, j)`; off the grid it fails and nothing
    /// changes.
    pub fn set_cell(&mut self, i: isize, j: isize, cell: char) -> (r: Result<(), GridError>)
        requires
            old(self).wf(),
        ensures
            final(self).wf(),
            in_bounds(old(self)@, i as int, j as int) ==> r is Ok && final(self)@ == old(self)@.update(
                i as int,
                old(self)@[i as int].update(j as int, cell),
            ),
            !in_bounds(old(self)@, i as int, j as int) ==> r == Err::<(), GridError>(
                GridError::OutOfBounds,
            ) && final(self)@ == old(self)@,
    {
        proof {
            lemma_rows_view(self.cells@);
        }
        if i < 0 || i >= self.cells.len() as isize || j < 0 || j >= self.cells[0].len() as isize {
            Err(GridError::OutOfBounds)
        } else {
            let ghost before = self.cells@;
            assert(self@[i as int].len() == self@[0].len());
            self.cells[i as usize][j as usize] = cell;
            proof {
                lemma_rows_view(self.cells@);
                assert(self@ =~= rows_view(before).update(
                    i as int,
                    rows_view(before)[i as int].update(j as int, cell),
                ));
            }
            Ok(())
        }
    }

    /// The number of columns.
    pub fn width(&self) -> (r: isize)
        requires
            self.wf(),
        ensures
            r == width_of(self@),
    {
        proof {
            lemma_rows_view(self.cells@);
        }
        self.cells[0].len() as isize
    }

    /// The number of rows.
    pub fn height(&self) -> (r: isize)
        requires
            self.wf(),
        ensures
            r == height_of(self@),
    {
        proof {
            lemma_rows_view(self.cells@);
        }
        self.cells.len() as isize
    }
}

/// Two grids are equal when they have the same rows.
impl PartialEq for Grid {
    fn eq(&self, other: &Grid) -> (r: bool) {
        proof {
            lemma_rows_view(self.cells@);
            lemma_rows_view(other.cells@);
        }
        if self.cells.len() != other.cells.len() {
            return false;
        }
        let mut i: usize = 0;
        while i < self.cells.len()
            invariant
                self.cells.len() == other.cells.len(),
                i <= self.cells.len(),
                forall|k: int| 0 <= k < i ==> #[trigger] self@[k] == other@[k],
            decreases self.cells.len() - i,
        {
            let a = &self.cells[i];
            let b = &other.cells[i];
            assert(a@ == self@[i as int] && b@ == other@[i as int]);
            if a.len() != b.len() {
                assert(self@[i as int].len() != other@[i as int].len());
                return false;
            }
            let mut j: usize = 0;
            while j < a.len()
                invariant
                    a.len() == b.len(),
                    j <= a.len(),
                    i < self@.len(),
                    a@ == self@[i as int],
                    b@ == other@[i as int],
                    forall|k: int| 0 <= k < j ==> a@[k] == b@[k],
                decreases a.len() - j,
            {
                if a[j] != b[j] {
                    assert(self@[i as int][j as int] != other@[i as int][j as int]);
                    return false;
                }
                j = j + 1;
            }
            assert(a@ =~= b@);
            i = i + 1;
        }
        assert(self@ =~= other@);
        true
    }
}

impl vstd::std_specs::cmp::PartialEqSpecImpl for Grid {
    open spec fn obeys_eq_spec() -> bool {
        true
    }

    open spec fn eq_spec(&self, other: &Grid) -> bool {
        self@ == other@
    }
}

/// A copy shares no storage with the grid it was made from.
impl Clone for Grid {
    fn clone(&self) -> (r: Grid)
        ensures
            r@ == self@,
    {
        proof {
            lemma_rows_view(self.cells@);
        }
        let mut cells: Vec<Vec<char>> = Vec::new();
        let mut i: usize = 0;
        while i < self.cells.len()
            invariant
                i <= self.cells.len(),
                rows_view(cells@) == self@.take(i as int),
            decreases self.cells.len() - i,
        {
            let row = self.cells[i].clone();
            assert(row@ =~= self@[i as int]);
            cells.push(row);
            proof {
                lemma_rows_view(cells@);
            }
            assert(self@.take(i + 1) =~= self@.take(i as int).push(self@[i as int]));
            assert(rows_view(cells@) =~= self@.take(i + 1));
            i = i + 1;
        }
        assert(self@.take(i as int) =~= self@);
        Grid { cells }
    }
}

} // verus!
