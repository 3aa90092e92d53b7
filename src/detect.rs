//! Pivot cells of a piece and anchor cells of a board.
use vstd::prelude::*;

use crate::grid::{
    cell_at, height_of, in_bounds, is_occupied, occupied_at, well_formed, width_of, Grid, EMPTY,
    OUTSIDE,
};
use crate::point::Point;
use crate::rotation::{lemma_rotated_step, lemma_rotated_well_formed, rotated};
use vstd::set_lib::lemma_map_size;

verus! {

/// The point at row `r` and column `c`.
pub open spec fn pt(r: int, c: int) -> Point {
    Point { row: r as isize, col: c as isize }
}

/// `p` comes before `q` in row-major order.
pub open spec fn row_major_before(p: Point, q: Point) -> bool {
    p.row < q.row || (p.row == q.row && p.col < q.col)
}

/// The occupied cells of row `i` among its first `j` columns, left to right.
pub open spec fn row_marks(g: Seq<Seq<char>>, i: int, j: int) -> Seq<Point>
    decreases j,
{
    if j <= 0 {
        Seq::empty()
    } else if occupied_at(g, i, j - 1) {
        row_marks(g, i, j - 1).push(pt(i, j - 1))
    } else {
        row_marks(g, i, j - 1)
    }
}

/// The occupied cells of the first `i` rows, in row-major order.
pub open spec fn rows_marks(g: Seq<Seq<char>>, i: int) -> Seq<Point>
    decreases i,
{
    if i <= 0 {
        Seq::empty()
    } else {
        rows_marks(g, i - 1) + row_marks(g, i - 1, width_of(g))
    }
}

/// Every occupied cell of `g`, in row-major order: the candidate pivots of a
/// piece.
pub open spec fn marks_of(g: Seq<Seq<char>>) -> Seq<Point> {
    rows_marks(g, height_of(g))
}

/// Occupied cells of `g` given in strictly increasing row-major order.
pub open spec fn sorted_cells(g: Seq<Seq<char>>, s: Seq<Point>) -> bool {
    &&& forall|k: int|
        0 <= k < s.len() ==> in_bounds(g, #[trigger] s[k].row as int, s[k].col as int)
            && occupied_at(g, s[k].row as int, s[k].col as int)
    &&& forall|k1: int, k2: int|
        0 <= k1 < k2 < s.len() ==> row_major_before(#[trigger] s[k1], #[trigger] s[k2])
}

proof fn lemma_row_marks(g: Seq<Seq<char>>, i: int, j: int)
    requires
        well_formed(g),
        0 <= i < height_of(g),
        0 <= j <= width_of(g),
    ensures
        sorted_cells(g, row_marks(g, i, j)),
        forall|k: int|
            0 <= k < row_marks(g, i, j).len() ==> #[trigger] row_marks(g, i, j)[k].row == i
                && row_marks(g, i, j)[k].col < j,
        forall|c: int|
            0 <= c < j && occupied_at(g, i, c) ==> #[trigger] row_marks(g, i, j).contains(pt(i, c)),
    decreases j,
{
    if j > 0 {
        lemma_row_marks(g, i, j - 1);
        let prev = row_marks(g, i, j - 1);
        let cur = row_marks(g, i, j);
        assert forall|c: int| 0 <= c < j && occupied_at(g, i, c) implies #[trigger] cur.contains(
            pt(i, c),
        ) by {
            if c < j - 1 {
                assert(prev.contains(pt(i, c)));
                let k = choose|k: int| 0 <= k < prev.len() && prev[k] == pt(i, c);
                assert(cur[k] == pt(i, c));
            } else {
                assert(cur[cur.len() - 1] == pt(i, c));
            }
        }
    }
}

proof fn lemma_rows_marks(g: Seq<Seq<char>>, i: int)
    requires
        well_formed(g),
        0 <= i <= height_of(g),
    ensures
        sorted_cells(g, rows_marks(g, i)),
        forall|k: int| 0 <= k < rows_marks(g, i).len() ==> #[trigger] rows_marks(g, i)[k].row < i,
        forall|r: int, c: int|
            0 <= r < i && 0 <= c < width_of(g) && occupied_at(g, r, c) ==> #[trigger] rows_marks(
                g,
                i,
            ).contains(pt(r, c)),
    decreases i,
{
    if i > 0 {
        let w = width_of(g);
        lemma_rows_marks(g, i - 1);
        lemma_row_marks(g, i - 1, w);
        let prev = rows_marks(g, i - 1);
        let last = row_marks(g, i - 1, w);
        let cur = rows_marks(g, i);
        assert(cur == prev + last);
        assert forall|k: int| 0 <= k < cur.len() implies in_bounds(
            g,
            #[trigger] cur[k].row as int,
            cur[k].col as int,
        ) && occupied_at(g, cur[k].row as int, cur[k].col as int) && cur[k].row < i by {
            if k >= prev.len() {
                assert(cur[k] == last[k - prev.len()]);
            }
        }
        assert forall|k1: int, k2: int| 0 <= k1 < k2 < cur.len() implies row_major_before(
            #[trigger] cur[k1],
            #[trigger] cur[k2],
        ) by {
            if k2 < prev.len() {
            } else if k1 < prev.len() {
                assert(cur[k2] == last[k2 - prev.len()]);
            } else {
                assert(cur[k1] == last[k1 - prev.len()]);
                assert(cur[k2] == last[k2 - prev.len()]);
            }
        }
        assert forall|r: int, c: int|
            0 <= r < i && 0 <= c < w && occupied_at(g, r, c) implies #[trigger] cur.contains(
            pt(r, c),
        ) by {
            if r < i - 1 {
                assert(prev.contains(pt(r, c)));
                let k = choose|k: int| 0 <= k < prev.len() && prev[k] == pt(r, c);
                assert(cur[k] == pt(r, c));
            } else {
                assert(last.contains(pt(r, c)));
                let k = choose|k: int| 0 <= k < last.len() && last[k] == pt(r, c);
                assert(cur[prev.len() + k] == pt(r, c));
            }
        }
    }
}

/// The marks of a grid are exactly its occupied cells, each once, in
/// row-major order.
pub proof fn lemma_marks_of(g: Seq<Seq<char>>)
    requires
        well_formed(g),
    ensures
        sorted_cells(g, marks_of(g)),
        marks_of(g).no_duplicates(),
        forall|p: Point|
            #[trigger] marks_of(g).contains(p) <==> in_bounds(g, p.row as int, p.col as int)
                && occupied_at(g, p.row as int, p.col as int),
{
    let s = marks_of(g);
    lemma_rows_marks(g, height_of(g));
    assert forall|k1: int, k2: int| 0 <= k1 < s.len() && 0 <= k2 < s.len() && k1 != k2 implies s[k1]
        != s[k2] by {
        if k1 < k2 {
            assert(row_major_before(s[k1], s[k2]));
        } else {
            assert(row_major_before(s[k2], s[k1]));
        }
    }
    assert forall|p: Point|
        in_bounds(g, p.row as int, p.col as int) && occupied_at(
            g,
            p.row as int,
            p.col as int,
        ) implies #[trigger] s.contains(p) by {
        assert(pt(p.row as int, p.col as int) == p);
    }
}

/// The occupied cells of `grid` in row-major order: the candidate pivots of
/// a piece.
pub fn detect_marks(grid: &Grid) -> (r: Vec<Point>)
    requires
        grid.wf(),
    ensures
        r@ == marks_of(grid@),
{
    let h = grid.height();
    let w = grid.width();
    let ghost g = grid@;
    let mut marks: Vec<Point> = Vec::new();
    let mut i: isize = 0;
    while i < h
        invariant
            grid.wf(),
            g == grid@,
            h == height_of(g),
            w == width_of(g),
            0 <= i <= h,
            marks@ == rows_marks(g, i as int),
        decreases h - i,
    {
        let mut j: isize = 0;
        while j < w
            invariant
                grid.wf(),
                g == grid@,
                h == height_of(g),
                w == width_of(g),
                0 <= i < h,
                0 <= j <= w,
                marks@ == rows_marks(g, i as int) + row_marks(g, i as int, j as int),
            decreases w - j,
        {
            let c = grid.cell(i, j);
            if c != EMPTY && c != OUTSIDE {
                marks.push(Point::new(i, j));
                assert(marks@ =~= rows_marks(g, i as int) + row_marks(g, i as int, j + 1));
            } else {
                assert(row_marks(g, i as int, j + 1) == row_marks(g, i as int, j as int));
            }
            j = j + 1;
        }
        assert(rows_marks(g, i + 1) == rows_marks(g, i as int) + row_marks(g, i as int, w as int));
        i = i + 1;
    }
    marks
}

/// A quarter turn keeps the number of occupied cells.
proof fn lemma_marks_len_quarter(g: Seq<Seq<char>>)
    requires
        well_formed(g),
    ensures
        marks_of(rotated(g, 1)).len() == marks_of(g).len(),
{
    let h = height_of(g);
    let w = width_of(g);
    let r = rotated(g, 1);
    lemma_rotated_well_formed(g, 1);
    lemma_marks_of(g);
    lemma_marks_of(r);
    let sg = marks_of(g).to_set();
    let sr = marks_of(r).to_set();
    let f = |p: Point| pt(p.col as int, h - 1 - p.row);
    assert forall|p: Point, q: Point| sg.contains(p) && sg.contains(q) && #[trigger] f(p) == #[trigger] f(q) implies p == q by {
        assert(marks_of(g).contains(p));
        assert(marks_of(g).contains(q));
    }
    assert forall|y: Point| #[trigger] sr.contains(y) implies sg.map(f).contains(y) by {
        assert(marks_of(r).contains(y));
        let x = pt(h - 1 - y.col, y.row as int);
        assert(g[x.row as int].len() == w);
        assert(r[y.row as int][y.col as int] == g[x.row as int][x.col as int]);
        assert(marks_of(g).contains(x));
        assert(sg.contains(x));
        assert(f(x) == y);
    }
    assert forall|y: Point| sg.map(f).contains(y) implies #[trigger] sr.contains(y) by {
        let x = choose|x: Point| sg.contains(x) && f(x) == y;
        assert(marks_of(g).contains(x));
        assert(g[x.row as int].len() == w);
        assert(r[y.row as int][y.col as int] == g[x.row as int][x.col as int]);
        assert(marks_of(r).contains(y));
    }
    assert(sg.map(f) =~= sr);
    marks_of(g).unique_seq_to_set();
    marks_of(r).unique_seq_to_set();
    lemma_map_size(sg, sr, f);
}

/// Turning a grid keeps the number of its marks.
pub proof fn lemma_marks_len_rotated(g: Seq<Seq<char>>, quarter: int)
    requires
        well_formed(g),
        0 <= quarter < 4,
    ensures
        marks_of(rotated(g, quarter)).len() == marks_of(g).len(),
    decreases quarter,
{
    if quarter > 0 {
        lemma_marks_len_rotated(g, quarter - 1);
        lemma_rotated_step(g, quarter - 1);
        lemma_rotated_well_formed(g, quarter - 1);
        lemma_marks_len_quarter(rotated(g, quarter - 1));
    }
}

pub open spec fn is_unit(d: int) -> bool {
    d == 1 || d == -1
}

/// Both cells that lie between `(i, j)` and its diagonal neighbour
/// `(i + di, j + dj)` are empty.
pub open spec fn open_diagonal(g: Seq<Seq<char>>, i: int, j: int, di: int, dj: int) -> bool {
    cell_at(g, i + di, j) == EMPTY && cell_at(g, i, j + dj) == EMPTY
}

/// `p` touches the occupied cell `p - (di, dj)` at a corner only.
pub open spec fn corner_via(g: Seq<Seq<char>>, p: Point, di: int, dj: int) -> bool {
    occupied_at(g, p.row - di, p.col - dj) && open_diagonal(g, p.row - di, p.col - dj, di, dj)
}

/// `p` is diagonal to an occupied cell of `g` and shares no edge with it
/// through an occupied cell: a legal anchor after the first turn.
pub open spec fn is_corner(g: Seq<Seq<char>>, p: Point) -> bool {
    corner_via(g, p, -1, -1) || corner_via(g, p, -1, 1) || corner_via(g, p, 1, -1) || corner_via(
        g,
        p,
        1,
        1,
    )
}

/// Whether `v` holds `p`.
fn contains_point(v: &Vec<Point>, p: Point) -> (r: bool)
    ensures
        r == v@.contains(p),
{
    let mut k: usize = 0;
    while k < v.len()
        invariant
            k <= v.len(),
            forall|m: int| 0 <= m < k ==> v@[m] != p,
        decreases v.len() - k,
    {
        if v[k] == p {
            return true;
        }
        k = k + 1;
    }
    false
}

/// The diagonal neighbours of `(i, j)` whose two cells in between are empty,
/// in the order up-left, up-right, down-left, down-right.
fn get_corners(grid: &Grid, i: isize, j: isize) -> (r: Vec<Point>)
    requires
        grid.wf(),
        in_bounds(grid@, i as int, j as int),
    ensures
        forall|k: int|
            0 <= k < r.len() ==> is_unit(#[trigger] r@[k].row - i) && is_unit(r@[k].col - j)
                && open_diagonal(grid@, i as int, j as int, r@[k].row - i, r@[k].col - j),
        forall|di: int, dj: int|
            is_unit(di) && is_unit(dj) && #[trigger] open_diagonal(grid@, i as int, j as int, di, dj)
                ==> r@.contains(pt(i + di, j + dj)),
{
    let mut corners: Vec<Point> = Vec::new();
    let ghost g = grid@;
    let ghost k1 = corners.len() as int;
    if grid.cell(i - 1, j) == EMPTY && grid.cell(i, j - 1) == EMPTY {
        corners.push(Point::new(i - 1, j - 1));
    }
    let ghost k2 = corners.len() as int;
    if grid.cell(i - 1, j) == EMPTY && grid.cell(i, j + 1) == EMPTY {
        corners.push(Point::new(i - 1, j + 1));
    }
    let ghost k3 = corners.len() as int;
    if grid.cell(i, j - 1) == EMPTY && grid.cell(i + 1, j) == EMPTY {
        corners.push(Point::new(i + 1, j - 1));
    }
    let ghost k4 = corners.len() as int;
    if grid.cell(i, j + 1) == EMPTY && grid.cell(i + 1, j) == EMPTY {
        corners.push(Point::new(i + 1, j + 1));
    }
    proof {
        assert forall|di: int, dj: int|
            is_unit(di) && is_unit(dj) && #[trigger] open_diagonal(
                g,
                i as int,
                j as int,
                di,
                dj,
            ) implies corners@.contains(pt(i + di, j + dj)) by {
            if di == -1 && dj == -1 {
                assert(corners@[k1] == pt(i + di, j + dj));
            } else if di == -1 && dj == 1 {
                assert(corners@[k2] == pt(i + di, j + dj));
            } else if di == 1 && dj == -1 {
                assert(corners@[k3] == pt(i + di, j + dj));
            } else {
                assert(corners@[k4] == pt(i + di, j + dj));
            }
        }
    }
    corners
}

/// Every corner of a board lies on the board: the two cells between it and
/// its occupied neighbour share its row and its column.
pub proof fn lemma_corner_bounds(g: Seq<Seq<char>>, p: Point)
    requires
        is_corner(g, p),
    ensures
        in_bounds(g, p.row as int, p.col as int),
{
}

/// The anchor cells of a board after the first turn: each cell diagonal to
/// an occupied cell whose two cells in between are empty, listed once.
pub fn detect_corners(grid: &Grid) -> (r: Vec<Point>)
    requires
        grid.wf(),
    ensures
        r@.no_duplicates(),
        forall|p: Point| #[trigger] r@.contains(p) <==> is_corner(grid@, p),
{
    let h = grid.height();
    let w = grid.width();
    let ghost g = grid@;
    let mut points: Vec<Point> = Vec::new();
    let mut i: isize = 0;
    while i < h
        invariant
            grid.wf(),
            g == grid@,
            h == height_of(g),
            w == width_of(g),
            0 <= i <= h,
            points@.no_duplicates(),
            forall|k: int| 0 <= k < points.len() ==> is_corner(g, #[trigger] points@[k]),
            forall|a: int, b: int, di: int, dj: int|
                0 <= a < i && 0 <= b < w && is_unit(di) && is_unit(dj) && occupied_at(g, a, b)
                    && #[trigger] open_diagonal(g, a, b, di, dj) ==> points@.contains(
                    pt(a + di, b + dj),
                ),
        decreases h - i,
    {
        let mut j: isize = 0;
        while j < w
            invariant
                grid.wf(),
                g == grid@,
                h == height_of(g),
                w == width_of(g),
                0 <= i < h,
                0 <= j <= w,
                points@.no_duplicates(),
                forall|k: int| 0 <= k < points.len() ==> is_corner(g, #[trigger] points@[k]),
                forall|a: int, b: int, di: int, dj: int|
                    (0 <= a < i || (a == i && 0 <= b < j)) && 0 <= b < w && is_unit(di) && is_unit(
                        dj,
                    ) && occupied_at(g, a, b) && #[trigger] open_diagonal(g, a, b, di, dj)
                        ==> points@.contains(pt(a + di, b + dj)),
            decreases w - j,
        {
            let c = grid.cell(i, j);
            if c != EMPTY && c != OUTSIDE {
                let candidates = get_corners(grid, i, j);
                let mut k: usize = 0;
                while k < candidates.len()
                    invariant
                        grid.wf(),
                        g == grid@,
                        h == height_of(g),
                        w == width_of(g),
                        0 <= i < h,
                        0 <= j < w,
                        occupied_at(g, i as int, j as int),
                        k <= candidates.len(),
                        forall|m: int|
                            0 <= m < candidates.len() ==> is_unit(
                                #[trigger] candidates@[m].row - i,
                            ) && is_unit(candidates@[m].col - j) && open_diagonal(
                                g,
                                i as int,
                                j as int,
                                candidates@[m].row - i,
                                candidates@[m].col - j,
                            ),
                        forall|m: int| 0 <= m < k ==> points@.contains(#[trigger] candidates@[m]),
                        points@.no_duplicates(),
                        forall|m: int| 0 <= m < points.len() ==> is_corner(g, #[trigger] points@[m]),
                        forall|a: int, b: int, di: int, dj: int|
                            (0 <= a < i || (a == i && 0 <= b < j)) && 0 <= b < w && is_unit(di)
                                && is_unit(dj) && occupied_at(g, a, b) && #[trigger] open_diagonal(
                                g,
                                a,
                                b,
                                di,
                                dj,
                            ) ==> points@.contains(pt(a + di, b + dj)),
                    decreases candidates.len() - k,
                {
                    let p = candidates[k];
                    let ghost di = p.row - i;
                    let ghost dj = p.col - j;
                    assert(corner_via(g, p, di, dj));
                    if !contains_point(&points, p) {
                        let ghost before = points@;
                        points.push(p);
                        proof {
                            assert forall|m: int| 0 <= m < points.len() implies is_corner(
                                g,
                                #[trigger] points@[m],
                            ) by {
                                if m < before.len() {
                                    assert(before[m] == points@[m]);
                                }
                            }
                            assert forall|m1: int, m2: int|
                                0 <= m1 < points.len() && 0 <= m2 < points.len() && m1
                                    != m2 implies points@[m1] != points@[m2] by {
                                if m1 < before.len() && m2 < before.len() {
                                    assert(before[m1] == points@[m1]);
                                    assert(before[m2] == points@[m2]);
                                } else if m1 < before.len() {
                                    assert(before.contains(points@[m1]));
                                } else if m2 < before.len() {
                                    assert(before.contains(points@[m2]));
                                }
                            }
                            assert forall|m: int| 0 <= m <= k implies points@.contains(
                                #[trigger] candidates@[m],
                            ) by {
                                if m < k {
                                    assert(before.contains(candidates@[m]));
                                    let x = choose|x: int| 0 <= x < before.len() && before[x]
                                        == candidates@[m];
                                    assert(points@[x] == candidates@[m]);
                                } else {
                                    assert(points@[points.len() - 1] == p);
                                }
                            }
                            assert forall|a: int, b: int, di2: int, dj2: int|
                                (0 <= a < i || (a == i && 0 <= b < j)) && 0 <= b < w && is_unit(
                                    di2,
                                ) && is_unit(dj2) && occupied_at(g, a, b) && #[trigger] open_diagonal(
                                    g,
                                    a,
                                    b,
                                    di2,
                                    dj2,
                                ) implies points@.contains(pt(a + di2, b + dj2)) by {
                                assert(before.contains(pt(a + di2, b + dj2)));
                                let x = choose|x: int| 0 <= x < before.len() && before[x] == pt(
                                    a + di2,
                                    b + dj2,
                                );
                                assert(points@[x] == pt(a + di2, b + dj2));
                            }
                        }
                    }
                    k = k + 1;
                }
                proof {
                    assert forall|a: int, b: int, di: int, dj: int|
                        (0 <= a < i || (a == i && 0 <= b < j + 1)) && 0 <= b < w && is_unit(di)
                            && is_unit(dj) && occupied_at(g, a, b) && #[trigger] open_diagonal(
                            g,
                            a,
                            b,
                            di,
                            dj,
                        ) implies points@.contains(pt(a + di, b + dj)) by {
                        if a == i && b == j {
                            assert(candidates@.contains(pt(i + di, j + dj)));
                            let m = choose|m: int| 0 <= m < candidates.len() && candidates@[m] == pt(
                                i + di,
                                j + dj,
                            );
                            assert(points@.contains(candidates@[m]));
                        }
                    }
                }
            }
            j = j + 1;
        }
        i = i + 1;
    }
    proof {
        assert forall|p: Point| is_corner(g, p) implies #[trigger] points@.contains(p) by {
            if corner_via(g, p, -1, -1) {
                assert(open_diagonal(g, p.row + 1, p.col + 1, -1, -1));
                assert(pt(p.row + 1 + -1, p.col + 1 + -1) == p);
            } else if corner_via(g, p, -1, 1) {
                assert(open_diagonal(g, p.row + 1, p.col - 1, -1, 1));
                assert(pt(p.row + 1 + -1, p.col - 1 + 1) == p);
            } else if corner_via(g, p, 1, -1) {
                assert(open_diagonal(g, p.row - 1, p.col + 1, 1, -1));
                assert(pt(p.row - 1 + 1, p.col + 1 + -1) == p);
            } else {
                assert(open_diagonal(g, p.row - 1, p.col - 1, 1, 1));
                assert(pt(p.row - 1 + 1, p.col - 1 + 1) == p);
            }
        }
        assert forall|p: Point| #[trigger] points@.contains(p) implies is_corner(g, p) by {
            let x = choose|x: int| 0 <= x < points.len() && points@[x] == p;
            assert(is_corner(g, points@[x]));
        }
    }
    points
}

} // verus!
