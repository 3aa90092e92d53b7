//! Whether a placement overlaps or edge-touches occupied board cells.
use vstd::prelude::*;

use crate::grid::{height_of, in_bounds, occupied_at, width_of, Grid, EMPTY, OUTSIDE};
use crate::point::Point;

verus! {

/// The cell `(r, c)` or one of its four edge neighbours is occupied.
pub open spec fn touches_occupied(board: Seq<Seq<char>>, r: int, c: int) -> bool {
    occupied_at(board, r, c) || occupied_at(board, r - 1, c) || occupied_at(board, r, c + 1)
        || occupied_at(board, r + 1, c) || occupied_at(board, r, c - 1)
}

/// With the pivot `mark` of `piece` laid on the board cell `anchor`, every
/// occupied piece cell `(i, j)` lands on the board, at
/// `anchor + (i, j) - mark`.
pub open spec fn lands_inside(
    board: Seq<Seq<char>>,
    piece: Seq<Seq<char>>,
    anchor: Point,
    mark: Point,
) -> bool {
    forall|i: int, j: int|
        in_bounds(piece, i, j) && #[trigger] occupied_at(piece, i, j) ==> in_bounds(
            board,
            anchor.row + i - mark.row,
            anchor.col + j - mark.col,
        )
}

/// Some occupied piece cell lands on an occupied board cell or next to one.
pub open spec fn collision(
    board: Seq<Seq<char>>,
    piece: Seq<Seq<char>>,
    anchor: Point,
    mark: Point,
) -> bool {
    exists|i: int, j: int|
        in_bounds(piece, i, j) && #[trigger] occupied_at(piece, i, j) && touches_occupied(
            board,
            anchor.row + i - mark.row,
            anchor.col + j - mark.col,
        )
}

/// Collision is a function of what the two grids hold and of the two
/// points alone: the same inputs always give the same answer.
pub proof fn lemma_collision_deterministic(
    board1: Seq<Seq<char>>,
    board2: Seq<Seq<char>>,
    piece1: Seq<Seq<char>>,
    piece2: Seq<Seq<char>>,
    anchor: Point,
    mark: Point,
)
    requires
        board1 == board2,
        piece1 == piece2,
    ensures
        collision(board1, piece1, anchor, mark) == collision(board2, piece2, anchor, mark),
{
}

fn is_taken(grid: &Grid, p: Point) -> (r: bool)
    requires
        grid.wf(),
        -1 <= p.row <= height_of(grid@),
        -1 <= p.col <= width_of(grid@),
    ensures
        r == occupied_at(grid@, p.row as int, p.col as int),
{
    let c = grid.cell(p.row, p.col);
    c != EMPTY && c != OUTSIDE
}

/// Whether `p` or one of its edge neighbours is occupied.
fn touches_taken(grid: &Grid, p: Point) -> (r: bool)
    requires
        grid.wf(),
        in_bounds(grid@, p.row as int, p.col as int),
    ensures
        r == touches_occupied(grid@, p.row as int, p.col as int),
{
    is_taken(grid, p) || is_taken(grid, Point::new(p.row - 1, p.col)) || is_taken(
        grid,
        Point::new(p.row, p.col + 1),
    ) || is_taken(grid, Point::new(p.row + 1, p.col)) || is_taken(grid, Point::new(p.row, p.col - 1))
}

/// Whether laying the pivot `pc` of `piece` on the board cell `gc` puts an
/// occupied piece cell on, or edge to edge with, an occupied board cell.
/// Every occupied piece cell must land on the board.
pub fn collides(grid: &Grid, piece: &Grid, gc: Point, pc: Point) -> (r: bool)
    requires
        grid.wf(),
        piece.wf(),
        lands_inside(grid@, piece@, gc, pc),
    ensures
        r == collision(grid@, piece@, gc, pc),
{
    let h = piece.height();
    let w = piece.width();
    let mut i: isize = 0;
    while i < h
        invariant
            grid.wf(),
            piece.wf(),
            lands_inside(grid@, piece@, gc, pc),
            h == height_of(piece@),
            w == width_of(piece@),
            0 <= i <= h,
            forall|a: int, b: int|
                0 <= a < i && 0 <= b < w && #[trigger] occupied_at(piece@, a, b)
                    ==> !touches_occupied(grid@, gc.row + a - pc.row, gc.col + b - pc.col),
        decreases h - i,
    {
        let mut j: isize = 0;
        while j < w
            invariant
                grid.wf(),
                piece.wf(),
                lands_inside(grid@, piece@, gc, pc),
                h == height_of(piece@),
                w == width_of(piece@),
                0 <= i < h,
                0 <= j <= w,
                forall|a: int, b: int|
                    (0 <= a < i || (a == i && 0 <= b < j)) && 0 <= b < w && #[trigger] occupied_at(
                        piece@,
                        a,
                        b,
                    ) ==> !touches_occupied(grid@, gc.row + a - pc.row, gc.col + b - pc.col),
            decreases w - j,
        {
            let cell = piece.cell(i, j);
            if cell != EMPTY && cell != OUTSIDE {
                assert(occupied_at(piece@, i as int, j as int));
                let grid_point = gc.sub(pc).add(Point::new(i, j));
                // The caller's bounds guarantee keeps every landed cell on the board.
                assert(in_bounds(grid@, grid_point.row as int, grid_point.col as int));
                if touches_taken(grid, grid_point) {
                    return true;
                }
            }
            j = j + 1;
        }
        i = i + 1;
    }
    false
}

} // verus!
