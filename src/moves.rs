//! Enumeration of the legal placements of a piece.
use vstd::prelude::*;

use crate::collision::{collides, collision, lands_inside};
use crate::detect::{
    detect_corners, detect_marks, is_corner, lemma_corner_bounds,
    lemma_marks_len_rotated, lemma_marks_of, marks_of, pt,
};
use crate::grid::{
    height_of, in_bounds, occupied_at, well_formed, width_of, Grid, GridError, EMPTY, OUTSIDE,
};
use crate::point::Point;
use crate::rotation::{lemma_rotated_well_formed, rotate_quarters, rotated};

verus! {

/// A placement: the turned piece, the board cell `grid_corner` and the piece
/// cell `piece_mark` that is laid on it.
#[derive(Clone, Debug, PartialEq, Eq, Hash)]
pub struct Move {
    pub piece: Grid,
    pub grid_corner: Point,
    pub piece_mark: Point,
}

impl View for Move {
    type V = (Seq<Seq<char>>, Point, Point);

    open spec fn view(&self) -> (Seq<Seq<char>>, Point, Point) {
        (self.piece@, self.grid_corner, self.piece_mark)
    }
}

pub open spec fn moves_view(moves: Seq<Move>) -> Seq<(Seq<Seq<char>>, Point, Point)> {
    moves.map_values(|m: Move| m@)
}

/// The four corner points of a board of height `H` and width `W`:
/// `(0, 0)`, `(H, 0)`, `(0, W)` and `(H, W)`.
pub open spec fn board_corners(board: Seq<Seq<char>>) -> Seq<Point> {
    let h = height_of(board);
    let w = width_of(board);
    seq![pt(0, 0), pt(h, 0), pt(0, w), pt(h, w)]
}

/// The anchors of a turn: the board's four corner points on the first turn,
/// whatever the board holds, and its corner cells after that.
pub open spec fn anchor_set(board: Seq<Seq<char>>, turn: i32) -> Set<Point> {
    if turn == 0 {
        board_corners(board).to_set()
    } else {
        Set::new(|p: Point| is_corner(board, p))
    }
}

/// `g` is `piece` turned by 0, 90, 180 or 270 degrees.
pub open spec fn is_rotation(piece: Seq<Seq<char>>, g: Seq<Seq<char>>) -> bool {
    g == rotated(piece, 0) || g == rotated(piece, 1) || g == rotated(piece, 2) || g == rotated(
        piece,
        3,
    )
}

/// With `mark` laid on `anchor`, the whole bounding box of `piece` lies on
/// the board.
pub open spec fn fits(board: Seq<Seq<char>>, piece: Seq<Seq<char>>, anchor: Point, mark: Point) -> bool {
    &&& anchor.row - mark.row >= 0
    &&& anchor.row + (height_of(piece) - mark.row - 1) < height_of(board)
    &&& anchor.col - mark.col >= 0
    &&& anchor.col + (width_of(piece) - mark.col - 1) < width_of(board)
}

/// A placement that `get_moves` returns: a turn of the piece, one of the
/// turn's anchors and one of the turned piece's marks, inside the board and
/// free of collisions.
pub open spec fn legal_move(
    board: Seq<Seq<char>>,
    piece: Seq<Seq<char>>,
    turn: i32,
    mv: (Seq<Seq<char>>, Point, Point),
) -> bool {
    &&& is_rotation(piece, mv.0)
    &&& anchor_set(board, turn).contains(mv.1)
    &&& marks_of(mv.0).contains(mv.2)
    &&& fits(board, mv.0, mv.1, mv.2)
    &&& !collision(board, mv.0, mv.1, mv.2)
}

/// The placement tried for turn `q`, anchor number `a` and mark number `m`.
pub open spec fn candidate(piece: Seq<Seq<char>>, anchors: Seq<Point>, q: int, a: int, m: int) -> (
    Seq<Seq<char>>,
    Point,
    Point,
) {
    (rotated(piece, q), anchors[a], marks_of(rotated(piece, q))[m])
}

pub open spec fn accepted(board: Seq<Seq<char>>, c: (Seq<Seq<char>>, Point, Point)) -> bool {
    fits(board, c.0, c.1, c.2) && !collision(board, c.0, c.1, c.2)
}

/// `(q, a, m)` comes before `(q2, a2, m2)` in the order of the search.
pub open spec fn tried_before(q: int, a: int, m: int, q2: int, a2: int, m2: int) -> bool {
    q < q2 || (q == q2 && a < a2) || (q == q2 && a == a2 && m < m2)
}

/// A placement whose bounding box lies on the board puts every piece cell
/// on the board.
pub proof fn lemma_fits_lands_inside(
    board: Seq<Seq<char>>,
    piece: Seq<Seq<char>>,
    anchor: Point,
    mark: Point,
)
    requires
        well_formed(piece),
        fits(board, piece, anchor, mark),
    ensures
        lands_inside(board, piece, anchor, mark),
{
}

/// On the first turn the anchors are the four corner points of the board,
/// whatever the board holds: two boards of the same size have the same
/// first-turn anchors.
pub proof fn lemma_first_turn_anchors(board1: Seq<Seq<char>>, board2: Seq<Seq<char>>)
    requires
        well_formed(board1),
        well_formed(board2),
        height_of(board1) == height_of(board2),
        width_of(board1) == width_of(board2),
    ensures
        anchor_set(board1, 0) == anchor_set(board2, 0),
        anchor_set(board1, 0) == set![
            pt(0, 0),
            pt(height_of(board1), 0),
            pt(0, width_of(board1)),
            pt(height_of(board1), width_of(board1)),
        ],
{
    let h = height_of(board1);
    let w = width_of(board1);
    let s = board_corners(board1);
    assert(s.to_set() =~= set![pt(0, 0), pt(h, 0), pt(0, w), pt(h, w)]) by {
        assert(s[0] == pt(0, 0) && s[1] == pt(h, 0) && s[2] == pt(0, w) && s[3] == pt(h, w));
    }
    assert(board_corners(board1) == board_corners(board2));
}

/// Whether the bounding box of `piece`, with `pc` laid on `gc`, lies on the
/// board.
fn fits_on_board(grid: &Grid, piece: &Grid, gc: Point, pc: Point) -> (r: bool)
    requires
        grid.wf(),
        piece.wf(),
        -1 <= gc.row <= height_of(grid@),
        -1 <= gc.col <= width_of(grid@),
        in_bounds(piece@, pc.row as int, pc.col as int),
    ensures
        r == fits(grid@, piece@, gc, pc),
{
    let row_shift = gc.row - pc.row;
    let col_shift = gc.col - pc.col;
    if row_shift < 0 || piece.height() > grid.height() - row_shift {
        return false;
    }
    if col_shift < 0 || piece.width() > grid.width() - col_shift {
        return false;
    }
    true
}

/// Whether `moves` already holds the placement `(piece, gc, pc)`.
fn contains_move(moves: &Vec<Move>, piece: &Grid, gc: Point, pc: Point) -> (r: bool)
    ensures
        r == moves_view(moves@).contains((piece@, gc, pc)),
{
    let mut k: usize = 0;
    while k < moves.len()
        invariant
            k <= moves.len(),
            forall|m: int| 0 <= m < k ==> moves@[m]@ != (piece@, gc, pc),
        decreases moves.len() - k,
    {
        let mv = &moves[k];
        if mv.grid_corner == gc && mv.piece_mark == pc && mv.piece == *piece {
            assert(moves_view(moves@)[k as int] == (piece@, gc, pc));
            return true;
        }
        k = k + 1;
    }
    assert forall|m: int| 0 <= m < moves_view(moves@).len() implies moves_view(moves@)[m] != (
        piece@,
        gc,
        pc,
    ) by {
        assert(moves_view(moves@)[m] == moves@[m]@);
    }
    false
}

/// Every legal placement of `piece` on `grid` at turn `turn`, each once:
/// the piece turned by 0, 90, 180 and 270 degrees, each of its marks laid on
/// each anchor of the turn, kept when the piece's bounding box lies on the
/// board and the placement does not collide.
pub fn get_moves(grid: &Grid, piece: &Grid, turn: i32) -> (r: Vec<Move>)
    requires
        grid.wf(),
        piece.wf(),
    ensures
        forall|k: int| 0 <= k < r.len() ==> (#[trigger] r@[k]).piece.wf(),
        forall|mv: (Seq<Seq<char>>, Point, Point)|
            #[trigger] moves_view(r@).contains(mv) <==> legal_move(grid@, piece@, turn, mv),
        moves_view(r@).no_duplicates(),
        turn == 0 ==> forall|k: int|
            0 <= k < r.len() ==> board_corners(grid@).contains(#[trigger] r@[k].grid_corner),
        r.len() <= 4 * anchor_set(grid@, turn).len() * marks_of(piece@).len(),
{
    let ghost board = grid@;
    let ghost shape = piece@;
    let anchors: Vec<Point> = if turn == 0 {
        let h = grid.height();
        let w = grid.width();
        let corners = vec![Point::new(0, 0), Point::new(h, 0), Point::new(0, w), Point::new(h, w)];
        assert(corners@ =~= board_corners(board));
        corners
    } else {
        detect_corners(grid)
    };
    proof {
        if turn == 0 {
            assert(anchors@.to_set() =~= anchor_set(board, turn));
        } else {
            assert(anchors@.to_set() =~= anchor_set(board, turn));
            assert forall|k: int| 0 <= k < anchors.len() implies -1 <= #[trigger] anchors@[k].row
                <= height_of(board) && -1 <= anchors@[k].col <= width_of(board) by {
                assert(anchors@.contains(anchors@[k]));
                lemma_corner_bounds(board, anchors@[k]);
            }
        }
        anchors@.unique_seq_to_set();
    }
    let ghost n_anchors = anchors.len() as int;
    let ghost n_marks = marks_of(shape).len();
    let mut moves: Vec<Move> = Vec::new();
    let mut q: isize = 0;
    while q < 4
        invariant
            grid.wf(),
            piece.wf(),
            board == grid@,
            shape == piece@,
            anchors@.to_set() == anchor_set(board, turn),
            anchors@.no_duplicates(),
            n_anchors == anchors.len(),
            n_marks == marks_of(shape).len(),
            anchor_set(board, turn).len() == n_anchors,
            forall|k: int|
                0 <= k < anchors.len() ==> -1 <= #[trigger] anchors@[k].row <= height_of(board)
                    && -1 <= anchors@[k].col <= width_of(board),
            0 <= q <= 4,
            forall|k: int|
                0 <= k < moves.len() ==> (#[trigger] moves@[k]).piece.wf() && legal_move(
                    board,
                    shape,
                    turn,
                    moves@[k]@,
                ),
            moves_view(moves@).no_duplicates(),
            forall|q2: int, a2: int, m2: int|
                0 <= q2 < q && 0 <= a2 < anchors.len() && 0 <= m2 < marks_of(
                    rotated(shape, q2),
                ).len() && accepted(board, #[trigger] candidate(shape, anchors@, q2, a2, m2))
                    ==> moves_view(moves@).contains(candidate(shape, anchors@, q2, a2, m2)),
            moves.len() <= q * n_anchors * n_marks,
        decreases 4 - q,
    {
        let rotated_piece = rotate_quarters(piece, q);
        let piece_marks = detect_marks(&rotated_piece);
        let ghost turned = rotated_piece@;
        proof {
            lemma_marks_of(turned);
            lemma_marks_len_rotated(shape, q as int);
        }
        let mut ai: usize = 0;
        while ai < anchors.len()
            invariant
                grid.wf(),
                piece.wf(),
                board == grid@,
                shape == piece@,
                anchors@.to_set() == anchor_set(board, turn),
                n_anchors == anchors.len(),
                n_marks == marks_of(shape).len(),
                forall|k: int|
                    0 <= k < anchors.len() ==> -1 <= #[trigger] anchors@[k].row <= height_of(board)
                        && -1 <= anchors@[k].col <= width_of(board),
                0 <= q < 4,
                rotated_piece.wf(),
                turned == rotated_piece@,
                turned == rotated(shape, q as int),
                piece_marks@ == marks_of(turned),
                piece_marks.len() == n_marks,
                forall|p: Point|
                    #[trigger] marks_of(turned).contains(p) ==> in_bounds(
                        turned,
                        p.row as int,
                        p.col as int,
                    ),
                0 <= ai <= anchors.len(),
                forall|k: int|
                    0 <= k < moves.len() ==> (#[trigger] moves@[k]).piece.wf() && legal_move(
                        board,
                        shape,
                        turn,
                        moves@[k]@,
                    ),
                moves_view(moves@).no_duplicates(),
                forall|q2: int, a2: int, m2: int|
                    0 <= q2 < 4 && 0 <= a2 < anchors.len() && 0 <= m2 < marks_of(
                        rotated(shape, q2),
                    ).len() && tried_before(q2, a2, m2, q as int, ai as int, 0) && accepted(
                        board,
                        #[trigger] candidate(shape, anchors@, q2, a2, m2),
                    ) ==> moves_view(moves@).contains(candidate(shape, anchors@, q2, a2, m2)),
                moves.len() <= q * n_anchors * n_marks + ai * n_marks,
            decreases anchors.len() - ai,
        {
            let gc = anchors[ai];
            let mut mi: usize = 0;
            while mi < piece_marks.len()
                invariant
                    grid.wf(),
                    piece.wf(),
                    board == grid@,
                    shape == piece@,
                    anchors@.to_set() == anchor_set(board, turn),
                    n_anchors == anchors.len(),
                    n_marks == marks_of(shape).len(),
                    0 <= q < 4,
                    rotated_piece.wf(),
                    turned == rotated_piece@,
                    turned == rotated(shape, q as int),
                    piece_marks@ == marks_of(turned),
                    piece_marks.len() == n_marks,
                    forall|p: Point|
                        #[trigger] marks_of(turned).contains(p) ==> in_bounds(
                            turned,
                            p.row as int,
                            p.col as int,
                        ),
                    0 <= ai < anchors.len(),
                    gc == anchors@[ai as int],
                    -1 <= gc.row <= height_of(board),
                    -1 <= gc.col <= width_of(board),
                    0 <= mi <= piece_marks.len(),
                    forall|k: int|
                        0 <= k < moves.len() ==> (#[trigger] moves@[k]).piece.wf() && legal_move(
                            board,
                            shape,
                            turn,
                            moves@[k]@,
                        ),
                    moves_view(moves@).no_duplicates(),
                    forall|q2: int, a2: int, m2: int|
                        0 <= q2 < 4 && 0 <= a2 < anchors.len() && 0 <= m2 < marks_of(
                            rotated(shape, q2),
                        ).len() && tried_before(q2, a2, m2, q as int, ai as int, mi as int)
                            && accepted(board, #[trigger] candidate(shape, anchors@, q2, a2, m2))
                            ==> moves_view(moves@).contains(candidate(shape, anchors@, q2, a2, m2)),
                    moves.len() <= q * n_anchors * n_marks + ai * n_marks + mi,
                decreases piece_marks.len() - mi,
            {
                let pc = piece_marks[mi];
                let ghost cand = candidate(shape, anchors@, q as int, ai as int, mi as int);
                assert(cand == (turned, gc, pc));
                assert(marks_of(turned).contains(pc));
                let ghost before = moves@;
                let fresh = !contains_move(&moves, &rotated_piece, gc, pc);
                if fresh && fits_on_board(grid, &rotated_piece, gc, pc) {
                    proof {
                        lemma_fits_lands_inside(board, turned, gc, pc);
                    }
                    if !collides(grid, &rotated_piece, gc, pc) {
                        let copy = rotated_piece.clone();
                        moves.push(Move { piece: copy, grid_corner: gc, piece_mark: pc });
                        proof {
                            assert(moves_view(moves@) =~= moves_view(before).push(cand));
                            assert(anchors@.to_set().contains(gc));
                            assert(legal_move(board, shape, turn, cand));
                            assert forall|k: int| 0 <= k < moves.len() implies (
                                #[trigger] moves@[k]).piece.wf() && legal_move(
                                board,
                                shape,
                                turn,
                                moves@[k]@,
                            ) by {
                                if k < before.len() {
                                    assert(moves@[k] == before[k]);
                                }
                            }
                            assert forall|x: int, y: int|
                                0 <= x < moves_view(moves@).len() && 0 <= y < moves_view(moves@).len()
                                    && x != y implies moves_view(moves@)[x] != moves_view(moves@)[y] by {
                                if x < before.len() && y < before.len() {
                                    assert(moves_view(moves@)[x] == moves_view(before)[x]);
                                    assert(moves_view(moves@)[y] == moves_view(before)[y]);
                                } else if x < before.len() {
                                    assert(moves_view(moves@)[x] == moves_view(before)[x]);
                                    assert(moves_view(before).contains(moves_view(moves@)[x]));
                                } else if y < before.len() {
                                    assert(moves_view(moves@)[y] == moves_view(before)[y]);
                                    assert(moves_view(before).contains(moves_view(moves@)[y]));
                                }
                            }
                        }
                    }
                }
                proof {
                    assert forall|q2: int, a2: int, m2: int|
                        0 <= q2 < 4 && 0 <= a2 < anchors.len() && 0 <= m2 < marks_of(
                            rotated(shape, q2),
                        ).len() && tried_before(q2, a2, m2, q as int, ai as int, mi + 1)
                            && accepted(
                            board,
                            #[trigger] candidate(shape, anchors@, q2, a2, m2),
                        ) implies moves_view(moves@).contains(
                        candidate(shape, anchors@, q2, a2, m2),
                    ) by {
                        let c = candidate(shape, anchors@, q2, a2, m2);
                        if q2 == q && a2 == ai && m2 == mi {
                            lemma_fits_lands_inside(board, turned, gc, pc);
                            if moves_view(before).contains(c) {
                                let x = choose|x: int|
                                    0 <= x < moves_view(before).len() && moves_view(before)[x]
                                        == c;
                                assert(moves_view(moves@)[x] == c);
                            } else {
                                assert(moves_view(moves@)[moves.len() - 1] == c);
                            }
                        } else {
                            assert(moves_view(before).contains(c));
                            let x = choose|x: int|
                                0 <= x < moves_view(before).len() && moves_view(before)[x] == c;
                            assert(moves_view(moves@)[x] == c);
                        }
                    }
                }
                mi = mi + 1;
            }
            proof {
                assert((ai + 1) * n_marks == ai * n_marks + n_marks) by (nonlinear_arith);
            }
            ai = ai + 1;
        }
        proof {
            assert((q + 1) * n_anchors * n_marks == q * n_anchors * n_marks + n_anchors * n_marks)
                by (nonlinear_arith);
        }
        q = q + 1;
    }
    proof {
        assert forall|mv: (Seq<Seq<char>>, Point, Point)|
            legal_move(board, shape, turn, mv) implies #[trigger] moves_view(moves@).contains(mv) by {
            let q2: int = if mv.0 == rotated(shape, 0) {
                0
            } else if mv.0 == rotated(shape, 1) {
                1
            } else if mv.0 == rotated(shape, 2) {
                2
            } else {
                3
            };
            assert(anchors@.to_set().contains(mv.1));
            let a2 = choose|a2: int| 0 <= a2 < anchors.len() && anchors@[a2] == mv.1;
            let m2 = choose|m2: int|
                0 <= m2 < marks_of(mv.0).len() && marks_of(mv.0)[m2] == mv.2;
            assert(candidate(shape, anchors@, q2, a2, m2) == mv);
        }
        assert forall|mv: (Seq<Seq<char>>, Point, Point)|
            #[trigger] moves_view(moves@).contains(mv) implies legal_move(board, shape, turn, mv) by {
            let x = choose|x: int| 0 <= x < moves_view(moves@).len() && moves_view(moves@)[x] == mv;
            assert(moves@[x]@ == mv);
        }
        if turn == 0 {
            assert forall|k: int| 0 <= k < moves.len() implies board_corners(board).contains(
                #[trigger] moves@[k].grid_corner,
            ) by {
                assert(legal_move(board, shape, turn, moves@[k]@));
            }
        }
    }
    moves
}

/// The board cell `(r, c)` lies under an occupied piece cell when the pivot
/// `mark` is laid on `anchor`.
pub open spec fn covered(piece: Seq<Seq<char>>, anchor: Point, mark: Point, r: int, c: int) -> bool {
    occupied_at(piece, r - anchor.row + mark.row, c - anchor.col + mark.col)
}

/// `board` with each cell under an occupied piece cell set to `tag`.
pub open spec fn placed(
    board: Seq<Seq<char>>,
    piece: Seq<Seq<char>>,
    anchor: Point,
    mark: Point,
    tag: char,
) -> Seq<Seq<char>> {
    Seq::new(
        board.len(),
        |r: int|
            Seq::new(
                board[r].len(),
                |c: int|
                    if covered(piece, anchor, mark, r, c) {
                        tag
                    } else {
                        board[r][c]
                    },
            ),
    )
}

/// `placed`, counting only the piece cells before `(i, j)` in row-major
/// order.
spec fn placed_before(
    board: Seq<Seq<char>>,
    piece: Seq<Seq<char>>,
    anchor: Point,
    mark: Point,
    tag: char,
    i: int,
    j: int,
) -> Seq<Seq<char>> {
    Seq::new(
        board.len(),
        |r: int|
            Seq::new(
                board[r].len(),
                |c: int|
                    if covered(piece, anchor, mark, r, c) && (r - anchor.row + mark.row < i || (r
                        - anchor.row + mark.row == i && c - anchor.col + mark.col < j)) {
                        tag
                    } else {
                        board[r][c]
                    },
            ),
    )
}

/// Whether every occupied cell of `piece`, with `pc` laid on `gc`, lands on
/// the board.
fn lands_on_board(grid: &Grid, piece: &Grid, gc: Point, pc: Point) -> (r: bool)
    requires
        grid.wf(),
        piece.wf(),
    ensures
        r == lands_inside(grid@, piece@, gc, pc),
{
    let h = piece.height();
    let w = piece.width();
    let board_h = grid.height() as i128;
    let board_w = grid.width() as i128;
    let mut i: isize = 0;
    while i < h
        invariant
            grid.wf(),
            piece.wf(),
            h == height_of(piece@),
            w == width_of(piece@),
            board_h == height_of(grid@),
            board_w == width_of(grid@),
            0 <= i <= h,
            forall|a: int, b: int|
                0 <= a < i && 0 <= b < w && #[trigger] occupied_at(piece@, a, b) ==> in_bounds(
                    grid@,
                    gc.row + a - pc.row,
                    gc.col + b - pc.col,
                ),
        decreases h - i,
    {
        let mut j: isize = 0;
        while j < w
            invariant
                grid.wf(),
                piece.wf(),
                h == height_of(piece@),
                w == width_of(piece@),
                board_h == height_of(grid@),
                board_w == width_of(grid@),
                0 <= i < h,
                0 <= j <= w,
                forall|a: int, b: int|
                    (0 <= a < i || (a == i && 0 <= b < j)) && 0 <= b < w && #[trigger] occupied_at(
                        piece@,
                        a,
                        b,
                    ) ==> in_bounds(grid@, gc.row + a - pc.row, gc.col + b - pc.col),
            decreases w - j,
        {
            let cell = piece.cell(i, j);
            if cell != EMPTY && cell != OUTSIDE {
                let row = gc.row as i128 + i as i128 - pc.row as i128;
                let col = gc.col as i128 + j as i128 - pc.col as i128;
                if row < 0 || row >= board_h || col < 0 || col >= board_w {
                    assert(occupied_at(piece@, i as int, j as int));
                    return false;
                }
            }
            j = j + 1;
        }
        i = i + 1;
    }
    true
}

/// Lays `mv` on `grid`: each board cell under an occupied piece cell is set
/// to `tag`. Fails, leaving the board as it was, when some occupied piece
/// cell would land off the board.
pub fn place_move(grid: &mut Grid, mv: &Move, tag: char) -> (r: Result<(), GridError>)
    requires
        old(grid).wf(),
        mv.piece.wf(),
    ensures
        final(grid).wf(),
        lands_inside(old(grid)@, mv.piece@, mv.grid_corner, mv.piece_mark) ==> r is Ok
            && final(grid)@ == placed(old(grid)@, mv.piece@, mv.grid_corner, mv.piece_mark, tag),
        !lands_inside(old(grid)@, mv.piece@, mv.grid_corner, mv.piece_mark) ==> r == Err::<
            (),
            GridError,
        >(GridError::OutOfBounds) && final(grid)@ == old(grid)@,
{
    let piece = &mv.piece;
    let gc = mv.grid_corner;
    let pc = mv.piece_mark;
    if !lands_on_board(grid, piece, gc, pc) {
        return Err(GridError::OutOfBounds);
    }
    let ghost board = grid@;
    let ghost shape = piece@;
    let h = piece.height();
    let w = piece.width();
    proof {
        assert(placed_before(board, shape, gc, pc, tag, 0, 0) =~~= board);
    }
    let mut i: isize = 0;
    while i < h
        invariant
            grid.wf(),
            piece.wf(),
            shape == piece@,
            well_formed(board),
            lands_inside(board, shape, gc, pc),
            h == height_of(shape),
            w == width_of(shape),
            0 <= i <= h,
            grid@ == placed_before(board, shape, gc, pc, tag, i as int, 0),
        decreases h - i,
    {
        let mut j: isize = 0;
        while j < w
            invariant
                grid.wf(),
                piece.wf(),
                shape == piece@,
                well_formed(board),
                lands_inside(board, shape, gc, pc),
                h == height_of(shape),
                w == width_of(shape),
                0 <= i < h,
                0 <= j <= w,
                grid@ == placed_before(board, shape, gc, pc, tag, i as int, j as int),
            decreases w - j,
        {
            let cell = piece.cell(i, j);
            let ghost before = grid@;
            if cell != EMPTY && cell != OUTSIDE {
                assert(occupied_at(shape, i as int, j as int));
                let target = gc.sub(pc).add(Point::new(i, j));
                let written = grid.set_cell(target.row, target.col, tag);
                assert(written is Ok);
                proof {
                    assert(grid@ =~~= placed_before(board, shape, gc, pc, tag, i as int, j + 1));
                }
            } else {
                proof {
                    assert(grid@ =~~= placed_before(board, shape, gc, pc, tag, i as int, j + 1));
                }
            }
            j = j + 1;
        }
        proof {
            assert(grid@ =~~= placed_before(board, shape, gc, pc, tag, i + 1, 0));
        }
        i = i + 1;
    }
    proof {
        assert(grid@ =~~= placed(board, shape, gc, pc, tag));
    }
    Ok(())
}

} // verus!
