use blokus::{
    collides, detect_corners, detect_marks, get_moves, get_pieces, place_move, rotate, Grid,
    GridError, Move, Point,
};

fn board(text: &str) -> Grid {
    Grid::parse(text).unwrap()
}

fn empty_board(h: usize, w: usize) -> Grid {
    Grid::new(vec![vec!['.'; w]; h])
}

#[test]
fn parse_reads_rows_and_cells() {
    let g = board("x.\n.y\n..");
    assert_eq!(g.height(), 3);
    assert_eq!(g.width(), 2);
    assert_eq!(g.cell(0, 0), 'x');
    assert_eq!(g.cell(1, 1), 'y');
    assert_eq!(g.cell(2, 0), '.');
}

#[test]
fn parse_accepts_final_newline_and_crlf() {
    let plain = board("x.\n.x");
    assert_eq!(board("x.\n.x\n"), plain);
    assert_eq!(board("x.\r\n.x\r\n"), plain);
}

#[test]
fn parse_rejects_ragged_text() {
    assert_eq!(Grid::parse("xx\nx"), Err(GridError::InputFormat));
}

#[test]
fn parse_rejects_empty_text() {
    assert_eq!(Grid::parse(""), Err(GridError::InputFormat));
    assert_eq!(Grid::parse("\n"), Err(GridError::InputFormat));
}

#[test]
fn cell_outside_reads_sentinel() {
    let g = board("..\n..");
    assert_eq!(g.cell(-1, 0), '-');
    assert_eq!(g.cell(0, 2), '-');
    assert_eq!(g.cell(2, 1), '-');
    assert_eq!(g.cell(0, -1), '-');
}

#[test]
fn set_cell_writes_inside() {
    let mut g = board("..\n..");
    assert_eq!(g.set_cell(1, 0, 'A'), Ok(()));
    assert_eq!(g, board("..\nA."));
}

#[test]
fn set_cell_rejects_outside() {
    let mut g = board("..\n..");
    assert_eq!(g.set_cell(2, 0, 'A'), Err(GridError::OutOfBounds));
    assert_eq!(g.set_cell(0, -1, 'A'), Err(GridError::OutOfBounds));
    assert_eq!(g, board("..\n.."));
}

#[test]
fn clone_is_independent() {
    let g = board("..\n..");
    let mut copy = g.clone();
    copy.set_cell(0, 0, 'x').unwrap();
    assert_eq!(g.cell(0, 0), '.');
    assert_eq!(copy.cell(0, 0), 'x');
}

#[test]
fn point_arithmetic() {
    let p = Point::new(3, -2);
    let q = Point::new(1, 5);
    assert_eq!(p.add(q), Point::new(4, 3));
    assert_eq!(p.sub(q), Point::new(2, -7));
}

#[test]
fn rotate_each_quarter() {
    let g = board("xy.\n...");
    assert_eq!(rotate(&g, 0).unwrap(), g);
    assert_eq!(rotate(&g, 90).unwrap(), board(".x\n.y\n.."));
    assert_eq!(rotate(&g, 180).unwrap(), board("...\n.yx"));
    assert_eq!(rotate(&g, 270).unwrap(), board("..\ny.\nx."));
}

#[test]
fn rotate_takes_degrees_modulo_full_turn() {
    let g = board("xy.\n...");
    assert_eq!(rotate(&g, 450).unwrap(), rotate(&g, 90).unwrap());
    assert_eq!(rotate(&g, 360).unwrap(), g);
    assert_eq!(rotate(&g, -360).unwrap(), g);
}

#[test]
fn rotate_rejects_other_angles() {
    let g = board("x.");
    assert_eq!(rotate(&g, 45), Err(GridError::Configuration));
    assert_eq!(rotate(&g, -90), Err(GridError::Configuration));
}

#[test]
fn rotate_round_trips() {
    let g = board("xy.\n..z");
    let mut r = g.clone();
    for _ in 0..4 {
        r = rotate(&r, 90).unwrap();
    }
    assert_eq!(r, g);
    let half = rotate(&g, 180).unwrap();
    assert_eq!(rotate(&half, 180).unwrap(), g);
    assert_eq!(rotate(&g, 0).unwrap(), g);
}

#[test]
fn collides_gives_same_answer_twice() {
    let grid = board(".....\n.x...\n.x...\n.....\n.....");
    let piece = board("x\nx");
    let first = collides(&grid, &piece, Point::new(3, 2), Point::new(1, 0));
    let second = collides(&grid.clone(), &piece.clone(), Point::new(3, 2), Point::new(1, 0));
    assert_eq!(first, second);
}

#[test]
fn collides_on_overlap() {
    let grid = board("...\n.x.\n...");
    let piece = board("x");
    assert!(collides(&grid, &piece, Point::new(1, 1), Point::new(0, 0)));
}

#[test]
fn no_collision_at_corner_touch() {
    let grid = board("...\n.x.\n...");
    let piece = board("x");
    assert!(!collides(&grid, &piece, Point::new(0, 0), Point::new(0, 0)));
    assert!(!collides(&grid, &piece, Point::new(2, 2), Point::new(0, 0)));
}

#[test]
fn other_markers_count_as_occupied() {
    let grid = board("...\n.B.\n...");
    let piece = board("x");
    assert!(collides(&grid, &piece, Point::new(0, 1), Point::new(0, 0)));
}

#[test]
fn detect_marks_row_major() {
    let piece = board("xxx\nx..\nx..");
    assert_eq!(
        detect_marks(&piece),
        vec![Point::new(0, 0), Point::new(0, 1), Point::new(0, 2), Point::new(1, 0), Point::new(2, 0)]
    );
}

#[test]
fn detect_marks_skips_empty_cells() {
    let piece = board(".x\nx.");
    assert_eq!(detect_marks(&piece), vec![Point::new(0, 1), Point::new(1, 0)]);
}

#[test]
fn detect_corners_of_single_cell() {
    let grid = board("...\n.x.\n...");
    let mut corners = detect_corners(&grid);
    corners.sort_by_key(|p| (p.row, p.col));
    assert_eq!(
        corners,
        vec![Point::new(0, 0), Point::new(0, 2), Point::new(2, 0), Point::new(2, 2)]
    );
}

#[test]
fn detect_corners_skips_edge_contact_and_repeats() {
    let grid = board("....\n.xx.\n....");
    let mut corners = detect_corners(&grid);
    corners.sort_by_key(|p| (p.row, p.col));
    assert_eq!(
        corners,
        vec![Point::new(0, 0), Point::new(0, 3), Point::new(2, 0), Point::new(2, 3)]
    );
}

#[test]
fn detect_corners_stay_on_the_board() {
    let grid = board("x.\n..");
    assert_eq!(detect_corners(&grid), vec![Point::new(1, 1)]);
}

fn corner_points(grid: &Grid) -> Vec<Point> {
    vec![
        Point::new(0, 0),
        Point::new(grid.height(), 0),
        Point::new(0, grid.width()),
        Point::new(grid.height(), grid.width()),
    ]
}

#[test]
fn first_turn_uses_board_corners() {
    let grid = empty_board(10, 10);
    let piece = board("x\nx\nx");
    let moves = get_moves(&grid, &piece, 0);
    assert!(!moves.is_empty());
    let corners = corner_points(&grid);
    for m in &moves {
        assert!(corners.contains(&m.grid_corner));
    }
}

#[test]
fn first_turn_ignores_board_contents() {
    let grid = board("....\n.x..\n....\n....");
    let piece = board("x");
    let moves = get_moves(&grid, &piece, 0);
    assert_eq!(moves.len(), 1);
    assert_eq!(moves[0].grid_corner, Point::new(0, 0));
    assert_eq!(moves[0].piece_mark, Point::new(0, 0));
}

#[test]
fn first_turn_line_keeps_two_shapes() {
    let grid = empty_board(10, 10);
    let piece = board("x\nx\nx");
    let moves = get_moves(&grid, &piece, 0);
    assert_eq!(moves.len(), 2);
    assert!(moves.iter().any(|m| m.piece == board("x\nx\nx")));
    assert!(moves.iter().any(|m| m.piece == board("xxx")));
}

#[test]
fn later_turn_anchors_at_corners() {
    let grid = board(".....\n.....\n..x..\n.....\n.....");
    let piece = board("x");
    let moves = get_moves(&grid, &piece, 1);
    let mut anchors: Vec<Point> = moves.iter().map(|m| m.grid_corner).collect();
    anchors.sort_by_key(|p| (p.row, p.col));
    assert_eq!(
        anchors,
        vec![Point::new(1, 1), Point::new(1, 3), Point::new(3, 1), Point::new(3, 3)]
    );
}

#[test]
fn moves_are_inside_and_collision_free() {
    let grid = board("......\n.xx...\n......\n....x.\n......\n......");
    let pieces = get_pieces();
    for piece in &pieces {
        let moves = get_moves(&grid, piece, 3);
        for m in &moves {
            let p = &m.piece;
            assert!(m.grid_corner.row - m.piece_mark.row >= 0);
            assert!(m.grid_corner.col - m.piece_mark.col >= 0);
            assert!(m.grid_corner.row + (p.height() - m.piece_mark.row - 1) < grid.height());
            assert!(m.grid_corner.col + (p.width() - m.piece_mark.col - 1) < grid.width());
            assert!(!collides(&grid, p, m.grid_corner, m.piece_mark));
        }
    }
}

#[test]
fn moves_are_distinct_and_bounded() {
    let grid = board("......\n.xx...\n......\n....x.\n......\n......");
    let piece = board("xxx\nx..\nx..");
    let anchors = detect_corners(&grid).len();
    let marks = detect_marks(&piece).len();
    let moves = get_moves(&grid, &piece, 2);
    assert!(!moves.is_empty());
    assert!(moves.len() <= 4 * anchors * marks);
    for a in 0..moves.len() {
        for b in (a + 1)..moves.len() {
            assert!(moves[a] != moves[b]);
        }
    }
}

#[test]
fn no_moves_on_full_board() {
    let grid = board("xxx\nxxx\nxxx");
    let piece = board("x");
    assert!(get_moves(&grid, &piece, 1).is_empty());
}

#[test]
fn place_move_marks_covered_cells() {
    let mut grid = empty_board(4, 4);
    let mv = Move {
        piece: board("xx\nx."),
        grid_corner: Point::new(1, 1),
        piece_mark: Point::new(0, 0),
    };
    assert_eq!(place_move(&mut grid, &mv, 'A'), Ok(()));
    assert_eq!(grid, board("....\n.AA.\n.A..\n...."));
}

#[test]
fn place_move_rejects_overhang() {
    let mut grid = empty_board(3, 3);
    let mv = Move {
        piece: board("xxx"),
        grid_corner: Point::new(0, 2),
        piece_mark: Point::new(0, 0),
    };
    assert_eq!(place_move(&mut grid, &mv, 'A'), Err(GridError::OutOfBounds));
    assert_eq!(grid, empty_board(3, 3));
}

#[test]
fn starting_pieces() {
    let pieces = get_pieces();
    assert_eq!(pieces.len(), 3);
    assert_eq!(pieces[0], board("x\nx\nx"));
    assert_eq!(pieces[1], board("xxx"));
    assert_eq!(pieces[2], board("xxx\nx..\nx.."));
}
