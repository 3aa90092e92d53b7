use blokus::{collides, detect_marks, Grid, Point};

#[test]
fn it_works() {
    let grid = Grid::new(vec![
        vec!['.', '.', '.', '.', '.'],
        vec!['.', 'x', '.', '.', '.'],
        vec!['.', 'x', '.', '.', '.'],
        vec!['.', '.', '.', '.', '.'],
        vec!['.', '.', '.', '.', '.'],
    ]);
    let piece = Grid::new(vec![vec!['x'], vec!['x']]);
    let gc = Point::new(3, 2);
    assert!(collides(&grid, &piece, gc, Point::new(1, 0)));
    assert!(!collides(&grid, &piece, gc, Point::new(0, 0)));
}

#[test]
fn it_works_now() {
    let grid = Grid::new(vec![
        vec!['.', '.', '.', '.', '.'],
        vec!['.', 'x', '.', '.', '.'],
        vec!['.', 'x', '.', '.', '.'],
        vec!['.', 'x', '.', '.', '.'],
        vec!['.', '.', '.', '.', '.'],
    ]);
    let piece = Grid::new(vec![vec!['x'], vec!['x'], vec!['x']]);
    let gc = Point::new(0, 2);
    assert!(collides(&grid, &piece, gc, Point::new(0, 0)));
}

// With the pivot (0, 2) laid on (7, 4) the piece covers (7, 2), (8, 2) and
// (9, 2): none of them is occupied or shares an edge with an occupied cell.
#[test]
fn fails2() {
    let grid = Grid::parse(
        "x.........\n\
         ..........\n\
         ..........\n\
         ..........\n\
         .xxx......\n\
         ...x......\n\
         ...x......\n\
         ..........\n\
         ..........\n\
         ..........\n\
         ",
    )
    .unwrap();
    let piece = Grid::parse(
        "x\n\
         x\n\
         x",
    )
    .unwrap();
    assert!(!collides(&grid, &piece, Point::new(7, 4), Point::new(0, 2)));
}

#[test]
fn fails3() {
    let piece = Grid::parse(
        "x\n\
         x\n\
         x",
    )
    .unwrap();
    assert_eq!(detect_marks(&piece), vec![Point::new(0, 0), Point::new(1, 0), Point::new(2, 0)]);
}

#[test]
fn fails4() {
    let piece = Grid::parse(
        "x..\n\
         x..\n\
         xxx",
    )
    .unwrap();
    assert_eq!(
        detect_marks(&piece),
        vec![Point::new(0, 0), Point::new(1, 0), Point::new(2, 0), Point::new(2, 1), Point::new(2, 2)]
    );
}

#[test]
fn fails5() {
    let piece = Grid::parse(
        "xxx\n\
         x..\n\
         x..",
    )
    .unwrap();
    assert_eq!(
        detect_marks(&piece),
        vec![Point::new(0, 0), Point::new(0, 1), Point::new(0, 2), Point::new(1, 0), Point::new(2, 0)]
    );
}
