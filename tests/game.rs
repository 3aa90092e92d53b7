use blokus::{collides, detect_marks, rotate, Grid, Point};

#[test]
fn test_collides_true() {
    let grid = Grid::parse(
        ".....\n\
         .x...\n\
         .x...\n\
         .....\n\
         .....",
    )
    .unwrap();
    let piece = Grid::parse(
        "x\n\
         x",
    )
    .unwrap();
    assert!(collides(&grid, &piece, Point::new(3, 2), Point::new(1, 0)));
}

#[test]
fn test_collides_false() {
    let grid = Grid::parse(
        ".....\n\
         .x...\n\
         .x...\n\
         .....\n\
         .....",
    )
    .unwrap();
    let piece = Grid::parse(
        "x\n\
         x",
    )
    .unwrap();
    assert!(!collides(&grid, &piece, Point::new(3, 3), Point::new(0, 0)));
}

#[test]
fn test_detect_marks() {
    let piece = Grid::parse(
        "x\n\
         x\n\
         x",
    )
    .unwrap();
    assert_eq!(detect_marks(&piece), vec![Point::new(0, 0), Point::new(1, 0), Point::new(2, 0)]);
}

#[test]
fn test_rotate() {
    let grid = Grid::parse(
        ".x\n\
         xx",
    )
    .unwrap();
    let rotated = rotate(&grid, 90).unwrap();
    let expected = Grid::parse(
        "x.\n\
         xx",
    )
    .unwrap();
    assert_eq!(rotated, expected);
}
