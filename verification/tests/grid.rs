use conway::text::{COMMENT_CHAR, READ_CHAR_ALIVE, READ_CHAR_DEAD};
use conway::{Grid, Point};

#[test]
fn test_from_str() {
    // Should look like this after comments are removed:
    // 110
    // 001
    // 010
    let joined = vec![
        " \t".to_string(), // Leading whitespace should be removed.
        format!(
            // Everything after an inline comment should be ignored.
            "{}{}{}{}",
            READ_CHAR_ALIVE, READ_CHAR_ALIVE, COMMENT_CHAR, READ_CHAR_ALIVE
        ),
        format!("{}{}{}", READ_CHAR_DEAD, READ_CHAR_DEAD, READ_CHAR_ALIVE),
        format!("{}hello world", COMMENT_CHAR), // Line comments should be skipped.
        format!("{}{}{}", READ_CHAR_DEAD, READ_CHAR_ALIVE, READ_CHAR_DEAD),
        "\n\t \n".to_string(), // Trailing whitespace should be ignored.
    ]
    .join("\n");
    let grid = Grid::from_str(&joined).unwrap();

    assert_eq!(
        grid,
        Grid::new(vec![Point(0, 0), Point(1, 0), Point(2, 1), Point(1, 2)]),
    );
    assert!(Grid::from_str("abc\ndef").is_err())
}

#[test]
fn test_active_cells() {
    let grid = Grid::new(vec![Point(0, 0), Point(1, 1)]);
    assert_eq!(
        Grid::new(grid.active_cells()),
        Grid::new(vec![
            Point(0, 0),
            Point(-1, -1),
            Point(0, -1),
            Point(1, -1),
            Point(1, 0),
            Point(1, 1),
            Point(0, 1),
            Point(-1, 1),
            Point(-1, 0),
            Point(2, 0),
            Point(2, 1),
            Point(2, 2),
            Point(1, 2),
            Point(0, 2),
        ])
    )
}

#[test]
fn test_live_neighbors() {
    let grid = Grid::new(vec![Point(-1, -1), Point(-1, -2), Point(0, 0), Point(1, 0)]);
    assert_eq!(
        grid.live_neighbors(&Point(0, 0)),
        2,
        "it should work for a live cell"
    );
    assert_eq!(
        grid.live_neighbors(&Point(-1, -3)),
        1,
        "it should work for a dead cell"
    )
}

#[test]
fn test_is_empty() {
    let grid: Grid = Default::default();
    assert!(grid.is_empty());
    let grid = Grid::new(vec![Point(0, 0)]);
    assert!(!grid.is_empty());
}

#[test]
fn test_is_alive() {
    let grid = Grid::new(vec![Point(-1, 4), Point(8, 8)]);
    assert!(&grid.is_alive(&Point(-1, 4)));
    assert!(&grid.is_alive(&Point(8, 8)));
    assert!(!&grid.is_alive(&Point(8, 4)));
}

#[test]
fn test_set_alive_or_dead() {
    let mut grid: Grid = Default::default();
    let cell = Point(3, -3);
    assert!(!&grid.is_alive(&cell));
    grid.set_alive(cell);
    assert!(&grid.is_alive(&cell));
    grid.set_dead(&cell);
    assert!(!&grid.is_alive(&cell));
}

#[test]
fn test_midpoint() {
    assert_eq!(
        Grid::new(vec![Point(-2, -1), Point(2, 1)]).midpoint(),
        Point(0, 0),
    );
    assert_eq!(
        Grid::new(vec![Point(0, -6), Point(8, 2)]).midpoint(),
        Point(4, -1),
    );
    assert_eq!(
        Grid::new(vec![Point(2, 7), Point(-5, 6)]).midpoint(),
        Point(-1, 7),
    );
}

#[test]
fn test_bounds() {
    assert_eq!(
        Grid::new(vec![Point(2, 1), Point(-3, 0), Point(-2, 1), Point(-2, 0)]).bounds(),
        (Point(-3, 0), Point(2, 1))
    );
    assert_eq!(
        Grid::new(vec![Point(53, 4), Point(2, 1), Point(-12, 33)]).bounds(),
        (Point(-12, 1), Point(53, 33))
    );
}
