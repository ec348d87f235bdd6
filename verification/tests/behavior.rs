use conway::{Error, Game, Grid, Point, Settings};

fn mk_game(cells: Vec<Point>, bounds: (Option<u64>, Option<u64>)) -> Game {
    Game::new(Grid::new(cells), Settings::default(), bounds)
}

// Every frame is exactly `height` rows of exactly `width` glyphs.
#[test]
fn test_draw_dimensions() {
    let mut game = mk_game(vec![Point(0, 0), Point(2, 1)], (Some(4), Some(3)));
    game.viewport.scroll = Point::origin();
    let frame = game.draw();
    let rows: Vec<&str> = frame.lines().collect();
    assert_eq!(rows.len(), 3);
    for row in rows {
        assert_eq!(row.len(), 4);
    }
    assert!(frame.ends_with('\n'));
}

// The exact glyphs of a small fixed frame.
#[test]
fn test_draw_exact() {
    let mut game = mk_game(vec![Point(0, 0), Point(1, 1)], (Some(2), Some(2)));
    game.viewport.scroll = Point::origin();
    assert_eq!(game.draw(), "x.\n.x\n");
}

// Reviving a live cell and killing a dead one change nothing and say so.
#[test]
fn test_set_alive_idempotent() {
    let mut grid = Grid::empty();
    assert!(grid.set_alive(Point(4, -2)));
    assert!(!grid.set_alive(Point(4, -2)));
    assert!(grid.is_alive(&Point(4, -2)));
    assert!(!grid.set_dead(&Point(0, 0)));
    assert!(grid.set_dead(&Point(4, -2)));
    assert!(!grid.set_dead(&Point(4, -2)));
    assert!(grid.is_empty());
}

// Rendering the full bounds of a grid anchored at the origin and parsing
// the text back yields an equal grid.
#[test]
fn test_parse_render_round_trip() {
    let cells = vec![Point(0, 0), Point(2, 1), Point(1, 2)];
    let game = mk_game(cells.clone(), (None, None));
    let text = game.draw_viewport(game.grid.bounds());
    let parsed = Grid::from_str(&text).unwrap();
    assert_eq!(parsed, Grid::new(cells));
}

// The vertical blinker turns horizontal in one tick.
#[test]
fn test_tick_blinker() {
    let mut game = mk_game(vec![Point(1, 0), Point(1, 1), Point(1, 2)], (None, None));
    game.tick();
    assert_eq!(
        game.grid,
        Grid::new(vec![Point(0, 1), Point(1, 1), Point(2, 1)])
    );
}

// Bounds and midpoint of the two-corner grid.
#[test]
fn test_bounds_midpoint_literal() {
    let grid = Grid::new(vec![Point(0, 0), Point(5, 5)]);
    assert_eq!(grid.bounds(), (Point(0, 0), Point(5, 5)));
    assert_eq!(grid.midpoint(), Point(3, 3));
}

// A single isolated cell dies in exactly one generation; the frame
// sequence then ends.
#[test]
fn test_extinction() {
    let mut game = mk_game(vec![Point(0, 0)], (Some(3), Some(3)));
    assert!(!game.is_over());
    game.tick();
    assert!(game.is_over());

    let game2 = mk_game(vec![Point(0, 0)], (Some(3), Some(3)));
    let mut frames = game2.iter();
    assert!(frames.next().is_some());
    assert!(frames.next().is_none());
    assert!(frames.next().is_none());
}

// A parse failure names the first offending character.
#[test]
fn test_parse_error_names_char() {
    match Grid::from_str("x.z") {
        Err(Error::ParseGrid(c)) => assert_eq!(c, 'z'),
        other => panic!("expected a parse failure, got {:?}", other),
    }
    match Grid::from_str("..\n#ok\nx?") {
        Err(Error::ParseGrid(c)) => assert_eq!(c, '?'),
        other => panic!("expected a parse failure, got {:?}", other),
    }
}

// Empty and whitespace-only input parse to the empty grid.
#[test]
fn test_parse_empty() {
    assert!(Grid::from_str("").unwrap().is_empty());
    assert!(Grid::from_str("  \n\t \n").unwrap().is_empty());
    assert!(Grid::from_str("#only a comment").unwrap().is_empty());
}

// The error text names the failure.
#[test]
fn test_error_text() {
    assert_eq!(
        Error::ParseGrid('z').to_string_chain(),
        "error: failed to parse Grid: unknown character: 'z'\n"
    );
    assert_eq!(
        Error::UnimplementedView.to_string_chain(),
        "error: the 'follow' view mode is not implemented\n"
    );
}

// Points add and subtract componentwise.
#[test]
fn test_point_arithmetic() {
    assert_eq!(Point(2, -3).plus(Point(-5, 4)), Point(-3, 1));
    assert_eq!(Point(2, -3).minus(Point(-5, 4)), Point(7, -7));
}

// The delay flag is recorded for the embedding program.
#[test]
fn test_with_delay_flag() {
    let game = mk_game(vec![Point(0, 0)], (Some(3), Some(3)));
    let frames = game.iter().with_delay(true);
    assert!(frames.with_delay);
}

// A centered view frames the grid's midpoint whatever the scroll is.
#[test]
fn test_centered_view_draw() {
    let mut game = mk_game(vec![Point(0, 0)], (Some(3), Some(3)));
    game.opts.view = conway::View::Centered;
    game.viewport.scroll = Point(100, -7);
    assert_eq!(game.draw(), "...\n.x.\n...\n");
}
