use conway::{Game, Grid, Point, Settings, Viewport};

fn mk_game(cells: Vec<Point>, bounds: (Option<u64>, Option<u64>)) -> Game {
    Game::new(Grid::new(cells), Settings::default(), bounds)
}

// Viewport width/height should be taken from the explicit bounds if given.
#[test]
fn test_size_provided() {
    let game = mk_game(vec![Point::origin(), Point(5, 5)], (Some(8), Some(8)));
    assert_eq!(game.viewport.width, 8);
    assert_eq!(game.viewport.height, 8);
}

// Viewport width/height should be derived from the Grid if not given.
#[test]
fn test_size_auto() {
    let game = mk_game(vec![Point::origin(), Point(5, 5)], (None, None));
    assert_eq!(game.viewport.width, 6);
    assert_eq!(game.viewport.height, 6);
}

#[test]
fn test_survives() {
    let game = mk_game(vec![Point(1, 0), Point(1, 1), Point(1, 2)], (None, None));
    assert!(
        game.survives(&Point(1, 1)),
        "a live cell with 2 live neighbors should survive"
    );
    assert!(
        game.survives(&Point(0, 1)),
        "a dead cell with 3 live neighbors should survive"
    );
    assert!(
        game.survives(&Point(2, 1)),
        "a dead cell with 3 live neighbors should survive"
    );
    assert!(
        !game.survives(&Point(1, 0)),
        "a live cell with < 2 live neighbors should die"
    );
    assert!(
        !game.survives(&Point(1, 2)),
        "a live cell with < 2 live neighbors should die"
    );
}

#[test]
fn test_fixed_1() {
    assert_eq!(
        Viewport {
            origin: Point(-3, 0),
            width: 7,
            height: 7,
            scroll: Point::origin(),
        }
        .bounds(),
        (Point(-3, 0), Point(3, 6)),
        "should pad content to fit width/height"
    );
}

#[test]
fn test_fixed_2() {
    assert_eq!(
        Viewport {
            origin: Point(-12, 1),
            width: 88,
            height: 12,
            scroll: Point::origin(),
        }
        .bounds(),
        (Point(-12, 1), Point(75, 12))
    );
}

#[test]
fn test_fixed_3() {
    assert_eq!(
        Viewport {
            origin: Point(2, 2),
            width: 10,
            height: 3,
            scroll: Point::origin(),
        }
        .bounds(),
        (Point(2, 2), Point(11, 4)),
    );
}

#[test]
fn test_viewport_fixed_with_scroll() {
    assert_eq!(
        Viewport {
            origin: Point(2, 2),
            width: 10,
            height: 3,
            scroll: Point(1, -5),
        }
        .bounds(),
        (Point(3, -3), Point(12, -1))
    );
}

#[test]
fn test_centered_1() {
    assert_eq!(
        Viewport {
            width: 7,
            height: 7,
            ..Default::default()
        }
        .centered(Point(0, 1)),
        (Point(-3, -2), Point(3, 4)),
        "should expand to fit width/height"
    );
}

#[test]
fn test_centered_2() {
    assert_eq!(
        Viewport {
            width: 88,
            height: 12,
            ..Default::default()
        }
        .centered(Point(21, 17)),
        (Point(-23, 11), Point(64, 22)),
        "should narrow to fit width/height"
    );
}

#[test]
fn test_centered_3() {
    assert_eq!(
        Viewport {
            width: 10,
            height: 3,
            ..Default::default()
        }
        .centered(Point(4, 3)),
        (Point(-1, 2), Point(8, 4)),
    );
}

#[test]
fn test_centered_with_scroll() {
    assert_eq!(
        Viewport {
            width: 10,
            height: 3,
            scroll: Point(1, -5),
            ..Default::default()
        }
        .centered(Point(4, 3)),
        (Point(-1, 2), Point(8, 4))
    );
}

#[test]
fn test_scroll() {
    let mut game = mk_game(vec![Point(3, 0), Point(-1, 1), Point(0, -3)], (None, None));
    game.viewport.scroll = Point::origin();
    assert_eq!(game.viewport.bounds(), (Point(-1, -3), Point(3, 1)));
    game.scroll(2, -4);
    assert_eq!(game.viewport.bounds(), (Point(1, -7), Point(5, -3)));
}

#[test]
fn test_center_viewport() {
    let mut game = mk_game(
        vec![Point(2, 3), Point(3, 3), Point(5, 4), Point(4, 2)],
        (Some(10), Some(3)),
    );
    let expected = game.viewport.centered(game.grid.midpoint());
    game.center_viewport();
    assert_eq!(game.viewport.bounds(), expected);
}

#[test]
fn test_center_viewport_with_scroll() {
    let mut game = mk_game(
        vec![Point(2, 3), Point(3, 3), Point(5, 4), Point(4, 2)],
        (Some(10), Some(3)),
    );
    game.scroll(-1, 2);
    let expected = game.viewport.centered(game.grid.midpoint());
    game.center_viewport();
    assert_eq!(game.viewport.bounds(), expected);
}

#[test]
fn test_split_int() {
    assert_eq!(conway::split_int(30), (15, 15));
    assert_eq!(conway::split_int(31), (15, 16));
    assert_eq!(conway::split_int(32), (16, 16));
    assert_eq!(conway::split_int(0), (0, 0));
    assert_eq!(conway::split_int(1), (0, 1));
    assert_eq!(conway::split_int(2), (1, 1));
}
