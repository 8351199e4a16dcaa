use matlib::game::{Coord2D, Game, Graphic2D, Paint, Query};

#[test]
fn coord_arith() {
    assert_eq!(Coord2D(1, 2).add(Coord2D(3, -4)), Coord2D(4, -2));
    assert_eq!(Coord2D(1, 2).sub(Coord2D(3, -4)), Coord2D(-2, 6));
    assert_eq!(Coord2D(3, -4).mul(3), Coord2D(9, -12));
    assert_eq!(Coord2D(7, -7).div(2), Coord2D(3, -3));
}

#[test]
fn coord_lengths() {
    assert_eq!(Coord2D(3, 4).pythagorean_len(), 5);
    assert_eq!(Coord2D(-3, 4).pythagorean_len(), 5);
    assert_eq!(Coord2D(2, 2).pythagorean_len(), 2);
    assert_eq!(Coord2D(0, 0).pythagorean_len(), 0);
    assert_eq!(Coord2D(46340, 0).pythagorean_len(), 46340);
    assert_eq!(Coord2D(3, 9).len(), 9);
    assert_eq!(Coord2D(9, 3).len(), 9);
    assert_eq!(Coord2D(-1, -2).len(), u32::MAX);
}

#[test]
fn first_frame_paints_every_cell_blank() {
    let mut g = Graphic2D::new(2, 3);
    let paints = g.render();
    assert_eq!(paints.len(), 6);
    assert_eq!(paints[0], Paint { x: 0, y: 0, ch: ' ' });
    assert_eq!(paints[4], Paint { x: 1, y: 1, ch: ' ' });
    assert_eq!(paints[5], Paint { x: 2, y: 1, ch: ' ' });
}

#[test]
fn draw_vertical_line() {
    let mut g = Graphic2D::new(4, 4);
    g.update(Query::Material(7));
    g.update(Query::DrawLine { start: Coord2D(1, 0), end: Coord2D(1, 3) });
    let paints = g.render();
    let os: Vec<(u16, u16)> = paints.iter().filter(|p| p.ch == 'o').map(|p| (p.x, p.y)).collect();
    // row 1, columns 0..3: the end point is not painted
    assert_eq!(os, vec![(0, 1), (1, 1), (2, 1)]);
}

#[test]
fn draw_diagonal_line() {
    let mut g = Graphic2D::new(5, 5);
    g.update(Query::Material(1));
    g.update(Query::DrawLine { start: Coord2D(0, 0), end: Coord2D(4, 2) });
    let paints = g.render();
    let os: Vec<(u16, u16)> = paints.iter().filter(|p| p.ch == 'o').map(|p| (p.x, p.y)).collect();
    // points (0,0), (1,0), (2,1), (3,1)
    assert_eq!(os, vec![(0, 0), (0, 1), (1, 2), (1, 3)]);
}

#[test]
fn material_zero_draws_blank() {
    let mut g = Graphic2D::new(2, 2);
    g.update(Query::DrawLine { start: Coord2D(0, 0), end: Coord2D(0, 2) });
    let paints = g.render();
    assert!(paints.iter().all(|p| p.ch == ' '));
}

#[test]
fn backwards_line_draws_nothing() {
    let mut g = Graphic2D::new(3, 3);
    g.update(Query::Material(1));
    g.update(Query::DrawLine { start: Coord2D(2, 2), end: Coord2D(0, 0) });
    assert!(g.render().iter().all(|p| p.ch == ' '));
}

#[test]
fn game_run_draws_the_last_column() {
    let (mut game, first) = Game::run();
    assert_eq!(first.len(), 900);
    assert!(first.iter().all(|p| p.ch == ' '));
    let frame = game.game_loop();
    assert_eq!(frame.len(), 900);
    let os: Vec<(u16, u16)> = frame.iter().filter(|p| p.ch == 'o').map(|p| (p.x, p.y)).collect();
    let expected: Vec<(u16, u16)> = (0..29).map(|x| (x, 29)).collect();
    assert_eq!(os, expected);
}

#[test]
fn game_new_is_blank() {
    let mut game = Game::new();
    let frame = game.game_loop();
    assert_eq!(frame.len(), 900);
    assert!(frame.iter().all(|p| p.ch == ' '));
}
