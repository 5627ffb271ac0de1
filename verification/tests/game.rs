use go_tui::game::{coord_name, parse_coord, play_name, Game, Play, Stone};

fn at(game: &Game, row: usize, col: usize) -> usize {
    game.board.point(row, col)
}

#[test]
fn capture_removes_the_group() {
    let mut game = Game::new(9, 65);
    game.play(at(&game, 0, 1));
    game.play(at(&game, 0, 0));
    game.play(at(&game, 1, 0));
    assert_eq!(game.board.at(at(&game, 0, 0)), Stone::Empty);
    assert_eq!(game.captured[0], 1);
}

#[test]
fn suicide_is_not_allowed() {
    let mut game = Game::new(9, 65);
    game.play(at(&game, 0, 1));
    game.pass();
    game.play(at(&game, 1, 0));
    assert_eq!(game.turn, Stone::White);
    assert!(!game.legal(at(&game, 0, 0)));
}

#[test]
fn filling_the_last_liberty_takes_the_whole_group() {
    let mut game = Game::new(9, 65);
    for (row, col) in [(0, 0), (0, 1)] {
        let p = at(&game, row, col);
        game.board.put(p, Stone::White);
    }
    for (row, col) in [(1, 0), (1, 1)] {
        let p = at(&game, row, col);
        game.board.put(p, Stone::Black);
    }
    game.turn = Stone::Black;
    assert!(game.play(at(&game, 0, 2)));
    assert_eq!(game.board.at(at(&game, 0, 0)), Stone::Empty);
    assert_eq!(game.board.at(at(&game, 0, 1)), Stone::Empty);
    assert_eq!(game.captured[0], 2);
}

#[test]
fn ko_blocks_the_immediate_recapture() {
    let mut game = Game::new(9, 65);
    let black = [(0, 1), (1, 0), (2, 1)];
    let white = [(0, 2), (1, 3), (2, 2), (1, 1)];
    for &(row, col) in &black {
        let p = at(&game, row, col);
        game.board.put(p, Stone::Black);
    }
    for &(row, col) in &white {
        let p = at(&game, row, col);
        game.board.put(p, Stone::White);
    }
    game.turn = Stone::Black;
    assert!(game.play(at(&game, 1, 2)));
    assert_eq!(game.board.at(at(&game, 1, 1)), Stone::Empty);
    assert!(!game.legal(at(&game, 1, 1)));
}

#[test]
fn territory_goes_to_the_surrounding_colour() {
    let mut game = Game::new(9, 0);
    for col in 0..9 {
        let p = game.board.point(4, col);
        game.board.put(p, Stone::Black);
    }
    let owners = game.territory();
    assert_eq!(owners[game.board.point(0, 0)], Some(Stone::Black));
    assert_eq!(owners[game.board.point(8, 0)], Some(Stone::Black));
}

#[test]
fn two_passes_end_the_game() {
    let mut game = Game::new(9, 65);
    game.pass();
    game.pass();
    assert!(game.finished);
}

#[test]
fn coordinates_skip_the_letter_i() {
    assert_eq!(coord_name(0, 19), "A19");
    assert_eq!(coord_name(8, 19), "J19");
    assert_eq!(parse_coord("J19", 19), Some(8));
    assert_eq!(parse_coord("I19", 19), None);
}

#[test]
fn coordinates_read_lower_case_and_white_space() {
    assert_eq!(parse_coord(" d4 ", 19), Some(15 * 19 + 3));
    assert_eq!(parse_coord("+4", 19), None);
    assert_eq!(parse_coord("A0", 19), None);
    assert_eq!(parse_coord("A20", 19), None);
    assert_eq!(parse_coord("T1", 19), Some(18 * 19 + 18));
    assert_eq!(parse_coord("", 19), None);
    assert_eq!(parse_coord("A+1", 9), Some(8 * 9));
}

#[test]
fn a_pass_is_named_pass() {
    assert_eq!(play_name(Play::Pass, 9), "pass");
    assert_eq!(play_name(Play::Point(80), 9), "J1");
}

#[test]
fn scores_count_stones_ground_and_komi_in_tenths() {
    let mut game = Game::new(9, 65);
    for col in 0..9 {
        let p = game.board.point(4, col);
        game.board.put(p, Stone::Black);
    }
    let (black, white) = game.score();
    assert_eq!(black, 810);
    assert_eq!(white, 65);
    assert_eq!(game.lead(), 745);
}

#[test]
fn an_eye_needs_friendly_neighbours() {
    let mut game = Game::new(9, 65);
    for p in [game.board.point(0, 1), game.board.point(1, 0)] {
        game.board.put(p, Stone::Black);
    }
    assert!(game.is_eye(0, Stone::Black));
    assert!(!game.is_eye(0, Stone::White));
    let d = game.board.point(1, 1);
    game.board.put(d, Stone::White);
    assert!(!game.is_eye(0, Stone::Black));
}

#[test]
fn handicap_and_star_points_follow_the_board() {
    let game = Game::new(19, 65);
    assert_eq!(game.handicap_points(1), Vec::<usize>::new());
    assert_eq!(game.handicap_points(2), vec![15 * 19 + 3, 3 * 19 + 15]);
    assert_eq!(game.handicap_points(5).len(), 5);
    assert_eq!(game.handicap_points(5)[4], 9 * 19 + 9);
    assert_eq!(game.star_points().len(), 9);
    let small = Game::new(9, 65);
    assert_eq!(small.star_points(), vec![20, 24, 56, 60, 40]);
    let mut placed = Game::new(19, 65);
    placed.place_handicap(3);
    assert_eq!(placed.turn, Stone::White);
    assert_eq!(placed.handicap, 3);
    assert_eq!(placed.board.at(3 * 19 + 3), Stone::Black);
}

#[test]
fn liberties_count_each_empty_point_once() {
    let mut game = Game::new(9, 65);
    let a = game.board.point(4, 4);
    let b = game.board.point(4, 5);
    game.board.put(a, Stone::Black);
    game.board.put(b, Stone::Black);
    assert_eq!(game.board.liberties(a), 6);
    assert_eq!(game.board.last_liberty(a), None);
    let mut corner = Game::new(9, 65);
    corner.board.put(0, Stone::White);
    corner.board.put(1, Stone::Black);
    assert_eq!(corner.board.last_liberty(0), Some(9));
    assert!(corner.board.alone(0));
}
