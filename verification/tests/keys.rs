use go_tui::analysis::Analysis;
use go_tui::app::{EngineChoice, Mode, Screen};
use go_tui::config::Config;
use go_tui::game::{Play, Stone};
use go_tui::keys::{handle, App, Effect, Key};
use go_tui::review::{review_of_text, Review};
use go_tui::session::Follow;

const QUIET: Follow = Follow { tell: false, ask: None, think: false };

fn opened(engine_ready: bool) -> App {
    let entries = vec![("a.sgf".to_string(), 1), ("b.sgf".to_string(), 2), ("c.txt".to_string(), 3)];
    App::new(Config::default(), engine_ready, &entries)
}

fn friendly_game() -> App {
    let mut app = opened(false);
    app.setup.board_size = 9;
    app.setup.mode = Mode::Friend;
    app.start_game("built-in".to_string(), false);
    app
}

#[test]
fn the_client_opens_on_the_menu() {
    let app = opened(false);
    assert_eq!(app.screen, Screen::Menu);
    assert_eq!(app.setup.engine, EngineChoice::Builtin);
    assert_eq!(app.setup.board_size, 19);
    assert_eq!(app.browser.files.len(), 2);
    assert!(!app.quit);
    assert_eq!(app.engine_label(), "gnugo");
    let ready = opened(true);
    assert_eq!(ready.setup.engine, EngineChoice::External);
}

#[test]
fn the_menu_moves_and_opens_screens() {
    let mut app = opened(false);
    assert_eq!(handle(&mut app, Key::Up, 3), Effect::Nothing);
    assert_eq!(app.menu, 0);
    handle(&mut app, Key::Char('j'), 3);
    assert_eq!(app.menu, 1);
    assert_eq!(handle(&mut app, Key::Enter, 3), Effect::ListFiles);
    assert_eq!(app.screen, Screen::Browser);
    handle(&mut app, Key::Esc, 3);
    assert_eq!(app.screen, Screen::Menu);
    for _ in 0..9 {
        handle(&mut app, Key::Down, 3);
    }
    assert_eq!(app.menu, 4);
    handle(&mut app, Key::Enter, 3);
    assert!(app.quit);
}

#[test]
fn tab_goes_round_the_colour_schemes() {
    let mut app = opened(false);
    assert_eq!(handle(&mut app, Key::Tab, 3), Effect::SaveConfig);
    assert_eq!(app.config.theme, 1);
    app.screen = Screen::Themes;
    handle(&mut app, Key::Left, 3);
    handle(&mut app, Key::Char('h'), 3);
    assert_eq!(app.config.theme, 2);
    handle(&mut app, Key::Enter, 3);
    assert_eq!(app.screen, Screen::Menu);
    app.screen = Screen::Help;
    handle(&mut app, Key::Char('x'), 3);
    assert_eq!(app.screen, Screen::Menu);
}

#[test]
fn the_new_game_screen_starts_a_game() {
    let mut app = opened(false);
    handle(&mut app, Key::Enter, 3);
    assert_eq!(app.screen, Screen::Setup);
    handle(&mut app, Key::Right, 3);
    assert_eq!(app.setup.board_size, 9);
    handle(&mut app, Key::Down, 3);
    handle(&mut app, Key::Char('l'), 3);
    assert_eq!(app.setup.mode, Mode::Friend);
    assert_eq!(handle(&mut app, Key::Enter, 3), Effect::StartGame);
    let f = app.start_game("built-in".to_string(), false);
    assert_eq!(f, Follow { tell: false, ask: Some(0), think: false });
    assert_eq!(app.screen, Screen::Playing);
    assert_eq!(app.config.board_size, 9);
    let session = app.session.as_ref().unwrap();
    assert_eq!(session.game.size(), 9);
    assert_eq!(session.mode, Mode::Friend);
}

#[test]
fn keys_on_the_board_play_the_game() {
    let mut app = friendly_game();
    handle(&mut app, Key::Up, 3);
    handle(&mut app, Key::Char('l'), 3);
    assert_eq!(app.session.as_ref().unwrap().cursor, 32);
    assert_eq!(handle(&mut app, Key::Enter, 3), Effect::Moved(QUIET));
    assert_eq!(handle(&mut app, Key::Enter, 3), Effect::Nothing);
    assert_eq!(app.session.as_ref().unwrap().status, "you cannot play there");
    assert_eq!(handle(&mut app, Key::Char('u'), 3), Effect::TookBack(1));
    assert!(app.session.as_ref().unwrap().plays.is_empty());
    assert_eq!(handle(&mut app, Key::Char('e'), 3), Effect::Nothing);
    assert_eq!(handle(&mut app, Key::Char('e'), 3), Effect::Eval);
    assert_eq!(handle(&mut app, Key::Char('i'), 3), Effect::Hint);
    assert_eq!(handle(&mut app, Key::Char('s'), 3), Effect::SaveGame);
    handle(&mut app, Key::Char('t'), 3);
    assert!(app.session.as_ref().unwrap().show_territory);
}

#[test]
fn a_finished_game_can_be_gone_through() {
    let mut app = friendly_game();
    assert_eq!(handle(&mut app, Key::Char(' '), 3), Effect::Moved(QUIET));
    assert_eq!(handle(&mut app, Key::Char('p'), 3), Effect::Moved(QUIET));
    assert_eq!(handle(&mut app, Key::Char('p'), 3), Effect::Moved(QUIET));
    assert!(app.session.as_ref().unwrap().game.finished);
    assert_eq!(handle(&mut app, Key::Char('p'), 3), Effect::Nothing);
    handle(&mut app, Key::Char('v'), 3);
    assert_eq!(app.screen, Screen::Review);
    let review = app.review.as_ref().unwrap();
    assert_eq!(review.title, "9x9 game");
    assert_eq!(review.positions.len(), 4);
    assert_eq!(review.at, 3);
    handle(&mut app, Key::Left, 3);
    handle(&mut app, Key::Char('j'), 3);
    assert_eq!(app.review.as_ref().unwrap().at, 0);
    handle(&mut app, Key::End, 3);
    assert_eq!(app.review.as_ref().unwrap().at, 3);
    assert_eq!(handle(&mut app, Key::Char('a'), 3), Effect::Analyse(600));
    assert_eq!(app.review.as_ref().unwrap().status, "going through the game");
    assert_eq!(handle(&mut app, Key::Char('a'), 3), Effect::StopAnalysis);
    assert_eq!(app.review.as_ref().unwrap().status, "analysis stopped");
    assert_eq!(handle(&mut app, Key::Esc, 3), Effect::StopAnalysis);
    assert_eq!(app.screen, Screen::Playing);
    handle(&mut app, Key::Char('n'), 3);
    assert_eq!(app.screen, Screen::Setup);
}

#[test]
fn saved_games_open_from_their_text() {
    let mut app = opened(false);
    app.screen = Screen::Browser;
    handle(&mut app, Key::Down, 3);
    handle(&mut app, Key::Down, 3);
    assert_eq!(app.browser.selected, 1);
    assert_eq!(handle(&mut app, Key::Enter, 3), Effect::OpenFile);
    app.open_selected_file(None, "a.sgf".to_string());
    assert_eq!(app.browser.message, "could not read that file");
    app.open_selected_file(Some("(;GM[1])"), "a.sgf".to_string());
    assert_eq!(app.browser.message, "that file is not a game record");
    app.open_selected_file(Some("(;GM[1]SZ[9]KM[6.5];B[ee];W[cc])"), "a.sgf".to_string());
    assert_eq!(app.screen, Screen::Review);
    let review = app.review.as_ref().unwrap();
    assert_eq!(review.title, "a.sgf");
    assert_eq!(review.positions.len(), 3);
    assert_eq!(review.plays[1], (Stone::White, Play::Point(20)));
    assert_eq!(handle(&mut app, Key::Esc, 3), Effect::StopAnalysis);
    assert_eq!(app.screen, Screen::Menu);
}

#[test]
fn a_review_steps_within_the_game_and_shows_the_engines_move() {
    let review = review_of_text("(;SZ[19];B[pd];W[dp];B[pp])", "game".to_string());
    let mut review: Review = review.unwrap();
    assert_eq!(review.at, 3);
    assert_eq!(review.status, "press a to let the engine go through the game");
    review.step(5);
    assert_eq!(review.at, 3);
    review.step(-2);
    assert_eq!(review.at, 1);
    assert_eq!(review.game().move_number, 1);
    assert_eq!(review.suggestion(), None);
    assert_eq!(review.analyse(), Some(1200));
    review.tick(&vec![(0, 520, Play::Point(72)), (9, 1, Play::Pass)]);
    assert_eq!(review.analysis.finished, 1);
    assert_eq!(review.suggestion(), Some(Play::Point(72)));
    review.at = 0;
    assert_eq!(review.suggestion(), None);
    assert!(review_of_text("(;SZ[4];B[aa])", "small".to_string()).is_none());
}

#[test]
fn an_analysis_runs_until_every_position_is_done() {
    let mut analysis = Analysis::start(2);
    assert!(analysis.running());
    analysis.collect(&vec![(1, 300, Play::Pass)]);
    assert!(analysis.running());
    assert_eq!(analysis.winrates, vec![None, Some(300)]);
    analysis.collect(&vec![(0, 700, Play::Point(4))]);
    assert!(!analysis.running());
    let mut stopped = Analysis::start(3);
    stopped.cancel();
    assert!(!stopped.running());
    assert!(!Analysis::idle(3).running());
}

#[test]
fn saved_games_come_newest_first() {
    let found = vec![
        (5, "a.sgf".to_string()),
        (9, "b.sgf".to_string()),
        (5, "c.sgf".to_string()),
    ];
    let ranked = go_tui::app::newest_first(&found);
    assert_eq!(
        ranked,
        vec![
            (9, "b.sgf".to_string()),
            (5, "a.sgf".to_string()),
            (5, "c.sgf".to_string()),
        ]
    );
}

#[test]
fn a_move_taken_back_between_friends_leaves_the_game_as_it_was() {
    let mut app = friendly_game();
    let before = app.session.as_ref().unwrap().positions.len();
    handle(&mut app, Key::Enter, 3);
    assert_eq!(handle(&mut app, Key::Char('u'), 3), Effect::TookBack(1));
    let session = app.session.as_ref().unwrap();
    assert_eq!(session.positions.len(), before);
    assert_eq!(session.game.turn, Stone::Black);
    assert_eq!(session.game.board.at(40), Stone::Empty);
    assert_eq!(session.last, None);
}
