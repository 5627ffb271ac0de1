use go_tui::app::{EngineChoice, Mode, Setup};
use go_tui::config::Config;
use go_tui::game::{Play, Stone};
use go_tui::panels::{game_rows, review_rows, Row, Tone};
use go_tui::review::review_of_text;
use go_tui::session::{to_millis, Follow, Session};

fn nine_by_nine(mode: Mode) -> Setup {
    let mut setup = Setup::from_config(&Config::default());
    setup.board_size = 9;
    setup.engine = EngineChoice::Builtin;
    setup.mode = mode;
    setup
}

#[test]
fn a_new_game_starts_from_the_settings() {
    let mut setup = nine_by_nine(Mode::Engine);
    setup.handicap = 2;
    setup.main_time = Some(180);
    setup.increment = 5;
    let session = Session::new(&setup, "built-in".to_string(), false);
    assert_eq!(session.game.size(), 9);
    assert_eq!(session.game.turn, Stone::White);
    assert_eq!(session.game.komi, 65);
    assert_eq!(session.cursor, 40);
    assert_eq!(session.clocks, [Some(180_000), Some(180_000)]);
    assert_eq!(session.increment, 5_000);
    assert_eq!(session.positions.len(), 1);
    assert_eq!(session.winrates, vec![None]);
    assert!(session.plays.is_empty());
    assert_eq!(session.hints_left, 3);
    let black = (0..81).filter(|&p| session.game.board.at(p) == Stone::Black).count();
    assert_eq!(black, 2);
    assert!(session.engine_turn());
    assert!(!session.human_turn());
    assert!(session.thinking);
    assert!(session.eval_waiting);
    assert_eq!(to_millis(7), 7000);
}

#[test]
fn the_engine_moves_first_after_handicap_stones() {
    let mut setup = nine_by_nine(Mode::Engine);
    setup.level = 1;
    setup.handicap = 2;
    setup.komi = 5;
    setup.eval = false;
    let session = Session::new(&setup, "built-in".to_string(), false);
    assert_eq!(session.game.turn, Stone::White);
    assert!(session.thinking);
    assert!(!session.eval_waiting);
    assert_eq!(session.game.board.at(56), Stone::Black);
    assert_eq!(session.game.board.at(24), Stone::Black);
    assert_eq!(session.game.handicap, 2);
    assert_eq!(session.positions.len(), 1);
    assert_eq!(session.positions[0].board.at(56), Stone::Black);
    assert!(session.plays.is_empty());
    assert_eq!(session.cursor, 40);
    assert_eq!(session.engine_name, "built-in");
    assert_eq!(session.clocks, [None, None]);
    let mut setup = nine_by_nine(Mode::Engine);
    setup.eval = false;
    let session = Session::new(&setup, "built-in".to_string(), false);
    assert!(!session.thinking);
}

#[test]
fn a_move_against_the_engine_lets_it_reply() {
    let setup = nine_by_nine(Mode::Engine);
    let mut session = Session::new(&setup, "GNU Go".to_string(), true);
    assert!(!session.thinking);
    session.receive_eval(0, 500);
    let f = session.place().unwrap();
    assert_eq!(f, Follow { tell: true, ask: Some(1), think: true });
    assert!(session.thinking);
    assert!(session.place().is_none());
    let f = session.receive_move(Play::Point(0));
    assert_eq!(f, Follow { tell: false, ask: None, think: false });
    assert!(!session.thinking);
    assert!(session.eval_due);
    session.cursor = 10;
    let f = session.pass_turn().unwrap();
    assert_eq!(f.tell, true);
    assert_eq!(f.think, true);
    let f = session.receive_move(Play::Pass);
    assert_eq!(f, Follow { tell: false, ask: None, think: false });
    assert!(session.game.finished);
    assert!(!session.thinking);
}

#[test]
fn a_stone_is_placed_only_where_it_is_legal() {
    let setup = nine_by_nine(Mode::Friend);
    let mut session = Session::new(&setup, "built-in".to_string(), true);
    let f = session.place().unwrap();
    assert!(f.tell);
    assert!(!f.think);
    assert_eq!(session.plays, vec![(Stone::Black, Play::Point(40))]);
    assert_eq!(session.last, Some(40));
    assert_eq!(session.positions.len(), 2);
    assert_eq!(session.winrates.len(), 2);
    assert_eq!(session.game.turn, Stone::White);
    assert!(session.place().is_none());
    assert_eq!(session.status, "you cannot play there");
    assert_eq!(session.plays.len(), 1);
    let f = session.receive_move(Play::Point(0));
    assert!(f.tell);
    assert_eq!(session.plays.len(), 2);
}

#[test]
fn two_passes_end_the_game_with_a_result() {
    let setup = nine_by_nine(Mode::Friend);
    let mut session = Session::new(&setup, "built-in".to_string(), false);
    assert!(session.pass_turn().is_some());
    assert_eq!(session.status, "Black passed");
    assert!(session.last.is_none());
    assert!(session.pass_turn().is_some());
    assert!(session.game.finished);
    assert_eq!(session.result, "White wins by 6.5");
    assert!(session.pass_turn().is_none());
    assert!(session.place().is_none());
    assert_eq!(session.plays.len(), 2);
}

#[test]
fn the_clock_runs_out() {
    let mut setup = nine_by_nine(Mode::Friend);
    setup.main_time = Some(1);
    setup.increment = 2;
    let mut session = Session::new(&setup, "built-in".to_string(), false);
    session.run_clock(400);
    assert_eq!(session.clocks[0], Some(600));
    assert!(session.place().is_some());
    assert_eq!(session.clocks[0], Some(2600));
    session.run_clock(5000);
    assert_eq!(session.clocks[1], Some(0));
    assert!(session.game.finished);
    assert_eq!(session.game.winner, Some(Stone::Black));
    assert_eq!(session.result, "White lost on time");
    session.run_clock(100);
    assert_eq!(session.clocks[0], Some(2600));
    assert_eq!(session.clock_text(Stone::Black), "00:02");
    assert_eq!(session.clock_text(Stone::White), "00:00");
}

#[test]
fn resigning_ends_the_game_once() {
    let setup = nine_by_nine(Mode::Engine);
    let mut session = Session::new(&setup, "built-in".to_string(), false);
    session.resign();
    assert!(session.game.finished);
    assert_eq!(session.game.winner, Some(Stone::White));
    assert_eq!(session.result, "Black resigned");
    session.resign();
    assert_eq!(session.result, "Black resigned");
}

#[test]
fn hints_are_counted_and_shown() {
    let mut setup = nine_by_nine(Mode::Engine);
    setup.hints = 1;
    let mut session = Session::new(&setup, "built-in".to_string(), false);
    assert!(session.ask_for_hint());
    assert_eq!(session.status, "thinking about a good move");
    assert!(!session.ask_for_hint());
    session.receive_hint(Play::Point(session.game.board.point(2, 2)));
    assert_eq!(session.status, "try C7");
    assert_eq!(session.hint, Some(Play::Point(20)));
    assert!(!session.ask_for_hint());
    assert_eq!(session.status, "no hints left");
    assert_eq!(session.hints_left, 0);
}

#[test]
fn winning_chances_are_asked_for_once() {
    let setup = nine_by_nine(Mode::Friend);
    let mut session = Session::new(&setup, "built-in".to_string(), false);
    assert_eq!(session.winrate(), None);
    assert_eq!(session.eval_wanted(), Some(0));
    session.receive_eval(0, 480);
    assert_eq!(session.eval_wanted(), None);
    session.receive_eval(7, 100);
    assert_eq!(session.winrate(), Some(480));
    session.place();
    assert_eq!(session.eval_wanted(), Some(1));
    assert_eq!(session.winrate(), Some(480));
    session.toggle_eval();
    assert_eq!(session.eval_wanted(), None);
}

#[test]
fn territory_and_cursor_follow_the_keys() {
    let setup = nine_by_nine(Mode::Friend);
    let mut session = Session::new(&setup, "built-in".to_string(), false);
    session.toggle_territory();
    assert_eq!(session.territory.as_ref().map(|t| t.len()), Some(81));
    session.move_cursor(-9, 9);
    assert_eq!(session.cursor, 8);
    assert_eq!(session.score_text(), "W+6.5");
    session.place();
    assert_eq!(session.territory.as_ref().map(|t| t.len()), Some(81));
    session.toggle_territory();
    assert!(session.territory.is_none());
    assert_eq!(session.score_text(), "B+74.5");
}

#[test]
fn undo_goes_back_to_the_humans_turn() {
    let setup = nine_by_nine(Mode::Engine);
    let mut session = Session::new(&setup, "built-in".to_string(), false);
    assert_eq!(session.undo(), 0);
    session.place();
    session.thinking = true;
    assert_eq!(session.undo(), 0);
    assert_eq!(session.plays.len(), 1);
    session.receive_move(Play::Point(0));
    session.cursor = 10;
    session.place();
    assert_eq!(session.plays.len(), 3);
    session.thinking = true;
    session.receive_move(Play::Pass);
    assert_eq!(session.undo(), 2);
    assert_eq!(session.plays.len(), 2);
    assert_eq!(session.last, Some(0));
    assert_eq!(session.game.turn, Stone::Black);
    assert_eq!(session.status, "took the move back");
    session.undo_enabled = false;
    assert_eq!(session.undo(), 0);
    assert_eq!(session.status, "undo is switched off");
}

#[test]
fn the_record_names_the_engine_for_its_colour() {
    let mut setup = nine_by_nine(Mode::Engine);
    setup.color = Stone::White;
    setup.handicap = 2;
    let mut session = Session::new(&setup, "GNU Go".to_string(), false);
    session.receive_move(Play::Point(40));
    let record = session.record();
    assert_eq!(record.size, 9);
    assert_eq!(record.komi, 65);
    assert_eq!(record.black_name, "GNU Go");
    assert_eq!(record.white_name, "White");
    assert_eq!(record.setup_black.len(), 2);
    assert_eq!(record.plays, vec![(Stone::White, Play::Point(40))]);
}

#[test]
fn the_game_panel_says_what_is_going_on() {
    let mut setup = nine_by_nine(Mode::Engine);
    setup.main_time = Some(65);
    let mut session = Session::new(&setup, "built-in".to_string(), false);
    session.receive_eval(0, 524);
    session.place();
    let rows = game_rows(&session);
    match &rows[0] {
        Row::Turn(stone, text) => {
            assert_eq!(*stone, Stone::White);
            assert_eq!(text, "White is thinking");
        }
        _ => panic!("the panel starts with whose turn it is"),
    }
    let stats: Vec<(String, String)> = rows
        .iter()
        .filter_map(|row| match row {
            Row::Stat(label, value) => Some((label.clone(), value.clone())),
            _ => None,
        })
        .collect();
    assert_eq!(stats[0], ("clock black".to_string(), "01:05".to_string()));
    assert_eq!(stats[2], ("captures".to_string(), "0 / 0".to_string()));
    assert_eq!(stats[3], ("score now".to_string(), "B+74.5".to_string()));
    assert_eq!(stats[4], ("black wins".to_string(), "52%".to_string()));
    assert_eq!(stats[5], ("opponent".to_string(), "built-in".to_string()));
    assert_eq!(stats[6], ("hints".to_string(), "3".to_string()));
    assert_eq!(stats[7], ("move".to_string(), "1".to_string()));
    assert!(rows.iter().any(|row| matches!(row, Row::Move(text, true) if text == "  1. \u{25cf} E5")));
    assert!(!rows.iter().any(|row| matches!(row, Row::Chart(_, _))));
    assert!(!rows.iter().any(|row| matches!(row, Row::Note(_, Tone::Accent))));
    assert_eq!(go_tui::panels::percent_text(995), "100%");
    assert_eq!(go_tui::panels::percent_text(4), "0%");
}

#[test]
fn the_review_panel_names_the_move_and_the_verdict() {
    let mut review = review_of_text("(;SZ[9];B[ee];W[aa])", "game".to_string()).unwrap();
    review.analyse();
    review.tick(&vec![(1, 600, Play::Point(30)), (2, 900, Play::Pass)]);
    let rows = review_rows(&review);
    match &rows[0] {
        Row::Stat(label, value) => {
            assert_eq!(label, "move");
            assert_eq!(value, "2 of 2");
        }
        _ => panic!("the panel starts with the move on show"),
    }
    match &rows[1] {
        Row::Played(stone, text, mark) => {
            assert_eq!(*stone, Stone::White);
            assert_eq!(text, "\u{25cb} A9");
            assert_eq!(mark, "??");
        }
        _ => panic!("then comes the move played"),
    }
    assert!(rows.iter().any(|row| matches!(row, Row::Stat(l, v) if l == "engine says" && v == "blunder")));
    assert!(rows.iter().any(|row| matches!(row, Row::Stat(l, v) if l == "better was" && v == "D6")));
    assert!(rows.iter().any(|row| matches!(row, Row::Chart(6, Some(2)))));
    assert!(rows.iter().any(|row| matches!(row, Row::Note(text, _) if text == "looking at move 2 of 3")));
}

#[test]
fn a_saved_game_is_named_by_its_size_and_time() {
    assert_eq!(go_tui::session::save_name(9, 1700000000), "go-9-1700000000.sgf");
}

#[test]
fn a_turn_of_the_loop_takes_in_what_arrived() {
    let mut setup = nine_by_nine(Mode::Engine);
    setup.color = Stone::White;
    setup.main_time = Some(10);
    let mut session = Session::new(&setup, "built-in".to_string(), false);
    assert!(session.thinking);
    let r = session.tick(Some(Play::Point(0)), Some((0, 610)), Some(Play::Point(40)), 3000);
    assert_eq!(r, Follow { tell: false, ask: Some(1), think: false });
    assert_eq!(session.hint, None);
    assert_eq!(session.winrates, vec![Some(610), None]);
    assert_eq!(session.plays, vec![(Stone::Black, Play::Point(40))]);
    assert!(!session.thinking);
    assert_eq!(session.clocks, [Some(10_000), Some(7_000)]);
    let quiet = session.tick(None, None, None, 500);
    assert_eq!(quiet, Follow { tell: false, ask: None, think: false });
    assert_eq!(session.clocks[1], Some(6_500));
}

#[test]
fn a_chance_to_win_is_asked_for_once_at_a_time() {
    let setup = nine_by_nine(Mode::Friend);
    let mut session = Session::new(&setup, "built-in".to_string(), false);
    assert!(session.eval_waiting);
    assert!(!session.eval_due);
    assert_eq!(session.place().unwrap().ask, None);
    assert!(session.eval_due);
    assert_eq!(session.request_eval(), None);
    let r = session.tick(None, Some((0, 500)), None, 0);
    assert_eq!(r.ask, Some(1));
    assert!(session.eval_waiting);
    assert!(!session.eval_due);
    assert!(!session.receive_eval(1, 480));
    assert_eq!(session.request_eval(), None);
    assert!(!session.eval_waiting);
    session.toggle_eval();
    assert_eq!(session.request_eval(), None);
}

#[test]
fn saving_says_how_it_went() {
    let setup = nine_by_nine(Mode::Friend);
    let mut session = Session::new(&setup, "built-in".to_string(), false);
    session.note_saved(Ok("go-9-1.sgf".to_string()));
    assert_eq!(session.status, "saved as go-9-1.sgf");
    session.note_saved(Err("disk full".to_string()));
    assert_eq!(session.status, "could not save: disk full");
    session.start_thinking();
    assert!(session.thinking);
    assert!(session.place().is_none());
}

#[test]
fn the_review_marks_the_stone_that_led_to_the_position() {
    let mut review = review_of_text("(;SZ[9];B[ee];W[];B[aa])", "game".to_string()).unwrap();
    assert_eq!(review.at, 3);
    assert_eq!(review.last_stone(), Some(0));
    review.step(-1);
    assert_eq!(review.last_stone(), None);
    review.step(-1);
    assert_eq!(review.last_stone(), Some(40));
    review.step(-1);
    assert_eq!(review.last_stone(), None);
}
