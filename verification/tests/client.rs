use go_tui::analysis::{Analysis, Verdict};
use go_tui::app::{
    clock_text, cycle, engine_label, menu_item, move_cursor, moved_within, next_theme, on_off,
    result_text, score_text, setup_label, sgf_name, side_index, step, undo_steps, Browser,
    EngineChoice,
    Mode, Screen, Setup, MENU_LENGTH, SETUP_ROWS,
};
use go_tui::board_view::{
    board_cells, board_height, board_width, column_header, grid_glyph, move_list, point_look,
    row_label, Ink,
};
use go_tui::config::Config;
use go_tui::game::{Game, Play, Stone};
use go_tui::panels::{bar_numbers, browser_rows, chart_columns, filled_rows, Row, Tone};
use go_tui::session::Session;

#[test]
fn the_board_lines_up_with_the_letters() {
    let mut setup = Setup::from_config(&Config::default());
    setup.board_size = 9;
    setup.engine = EngineChoice::Builtin;
    setup.mode = Mode::Friend;
    let mut session = Session::new(&setup, "built-in".to_string(), false);
    session.cursor = session.game.board.point(4, 4);
    session.place();
    session.hint = Some(Play::Point(session.game.board.point(2, 2)));
    session.toggle_territory();
    let cells = board_cells(
        &session.game,
        Some(session.cursor),
        session.last,
        session.hint,
        session.territory.as_ref(),
    );
    assert!(column_header(9).contains("A B C D E F G H J"));
    assert_eq!(column_header(9), "   A B C D E F G H J");
    assert_eq!(cells[40].glyph, "\u{25c9}");
    let mut game = Game::new(9, 65);
    let p = game.board.point(4, 4);
    game.play(p);
    let plain = board_cells(&game, None, None, None, None);
    assert_eq!(plain[p].glyph, "\u{25cf}");
    assert_eq!(row_label(9), " 9 ");
    assert_eq!(row_label(19), "19 ");
}

#[test]
fn the_grid_has_corners_edges_and_crossings() {
    assert_eq!(grid_glyph(0, 0, 9), "\u{250c}");
    assert_eq!(grid_glyph(0, 8, 9), "\u{2510}");
    assert_eq!(grid_glyph(8, 0, 9), "\u{2514}");
    assert_eq!(grid_glyph(8, 8, 9), "\u{2518}");
    assert_eq!(grid_glyph(0, 4, 9), "\u{252c}");
    assert_eq!(grid_glyph(8, 4, 9), "\u{2534}");
    assert_eq!(grid_glyph(4, 0, 9), "\u{251c}");
    assert_eq!(grid_glyph(4, 8, 9), "\u{2524}");
    assert_eq!(grid_glyph(4, 4, 9), "\u{253c}");
    assert_eq!(board_width(9), 26);
    assert_eq!(board_height(19), 23);
}

#[test]
fn points_are_drawn_by_what_stands_on_them() {
    let last = point_look(Stone::White, true, false, None, false, 2, 2, 9, false);
    assert_eq!(last.glyph, "\u{25ce}");
    assert_eq!(last.ink, Ink::Stone(Stone::White));
    let mark = point_look(Stone::Empty, false, true, Some(Stone::Black), true, 2, 2, 9, true);
    assert_eq!(mark.glyph, "\u{25c7}");
    assert_eq!(mark.ink, Ink::Good);
    assert!(mark.cursor);
    let owned = point_look(Stone::Empty, false, false, Some(Stone::White), true, 2, 2, 9, false);
    assert_eq!(owned.glyph, "\u{25ab}");
    let star = point_look(Stone::Empty, false, false, None, true, 2, 2, 9, false);
    assert_eq!(star.glyph, "\u{254b}");
    assert_eq!(star.ink, Ink::Star);
    let game = Game::new(9, 65);
    let cells = board_cells(&game, Some(40), None, Some(Play::Point(0)), None);
    assert_eq!(cells[20].glyph, "\u{254b}");
    assert_eq!(cells[0].glyph, "\u{25c7}");
    assert!(cells[40].cursor);
}

#[test]
fn the_move_list_shows_the_last_moves() {
    let plays = vec![
        (Stone::Black, Play::Point(0)),
        (Stone::White, Play::Pass),
        (Stone::Black, Play::Point(80)),
    ];
    let lines = move_list(&plays, 9, 3, 2);
    assert_eq!(lines.len(), 2);
    assert_eq!(lines[0].0, "  2. \u{25cb} pass");
    assert!(!lines[0].1);
    assert_eq!(lines[1].0, "  3. \u{25cf} J1");
    assert!(lines[1].1);
    let none = move_list(&plays, 9, 0, 6);
    assert_eq!(none, vec![("no moves yet".to_string(), false)]);
}

#[test]
fn verdicts_by_the_drop_in_winning_chances() {
    let mut analysis = Analysis::idle(4);
    analysis.record(0, 500, Play::Pass);
    analysis.record(1, 200, Play::Pass);
    analysis.record(2, 300, Play::Pass);
    analysis.record(9, 300, Play::Pass);
    assert_eq!(analysis.finished, 3);
    assert_eq!(analysis.verdict(1, Stone::Black), Some(Verdict::Blunder));
    assert_eq!(analysis.verdict(2, Stone::White), Some(Verdict::Inaccuracy));
    assert_eq!(analysis.verdict(3, Stone::Black), None);
    assert_eq!(analysis.verdict(0, Stone::Black), None);
    assert_eq!(Verdict::Mistake.mark(), " ?");
    assert_eq!(Verdict::Fine.name(), "good move");
}

#[test]
fn settings_are_read_from_their_file() {
    let config = Config::from_text("# mine\ntheme = 2\n board_size=13 \nlevel = 300\nkomi = 7.5\nengine_command = gnugo --level 3\nshow_eval = no\nnoise\n");
    assert_eq!(config.theme, 2);
    assert_eq!(config.board_size, 13);
    assert_eq!(config.level, 8);
    assert_eq!(config.komi, 75);
    assert_eq!(config.engine_command, "gnugo --level 3");
    assert!(!config.show_eval);
    let plain = Config::default();
    assert_eq!(
        plain.to_text(),
        "theme = 0\nboard_size = 19\nlevel = 8\nkomi = 6.5\nengine_command = gnugo --mode gtp\nshow_eval = true\n"
    );
}

#[test]
fn saved_settings_read_back() {
    let mut config = Config::default();
    config.theme = 1;
    config.board_size = 9;
    config.level = 3;
    config.komi = -5;
    config.show_eval = false;
    let back = Config::from_text(&config.to_text());
    assert_eq!(back.theme, 1);
    assert_eq!(back.board_size, 9);
    assert_eq!(back.level, 3);
    assert_eq!(back.komi, -5);
    assert_eq!(back.engine_command, config.engine_command);
    assert!(!back.show_eval);
}

#[test]
fn the_new_game_screen_shows_and_changes_settings() {
    let config = Config::default();
    let mut setup = Setup::from_config(&config);
    assert_eq!(setup.value(0, "gnugo", true), "19x19");
    assert_eq!(setup.value(2, "gnugo", false), "gnugo (not installed)");
    assert_eq!(setup.value(6, "gnugo", true), "6.5");
    assert_eq!(setup.value(7, "gnugo", true), "no clock");
    assert_eq!(setup.value(9, "gnugo", true), "3");
    setup.row = 0;
    setup.change(true);
    assert_eq!(setup.board_size, 9);
    setup.change(false);
    assert_eq!(setup.board_size, 19);
    setup.row = 7;
    setup.change(true);
    assert_eq!(setup.main_time, Some(180));
    assert_eq!(setup.value(7, "gnugo", true), "3 min");
    setup.row = 6;
    setup.change(true);
    assert_eq!(setup.komi, 75);
    setup.row = 3;
    setup.level = 10;
    setup.change(true);
    assert_eq!(setup.level, 10);
    setup.row = 1;
    setup.change(true);
    assert_eq!(setup.mode, Mode::Friend);
    assert!(!setup.active(4));
    assert!(setup.active(5));
    assert_eq!(setup.engine, EngineChoice::External);
    assert_eq!(setup_label(SETUP_ROWS - 1), "Eval bar");
    assert_eq!(menu_item(MENU_LENGTH - 1), "Quit");
    assert!(Screen::Menu != Screen::Help);
}

#[test]
fn lists_step_round_and_back() {
    let options = [0u32, 3, 5, 10, u32::MAX];
    for &value in &options {
        let next = cycle(&options, value, true);
        assert_eq!(cycle(&options, next, false), value);
    }
    assert_eq!(cycle(&options, 7, true), 3);
    assert_eq!(cycle(&options, u32::MAX, true), 0);
    assert_eq!(step(1, 1, 10, false), 1);
    assert_eq!(step(4, 1, 10, true), 5);
}

#[test]
fn the_saved_games_list_keeps_its_pick_on_the_list() {
    let mut browser = Browser::new(&vec![("notes.txt".to_string(), 9), (".sgf".to_string(), 8)]);
    assert!(browser.files.is_empty());
    assert_eq!(browser.message, "no .sgf files in this folder");
    browser.move_by(3);
    assert_eq!(browser.selected, 0);
    browser.refresh(&vec![("a.sgf".to_string(), 1), ("b.sgf".to_string(), 2)]);
    assert_eq!(browser.files, vec!["b.sgf".to_string(), "a.sgf".to_string()]);
    assert_eq!(browser.message, "");
    browser.move_by(5);
    assert_eq!(browser.selected, 1);
    browser.move_by(-9);
    assert_eq!(browser.selected, 0);
}

#[test]
fn the_cursor_stays_on_the_board() {
    assert_eq!(move_cursor(9, 0, -1, -1), 0);
    assert_eq!(move_cursor(9, 40, 1, 1), 50);
    assert_eq!(move_cursor(9, 80, 1, 0), 80);
    assert_eq!(moved_within(3, 10, 5), 5);
    assert_eq!(next_theme(0, 3, false), 2);
    assert_eq!(next_theme(2, 3, true), 0);
}

#[test]
fn short_texts_of_the_client() {
    assert_eq!(clock_text(None), "--:--");
    assert_eq!(clock_text(Some(65)), "01:05");
    assert_eq!(clock_text(Some(6000)), "100:00");
    assert_eq!(score_text(65), "B+6.5");
    assert_eq!(score_text(-70), "W+7.0");
    assert_eq!(score_text(0), "even");
    assert_eq!(result_text(5), "Black wins by 0.5");
    assert_eq!(result_text(-15), "White wins by 1.5");
    assert_eq!(result_text(0), "the game is a draw");
    assert_eq!(engine_label("  gnugo --mode gtp"), "gnugo");
    assert_eq!(engine_label("   "), "engine");
    assert_eq!(on_off(true), "on");
    assert_eq!(side_index(Stone::White), 1);
}

#[test]
fn undo_takes_back_both_moves() {
    let mut setup = Setup::from_config(&Config::default());
    setup.board_size = 9;
    setup.engine = EngineChoice::Builtin;
    setup.level = 1;
    let mut session = Session::new(&setup, "built-in".to_string(), false);
    session.cursor = session.game.board.point(4, 4);
    session.place();
    assert!(session.thinking);
    session.receive_move(Play::Point(0));
    assert_eq!(session.plays.len(), 2);
    session.undo();
    assert_eq!(session.plays.len(), 0);
    assert_eq!(session.game.turn, session.human);
    let turns = vec![Stone::Black, Stone::White, Stone::Black];
    assert_eq!(undo_steps(&turns, false, Stone::Black), 2);
    assert_eq!(undo_steps(&turns, true, Stone::Black), 1);
    let turns = vec![Stone::White, Stone::Black, Stone::White];
    assert_eq!(undo_steps(&turns, false, Stone::Black), 1);
    assert_eq!(undo_steps(&vec![Stone::White, Stone::White, Stone::White], false, Stone::Black), 2);
}

#[test]
fn only_sgf_files_are_listed_newest_first() {
    let entries = vec![
        ("old.sgf".to_string(), 10),
        ("game.SGF".to_string(), 50),
        ("readme.md".to_string(), 40),
        ("new.sgf".to_string(), 30),
        ("sgf".to_string(), 60),
        ("..sgf".to_string(), 20),
        ("mid.sgf".to_string(), 20),
    ];
    let browser = Browser::new(&entries);
    assert_eq!(
        browser.files,
        vec!["new.sgf".to_string(), "..sgf".to_string(), "mid.sgf".to_string(), "old.sgf".to_string()]
    );
    assert_eq!(browser.selected, 0);
    assert_eq!(browser.message, "");
    assert!(sgf_name("a.sgf"));
    assert!(!sgf_name(".sgf"));
    assert!(!sgf_name("a.sgfx"));
}

#[test]
fn the_saved_games_list_shows_fourteen_names_and_the_pick() {
    let entries: Vec<(String, u64)> = (0..20).map(|i| (format!("g{}.sgf", i), i as u64)).collect();
    let mut browser = Browser::new(&entries);
    browser.move_by(2);
    browser.message = "that file is not a game record".to_string();
    let rows = browser_rows(&browser);
    assert_eq!(rows.len(), 16);
    assert!(matches!(&rows[0], Row::File(name, false) if name == "g19.sgf"));
    assert!(matches!(&rows[2], Row::File(name, true) if name == "g17.sgf"));
    assert!(matches!(&rows[13], Row::File(name, false) if name == "g6.sgf"));
    assert!(matches!(&rows[14], Row::Blank));
    assert!(matches!(&rows[15], Row::Note(text, Tone::Warning) if text == "that file is not a game record"));
    let empty = Browser::new(&Vec::new());
    let rows = browser_rows(&empty);
    assert_eq!(rows.len(), 3);
    assert!(matches!(&rows[0], Row::Note(text, Tone::Dim) if text == "no .sgf files in this folder"));
    assert!(matches!(&rows[2], Row::Note(text, Tone::Dim) if text == "games you save with s land in the folder you started from"));
}

#[test]
fn the_eval_bar_and_chart_round_halves_up() {
    assert_eq!(bar_numbers(None, 10), (50, 5, 50));
    assert_eq!(bar_numbers(Some(995), 10), (1, 10, 100));
    assert_eq!(bar_numbers(Some(124), 4), (88, 0, 12));
    assert_eq!(bar_numbers(Some(125), 4), (88, 1, 13));
    assert_eq!(filled_rows(1000, 6), 6);
    assert_eq!(filled_rows(0, 6), 0);
    let columns = chart_columns(&vec![Some(600), None, Some(200), None], 2, Some(2));
    assert_eq!(columns, vec![(600, false), (600, false), (200, true), (200, false)]);
    let columns = chart_columns(&vec![None; 3], 50, None);
    assert_eq!(columns.len(), 30);
    assert!(columns.iter().all(|&(rate, marked)| rate == 500 && !marked));
}

fn fields(s: &Setup) -> (usize, Mode, EngineChoice, u8, Stone, u8, i32, Option<u64>, u64, u32, bool, bool) {
    (
        s.board_size, s.mode, s.engine, s.level, s.color, s.handicap, s.komi, s.main_time,
        s.increment, s.hints, s.undo, s.eval,
    )
}

#[test]
fn a_setting_changed_and_changed_back_is_as_it_was() {
    let mut setup = Setup::from_config(&Config::default());
    for row in 0..12 {
        setup.row = row;
        let before = setup;
        setup.change(true);
        setup.change(false);
        assert_eq!(fields(&setup), fields(&before));
        setup.change(false);
        setup.change(true);
        assert!(fields(&setup) == fields(&before) || row == 3);
    }
}
