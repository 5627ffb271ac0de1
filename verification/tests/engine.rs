use go_tui::ai::{
    budget_for, candidate_moves, merge_branches, playout, random_move, sloppy_pick, urgent_reply,
    Tree,
};
use rand::rngs::SmallRng;
use rand::SeedableRng;
use go_tui::game::{Game, Play, Stone};
use go_tui::gtp::{
    answer_of, answer_of_lines, genmove_command, letter, parse_result, play_command, read_play,
    score_from_upper,
};

#[test]
fn reads_a_gtp_score_line() {
    assert_eq!(parse_result("B+12.5"), Some(125));
    assert_eq!(parse_result("W+ 3.0 (upper bound)"), Some(-30));
    assert_eq!(parse_result("0"), Some(0));
}

#[test]
fn score_lines_that_say_nothing_give_nothing() {
    assert_eq!(parse_result("draw"), Some(0));
    assert_eq!(parse_result(""), None);
    assert_eq!(parse_result("X+3"), None);
    assert_eq!(parse_result("B+"), None);
    assert_eq!(parse_result("b+ 7"), Some(70));
    assert_eq!(parse_result("W+1.2.3"), None);
}

#[test]
fn engine_replies_name_moves() {
    assert_eq!(read_play(Some(" d4 ".to_string()), 9), Play::Point(5 * 9 + 3));
    assert_eq!(read_play(Some("pass".to_string()), 9), Play::Pass);
    assert_eq!(read_play(Some("resign".to_string()), 9), Play::Pass);
    assert_eq!(read_play(Some("".to_string()), 9), Play::Pass);
    assert_eq!(read_play(Some("Z99".to_string()), 9), Play::Pass);
    assert_eq!(read_play(None, 9), Play::Pass);
}

#[test]
fn answers_and_commands() {
    assert_eq!(answer_of(" = GNU Go \n"), Some("GNU Go".to_string()));
    assert_eq!(answer_of("? unknown command"), None);
    let lines = vec!["= 1 2\n".to_string(), "  3 4 \r\n".to_string()];
    assert_eq!(answer_of_lines(&lines), Some("1 2 3 4".to_string()));
    assert_eq!(answer_of_lines(&vec!["? no\n".to_string()]), None);
    assert_eq!(answer_of_lines(&Vec::new()), None);
    assert_eq!(go_tui::gtp::engine_title("gnugo", "GNU Go", "3.8"), "GNU Go 3.8");
    assert_eq!(go_tui::gtp::engine_title("gnugo", "GNU Go", ""), "GNU Go");
    assert_eq!(go_tui::gtp::engine_title("gnugo", "", "3.8"), "gnugo");
    let (board, clear, komi) = go_tui::gtp::setup_commands(13, 65);
    assert_eq!(board, "boardsize 13");
    assert_eq!(clear, "clear_board");
    assert_eq!(komi, "komi 6.5");
    assert_eq!(go_tui::gtp::setup_commands(9, -30).2, "komi -3");
    assert_eq!(play_command(Stone::White, Play::Point(0), 9), "play W A9");
    assert_eq!(play_command(Stone::Black, Play::Pass, 9), "play B pass");
    assert_eq!(genmove_command(Stone::Black, false), "genmove B");
    assert_eq!(genmove_command(Stone::White, true), "reg_genmove W");
    assert_eq!(letter(Stone::Empty), 'B');
}

#[test]
fn a_playout_always_reaches_the_end() {
    let mut rng = SmallRng::from_rng(&mut rand::rng());
    let mut game = Game::new(9, 65);
    let winner = playout(&mut game, &mut rng);
    assert!(winner == Stone::Black || winner == Stone::White);
    assert!(game.finished);
}

#[test]
fn the_engine_considers_every_open_point_and_a_pass() {
    let mut game = Game::new(5, 65);
    let moves = candidate_moves(&mut game);
    assert_eq!(moves.len(), 26);
    assert_eq!(moves[25], Play::Pass);
    game.pass();
    game.pass();
    assert!(candidate_moves(&mut game).is_empty());
}

#[test]
fn the_engine_takes_a_stone_in_atari_at_once() {
    let mut game = Game::new(9, 65);
    let white = game.board.point(0, 0);
    game.board.put(white, Stone::White);
    game.board.put(game.board.point(1, 0), Stone::Black);
    game.turn = Stone::Black;
    assert_eq!(urgent_reply(&mut game, white), Some(game.board.point(0, 1)));
}

#[test]
fn random_moves_avoid_own_eyes() {
    let mut rng = SmallRng::from_rng(&mut rand::rng());
    let mut game = Game::new(5, 65);
    for p in [1, 5, 6] {
        game.board.put(p, Stone::Black);
    }
    let empties = vec![0];
    assert_eq!(random_move(&mut game, &empties, &mut rng), None);
    let empties = vec![0, 12];
    assert_eq!(random_move(&mut game, &empties, &mut rng), Some(12));
}

#[test]
fn thinking_time_grows_with_strength_and_board() {
    assert_eq!(budget_for(0, 9), 340);
    assert_eq!(budget_for(5, 13), 2 * 1220);
    assert_eq!(budget_for(12, 19), 3 * 2320);
}

#[test]
fn strong_engines_are_never_sloppy() {
    let mut rng = SmallRng::from_rng(&mut rand::rng());
    for _ in 0..20 {
        assert_eq!(sloppy_pick(30, 8, &mut rng), None);
        assert_eq!(sloppy_pick(1, 1, &mut rng), None);
        if let Some(i) = sloppy_pick(30, 1, &mut rng) {
            assert!(i < 10);
        }
    }
    let mut picked = 0;
    for _ in 0..200 {
        if let Some(i) = sloppy_pick(9, 1, &mut rng) {
            assert!(i < 3);
            picked += 1;
        }
    }
    assert!(picked > 0);
    assert_eq!(go_tui::ai::sloppy_choice(9, 1, true, 2), Some(2));
    assert_eq!(go_tui::ai::sloppy_choice(9, 1, false, 2), None);
    assert_eq!(go_tui::ai::sloppy_choice(9, 7, true, 2), None);
    assert_eq!(go_tui::ai::sloppy_choice(1, 1, true, 0), None);
}

#[test]
fn branches_of_several_searches_add_up() {
    let branches = vec![
        (Play::Point(3), 5),
        (Play::Pass, 9),
        (Play::Point(7), 2),
        (Play::Point(3), 6),
        (Play::Point(7), 1),
    ];
    let merged = merge_branches(&branches);
    assert_eq!(merged, vec![(Play::Point(3), 11), (Play::Pass, 9), (Play::Point(7), 3)]);
    let tied = merge_branches(&vec![(Play::Point(8), 4), (Play::Pass, 6), (Play::Point(2), 4), (Play::Point(8), 2)]);
    assert_eq!(tied, vec![(Play::Point(8), 6), (Play::Pass, 6), (Play::Point(2), 4)]);
    let ranked = go_tui::ai::candidates_of(&vec![(Play::Pass, 7), (Play::Point(1), u64::MAX)]);
    assert_eq!(ranked[0], go_tui::ai::Candidate { play: Play::Pass, visits: 7 });
    assert_eq!(ranked[1].visits, u32::MAX);
}

#[test]
fn the_tree_counts_playouts_up_to_the_root() {
    let mut rng = SmallRng::from_rng(&mut rand::rng());
    let mut game = Game::new(5, 65);
    let mut tree = Tree::new(&mut game, &mut rng);
    assert_eq!(tree.node_count(), 1);
    let mut position = game.clone();
    let child = tree.expand(0, &mut position, &mut rng).unwrap();
    assert_eq!(child, 1);
    assert_eq!(position.move_number, 1);
    let mut below_child = position.clone();
    let grandchild = tree.expand(child, &mut below_child, &mut rng).unwrap();
    tree.backup(grandchild, true);
    tree.backup(child, false);
    assert_eq!(tree.visits(0), 2);
    assert_eq!(tree.wins(0), 1);
    assert_eq!(tree.visits(grandchild), 1);
    assert_eq!(tree.child_count(0), 1);
    assert_eq!(tree.child(0, 0), child);
    let branches = tree.branches();
    assert_eq!(branches, vec![(tree.play(child), 2)]);
}

#[test]
fn an_upper_case_score_line_is_read_without_spaces() {
    assert_eq!(score_from_upper("B+12.5"), Some(125));
    assert_eq!(score_from_upper("W+ 3.0 (UPPER BOUND)"), Some(-30));
    assert_eq!(score_from_upper("0"), Some(0));
    assert_eq!(score_from_upper("DRAW"), Some(0));
    assert_eq!(score_from_upper("W+RESIGN"), None);
    assert_eq!(score_from_upper(""), None);
    assert_eq!(parse_result(" b+7 "), Some(70));
}

#[test]
fn playouts_from_many_seeds_all_end() {
    for seed in 0..20u64 {
        let mut rng = SmallRng::seed_from_u64(seed);
        let mut game = Game::new(5, 65);
        playout(&mut game, &mut rng);
        assert!(game.finished);
    }
}
