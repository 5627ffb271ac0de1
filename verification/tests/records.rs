use go_tui::game::{Play, Stone};
use go_tui::sgf::{point_to_sgf, positions, properties, read, sgf_to_point, Record};

#[test]
fn a_saved_game_can_be_read_back() {
    let mut record = Record::new(9, 65);
    record.plays.push((Stone::Black, Play::Point(0)));
    record.plays.push((Stone::White, Play::Pass));
    record.plays.push((Stone::Black, Play::Point(40)));

    let text = go_tui::sgf::write(&record);
    let back = read(&text).unwrap();
    assert_eq!(back.size, 9);
    assert_eq!(back.komi, 65);
    assert_eq!(back.plays.len(), 3);
    assert_eq!(back.plays[1].1, Play::Pass);
    assert_eq!(back.plays[2].1, Play::Point(40));
}

#[test]
fn positions_follow_the_moves() {
    let mut record = Record::new(9, 65);
    record.plays.push((Stone::Black, Play::Point(0)));
    record.plays.push((Stone::White, Play::Point(1)));
    let positions = positions(&record);
    assert_eq!(positions.len(), 3);
    assert_eq!(positions[2].board.at(1), Stone::White);
}

#[test]
fn handicap_stones_are_kept() {
    let text = "(;GM[1]SZ[19]HA[2]AB[dd][pp];W[qq])";
    let record = read(text).unwrap();
    assert_eq!(record.setup_black.len(), 2);
    let positions = positions(&record);
    assert_eq!(positions[0].turn, Stone::White);
}

#[test]
fn a_record_is_written_out_in_full() {
    let mut record = Record::new(9, 65);
    record.result = "B+R".to_string();
    record.setup_black.push(20);
    record.setup_black.push(60);
    record.setup_white.push(40);
    record.plays.push((Stone::White, Play::Point(10)));
    record.plays.push((Stone::Black, Play::Pass));
    let text = go_tui::sgf::write(&record);
    assert_eq!(
        text,
        "(;GM[1]FF[4]CA[UTF-8]AP[go-tui]SZ[9]KM[6.5]PB[Black]PW[White]RE[B+R]HA[2]AB[cc][gg]AW[ee]\n;W[bb];B[])\n"
    );
}

#[test]
fn every_written_record_reads_back_whole() {
    let mut record = Record::new(13, -5);
    record.black_name = "Ann [3d".to_string();
    record.white_name = "Bo".to_string();
    record.result = "W+2.5".to_string();
    record.setup_black.push(0);
    record.setup_white.push(168);
    for k in 0..30 {
        let color = if k % 2 == 0 { Stone::Black } else { Stone::White };
        let play = if k % 7 == 3 { Play::Pass } else { Play::Point(k * 5 % 169) };
        record.plays.push((color, play));
    }
    let back = read(&go_tui::sgf::write(&record)).unwrap();
    assert_eq!(back.size, 13);
    assert_eq!(back.komi, -5);
    assert_eq!(back.black_name, "Ann [3d");
    assert_eq!(back.white_name, "Bo");
    assert_eq!(back.result, "W+2.5");
    assert_eq!(back.setup_black, vec![0]);
    assert_eq!(back.setup_white, vec![168]);
    assert_eq!(back.plays, record.plays);
}

#[test]
fn komi_with_a_sign_or_no_fraction_reads_in_tenths() {
    assert_eq!(read("(;SZ[9]KM[7];B[aa])").unwrap().komi, 70);
    assert_eq!(read("(;SZ[9]KM[ -0.5 ];B[aa])").unwrap().komi, -5);
    assert_eq!(read("(;SZ[9]KM[+.5];B[aa])").unwrap().komi, 5);
    assert_eq!(read("(;SZ[9]KM[6.75];B[aa])").unwrap().komi, 67);
    assert_eq!(read("(;SZ[9]KM[half];B[aa])").unwrap().komi, 65);
    assert_eq!(read("(;SZ[9];B[aa])").unwrap().komi, 65);
}

#[test]
fn records_that_hold_no_game_are_refused() {
    assert!(read("").is_none());
    assert!(read("(;SZ[9])").is_none());
    assert!(read("(;SZ[4];B[aa])").is_none());
    assert!(read("(;SZ[26];B[aa])").is_none());
    assert!(read("(;SZ[abc];B[aa])").is_some());
    assert_eq!(read("(;SZ[ 9:9 ];B[aa])").unwrap().size, 9);
    assert_eq!(read("(;B[aa])").unwrap().size, 19);
}

#[test]
fn properties_keep_escaped_characters() {
    let found = properties("(;C[a\\]b]AB[aa][bb]x[zz])");
    assert_eq!(
        found,
        vec![
            ("C".to_string(), "a]b".to_string()),
            ("AB".to_string(), "aa".to_string()),
            ("AB".to_string(), "bb".to_string()),
            ("AB".to_string(), "zz".to_string()),
        ]
    );
    assert_eq!(properties("[lost]K[v]"), vec![("K".to_string(), "v".to_string())]);
}

#[test]
fn points_and_their_sgf_names() {
    assert_eq!(point_to_sgf(0, 19), "aa");
    assert_eq!(point_to_sgf(20, 19), "bb");
    assert_eq!(point_to_sgf(360, 19), "ss");
    assert_eq!(sgf_to_point("bb", 19), Some(20));
    assert_eq!(sgf_to_point("tt", 19), None);
    assert_eq!(sgf_to_point("tt", 21), Some(19 * 21 + 19));
    assert_eq!(sgf_to_point("zz", 9), None);
    assert_eq!(sgf_to_point("a", 9), None);
    assert_eq!(sgf_to_point("A1", 9), None);
}

#[test]
fn illegal_moves_in_a_record_leave_the_position() {
    let mut record = Record::new(9, 65);
    record.plays.push((Stone::Black, Play::Point(0)));
    record.plays.push((Stone::White, Play::Point(0)));
    let positions = positions(&record);
    assert_eq!(positions.len(), 3);
    assert_eq!(positions[2].board.at(0), Stone::Black);
    assert_eq!(positions[2].move_number, 1);
}

#[test]
fn a_closing_bracket_in_a_name_ends_it() {
    let mut record = Record::new(9, 65);
    record.black_name = "a]b".to_string();
    record.plays.push((Stone::Black, Play::Point(0)));
    let back = read(&go_tui::sgf::write(&record)).unwrap();
    assert_eq!(back.black_name, "a");
}

#[test]
fn a_record_of_no_board_is_still_written() {
    let mut record = Record::new(0, 65);
    record.plays.push((Stone::Black, Play::Pass));
    let text = go_tui::sgf::write(&record);
    assert!(text.starts_with("(;GM[1]FF[4]CA[UTF-8]AP[go-tui]SZ[0]KM[6.5]"));
    assert!(text.ends_with("\n;B[])\n"));
}
