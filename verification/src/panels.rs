//! The lines of the panels beside the board: what each says and how it is meant to be shown;
//! the terminal lays them out and colours them.
use vstd::prelude::*;
use crate::game::{Play, Stone};
use crate::app::{Mode, clock_text, clock_view, score_view};
use crate::board_view::{move_line_text, move_list};
use crate::game::play_name;
use crate::session::{Session, stone_name, lead_of, latest};
use crate::review::Review;
use crate::app::Browser;
use crate::analysis::{Verdict, verdict_view};
use crate::game::coord_text;
use crate::text::{decimal, push_decimal};

verus! {

/// How a note is shown: in the accent colour, dimmed, or as a warning.
#[derive(Clone, Copy, PartialEq, Eq, Debug, Structural)]
pub enum Tone {
    Accent,
    Dim,
    Warning,
}

/// One line of a panel.
pub enum Row {
    /// Whose turn it is, and what is said of it.
    Turn(Stone, String),
    /// An empty line.
    Blank,
    /// A name and its value.
    Stat(String, String),
    /// A heading.
    Section(String),
    /// The chart of Black's chances to win, this many lines high, marking a move when given.
    Chart(usize, Option<usize>),
    /// A line of the move list, and whether it is the move on show.
    Move(String, bool),
    /// The move that led to the position on show: its colour, its name, and the engine's mark.
    Played(Stone, String, String),
    /// A note.
    Note(String, Tone),
    /// A saved game's name, and whether it is the one picked.
    File(String, bool),
}

/// A panel line as plain values.
pub enum RowView {
    Turn(Stone, Seq<char>),
    Blank,
    Stat(Seq<char>, Seq<char>),
    Section(Seq<char>),
    Chart(usize, Option<usize>),
    Move(Seq<char>, bool),
    Played(Stone, Seq<char>, Seq<char>),
    Note(Seq<char>, Tone),
    File(Seq<char>, bool),
}

impl View for Row {
    type V = RowView;

    open spec fn view(&self) -> RowView {
        match self {
            Row::Turn(s, t) => RowView::Turn(*s, t@),
            Row::Blank => RowView::Blank,
            Row::Stat(l, v) => RowView::Stat(l@, v@),
            Row::Section(t) => RowView::Section(t@),
            Row::Chart(h, at) => RowView::Chart(*h, *at),
            Row::Move(t, on) => RowView::Move(t@, *on),
            Row::Played(c, t, m) => RowView::Played(*c, t@, m@),
            Row::Note(t, tone) => RowView::Note(t@, *tone),
            Row::File(t, on) => RowView::File(t@, *on),
        }
    }
}

/// The lines `rows` as plain values.
pub open spec fn views(rows: Seq<Row>) -> Seq<RowView> {
    rows.map_values(|r: Row| r@)
}

/// Milliseconds left on a clock as whole seconds.
pub open spec fn seconds_of(clock: Option<u64>) -> Option<u64> {
    match clock {
        Some(ms) => Some(ms / 1000),
        None => None,
    }
}

/// A chance in thousandths as a whole percentage, halves rounded up.
pub open spec fn percent_view(w: u32) -> Seq<char> {
    decimal(((w + 5) / 10) as nat) + "%"@
}

/// How many hints are left, as shown.
pub open spec fn hints_view(h: u32) -> Seq<char> {
    if h == u32::MAX {
        "unlimited"@
    } else {
        decimal(h as nat)
    }
}

/// How many chances to win in `w` are known.
pub open spec fn known(w: Seq<Option<u32>>) -> nat
    decreases w.len(),
{
    if w.len() == 0 {
        0
    } else {
        known(w.drop_last()) + if w.last() is Some {
            1nat
        } else {
            0nat
        }
    }
}

/// The lines of the move list: see `move_list`.
pub open spec fn move_rows(plays: Seq<(Stone, Play)>, size: int, around: int, count: int) -> Seq<
    RowView,
> {
    let end = if around < plays.len() {
        around
    } else {
        plays.len() as int
    };
    let start = if end >= count {
        end - count
    } else {
        0
    };
    if end > start {
        Seq::new(
            (end - start) as nat,
            |k: int|
                RowView::Move(
                    move_line_text((start + k + 1) as nat, plays[start + k].0, plays[start + k].1, size),
                    start + k + 1 == around,
                ),
        )
    } else {
        seq![RowView::Move("no moves yet"@, false)]
    }
}

/// The top of the game panel: whose turn it is, the clocks, the captures, the score, and
/// Black's chance to win when known.
pub open spec fn game_head(s: Session) -> Seq<RowView> {
    let g = s.game;
    let turn = stone_name(g.turn) + if s.thinking {
        " is thinking"@
    } else {
        " to play"@
    };
    let chance = match latest(s.winrates@) {
        Some(w) => seq![RowView::Stat("black wins"@, percent_view(w))],
        None => Seq::empty(),
    };
    seq![
        RowView::Turn(g.turn, turn),
        RowView::Blank,
        RowView::Stat("clock black"@, clock_view(seconds_of(s.clocks[0]))),
        RowView::Stat("clock white"@, clock_view(seconds_of(s.clocks[1]))),
        RowView::Stat(
            "captures"@,
            decimal(g.captured[0] as nat) + " / "@ + decimal(g.captured[1] as nat),
        ),
        RowView::Stat("score now"@, score_view(lead_of(g))),
    ] + chance + seq![RowView::Blank]
}

/// The middle of the game panel: the opponent and the hints left (or that two people play),
/// the move number, and the chart of how the game went when the bar is shown and more than
/// one chance is known.
pub open spec fn game_middle(s: Session) -> Seq<RowView> {
    let who = if s.mode == Mode::Engine {
        seq![
            RowView::Stat("opponent"@, s.engine_name@),
            RowView::Stat("hints"@, hints_view(s.hints_left)),
        ]
    } else {
        seq![RowView::Stat("mode"@, "two players"@)]
    };
    let chart = if s.show_eval && known(s.winrates@) > 1 {
        seq![
            RowView::Section("how the game went"@),
            RowView::Chart(5, None),
            RowView::Blank,
        ]
    } else {
        Seq::empty()
    };
    who + seq![RowView::Stat("move"@, decimal(s.game.move_number as nat)), RowView::Blank] + chart
        + seq![RowView::Section("last moves"@)]
}

/// A note, after an empty line, when `text` is not empty.
pub open spec fn note_rows(text: Seq<char>, tone: Tone) -> Seq<RowView> {
    if text.len() > 0 {
        seq![RowView::Blank, RowView::Note(text, tone)]
    } else {
        Seq::empty()
    }
}

/// The panel beside the board during a game: its top and middle (see `game_head` and
/// `game_middle`), the last six moves, and the status when there is one.
pub open spec fn game_rows_view(s: Session) -> Seq<RowView> {
    game_head(s) + game_middle(s) + move_rows(
        s.plays@,
        s.game.board.width(),
        s.plays@.len() as int,
        6,
    ) + note_rows(s.status@, Tone::Accent)
}

/// The glyph of a stone's colour.
pub open spec fn symbol_view(c: Stone) -> Seq<char> {
    match c {
        Stone::Black => "\u{25cf}"@,
        Stone::White => "\u{25cb}"@,
        Stone::Empty => " "@,
    }
}

/// The name of a move on a board `size` wide.
pub open spec fn play_text(play: Play, size: int) -> Seq<char> {
    match play {
        Play::Point(p) => coord_text(p as int, size),
        Play::Pass => seq!['p', 'a', 's', 's'],
    }
}

/// The mark beside a move for the engine's verdict.
pub open spec fn mark_view(v: Verdict) -> Seq<char> {
    match v {
        Verdict::Fine => "  "@,
        Verdict::Inaccuracy => "?!"@,
        Verdict::Mistake => " ?"@,
        Verdict::Blunder => "??"@,
    }
}

/// The name of the engine's verdict.
pub open spec fn verdict_name(v: Verdict) -> Seq<char> {
    match v {
        Verdict::Fine => "good move"@,
        Verdict::Inaccuracy => "inaccuracy"@,
        Verdict::Mistake => "mistake"@,
        Verdict::Blunder => "blunder"@,
    }
}

/// The move that led to the position on show, with the engine's verdict on it, when there
/// is one.
pub open spec fn played_rows(r: Review) -> Seq<RowView> {
    if r.at > 0 && r.at - 1 < r.plays@.len() {
        let (c, p) = r.plays@[r.at - 1];
        let v = verdict_view(r.analysis.winrates@, r.at as int, c);
        let mark = match v {
            Some(x) => mark_view(x),
            None => Seq::empty(),
        };
        let said = match v {
            Some(x) => seq![RowView::Stat("engine says"@, verdict_name(x))],
            None => Seq::empty(),
        };
        seq![
            RowView::Played(
                c,
                symbol_view(c) + seq![' '] + play_text(p, r.positions@[0].board.width()),
                mark,
            ),
        ] + said
    } else {
        Seq::empty()
    }
}

/// The top of the review panel: which move is on show of how many, the move that led there
/// (see `played_rows`), Black's chance to win there, and the engine's better move.
pub open spec fn review_head(r: Review) -> Seq<RowView> {
    let total = r.positions@.len() - 1;
    let size = r.positions@[0].board.width();
    let chance = match r.analysis.winrates@[r.at as int] {
        Some(w) => seq![RowView::Stat("black wins"@, percent_view(w))],
        None => Seq::empty(),
    };
    let suggested = if r.at == 0 {
        None
    } else {
        r.analysis.best@[r.at - 1]
    };
    let better = match suggested {
        Some(b) => seq![RowView::Stat("better was"@, play_text(b, size))],
        None => Seq::empty(),
    };
    seq![RowView::Stat("move"@, decimal(r.at as nat) + " of "@ + decimal(total as nat))]
        + played_rows(r) + chance + better + seq![RowView::Blank]
}

/// The middle of the review panel: the chart of how the game went once more than one
/// position is done, how far the engine is while it goes through the game, and the heading
/// of the moves.
pub open spec fn review_middle(r: Review) -> Seq<RowView> {
    let a = r.analysis;
    let chart = if a.finished > 1 {
        seq![
            RowView::Section("how the game went"@),
            RowView::Chart(6, Some(r.at)),
            RowView::Blank,
        ]
    } else {
        Seq::empty()
    };
    let progress = if a.listening && a.finished < a.winrates@.len() {
        seq![
            RowView::Note(
                "looking at move "@ + decimal(a.finished as nat) + " of "@ + decimal(
                    r.positions@.len() as nat,
                ),
                Tone::Accent,
            ),
            RowView::Blank,
        ]
    } else {
        Seq::empty()
    };
    chart + progress + seq![RowView::Section("moves"@)]
}

/// The panel beside the board under review: its top and middle (see `review_head` and
/// `review_middle`), the eight moves up to the one on show, and the status when there is one.
pub open spec fn review_rows_view(r: Review) -> Seq<RowView> {
    review_head(r) + review_middle(r) + move_rows(
        r.plays@,
        r.positions@[0].board.width(),
        r.at as int,
        8,
    ) + note_rows(r.status@, Tone::Dim)
}

/// `a` and then `b`.
fn join_rows(a: &mut Vec<Row>, b: Vec<Row>)
    ensures
        views(final(a)@) == views(old(a)@) + views(b@),
{
    let ghost before = a@;
    let mut b = b;
    let ghost tail = b@;
    a.append(&mut b);
    proof {
        assert(views(a@) =~= views(before) + views(tail));
    }
}

/// Appends `row` to `rows`.
fn push_row(rows: &mut Vec<Row>, row: Row)
    ensures
        views(final(rows)@) == views(old(rows)@).push(row@),
{
    let ghost before = rows@;
    rows.push(row);
    proof {
        assert(views(rows@) =~= views(before).push(row@));
    }
}

/// A name and a value as a panel line.
fn stat_row(label: &str, value: String) -> (r: Row)
    ensures
        r@ == RowView::Stat(label@, value@),
{
    Row::Stat(String::from_str(label), value)
}

/// The lines of the move list: see `move_rows`.
pub fn move_rows_of(plays: &Vec<(Stone, Play)>, size: usize, around: usize, count: usize) -> (r: Vec<
    Row,
>)
    requires
        forall|i: int|
            0 <= i < plays@.len() ==> ((#[trigger] plays@[i]).1 matches Play::Point(p) ==> size > 0
                && p / size <= size),
    ensures
        views(r@) == move_rows(plays@, size as int, around as int, count as int),
{
    let lines = move_list(plays, size, around, count);
    let mut rows: Vec<Row> = Vec::new();
    let mut k: usize = 0;
    let ghost want = move_rows(plays@, size as int, around as int, count as int);
    proof {
        assert(want.len() == lines@.len());
    }
    while k < lines.len()
        invariant
            0 <= k <= lines@.len(),
            want == move_rows(plays@, size as int, around as int, count as int),
            want.len() == lines@.len(),
            forall|j: int| 0 <= j < lines@.len() ==> want[j] == RowView::Move(
                (#[trigger] lines@[j]).0@, lines@[j].1),
            views(rows@) == want.take(k as int),
        decreases lines@.len() - k,
    {
        let text = lines[k].0.clone();
        let on = lines[k].1;
        push_row(&mut rows, Row::Move(text, on));
        proof {
            assert(want.take(k as int + 1) =~= want.take(k as int).push(want[k as int]));
        }
        k += 1;
    }
    proof {
        assert(want.take(lines@.len() as int) =~= want);
    }
    rows
}

/// How many of `w` are known: see `known`.
fn count_known(w: &Vec<Option<u32>>) -> (n: usize)
    ensures
        n == known(w@),
{
    let mut n: usize = 0;
    let mut k: usize = 0;
    while k < w.len()
        invariant
            0 <= k <= w@.len(),
            n == known(w@.take(k as int)),
            n <= k,
        decreases w@.len() - k,
    {
        proof {
            assert(w@.take(k as int + 1).drop_last() =~= w@.take(k as int));
        }
        if w[k].is_some() {
            n += 1;
        }
        k += 1;
    }
    proof {
        assert(w@.take(w@.len() as int) =~= w@);
    }
    n
}

/// A chance in thousandths as a whole percentage: see `percent_view`.
pub fn percent_text(w: u32) -> (r: String)
    ensures
        r@ == percent_view(w),
{
    let mut text = String::new();
    push_decimal(&mut text, (w as u64 + 5) / 10);
    text.append("%");
    text
}

/// The top of the game panel: see `game_head`.
fn game_head_rows(s: &Session) -> (r: Vec<Row>)
    requires
        s.wf(),
    ensures
        views(r@) == game_head(*s),
{
    let g = &s.game;
    let mut rows: Vec<Row> = Vec::new();
    let mut turn = String::from_str(g.turn.name());
    if s.thinking {
        turn.append(" is thinking");
    } else {
        turn.append(" to play");
    }
    push_row(&mut rows, Row::Turn(g.turn, turn));
    push_row(&mut rows, Row::Blank);
    let black_clock = match s.clocks[0] {
        Some(ms) => Some(ms / 1000),
        None => None,
    };
    let white_clock = match s.clocks[1] {
        Some(ms) => Some(ms / 1000),
        None => None,
    };
    push_row(&mut rows, stat_row("clock black", clock_text(black_clock)));
    push_row(&mut rows, stat_row("clock white", clock_text(white_clock)));
    let mut captures = String::new();
    push_decimal(&mut captures, g.captured[0] as u64);
    captures.append(" / ");
    push_decimal(&mut captures, g.captured[1] as u64);
    push_row(&mut rows, stat_row("captures", captures));
    push_row(&mut rows, stat_row("score now", s.score_text()));
    if let Some(w) = s.winrate() {
        push_row(&mut rows, stat_row("black wins", percent_text(w)));
    }
    push_row(&mut rows, Row::Blank);
    proof {
        reveal_strlit(" is thinking");
        reveal_strlit(" to play");
        assert(views(rows@) =~= game_head(*s));
    }
    rows
}

/// The middle of the game panel: see `game_middle`.
fn game_middle_rows(s: &Session) -> (r: Vec<Row>)
    ensures
        views(r@) == game_middle(*s),
{
    let mut rows: Vec<Row> = Vec::new();
    if s.mode == Mode::Engine {
        push_row(&mut rows, stat_row("opponent", s.engine_name.clone()));
        let hints = if s.hints_left == u32::MAX {
            String::from_str("unlimited")
        } else {
            let mut text = String::new();
            push_decimal(&mut text, s.hints_left as u64);
            text
        };
        push_row(&mut rows, stat_row("hints", hints));
    } else {
        push_row(&mut rows, stat_row("mode", String::from_str("two players")));
    }
    let mut number = String::new();
    push_decimal(&mut number, s.game.move_number as u64);
    push_row(&mut rows, stat_row("move", number));
    push_row(&mut rows, Row::Blank);
    if s.show_eval && count_known(&s.winrates) > 1 {
        push_row(&mut rows, Row::Section(String::from_str("how the game went")));
        push_row(&mut rows, Row::Chart(5, None));
        push_row(&mut rows, Row::Blank);
    }
    push_row(&mut rows, Row::Section(String::from_str("last moves")));
    proof {
        assert(views(rows@) =~= game_middle(*s));
    }
    rows
}

/// A note after an empty line, when `text` is not empty: see `note_rows`.
fn note_rows_of(text: &String, tone: Tone) -> (r: Vec<Row>)
    ensures
        views(r@) == note_rows(text@, tone),
{
    let mut rows: Vec<Row> = Vec::new();
    if text.as_str().unicode_len() > 0 {
        push_row(&mut rows, Row::Blank);
        push_row(&mut rows, Row::Note(text.clone(), tone));
    }
    proof {
        assert(views(rows@) =~= note_rows(text@, tone));
    }
    rows
}

/// Moves that all lie on a board `n` points wide, as the move list wants them.
proof fn lemma_moves_fit(plays: Seq<(Stone, Play)>, n: int, len: int)
    requires
        len == n * n,
        n >= 0,
        forall|k: int| 0 <= k < plays.len() ==> ((#[trigger] plays[k]).1 matches Play::Point(p) ==> p < len),
    ensures
        forall|i: int|
            0 <= i < plays.len() ==> ((#[trigger] plays[i]).1 matches Play::Point(p) ==> n > 0
                && (p as int) / n <= n),
{
    assert forall|i: int| 0 <= i < plays.len() implies ((#[trigger] plays[i]).1 matches Play::Point(
        p,
    ) ==> n > 0 && (p as int) / n <= n) by {
        if let Play::Point(p) = plays[i].1 {
            assert(n > 0) by (nonlinear_arith)
                requires
                    p < n * n,
                    n >= 0,
            ;
            assert((p as int) / n <= n) by (nonlinear_arith)
                requires
                    p < n * n,
                    n > 0,
            ;
        }
    }
}

/// The panel beside the board during a game: see `game_rows_view`.
pub fn game_rows(s: &Session) -> (r: Vec<Row>)
    requires
        s.wf(),
    ensures
        views(r@) == game_rows_view(*s),
{
    let mut rows = game_head_rows(s);
    join_rows(&mut rows, game_middle_rows(s));
    proof {
        s.game.board.lemma_wf();
        lemma_moves_fit(s.plays@, s.game.board.width(), s.game.board@.len() as int);
    }
    join_rows(&mut rows, move_rows_of(&s.plays, s.game.size(), s.plays.len(), 6));
    join_rows(&mut rows, note_rows_of(&s.status, Tone::Accent));
    rows
}

/// The move that led to the position on show: see `played_rows`.
fn played_rows_of(r: &Review) -> (rows: Vec<Row>)
    requires
        r.wf(),
    ensures
        views(rows@) == played_rows(*r),
{
    let mut rows: Vec<Row> = Vec::new();
    if r.at > 0 && r.at - 1 < r.plays.len() {
        let (c, p) = r.plays[r.at - 1];
        let size = r.positions[0].size();
        proof {
            r.positions@[0].board.lemma_wf();
            lemma_moves_fit(r.plays@, size as int, r.positions@[0].board@.len() as int);
            assert(r.plays@[r.at - 1] == (c, p));
        }
        let v = r.analysis.verdict(r.at, c);
        let mut text = String::from_str(c.symbol());
        text.append(" ");
        let name = play_name(p, size);
        text.append(name.as_str());
        let mark = match v {
            Some(x) => String::from_str(x.mark()),
            None => String::new(),
        };
        proof {
            reveal_strlit(" ");
            assert(text@ =~= symbol_view(c) + seq![' '] + play_text(p, r.positions@[0].board.width()));
        }
        push_row(&mut rows, Row::Played(c, text, mark));
        if let Some(x) = v {
            push_row(&mut rows, stat_row("engine says", String::from_str(x.name())));
        }
        proof {
            assert(views(rows@) =~= played_rows(*r));
        }
    } else {
        proof {
            assert(views(rows@) =~= played_rows(*r));
        }
    }
    rows
}

/// The top of the review panel: see `review_head`.
fn review_head_rows(r: &Review) -> (rows: Vec<Row>)
    requires
        r.wf(),
    ensures
        views(rows@) == review_head(*r),
{
    let total = r.positions.len() - 1;
    let size = r.positions[0].size();
    let mut counter = String::new();
    push_decimal(&mut counter, r.at as u64);
    counter.append(" of ");
    push_decimal(&mut counter, total as u64);
    let mut rows: Vec<Row> = Vec::new();
    push_row(&mut rows, stat_row("move", counter));
    join_rows(&mut rows, played_rows_of(r));
    if let Some(w) = r.analysis.winrates[r.at] {
        push_row(&mut rows, stat_row("black wins", percent_text(w)));
    }
    proof {
        r.positions@[0].board.lemma_wf();
    }
    if let Some(b) = r.suggestion() {
        proof {
            if let Play::Point(q) = b {
                assert(r.analysis.best@[r.at - 1] == Some(b));
                lemma_moves_fit(seq![(Stone::Empty, b)], size as int, r.positions@[0].board@.len() as int);
                assert(seq![(Stone::Empty, b)][0].1 == b);
            }
        }
        push_row(&mut rows, stat_row("better was", play_name(b, size)));
    }
    push_row(&mut rows, Row::Blank);
    proof {
        assert(views(rows@) =~= review_head(*r));
    }
    rows
}

/// The middle of the review panel: see `review_middle`.
fn review_middle_rows(r: &Review) -> (rows: Vec<Row>)
    requires
        r.wf(),
    ensures
        views(rows@) == review_middle(*r),
{
    let mut rows: Vec<Row> = Vec::new();
    if r.analysis.finished > 1 {
        push_row(&mut rows, Row::Section(String::from_str("how the game went")));
        push_row(&mut rows, Row::Chart(6, Some(r.at)));
        push_row(&mut rows, Row::Blank);
    }
    if r.analysis.running() {
        let mut text = String::from_str("looking at move ");
        push_decimal(&mut text, r.analysis.finished as u64);
        text.append(" of ");
        push_decimal(&mut text, r.positions.len() as u64);
        push_row(&mut rows, Row::Note(text, Tone::Accent));
        push_row(&mut rows, Row::Blank);
    }
    push_row(&mut rows, Row::Section(String::from_str("moves")));
    proof {
        assert(views(rows@) =~= review_middle(*r));
    }
    rows
}

/// The panel beside the board under review: see `review_rows_view`.
pub fn review_rows(r: &Review) -> (rows: Vec<Row>)
    requires
        r.wf(),
    ensures
        views(rows@) == review_rows_view(*r),
{
    let mut rows = review_head_rows(r);
    join_rows(&mut rows, review_middle_rows(r));
    let size = r.positions[0].size();
    proof {
        r.positions@[0].board.lemma_wf();
        lemma_moves_fit(r.plays@, size as int, r.positions@[0].board@.len() as int);
    }
    join_rows(&mut rows, move_rows_of(&r.plays, size, r.at, 8));
    join_rows(&mut rows, note_rows_of(&r.status, Tone::Dim));
    rows
}

/// How many saved games the list shows at most.
pub const LISTED_FILES: usize = 14;

/// What the saved games list says, the names `files` on show with the one at `selected` picked
/// and `message` over them: the first `LISTED_FILES` names and, below them, the message as a
/// warning when there is one; with no saved games, the message and where saved games go.
pub open spec fn browser_rows_view(files: Seq<String>, selected: usize, message: Seq<char>) -> Seq<
    RowView,
> {
    if files.len() == 0 {
        seq![
            RowView::Note(message, Tone::Dim),
            RowView::Blank,
            RowView::Note("games you save with s land in the folder you started from"@, Tone::Dim),
        ]
    } else {
        let shown = if files.len() < LISTED_FILES {
            files.len() as int
        } else {
            LISTED_FILES as int
        };
        Seq::new(shown as nat, |i: int| RowView::File(files[i]@, i == selected)) + if message.len()
            == 0 {
            Seq::empty()
        } else {
            seq![RowView::Blank, RowView::Note(message, Tone::Warning)]
        }
    }
}

/// The lines of the saved games list: see `browser_rows_view`.
pub fn browser_rows(b: &Browser) -> (rows: Vec<Row>)
    ensures
        views(rows@) == browser_rows_view(b.files@, b.selected, b.message@),
{
    let mut rows: Vec<Row> = Vec::new();
    if b.files.len() == 0 {
        rows.push(Row::Note(b.message.clone(), Tone::Dim));
        rows.push(Row::Blank);
        rows.push(
            Row::Note(
                String::from_str("games you save with s land in the folder you started from"),
                Tone::Dim,
            ),
        );
        proof {
            assert(views(rows@) =~= browser_rows_view(b.files@, b.selected, b.message@));
        }
        return rows;
    }
    let shown = if b.files.len() < LISTED_FILES {
        b.files.len()
    } else {
        LISTED_FILES
    };
    let mut k: usize = 0;
    while k < shown
        invariant
            shown <= b.files@.len(),
            k <= shown,
            views(rows@) == Seq::new(k as nat, |i: int| RowView::File(b.files@[i]@, i == b.selected)),
        decreases shown - k,
    {
        let ghost before = rows@;
        let name = b.files[k].clone();
        rows.push(Row::File(name, k == b.selected));
        proof {
            assert(rows@ == before.push(Row::File(b.files@[k as int], k == b.selected)));
            assert(views(rows@) =~= views(before).push(RowView::File(b.files@[k as int]@, k == b.selected)));
            assert(views(rows@) =~= Seq::new(
                (k + 1) as nat,
                |i: int| RowView::File(b.files@[i]@, i == b.selected),
            ));
        }
        k += 1;
    }
    let ghost head = views(rows@);
    if b.message.as_str().unicode_len() > 0 {
        rows.push(Row::Blank);
        rows.push(Row::Note(b.message.clone(), Tone::Warning));
        proof {
            assert(views(rows@) =~= head + seq![RowView::Blank, RowView::Note(b.message@, Tone::Warning)]);
        }
    } else {
        proof {
            assert(head + Seq::<RowView>::empty() =~= head);
        }
    }
    rows
}

/// A chance to win of `w` thousandths as shown, half (500) when none is known.
pub open spec fn shown_rate(winrate: Option<u32>) -> int {
    match winrate {
        Some(w) => w as int,
        None => 500,
    }
}

/// How many of `height` rows a chance of `w` thousandths fills, halves rounded up.
pub open spec fn filled(w: int, height: int) -> int {
    (w * height + 500) / 1000
}

/// How many of `height` rows a chance of `w` thousandths fills: see `filled`.
pub fn filled_rows(w: u32, height: usize) -> (r: u64)
    requires
        height <= 65535,
    ensures
        r == filled(w as int, height as int),
{
    proof {
        assert((w as int) * (height as int) <= 4294967295 * 65535) by (nonlinear_arith)
            requires
                height <= 65535,
                w <= 4294967295,
        ;
    }
    let product = (w as u64) * (height as u64) + 500;
    product / 1000
}

/// What the evaluation bar beside a board `height` rows high shows for Black's chance to win
/// `winrate` (half when none is known): White's chance in whole percent above, the rows filled
/// for Black, and Black's chance in whole percent below, halves rounded up.
pub open spec fn bar_view(winrate: Option<u32>, height: int) -> (int, int, int) {
    let w = shown_rate(winrate);
    (if w >= 1000 {
        0
    } else {
        (1000 - w + 5) / 10
    }, filled(w, height), (w + 5) / 10)
}

/// The numbers of the evaluation bar: see `bar_view`.
pub fn bar_numbers(winrate: Option<u32>, height: usize) -> (r: (u32, u64, u32))
    requires
        height <= 65535,
    ensures
        (r.0 as int, r.1 as int, r.2 as int) == bar_view(winrate, height as int),
{
    let w: u32 = match winrate {
        Some(w) => w,
        None => 500,
    };
    let top: u32 = if w >= 1000 {
        0
    } else {
        (1000 - w + 5) / 10
    };
    let bottom: u32 = ((w as u64 + 5) / 10) as u32;
    (top, filled_rows(w, height), bottom)
}

/// The chart's width for a panel `width` characters wide: from 4 to 30.
pub open spec fn chart_width(width: int) -> int {
    if width > 30 {
        30
    } else if width < 4 {
        4
    } else {
        width
    }
}

/// The position that column `c` of a chart `width` columns wide stands for, of `len` positions.
pub open spec fn column_index(c: int, len: int, width: int) -> int {
    c * len / width
}

/// The chance to win shown in column `c` of a chart `width` columns wide over the chances
/// `w`: that of the position the column stands for when it is known, else the one shown in the
/// column before, half (500) before the first column.
pub open spec fn carried(w: Seq<Option<u32>>, width: int, c: int) -> u32
    decreases c + 1,
{
    if c < 0 {
        500
    } else {
        let i = column_index(c, w.len() as int, width);
        if 0 <= i < w.len() && w[i] is Some {
            w[i].unwrap()
        } else {
            carried(w, width, c - 1)
        }
    }
}

/// Whether column `c` stands for the move on show `at` or one after it.
pub open spec fn past_mark(len: int, width: int, c: int, at: Option<usize>) -> bool {
    match at {
        Some(p) => column_index(c, len, width) >= p,
        None => false,
    }
}

/// The columns of the chart of the chances `w` in a panel `width` characters wide, with the move
/// on show `at` marked: for each column, the chance shown (see `carried`) and whether it is the
/// mark, the first column but the leftmost that stands for `at` or later.
pub open spec fn chart_view(w: Seq<Option<u32>>, width: int, at: Option<usize>) -> Seq<(u32, bool)> {
    let cw = chart_width(width);
    Seq::new(
        cw as nat,
        |c: int|
            (carried(w, cw, c), c > 0 && past_mark(w.len() as int, cw, c, at) && !past_mark(
                w.len() as int,
                cw,
                c - 1,
                at,
            )),
    )
}

/// The columns of the chart of Black's chances to win: see `chart_view`.
pub fn chart_columns(winrates: &Vec<Option<u32>>, width: usize, at: Option<usize>) -> (r: Vec<(u32, bool)>)
    requires
        winrates@.len() * 30 <= usize::MAX,
    ensures
        r@ == chart_view(winrates@, width as int, at),
{
    let cw: usize = if width > 30 {
        30
    } else if width < 4 {
        4
    } else {
        width
    };
    let len = winrates.len();
    let ghost w = winrates@;
    let mut columns: Vec<(u32, bool)> = Vec::new();
    let mut carry: u32 = 500;
    let mut before = false;
    let mut c: usize = 0;
    while c < cw
        invariant
            cw == chart_width(width as int),
            4 <= cw <= 30,
            len == w.len(),
            w == winrates@,
            len * 30 <= usize::MAX,
            c <= cw,
            carry == carried(w, cw as int, c - 1),
            c > 0 ==> before == past_mark(len as int, cw as int, c - 1, at),
            columns@ == chart_view(w, width as int, at).take(c as int),
        decreases cw - c,
    {
        proof {
            assert(c * len <= 30 * len) by (nonlinear_arith)
                requires
                    c <= 30,
            ;
        }
        let index = c * len / cw;
        proof {
            assert(index == column_index(c as int, len as int, cw as int));
        }
        if index < len {
            if let Some(value) = winrates[index] {
                carry = value;
            }
        }
        let past = match at {
            Some(p) => index >= p,
            None => false,
        };
        let marked = c > 0 && past && !before;
        columns.push((carry, marked));
        proof {
            assert(columns@ =~= chart_view(w, width as int, at).take(c as int + 1));
        }
        before = past;
        c += 1;
    }
    proof {
        assert(chart_view(w, width as int, at).take(cw as int) =~= chart_view(w, width as int, at));
    }
    columns
}

} // verus!
