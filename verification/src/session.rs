//! A game being played in the client: the position, the moves so far and the positions they
//! led to, the clocks, hints, the territory shown, and what the client says about it. The
//! client runs the engine and the clock; this is what it decides.
use vstd::prelude::*;
use crate::game::{
    Game, Play, Stone, opposite, owner_of, area, lemma_area_bound, play_name, put_all,
    spots_to_points, handicap_spots, coord_text,
};
use crate::app::{
    Mode, Setup, side_index, side_of, result_text, result_view, score_text, score_view, clock_text,
    clock_view,
};
use crate::sgf::{Record, RecordModel, new_model};
use crate::text::{decimal, push_decimal};

verus! {

/// A game being played: see the module's summary. Clocks hold milliseconds; chances to win
/// are in thousandths. `eval_waiting` tells whether a chance to win is on its way, and
/// `eval_due` whether another must be asked for when it arrives.
pub struct Session {
    pub game: Game,
    pub mode: Mode,
    pub human: Stone,
    pub cursor: usize,
    pub status: String,
    pub plays: Vec<(Stone, Play)>,
    pub positions: Vec<Game>,
    pub winrates: Vec<Option<u32>>,
    pub last: Option<usize>,
    pub clocks: [Option<u64>; 2],
    pub increment: u64,
    pub hints_left: u32,
    pub hint: Option<Play>,
    pub show_territory: bool,
    pub territory: Option<Vec<Option<Stone>>>,
    pub undo_enabled: bool,
    pub show_eval: bool,
    pub thinking: bool,
    pub hint_pending: bool,
    pub engine_name: String,
    pub result: String,
    pub external: bool,
    pub eval_waiting: bool,
    pub eval_due: bool,
}

/// What the client must do after a move, for the session to go on: tell the outside engine of
/// the move, ask for Black's chance to win in a position, and let the engine look for its
/// move.
#[derive(Clone, Copy, PartialEq, Eq, Debug, Structural)]
pub struct Follow {
    pub tell: bool,
    pub ask: Option<usize>,
    pub think: bool,
}

/// Nothing to do.
pub open spec fn idle() -> Follow {
    Follow { tell: false, ask: None, think: false }
}

/// Whether the counters of position `g` stay within what `moves` moves can make of them on a
/// board of `len` points.
pub open spec fn counters_within(g: Game, moves: int, len: int) -> bool {
    &&& g.move_number <= moves
    &&& g.passes <= moves
    &&& g.captured[0] <= moves * len
    &&& g.captured[1] <= moves * len
}

/// The owners shown, when territory is shown: see `owner_of`.
pub open spec fn territory_ok(shown: bool, territory: Option<Vec<Option<Stone>>>, g: Game) -> bool {
    if shown {
        territory matches Some(t) && t@.len() == g.board@.len() && forall|i: int|
            0 <= i < t@.len() ==> t@[i] == owner_of(g.board.width(), g.board@, i)
    } else {
        territory is None
    }
}

impl Session {
    /// The session hangs together: one position more than moves and one chance to win for
    /// each position, all positions on one board that is at least one point wide, the cursor
    /// and the last move on the board, counters within what the moves can make, and the
    /// territory shown for the current position.
    pub open spec fn wf(&self) -> bool {
        let len = self.game.board@.len() as int;
        let n = self.game.board.width();
        &&& self.game.wf()
        &&& 0 < n <= 46340
        &&& 20 * len <= i64::MAX
        &&& self.cursor < len
        &&& self.positions@.len() == self.plays@.len() + 1
        &&& self.winrates@.len() == self.positions@.len()
        &&& forall|k: int|
            0 <= k < self.positions@.len() ==> (#[trigger] self.positions@[k]).wf()
                && self.positions@[k].board.width() == n && counters_within(
                self.positions@[k],
                k,
                len,
            )
        &&& counters_within(self.game, self.plays@.len() as int, len)
        &&& forall|k: int|
            0 <= k < self.plays@.len() ==> ((#[trigger] self.plays@[k]).1 matches Play::Point(p)
                ==> p < len)
        &&& self.last matches Some(p) ==> p < len
        &&& territory_ok(self.show_territory, self.territory, self.game)
    }

    /// Whether the engine is to move: in a game against it that goes on, when it is not the
    /// human's turn.
    pub open spec fn engine_to_move(&self) -> bool {
        self.mode == Mode::Engine && self.game.turn != self.human && !self.game.finished
    }

    /// Whether a person is to move: always between friends, else on the human's turn.
    pub open spec fn human_to_move(&self) -> bool {
        self.mode == Mode::Friend || self.game.turn == self.human
    }

    /// Whether the engine is to move: see `engine_to_move`.
    pub fn engine_turn(&self) -> (r: bool)
        ensures
            r == self.engine_to_move(),
    {
        self.mode == Mode::Engine && self.game.turn != self.human && !self.game.finished
    }

    /// Whether a person is to move: see `human_to_move`.
    pub fn human_turn(&self) -> (r: bool)
        ensures
            r == self.human_to_move(),
    {
        self.mode == Mode::Friend || self.game.turn == self.human
    }

    /// Shows the owners of the current position when territory is shown, nothing otherwise.
    fn refresh_territory(&mut self)
        requires
            old(self).game.wf(),
        ensures
            territory_ok(final(self).show_territory, final(self).territory, final(self).game),
            *final(self) == (Session { territory: final(self).territory, ..*old(self) }),
    {
        self.territory = if self.show_territory {
            Some(self.game.territory())
        } else {
            None
        };
    }
}

/// The name shown for a colour.
pub open spec fn stone_name(s: Stone) -> Seq<char> {
    match s {
        Stone::Black => "Black"@,
        Stone::White => "White"@,
        Stone::Empty => "Nobody"@,
    }
}

/// Black's lead in tenths of a point in position `g`: its area against White's with komi.
pub open spec fn lead_of(g: Game) -> int {
    let n = g.board.width();
    let cells = g.board@;
    10 * area(n, cells, Stone::Black, cells.len() as int) - (g.komi + 10 * area(
        n,
        cells,
        Stone::White,
        cells.len() as int,
    ))
}

/// A clock of `seconds` in milliseconds, stopping at the largest `u64`.
pub open spec fn millis(seconds: u64) -> u64 {
    if seconds * 1000 > u64::MAX {
        u64::MAX
    } else {
        (seconds * 1000) as u64
    }
}

/// A clock of `seconds` in milliseconds: see `millis`.
pub fn to_millis(seconds: u64) -> (r: u64)
    ensures
        r == millis(seconds),
{
    if seconds > u64::MAX / 1000 {
        u64::MAX
    } else {
        seconds * 1000
    }
}

/// An empty board of `len` points.
pub open spec fn empty_cells(len: nat) -> Seq<Stone> {
    Seq::new(len, |i: int| Stone::Empty)
}

impl Session {
    /// This session is a new game from the settings `setup`: see `new`.
    pub open spec fn started(&self, setup: Setup, engine_name: String, external: bool) -> bool {
        &&& self.game.board.width() == setup.board_size
        &&& self.game.board@ == put_all(
            empty_cells((setup.board_size * setup.board_size) as nat),
            spots_to_points(
                setup.board_size as int,
                handicap_spots(setup.board_size as int, setup.handicap as int),
            ),
            Stone::Black,
        )
        &&& self.game.turn == (if setup.handicap > 0 {
            Stone::White
        } else {
            Stone::Black
        })
        &&& self.game.handicap == setup.handicap
        &&& self.game.komi == setup.komi
        &&& self.game.move_number == 0
        &&& self.game.passes == 0
        &&& !self.game.finished
        &&& self.game.winner is None
        &&& self.game.ko is None
        &&& self.game.captured == [0usize, 0usize]
        &&& self.positions@.len() == 1
        &&& self.positions@[0].same_as(&self.game)
        &&& self.winrates@ == seq![None::<u32>]
        &&& self.plays@.len() == 0
        &&& self.mode == setup.mode
        &&& self.human == setup.color
        &&& self.cursor == (setup.board_size / 2) * setup.board_size + setup.board_size / 2
        &&& self.status@.len() == 0
        &&& self.last is None
        &&& self.clocks == (match setup.main_time {
            Some(t) => [Some(millis(t)), Some(millis(t))],
            None => [None::<u64>, None::<u64>],
        })
        &&& self.increment == millis(setup.increment)
        &&& self.hints_left == setup.hints
        &&& self.hint is None
        &&& !self.show_territory
        &&& self.undo_enabled == setup.undo
        &&& self.show_eval == setup.eval
        &&& self.thinking == self.engine_to_move()
        &&& !self.hint_pending
        &&& self.engine_name == engine_name
        &&& self.result@.len() == 0
        &&& self.external == external
        &&& self.eval_waiting == self.show_eval
        &&& !self.eval_due
    }
}

impl Session {
    /// A new game from the settings `setup`: the handicap stones on the board, both clocks at
    /// the main time, the cursor in the middle, no moves yet; `engine_name` names the opponent
    /// and `external` tells whether it is an outside engine. Black's chance to win in the
    /// first position is asked for when the bar is shown, and the engine set thinking when it
    /// moves first.
    pub fn new(setup: &Setup, engine_name: String, external: bool) -> (s: Session)
        requires
            0 < setup.board_size <= 46340,
        ensures
            s.wf(),
            s.started(*setup, engine_name, external),
    {
        let size = setup.board_size;
        proof {
            assert(size * size <= 46340 * 46340) by (nonlinear_arith)
                requires
                    0 < size <= 46340,
            ;
        }
        let mut game = Game::new(size, setup.komi);
        proof {
            assert(game.board@ =~= empty_cells((size * size) as nat));
        }
        if setup.handicap > 0 {
            game.place_handicap(setup.handicap);
        }
        proof {
            assert(game.board@ == put_all(
                empty_cells((size * size) as nat),
                spots_to_points(size as int, handicap_spots(size as int, setup.handicap as int)),
                Stone::Black,
            ));
            game.board.lemma_wf();
            assert((size / 2) * size + size / 2 < size * size) by (nonlinear_arith)
                requires
                    0 < size,
            ;
        }
        let center = game.board.point(size / 2, size / 2);
        let clock = match setup.main_time {
            Some(seconds) => Some(to_millis(seconds)),
            None => None,
        };
        let first = game.clone();
        let mut positions: Vec<Game> = Vec::new();
        positions.push(first);
        let mut winrates: Vec<Option<u32>> = Vec::new();
        winrates.push(None);
        proof {
            assert(winrates@ =~= seq![None::<u32>]);
        }
        let mut s = Session {
            game,
            mode: setup.mode,
            human: setup.color,
            cursor: center,
            status: String::new(),
            plays: Vec::new(),
            positions,
            winrates,
            last: None,
            clocks: [clock, clock],
            increment: to_millis(setup.increment),
            hints_left: setup.hints,
            hint: None,
            show_territory: false,
            territory: None,
            undo_enabled: setup.undo,
            show_eval: setup.eval,
            thinking: false,
            hint_pending: false,
            engine_name,
            result: String::new(),
            external,
            eval_waiting: false,
            eval_due: false,
        };
        s.request_eval();
        if s.engine_turn() {
            s.start_thinking();
        }
        s
    }
}

impl Session {
    /// `next` is this session after `play` by `color` was recorded, before anything follows
    /// from it: see `apply`.
    pub open spec fn recorded(&self, color: Stone, play: Play, next: &Session) -> bool {
        &&& next.wf()
        &&& self.game.after_make(play, &next.game)
        &&& next.plays@ == self.plays@.push((color, play))
        &&& next.positions@.len() == self.positions@.len() + 1
        &&& forall|k: int|
            0 <= k < self.positions@.len() ==> #[trigger] next.positions@[k] == self.positions@[k]
        &&& next.positions@.last().same_as(&next.game)
        &&& next.winrates@ == self.winrates@.push(None)
        &&& next.last == (match play {
            Play::Point(p) => Some(p),
            Play::Pass => None,
        })
        &&& next.hint is None
        &&& next.status@ == (if play == Play::Pass {
            stone_name(color) + " passed"@
        } else {
            Seq::empty()
        })
        &&& next.clocks[side_of(color)] == (match self.clocks[side_of(color)] {
            Some(left) => Some(crate::ai::bumped(left, self.increment)),
            None => None,
        })
        &&& next.clocks[1 - side_of(color)] == self.clocks[1 - side_of(color)]
        &&& next.result@ == (if next.game.finished && self.result@.len() == 0 {
            result_view(lead_of(next.game))
        } else {
            self.result@
        })
        &&& next.mode == self.mode
        &&& next.human == self.human
        &&& next.cursor == self.cursor
        &&& next.increment == self.increment
        &&& next.hints_left == self.hints_left
        &&& next.show_territory == self.show_territory
        &&& next.undo_enabled == self.undo_enabled
        &&& next.show_eval == self.show_eval
        &&& next.thinking == self.thinking
        &&& next.hint_pending == self.hint_pending
        &&& next.engine_name == self.engine_name
        &&& next.external == self.external
        &&& next.eval_waiting == self.eval_waiting
        &&& next.eval_due == self.eval_due
    }

    /// `next` is this session after `play` by `color` was made and `f` is what follows from
    /// it: the move recorded (see `recorded`), then, while the game goes on, Black's chance to
    /// win asked for in the new position (see `eval_requested`) and the engine set thinking
    /// when it is to move.
    pub open spec fn applied(&self, color: Stone, play: Play, next: &Session, f: Follow) -> bool {
        let mid = Session {
            thinking: self.thinking,
            eval_waiting: self.eval_waiting,
            eval_due: self.eval_due,
            ..*next
        };
        &&& self.recorded(color, play, &mid)
        &&& f.tell == (self.external && (self.mode == Mode::Friend || color == self.human))
        &&& mid.eval_requested(&Session { thinking: self.thinking, ..*next }, f.ask)
        &&& f.think == mid.engine_to_move()
        &&& next.thinking == (self.thinking || f.think)
    }

    /// `next` is this session with nothing changed but, maybe, the status: the game is the
    /// same position.
    pub open spec fn kept(&self, next: &Session) -> bool {
        &&& next.wf() == self.wf()
        &&& next.game.same_as(&self.game)
        &&& next.plays == self.plays
        &&& next.positions == self.positions
        &&& next.winrates == self.winrates
        &&& next.last == self.last
        &&& next.hint == self.hint
        &&& next.clocks == self.clocks
        &&& next.result == self.result
        &&& next.mode == self.mode
        &&& next.human == self.human
        &&& next.cursor == self.cursor
        &&& next.increment == self.increment
        &&& next.hints_left == self.hints_left
        &&& next.show_territory == self.show_territory
        &&& next.territory == self.territory
        &&& next.undo_enabled == self.undo_enabled
        &&& next.show_eval == self.show_eval
        &&& next.thinking == self.thinking
        &&& next.hint_pending == self.hint_pending
        &&& next.engine_name == self.engine_name
        &&& next.external == self.external
        &&& next.eval_waiting == self.eval_waiting
        &&& next.eval_due == self.eval_due
    }

    /// Makes move `play` by `color` in the game (see `Game::make` and `recorded`), then, while
    /// the game goes on, asks for Black's chance to win in the new position (see
    /// `request_eval`) and sets the engine thinking when it is to move. Gives what the client
    /// must do: tell the outside engine of the move when there is one and the move is a
    /// person's, ask for the chance to win, let the engine look for its move.
    #[verifier::spinoff_prover]
    #[verifier::rlimit(40)]
    pub fn apply(&mut self, color: Stone, play: Play) -> (f: Follow)
        requires
            old(self).wf(),
            play matches Play::Point(p) ==> p < old(self).game.board@.len(),
            (old(self).plays@.len() + 2) * old(self).game.board@.len() <= usize::MAX,
        ensures
            final(self).wf(),
            old(self).applied(color, play, final(self), f),
    {
        let tell = self.external && (self.mode == Mode::Friend || color == self.human);
        self.note_move(color, play);
        let ghost mid = *self;
        let ask = self.request_eval();
        let ghost asked = *self;
        let think = self.engine_turn();
        if think {
            self.start_thinking();
        }
        proof {
            assert(mid == (Session {
                thinking: old(self).thinking,
                eval_waiting: old(self).eval_waiting,
                eval_due: old(self).eval_due,
                ..*self
            }));
            assert(asked == (Session { thinking: old(self).thinking, ..*self }));
        }
        Follow { tell, ask, think }
    }

    /// Records move `play` by `color` (see `Game::make`): the move and the position it leads
    /// to, forgets the hint and the status, shows the territory afresh, adds the increment to
    /// the mover's clock, says when a player passed, and writes the result when the game is
    /// over.
    fn note_move(&mut self, color: Stone, play: Play)
        requires
            old(self).wf(),
            play matches Play::Point(p) ==> p < old(self).game.board@.len(),
            (old(self).plays@.len() + 2) * old(self).game.board@.len() <= usize::MAX,
        ensures
            old(self).recorded(color, play, final(self)),
    {
        let ghost len = self.game.board@.len() as int;
        let ghost moves = self.plays@.len() as int;
        proof {
            self.game.board.lemma_wf();
            let n = self.game.board.width();
            assert(len >= 1) by (nonlinear_arith)
                requires
                    len == n * n,
                    n > 0,
            ;
            assert(moves + 2 <= (moves + 2) * len) by (nonlinear_arith)
                requires
                    len >= 1,
                    moves >= 0,
            ;
            assert((moves + 1) * len == moves * len + len) by (nonlinear_arith);
            assert((moves + 1) * len <= (moves + 2) * len) by (nonlinear_arith)
                requires
                    len >= 0,
            ;
        }
        self.game.make(play);
        proof {
            self.game.board.lemma_wf();
        }
        self.plays.push((color, play));
        let snapshot = self.game.clone();
        self.positions.push(snapshot);
        self.winrates.push(None);
        self.last = match play {
            Play::Point(p) => Some(p),
            Play::Pass => None,
        };
        self.hint = None;
        self.status = String::new();
        self.refresh_territory();
        let side = side_index(color);
        let bumped_clock = match self.clocks[side] {
            Some(left) => Some(left.saturating_add(self.increment)),
            None => None,
        };
        self.clocks[side] = bumped_clock;
        if play == Play::Pass {
            let mut text = String::from_str(color.name());
            text.append(" passed");
            self.status = text;
        }
        if self.game.finished && self.result.as_str().unicode_len() == 0 {
            proof {
                lemma_area_bound(self.game.board.width(), self.game.board@, Stone::Black, len);
                lemma_area_bound(self.game.board.width(), self.game.board@, Stone::White, len);
            }
            let lead = self.game.lead();
            self.result = result_text(lead);
        }
        proof {
            assert forall|k: int| 0 <= k < self.plays@.len() implies ((#[trigger] self.plays@[k]).1 matches Play::Point(
                p,
            ) ==> p < len) by {
                if k < moves {
                    assert(self.plays@[k] == old(self).plays@[k]);
                }
            }
            assert forall|k: int| 0 <= k < self.positions@.len() implies (#[trigger] self.positions@[k]).wf()
                && self.positions@[k].board.width() == self.game.board.width() && counters_within(
                self.positions@[k],
                k,
                len,
            ) by {
                if k < moves + 1 {
                    assert(self.positions@[k] == old(self).positions@[k]);
                }
            }
        }
    }
}

/// `s4` is session `s0` after one turn of the client's loop, through `s1` after the hint,
/// `m` after the chance to win, `s2` after asking again for it when due, and `s3` after the
/// engine's move; `again` is the position asked about again, `moved` what follows from the
/// engine's move and `r` what the turn gives: see `Session::tick`.
pub open spec fn ticked(
    s0: Session,
    s1: Session,
    m: Session,
    s2: Session,
    s3: Session,
    s4: Session,
    hint: Option<Play>,
    eval: Option<(usize, u32)>,
    arrived: Option<Play>,
    elapsed: u64,
    again: Option<usize>,
    moved: Follow,
    r: Follow,
) -> bool {
    &&& match hint {
        Some(p) => s0.hinted(&s1, p),
        None => s1 == s0,
    }
    &&& match eval {
        Some((i, w)) => s1.evaluated(&m, i, w),
        None => m == s1,
    }
    &&& if eval is Some && s1.eval_due {
        m.eval_requested(&s2, again)
    } else {
        s2 == m && again is None
    }
    &&& match arrived {
        Some(p) => s2.moved_in(&s3, p, moved),
        None => s3 == s2 && moved == idle(),
    }
    &&& s3.clocked(&s4, elapsed)
    &&& again is Some ==> moved.ask is None
    &&& r == Follow {
        ask: if again is Some {
            again
        } else {
            moved.ask
        },
        ..moved
    }
}

/// `s4` is session `s0` after one turn of the client's loop that gave `r`: see `ticked`.
pub open spec fn turned(
    s0: Session,
    s4: Session,
    hint: Option<Play>,
    eval: Option<(usize, u32)>,
    arrived: Option<Play>,
    elapsed: u64,
    r: Follow,
) -> bool {
    exists|s1: Session, m: Session, s2: Session, s3: Session, again: Option<usize>, moved: Follow|
        #[trigger] ticked(s0, s1, m, s2, s3, s4, hint, eval, arrived, elapsed, again, moved, r)
}

impl Session {
    /// `next` is this session after the engine's move `play` arrived, `f` what follows from
    /// it: see `receive_move`.
    pub open spec fn moved_in(&self, next: &Session, play: Play, f: Follow) -> bool {
        Session { thinking: false, ..*self }.applied(self.game.turn, play, next, f)
    }

    /// `next` is this session after hint `play` arrived: see `receive_hint`.
    pub open spec fn hinted(&self, next: &Session, play: Play) -> bool {
        &&& next.status@ == "try "@ + match play {
            Play::Point(p) => coord_text(p as int, self.game.board.width()),
            Play::Pass => seq!['p', 'a', 's', 's'],
        }
        &&& *next == (Session { hint_pending: false, hint: Some(play), status: next.status, ..*self })
    }

    /// `next` is this session after Black's chance to win in position `index` arrived, and
    /// nothing more is on its way: see `receive_eval`.
    pub open spec fn evaluated(&self, next: &Session, index: usize, winrate: u32) -> bool {
        &&& next.winrates@ == (if index < self.winrates@.len() {
            self.winrates@.update(index as int, Some(winrate))
        } else {
            self.winrates@
        })
        &&& *next == (Session {
            winrates: next.winrates,
            eval_waiting: false,
            eval_due: false,
            ..*self
        })
    }

    /// `next` is this session after Black's chance to win was asked for, `ask` the position to
    /// ask about: see `request_eval`.
    pub open spec fn eval_requested(&self, next: &Session, ask: Option<usize>) -> bool {
        let wanted = self.show_eval && !self.game.finished;
        &&& !wanted ==> ask is None && *next == *self
        &&& wanted && self.eval_waiting ==> ask is None && *next == (Session {
            eval_due: true,
            ..*self
        })
        &&& wanted && !self.eval_waiting ==> {
            &&& ask == (if self.winrates@.last() is None {
                Some((self.positions@.len() - 1) as usize)
            } else {
                None
            })
            &&& ask is Some ==> *next == (Session { eval_waiting: true, ..*self })
            &&& ask is None ==> *next == *self
        }
    }

    /// `next` is this session after its clock ran for `elapsed` milliseconds: see `run_clock`.
    pub open spec fn clocked(&self, next: &Session, elapsed: u64) -> bool {
        let side = side_of(self.game.turn);
        let running = !self.game.finished && self.human_to_move() && self.clocks[side] is Some;
        let left = self.clocks[side].unwrap();
        &&& !running ==> *next == *self
        &&& running && elapsed < left ==> {
            &&& next.clocks[side] == Some((left - elapsed) as u64)
            &&& next.clocks[1 - side] == self.clocks[1 - side]
            &&& *next == (Session { clocks: next.clocks, ..*self })
        }
        &&& running && elapsed >= left ==> {
            &&& next.clocks[side] == Some(0u64)
            &&& next.clocks[1 - side] == self.clocks[1 - side]
            &&& next.game == (Game {
                finished: true,
                winner: Some(opposite(self.game.turn)),
                ..self.game
            })
            &&& next.result@ == stone_name(self.game.turn) + " lost on time"@
            &&& *next == (Session {
                clocks: next.clocks,
                game: next.game,
                result: next.result,
                ..*self
            })
        }
    }
}

impl Session {
    /// `next` is this session after a person tried to put a stone on the cursor, `placed` what
    /// follows when the stone was played: see `place`.
    pub open spec fn placing(&self, next: &Session, placed: Option<Follow>) -> bool {
        let ready = self.human_to_move() && !self.thinking && !self.game.finished;
        &&& placed is Some == (ready && self.game.legal_at(self.cursor as int))
        &&& placed matches Some(f) ==> self.applied(self.game.turn, Play::Point(self.cursor), next, f)
        &&& placed is None ==> self.kept(next)
        &&& placed is None ==> next.status@ == (if ready {
            "you cannot play there"@
        } else {
            self.status@
        })
    }

    /// `next` is this session after a person tried to pass, `passed` what follows when the
    /// pass was made: see `pass_turn`.
    pub open spec fn passing(&self, next: &Session, passed: Option<Follow>) -> bool {
        &&& passed is Some == (self.human_to_move() && !self.thinking && !self.game.finished)
        &&& passed matches Some(f) ==> self.applied(self.game.turn, Play::Pass, next, f)
        &&& passed is None ==> *next == *self
    }

    /// `next` is this session after the player gave up: see `resign`.
    pub open spec fn resigning(&self, next: &Session) -> bool {
        let loser = if self.mode == Mode::Friend {
            self.game.turn
        } else {
            self.human
        };
        &&& self.game.finished ==> *next == *self
        &&& !self.game.finished ==> {
            &&& next.game == (Game { finished: true, winner: Some(opposite(loser)), ..self.game })
            &&& next.result@ == stone_name(loser) + " resigned"@
            &&& *next == (Session { game: next.game, result: next.result, ..*self })
        }
    }

    /// `next` is this session after a hint was asked for: see `ask_for_hint`.
    pub open spec fn asking(&self, next: &Session, wanted: bool) -> bool {
        let free = !self.hint_pending && !self.thinking && !self.game.finished;
        &&& wanted == (free && self.hints_left > 0)
        &&& wanted ==> {
            &&& next.hints_left == (if self.hints_left == u32::MAX {
                u32::MAX as int
            } else {
                self.hints_left - 1
            })
            &&& next.status@ == "thinking about a good move"@
            &&& *next == (Session {
                hint_pending: true,
                hints_left: next.hints_left,
                status: next.status,
                ..*self
            })
        }
        &&& !wanted && free ==> next.status@ == "no hints left"@ && *next == (Session {
            status: next.status,
            ..*self
        })
        &&& !free ==> *next == *self
    }

    /// `next` is this session with territory shown or hidden the other way: see
    /// `toggle_territory`.
    pub open spec fn territory_flipped(&self, next: &Session) -> bool {
        &&& *next == (Session {
            show_territory: !self.show_territory,
            territory: next.territory,
            ..*self
        })
        &&& territory_ok(next.show_territory, next.territory, next.game)
    }

    /// `next` is this session with the cursor moved `rows` down and `cols` right, staying on
    /// the board: see `move_cursor`.
    pub open spec fn cursor_moved(&self, next: &Session, rows: int, cols: int) -> bool {
        let n = self.game.board.width();
        let c = self.cursor as int;
        &&& next.cursor == crate::app::clamp_int(c / n + rows, 0, n - 1) * n + crate::app::clamp_int(
            c % n + cols,
            0,
            n - 1,
        )
        &&& *next == (Session { cursor: next.cursor, ..*self })
    }

    /// `next` is this session after moves were taken back, `removed` of them: see `undo`.
    pub open spec fn undoing(&self, next: &Session, removed: usize) -> bool {
        let count = self.positions@.len();
        let kept = count - removed;
        &&& !self.undo_enabled ==> removed == 0 && next.status@ == "undo is switched off"@
            && *next == (Session { status: next.status, ..*self })
        &&& self.undo_enabled && (self.thinking || self.hint_pending || self.plays@.len() == 0)
            ==> removed == 0 && *next == *self
        &&& self.undo_enabled && !self.thinking && !self.hint_pending && self.plays@.len() > 0
            ==> {
            &&& 1 <= removed < count
            &&& self.mode == Mode::Friend ==> removed == 1
            &&& self.mode != Mode::Friend ==> (self.positions@[count - 1 - removed].turn
                == self.human || removed == count - 1)
            &&& self.mode != Mode::Friend ==> forall|i: int|
                count - 1 - removed < i < count - 1 ==> (#[trigger] self.positions@[i]).turn
                    != self.human
            &&& next.plays@ == self.plays@.take(kept - 1)
            &&& next.positions@ == self.positions@.take(kept)
            &&& next.winrates@ == self.winrates@.take(kept)
            &&& next.game.same_as(&self.positions@[kept - 1])
            &&& next.last == last_point(next.plays@)
            &&& next.hint is None
            &&& next.result@.len() == 0
            &&& next.status@ == "took the move back"@
            &&& territory_ok(next.show_territory, next.territory, next.game)
            &&& next.cursor == self.cursor
            &&& next.clocks == self.clocks
            &&& next.mode == self.mode
            &&& next.human == self.human
            &&& next.increment == self.increment
            &&& next.hints_left == self.hints_left
            &&& next.show_territory == self.show_territory
            &&& next.undo_enabled == self.undo_enabled
            &&& next.show_eval == self.show_eval
            &&& next.thinking == self.thinking
            &&& next.hint_pending == self.hint_pending
            &&& next.engine_name == self.engine_name
            &&& next.external == self.external
            &&& next.eval_waiting == self.eval_waiting
            &&& next.eval_due == self.eval_due
        }
    }
}

impl Session {
    /// A person's stone on the cursor, when it is a person's turn, the engine is not thinking,
    /// the game goes on and the stone is legal there (see `apply`); when only legality fails,
    /// the status says so. Gives what follows from the stone, when it was played.
    pub fn place(&mut self) -> (placed: Option<Follow>)
        requires
            old(self).wf(),
            (old(self).plays@.len() + 2) * old(self).game.board@.len() <= usize::MAX,
        ensures
            old(self).placing(final(self), placed),
    {
        if !self.human_turn() || self.thinking || self.game.finished {
            return None;
        }
        let point = self.cursor;
        if !self.game.legal(point) {
            self.status = String::from_str("you cannot play there");
            return None;
        }
        let color = self.game.turn;
        Some(self.apply(color, Play::Point(point)))
    }

    /// A person's pass, when it is a person's turn, the engine is not thinking and the game
    /// goes on (see `apply`). Gives what follows from the pass, when it was made.
    pub fn pass_turn(&mut self) -> (passed: Option<Follow>)
        requires
            old(self).wf(),
            (old(self).plays@.len() + 2) * old(self).game.board@.len() <= usize::MAX,
        ensures
            old(self).passing(final(self), passed),
    {
        if !self.human_turn() || self.thinking || self.game.finished {
            return None;
        }
        let color = self.game.turn;
        Some(self.apply(color, Play::Pass))
    }

    /// The engine's move arrives: it stops thinking and the move is made for the colour to
    /// move (see `apply`). Gives what follows from it.
    pub fn receive_move(&mut self, play: Play) -> (f: Follow)
        requires
            old(self).wf(),
            play matches Play::Point(p) ==> p < old(self).game.board@.len(),
            (old(self).plays@.len() + 2) * old(self).game.board@.len() <= usize::MAX,
        ensures
            final(self).wf(),
            old(self).moved_in(final(self), play, f),
    {
        self.thinking = false;
        let color = self.game.turn;
        self.apply(color, play)
    }

    /// `loser` gives up or runs out of time: the game is over and the result says why.
    fn give_up(&mut self, loser: Stone, why: &str)
        requires
            old(self).wf(),
        ensures
            final(self).wf(),
            final(self).game == (Game { finished: true, winner: Some(opposite(loser)), ..old(self).game }),
            final(self).result@ == stone_name(loser) + why@,
            *final(self) == (Session { game: final(self).game, result: final(self).result, ..*old(self) }),
    {
        self.game.resign(loser);
        let mut text = String::from_str(loser.name());
        text.append(why);
        self.result = text;
    }

    /// The player gives up: between friends the one to move, else the human; nothing happens
    /// once the game is over.
    pub fn resign(&mut self)
        requires
            old(self).wf(),
        ensures
            final(self).wf(),
            old(self).resigning(final(self)),
    {
        if self.game.finished {
            return;
        }
        let loser = if self.mode == Mode::Friend {
            self.game.turn
        } else {
            self.human
        };
        self.give_up(loser, " resigned");
    }

    /// Runs the clock of the person to move for `elapsed` milliseconds while the game goes on;
    /// when it runs out, it stops at zero and that player loses on time.
    pub fn run_clock(&mut self, elapsed: u64)
        requires
            old(self).wf(),
        ensures
            final(self).wf(),
            old(self).clocked(final(self), elapsed),
    {
        if self.game.finished || !self.human_turn() {
            return;
        }
        let side = side_index(self.game.turn);
        match self.clocks[side] {
            None => {},
            Some(left) => {
                if left <= elapsed {
                    self.clocks[side] = Some(0);
                    let loser = self.game.turn;
                    self.give_up(loser, " lost on time");
                } else {
                    self.clocks[side] = Some(left - elapsed);
                }
            },
        }
    }

    /// Says how saving the game went: the name it was saved under, or what went wrong.
    pub fn note_saved(&mut self, outcome: Result<String, String>)
        requires
            old(self).wf(),
        ensures
            final(self).wf(),
            final(self).status@ == match outcome {
                Ok(name) => "saved as "@ + name@,
                Err(problem) => "could not save: "@ + problem@,
            },
            *final(self) == (Session { status: final(self).status, ..*old(self) }),
    {
        let text = match outcome {
            Ok(name) => {
                let mut text = String::from_str("saved as ");
                text.append(name.as_str());
                text
            },
            Err(problem) => {
                let mut text = String::from_str("could not save: ");
                text.append(problem.as_str());
                text
            },
        };
        self.status = text;
    }

    /// The engine starts looking for its move: the session says it is thinking until the move
    /// arrives (see `receive_move`).
    pub fn start_thinking(&mut self)
        requires
            old(self).wf(),
        ensures
            final(self).wf(),
            *final(self) == (Session { thinking: true, ..*old(self) }),
    {
        self.thinking = true;
    }

    /// Asks for a hint, when none is on its way, the engine is not thinking and the game goes
    /// on: uses one hint (unless they are unlimited) and says the engine is thinking; with no
    /// hints left, says so. Gives whether a hint must be looked for.
    pub fn ask_for_hint(&mut self) -> (wanted: bool)
        requires
            old(self).wf(),
        ensures
            final(self).wf(),
            old(self).asking(final(self), wanted),
    {
        if self.hint_pending || self.thinking || self.game.finished {
            return false;
        }
        if self.hints_left == 0 {
            self.status = String::from_str("no hints left");
            return false;
        }
        if self.hints_left != u32::MAX {
            self.hints_left = self.hints_left - 1;
        }
        self.hint_pending = true;
        self.status = String::from_str("thinking about a good move");
        true
    }

    /// A hint arrives: it is shown on the board and the status names it.
    pub fn receive_hint(&mut self, play: Play)
        requires
            old(self).wf(),
            play matches Play::Point(p) ==> p < old(self).game.board@.len(),
        ensures
            final(self).wf(),
            old(self).hinted(final(self), play),
    {
        let size = self.game.size();
        proof {
            self.game.board.lemma_wf();
            if let Play::Point(p) = play {
                assert(p / size < size) by (nonlinear_arith)
                    requires
                        p < size * size,
                        size > 0,
                ;
            }
        }
        let name = play_name(play, size);
        let mut text = String::from_str("try ");
        text.append(name.as_str());
        self.hint_pending = false;
        self.hint = Some(play);
        self.status = text;
    }

    /// Black's chance to win in position `index` arrives, in thousandths; an index past the
    /// last position is ignored. Gives whether another must be asked for now (see
    /// `request_eval`).
    pub fn receive_eval(&mut self, index: usize, winrate: u32) -> (again: bool)
        requires
            old(self).wf(),
        ensures
            final(self).wf(),
            old(self).evaluated(final(self), index, winrate),
            again == old(self).eval_due,
    {
        if index < self.winrates.len() {
            self.winrates.set(index, Some(winrate));
        }
        let again = self.eval_due;
        self.eval_waiting = false;
        self.eval_due = false;
        again
    }

    /// Asks for Black's chance to win in the last position, when the bar is shown and the game
    /// goes on: when one is already on its way, it is asked for again once that arrives;
    /// otherwise gives the position to ask about, when its chance is not known yet (see
    /// `eval_wanted`).
    pub fn request_eval(&mut self) -> (ask: Option<usize>)
        requires
            old(self).wf(),
        ensures
            final(self).wf(),
            old(self).eval_requested(final(self), ask),
    {
        if !self.show_eval || self.game.finished {
            return None;
        }
        if self.eval_waiting {
            self.eval_due = true;
            return None;
        }
        let ask = self.eval_wanted();
        if ask.is_some() {
            self.eval_waiting = true;
        }
        ask
    }

    /// Which position's chance to win should be asked for: the last one, when the bar is shown,
    /// the game goes on and it is not known yet.
    pub fn eval_wanted(&self) -> (r: Option<usize>)
        requires
            self.wf(),
        ensures
            r == (if self.show_eval && !self.game.finished && self.winrates@.last() is None {
                Some((self.positions@.len() - 1) as usize)
            } else {
                None
            }),
    {
        if !self.show_eval || self.game.finished {
            return None;
        }
        let index = self.positions.len() - 1;
        if self.winrates[index].is_some() {
            return None;
        }
        Some(index)
    }

    /// Shows or hides the evaluation bar.
    pub fn toggle_eval(&mut self)
        requires
            old(self).wf(),
        ensures
            final(self).wf(),
            *final(self) == (Session { show_eval: !old(self).show_eval, ..*old(self) }),
    {
        self.show_eval = !self.show_eval;
    }

    /// Shows or hides who owns what.
    pub fn toggle_territory(&mut self)
        requires
            old(self).wf(),
        ensures
            final(self).wf(),
            old(self).territory_flipped(final(self)),
    {
        self.show_territory = !self.show_territory;
        self.refresh_territory();
    }

    /// Moves the cursor `rows` down and `cols` right, staying on the board.
    pub fn move_cursor(&mut self, rows: i32, cols: i32)
        requires
            old(self).wf(),
            i32::MIN <= (old(self).cursor as int) / old(self).game.board.width() + rows <= i32::MAX,
            i32::MIN <= (old(self).cursor as int) % old(self).game.board.width() + cols <= i32::MAX,
        ensures
            final(self).wf(),
            old(self).cursor_moved(final(self), rows as int, cols as int),
    {
        let size = self.game.size();
        proof {
            self.game.board.lemma_wf();
            assert(self.cursor / size < size) by (nonlinear_arith)
                requires
                    self.cursor < size * size,
                    size > 0,
            ;
        }
        self.cursor = crate::app::move_cursor(size, self.cursor, rows, cols);
    }

    /// One turn of the client's loop: takes in the hint, Black's chance to win and the
    /// engine's move that arrived, in that order (see `receive_hint`, `receive_eval` and
    /// `receive_move`), asking again for the chance to win when that is due (see
    /// `request_eval`), then runs the clock for `elapsed` milliseconds (see `run_clock`). Gives
    /// what the client must do: what follows from the engine's move, with the position whose
    /// chance to win to ask about, if any.
    pub fn tick(
        &mut self,
        hint: Option<Play>,
        eval: Option<(usize, u32)>,
        arrived: Option<Play>,
        elapsed: u64,
    ) -> (r: Follow)
        requires
            old(self).wf(),
            hint matches Some(Play::Point(p)) ==> p < old(self).game.board@.len(),
            arrived matches Some(Play::Point(p)) ==> p < old(self).game.board@.len(),
            (old(self).plays@.len() + 2) * old(self).game.board@.len() <= usize::MAX,
        ensures
            final(self).wf(),
            turned(*old(self), *final(self), hint, eval, arrived, elapsed, r),
    {
        let ghost start = *self;
        if let Some(play) = hint {
            self.receive_hint(play);
        }
        let ghost a = *self;
        let mut ask: Option<usize> = None;
        let mut again = false;
        if let Some((index, winrate)) = eval {
            again = self.receive_eval(index, winrate);
        }
        let ghost m = *self;
        if again {
            ask = self.request_eval();
        }
        let ghost b = *self;
        let moved = match arrived {
            Some(play) => self.receive_move(play),
            None => Follow { tell: false, ask: None, think: false },
        };
        let ghost c = *self;
        self.run_clock(elapsed);
        let r = Follow {
            ask: if ask.is_some() {
                ask
            } else {
                moved.ask
            },
            ..moved
        };
        proof {
            assert(ticked(start, a, m, b, c, *self, hint, eval, arrived, elapsed, ask, moved, r));
            assert(turned(start, *self, hint, eval, arrived, elapsed, r));
        }
        r
    }

    /// Black's latest known chance to win, in thousandths: see `latest`.
    pub fn winrate(&self) -> (r: Option<u32>)
        ensures
            r == latest(self.winrates@),
    {
        let mut k = self.winrates.len();
        proof {
            assert(self.winrates@.take(k as int) =~= self.winrates@);
        }
        while k > 0
            invariant
                0 <= k <= self.winrates@.len(),
                latest(self.winrates@) == latest(self.winrates@.take(k as int)),
            decreases k,
        {
            proof {
                assert(self.winrates@.take(k as int).drop_last() =~= self.winrates@.take(
                    k - 1,
                ));
            }
            if let Some(w) = self.winrates[k - 1] {
                return Some(w);
            }
            k -= 1;
        }
        None
    }

    /// What the clock of `color` shows: minutes and seconds left (see `clock_view`).
    pub fn clock_text(&self, color: Stone) -> (r: String)
        ensures
            r@ == clock_view(match self.clocks[side_of(color)] {
                Some(ms) => Some((ms / 1000) as u64),
                None => None,
            }),
    {
        let side = side_index(color);
        let seconds = match self.clocks[side] {
            Some(ms) => Some(ms / 1000),
            None => None,
        };
        clock_text(seconds)
    }

    /// The score as shown during the game: see `score_view`.
    pub fn score_text(&self) -> (r: String)
        requires
            self.wf(),
        ensures
            r@ == score_view(lead_of(self.game)),
    {
        proof {
            let len = self.game.board@.len() as int;
            lemma_area_bound(self.game.board.width(), self.game.board@, Stone::Black, len);
            lemma_area_bound(self.game.board.width(), self.game.board@, Stone::White, len);
        }
        score_text(self.game.lead())
    }
}

/// The name a game on a board `size` wide is saved under at time `stamp` (in seconds):
/// `go-`, the size, a dash, the time and `.sgf`.
pub fn save_name(size: usize, stamp: u64) -> (r: String)
    ensures
        r@ == "go-"@ + decimal(size as nat) + "-"@ + decimal(stamp as nat) + ".sgf"@,
{
    let mut name = String::from_str("go-");
    push_decimal(&mut name, size as u64);
    name.append("-");
    push_decimal(&mut name, stamp);
    name.append(".sgf");
    name
}

/// The last chance to win known in `w`, if any.
pub open spec fn latest(w: Seq<Option<u32>>) -> Option<u32>
    decreases w.len(),
{
    if w.len() == 0 {
        None
    } else if w.last() is Some {
        w.last()
    } else {
        latest(w.drop_last())
    }
}

/// A copy of the moves `plays`.
pub fn copy_plays(plays: &Vec<(Stone, Play)>) -> (r: Vec<(Stone, Play)>)
    ensures
        r@ == plays@,
{
    let mut copy: Vec<(Stone, Play)> = Vec::new();
    let mut k: usize = 0;
    while k < plays.len()
        invariant
            0 <= k <= plays@.len(),
            copy@ == plays@.take(k as int),
        decreases plays@.len() - k,
    {
        copy.push(plays[k]);
        proof {
            assert(plays@.take(k as int + 1) =~= plays@.take(k as int).push(plays@[k as int]));
        }
        k += 1;
    }
    proof {
        assert(plays@.take(plays@.len() as int) =~= plays@);
    }
    copy
}

/// The move that led to the last position, when it put a stone.
pub open spec fn last_point(plays: Seq<(Stone, Play)>) -> Option<usize> {
    if plays.len() == 0 {
        None
    } else {
        match plays.last().1 {
            Play::Point(p) => Some(p),
            Play::Pass => None,
        }
    }
}

impl Session {
    /// Takes moves back, when undo is switched on, nothing is on its way from the engine and a
    /// move was made: back to the last position where the human is to move (one move between
    /// friends, see `undo_steps`); the last move shown, the hint and the result go with them.
    /// Gives how many moves were taken back, so that an outside engine takes them back too.
    pub fn undo(&mut self) -> (removed: usize)
        requires
            old(self).wf(),
        ensures
            final(self).wf(),
            old(self).undoing(final(self), removed),
    {
        if !self.undo_enabled {
            self.status = String::from_str("undo is switched off");
            return 0;
        }
        if self.thinking || self.hint_pending || self.plays.len() == 0 {
            return 0;
        }
        let count = self.positions.len();
        let mut turns: Vec<Stone> = Vec::new();
        let mut k: usize = 0;
        while k < count
            invariant
                count == self.positions@.len(),
                0 <= k <= count,
                turns@.len() == k,
                forall|j: int| 0 <= j < k ==> turns@[j] == (#[trigger] self.positions@[j]).turn,
            decreases count - k,
        {
            turns.push(self.positions[k].turn);
            k += 1;
        }
        let removed = crate::app::undo_steps(&turns, self.mode == Mode::Friend, self.human);
        proof {
            let h = self.human;
            assert forall|i: int|
                count - 1 - removed < i < count - 1 && self.mode != Mode::Friend implies (
                #[trigger] self.positions@[i]).turn != h by {
                assert(turns@[i] != h);
            }
        }
        let kept = count - removed;
        let ghost old_plays = self.plays@;
        let ghost old_positions = self.positions@;
        let ghost old_winrates = self.winrates@;
        let mut r: usize = 0;
        while r < removed
            invariant
                0 <= r <= removed,
                removed < count,
                kept == count - removed,
                count == old_positions.len(),
                old_positions.len() == old_plays.len() + 1,
                old_winrates.len() == old_positions.len(),
                self.plays@ == old_plays.take(old_plays.len() - r),
                self.positions@ == old_positions.take(count - r),
                self.winrates@ == old_winrates.take(count - r),
                self.cursor == old(self).cursor,
                self.game == old(self).game,
                self.show_territory == old(self).show_territory,
                self.clocks == old(self).clocks,
                self.mode == old(self).mode,
                self.human == old(self).human,
                self.increment == old(self).increment,
                self.hints_left == old(self).hints_left,
                self.undo_enabled == old(self).undo_enabled,
                self.show_eval == old(self).show_eval,
                self.thinking == old(self).thinking,
                self.hint_pending == old(self).hint_pending,
                self.engine_name == old(self).engine_name,
                self.external == old(self).external,
                self.eval_waiting == old(self).eval_waiting,
                self.eval_due == old(self).eval_due,
            decreases removed - r,
        {
            self.plays.pop();
            self.positions.pop();
            self.winrates.pop();
            proof {
                assert(old_plays.take(old_plays.len() - r).drop_last() =~= old_plays.take(
                    old_plays.len() - r - 1,
                ));
                assert(old_positions.take(count - r).drop_last() =~= old_positions.take(
                    count - r - 1,
                ));
                assert(old_winrates.take(count - r).drop_last() =~= old_winrates.take(
                    count - r - 1,
                ));
            }
            r += 1;
        }
        let restored = self.positions[kept - 1].clone();
        self.game = restored;
        self.last = if self.plays.len() == 0 {
            None
        } else {
            match self.plays[self.plays.len() - 1].1 {
                Play::Point(p) => Some(p),
                Play::Pass => None,
            }
        };
        self.hint = None;
        self.result = String::new();
        self.status = String::from_str("took the move back");
        proof {
            assert(self.positions@[kept - 1] == old_positions[kept - 1]);
            old_positions[kept - 1].board.lemma_wf();
            old(self).game.board.lemma_wf();
            self.game.board.lemma_wf();
        }
        self.refresh_territory();
        proof {
            let len = self.game.board@.len() as int;
            assert(self.game.board@.len() == old(self).game.board@.len());
            assert forall|j: int| 0 <= j < self.positions@.len() implies (#[trigger] self.positions@[j]).wf()
                && self.positions@[j].board.width() == self.game.board.width() && counters_within(
                self.positions@[j],
                j,
                len,
            ) by {
                assert(self.positions@[j] == old_positions[j]);
            }
            assert forall|j: int| 0 <= j < self.plays@.len() implies ((#[trigger] self.plays@[j]).1 matches Play::Point(
                p,
            ) ==> p < len) by {
                assert(self.plays@[j] == old_plays[j]);
            }
            if self.plays@.len() > 0 {
                assert(self.plays@.last() == self.plays@[self.plays@.len() - 1]);
            }
            assert(self.game.wf());
            assert(self.cursor < len);
            assert(self.positions@.len() == self.plays@.len() + 1);
            assert(self.winrates@.len() == self.positions@.len());
            assert(counters_within(self.positions@[kept - 1], kept - 1, len));
            assert(counters_within(self.game, self.plays@.len() as int, len));
            assert(self.last matches Some(p) ==> p < len);
            assert(territory_ok(self.show_territory, self.territory, self.game));
        }
        removed
    }

    /// The game as a record to save: board size, komi, the moves, the handicap stones, the
    /// result, and the players' names, the engine's name for the engine's colour.
    pub fn record(&self) -> (r: Record)
        requires
            self.wf(),
        ensures
            r@ == (RecordModel {
                black_name: if self.mode != Mode::Friend && self.human != Stone::Black {
                    self.engine_name@
                } else {
                    "Black"@
                },
                white_name: if self.mode != Mode::Friend && self.human == Stone::Black {
                    self.engine_name@
                } else {
                    "White"@
                },
                result: self.result@,
                setup_black: crate::game::spots_to_points(
                    self.positions@[0].board.width(),
                    handicap_spots(self.positions@[0].board.width(), self.game.handicap as int),
                ),
                plays: self.plays@,
                ..new_model(self.game.board.width(), self.game.komi as int)
            }),
    {
        let mut record = Record::new(self.game.size(), self.game.komi);
        record.plays = copy_plays(&self.plays);
        record.setup_black = self.positions[0].handicap_points(self.game.handicap);
        record.result = self.result.clone();
        if self.mode == Mode::Friend {
            record.black_name = String::from_str("Black");
            record.white_name = String::from_str("White");
        } else if self.human == Stone::Black {
            record.white_name = self.engine_name.clone();
        } else {
            record.black_name = self.engine_name.clone();
        }
        record
    }
}

} // verus!
