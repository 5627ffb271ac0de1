//! Going through a game move by move: the positions, the move on show, and what the engine
//! found about each position.
use vstd::prelude::*;
use crate::game::{Game, Play, Stone};
use crate::analysis::{Analysis, taken_all};
use crate::app::{clamp_int, moved_within};
use crate::sgf::{RecordModel, read, read_model, positions, is_setup_position, ready_for};
use crate::record_laws::lemma_read_on_board;
use crate::session::{Session, copy_plays};
use crate::text::{decimal, push_decimal};

verus! {

/// A game gone through move by move: its positions and moves, the position on show, what the
/// engine found, a title, whether territory is shown, and a status line.
pub struct Review {
    pub positions: Vec<Game>,
    pub plays: Vec<(Stone, Play)>,
    pub at: usize,
    pub analysis: Analysis,
    pub title: String,
    pub show_territory: bool,
    pub status: String,
}

/// The analysis of a game of `length` positions of which nothing is known yet.
pub open spec fn fresh(a: Analysis, length: nat) -> bool {
    &&& a.winrates@ == Seq::new(length, |i: int| None::<u32>)
    &&& a.best@ == Seq::new(length, |i: int| None::<Play>)
    &&& a.finished == 0
}

/// Whether a record read from text fits the machine: one position for each move and one more,
/// each as many points as the board.
pub open spec fn fits(m: RecordModel) -> bool {
    (m.plays.len() + 1) * (m.size * m.size) <= usize::MAX
}

/// Whether every move found in `best` is on a board of `len` points.
pub open spec fn moves_fit(best: Seq<Option<Play>>, len: int) -> bool {
    forall|k: int| 0 <= k < best.len() ==> ((#[trigger] best[k]) matches Some(Play::Point(q)) ==> q < len)
}

/// Whether every move in `steps` is on a board of `len` points.
pub open spec fn steps_fit(steps: Seq<(usize, u32, Play)>, len: int) -> bool {
    forall|k: int| 0 <= k < steps.len() ==> ((#[trigger] steps[k]).2 matches Play::Point(q) ==> q < len)
}

/// Taking in steps keeps the lengths, and keeps the moves found on the board when the steps'
/// moves are.
pub proof fn lemma_taken_fit(
    w: Seq<Option<u32>>,
    b: Seq<Option<Play>>,
    f: int,
    steps: Seq<(usize, u32, Play)>,
    len: int,
)
    requires
        moves_fit(b, len),
        steps_fit(steps, len),
    ensures
        taken_all(w, b, f, steps).0.len() == w.len(),
        taken_all(w, b, f, steps).1.len() == b.len(),
        moves_fit(taken_all(w, b, f, steps).1, len),
    decreases steps.len(),
{
    if steps.len() > 0 {
        let rest = steps.drop_last();
        assert forall|k: int| 0 <= k < rest.len() implies ((#[trigger] rest[k]).2 matches Play::Point(
            q,
        ) ==> q < len) by {
            assert(rest[k] == steps[k]);
        }
        lemma_taken_fit(w, b, f, rest, len);
        let t = taken_all(w, b, f, rest);
        let s = steps.last();
        assert(steps[steps.len() - 1] == s);
        if s.0 < t.0.len() && s.0 < t.1.len() {
            let nb = t.1.update(s.0 as int, Some(s.2));
            assert forall|k: int| 0 <= k < nb.len() implies ((#[trigger] nb[k]) matches Some(
                Play::Point(q),
            ) ==> q < len) by {
                if k != s.0 {
                    assert(nb[k] == t.1[k]);
                }
            }
        }
    }
}

impl Review {
    /// `next` is this review after the engine's run was started or stopped, `budget` the time
    /// to spend on each position when it started: see `analyse`.
    pub open spec fn analysed(&self, next: &Review, budget: Option<u64>) -> bool {
        let a = self.analysis;
        let running = a.listening && a.finished < a.winrates@.len();
        &&& running ==> budget is None && next.status@ == "analysis stopped"@ && *next == (Review {
            analysis: Analysis { listening: false, ..a },
            status: next.status,
            ..*self
        })
        &&& !running ==> {
            &&& budget == Some(
                if self.positions@[0].board.width() >= 19 {
                    1200u64
                } else {
                    600u64
                },
            )
            &&& next.status@ == "going through the game"@
            &&& fresh(next.analysis, self.positions@.len())
            &&& next.analysis.listening
            &&& *next == (Review { analysis: next.analysis, status: next.status, ..*self })
        }
    }
}

impl Review {
    /// The review hangs together: at least one position, all of them sound, the one on show
    /// among them, one chance to win and one engine move for each position, and every move
    /// played or found on the board.
    pub open spec fn wf(&self) -> bool {
        &&& self.positions@.len() > 0
        &&& self.at < self.positions@.len()
        &&& forall|k: int| 0 <= k < self.positions@.len() ==> (#[trigger] self.positions@[k]).wf()
        &&& self.analysis.winrates@.len() == self.positions@.len()
        &&& self.analysis.best@.len() == self.positions@.len()
        &&& forall|k: int|
            0 <= k < self.plays@.len() ==> ((#[trigger] self.plays@[k]).1 matches Play::Point(p)
                ==> p < self.positions@[0].board@.len())
        &&& moves_fit(self.analysis.best@, self.positions@[0].board@.len() as int)
    }

    /// A review of `positions` and `plays` under `title`, on the last position, with nothing
    /// known of it yet.
    pub fn new(positions: Vec<Game>, plays: Vec<(Stone, Play)>, title: String) -> (r: Review)
        ensures
            r.positions@ == positions@,
            r.plays@ == plays@,
            r.at == (if positions@.len() == 0 {
                0
            } else {
                positions@.len() - 1
            }),
            fresh(r.analysis, positions@.len()),
            !r.analysis.listening,
            r.title@ == title@,
            !r.show_territory,
            r.status@ == "press a to let the engine go through the game"@,
    {
        let length = positions.len();
        let at = if length == 0 {
            0
        } else {
            length - 1
        };
        Review {
            positions,
            plays,
            at,
            analysis: Analysis::idle(length),
            title,
            show_territory: false,
            status: String::from_str("press a to let the engine go through the game"),
        }
    }

    /// The position on show: the one at `at`, or the last one when `at` is past the end.
    pub fn game(&self) -> (g: &Game)
        requires
            self.positions@.len() > 0,
        ensures
            *g == self.positions@[if self.at < self.positions@.len() {
                self.at as int
            } else {
                self.positions@.len() - 1
            }],
    {
        let length = self.positions.len();
        if self.at < length {
            &self.positions[self.at]
        } else {
            &self.positions[length - 1]
        }
    }

    /// Moves `delta` positions on (back when negative), staying within the game.
    pub fn step(&mut self, delta: i32)
        requires
            old(self).positions@.len() > 0,
            old(self).positions@.len() - 1 <= i32::MAX,
            old(self).at <= i32::MAX,
            i32::MIN <= old(self).at + delta <= i32::MAX,
        ensures
            final(self).at == clamp_int(old(self).at + delta, 0, old(self).positions@.len() - 1),
            *final(self) == (Review { at: final(self).at, ..*old(self) }),
    {
        let last = (self.positions.len() - 1) as i32;
        self.at = moved_within(self.at, delta, last);
    }

    /// Starts the engine going through the game, or stops it when it is going: gives the time
    /// to spend on each position, in milliseconds, when a run starts (more on big boards), and
    /// nothing when a run stops. A new run forgets what the last one found.
    pub fn analyse(&mut self) -> (budget: Option<u64>)
        requires
            old(self).positions@.len() > 0,
        ensures
            old(self).analysed(final(self), budget),
    {
        if self.analysis.running() {
            self.analysis.cancel();
            self.status = String::from_str("analysis stopped");
            return None;
        }
        let per_move: u64 = if self.positions[0].size() >= 19 {
            1200
        } else {
            600
        };
        self.analysis = Analysis::start(self.positions.len());
        self.status = String::from_str("going through the game");
        Some(per_move)
    }

    /// Takes in the results that arrived from the engine (see `Analysis::collect`).
    pub fn tick(&mut self, steps: &Vec<(usize, u32, Play)>)
        requires
            old(self).wf(),
            old(self).analysis.finished + steps@.len() <= usize::MAX,
            steps_fit(steps@, old(self).positions@[0].board@.len() as int),
        ensures
            final(self).wf(),
            (final(self).analysis.winrates@, final(self).analysis.best@,
                final(self).analysis.finished as int) == taken_all(
                old(self).analysis.winrates@,
                old(self).analysis.best@,
                old(self).analysis.finished as int,
                steps@,
            ),
            final(self).analysis.listening == old(self).analysis.listening,
            final(self).positions == old(self).positions,
            final(self).plays == old(self).plays,
            final(self).at == old(self).at,
            final(self).title == old(self).title,
            final(self).show_territory == old(self).show_territory,
            final(self).status == old(self).status,
    {
        proof {
            lemma_taken_fit(
                self.analysis.winrates@,
                self.analysis.best@,
                self.analysis.finished as int,
                steps@,
                self.positions@[0].board@.len() as int,
            );
        }
        self.analysis.collect(steps);
    }

    /// The engine's move for the position before the one on show, when it found one.
    pub fn suggestion(&self) -> (r: Option<Play>)
        requires
            self.at <= self.analysis.best@.len(),
        ensures
            r == (if self.at == 0 {
                None
            } else {
                self.analysis.best@[self.at - 1]
            }),
    {
        if self.at == 0 {
            return None;
        }
        self.analysis.best[self.at - 1]
    }
}

/// `rv` is the review, titled `name`, of the game that SGF text `text` holds: see
/// `review_of_text`.
pub open spec fn read_review(text: Seq<char>, name: Seq<char>, rv: Review) -> bool {
    let m = read_model(text).unwrap();
    &&& rv.wf()
    &&& rv.plays@ == m.plays
    &&& rv.positions@.len() == m.plays.len() + 1
    &&& is_setup_position(m, rv.positions@[0])
    &&& forall|k: int|
        0 <= k < m.plays.len() ==> ready_for(rv.positions@[k], m.plays[k].0).after_make(
            m.plays[k].1,
            &rv.positions@[k + 1],
        )
    &&& rv.at == m.plays.len()
    &&& fresh(rv.analysis, rv.positions@.len())
    &&& !rv.analysis.listening
    &&& rv.title@ == name
    &&& !rv.show_territory
    &&& rv.status@ == "press a to let the engine go through the game"@
}

/// The review of the game that SGF text `text` holds, titled `name`: nothing when the text
/// holds no game (see `read_model`) or too many moves for the machine.
pub fn review_of_text(text: &str, name: String) -> (r: Option<Review>)
    ensures
        r is None <==> (read_model(text@) is None || !fits(read_model(text@).unwrap())),
        r matches Some(rv) ==> read_review(text@, name@, rv),
{
    proof {
        lemma_read_on_board(text@);
    }
    let record = match read(text) {
        Some(record) => record,
        None => return None,
    };
    let size = record.size;
    proof {
        let m = read_model(text@).unwrap();
        assert(m == record@);
        assert(5 <= m.size <= 25);
        assert(record@.size == size);
        assert(0 < size * size <= 625) by (nonlinear_arith)
            requires
                5 <= size <= 25,
        ;
    }
    let moves = record.plays.len();
    let per_position = size * size;
    let room = match moves.checked_add(1) {
        Some(count) => count.checked_mul(per_position),
        None => None,
    };
    proof {
        let m = read_model(text@).unwrap();
        assert(moves == m.plays.len());
        assert(per_position == m.size * m.size);
        if moves + 1 > usize::MAX {
            assert((moves + 1) * per_position > usize::MAX) by (nonlinear_arith)
                requires
                    moves + 1 > usize::MAX,
                    per_position >= 1,
            ;
        }
    }
    if room.is_none() {
        return None;
    }
    let games = positions(&record);
    let plays = copy_plays(&record.plays);
    let review = Review::new(games, plays, name);
    Some(review)
}

impl Session {
    /// `rv` is the game played so far as a review: see `review`.
    pub open spec fn reviewed_as(&self, rv: Review) -> bool {
        &&& rv.positions@.len() == self.positions@.len()
        &&& forall|k: int|
            0 <= k < self.positions@.len() ==> (#[trigger] rv.positions@[k]).same_as(
                &self.positions@[k],
            )
        &&& rv.plays@ == self.plays@
        &&& rv.at == self.positions@.len() - 1
        &&& rv.analysis.winrates@ == self.winrates@
        &&& rv.analysis.best@ == Seq::new(self.positions@.len() as nat, |i: int| None::<Play>)
        &&& rv.analysis.finished == 0
        &&& !rv.analysis.listening
        &&& rv.title@ == decimal(self.game.board.width() as nat) + "x"@ + decimal(
            self.game.board.width() as nat,
        ) + " game"@
        &&& !rv.show_territory
        &&& rv.status@ == "press a to let the engine go through the game"@
    }
}

impl Session {
    /// The game played so far as a review: its positions and moves, the chances to win known
    /// so far, on the last position, titled by the board's size.
    pub fn review(&self) -> (r: Review)
        requires
            self.wf(),
        ensures
            r.wf(),
            self.reviewed_as(r),
    {
        let count = self.positions.len();
        let mut games: Vec<Game> = Vec::new();
        let mut k: usize = 0;
        while k < count
            invariant
                count == self.positions@.len(),
                0 <= k <= count,
                games@.len() == k,
                forall|j: int| 0 <= j < self.positions@.len() ==> (#[trigger] self.positions@[j]).wf(),
                forall|j: int|
                    0 <= j < k ==> (#[trigger] games@[j]).same_as(&self.positions@[j])
                        && games@[j].wf(),
            decreases count - k,
        {
            let copy = self.positions[k].clone();
            games.push(copy);
            k += 1;
        }
        let plays = copy_plays(&self.plays);
        let size = self.game.size() as u64;
        let mut title = String::new();
        push_decimal(&mut title, size);
        title.append("x");
        push_decimal(&mut title, size);
        title.append(" game");
        let mut review = Review::new(games, plays, title);
        let mut i: usize = 0;
        while i < count
            invariant
                count == self.winrates@.len(),
                0 <= i <= count,
                review.analysis.winrates@.len() == count,
                forall|j: int| 0 <= j < i ==> review.analysis.winrates@[j] == self.winrates@[j],
                forall|j: int| i <= j < count ==> review.analysis.winrates@[j] is None,
                review.analysis.best@ == Seq::new(count as nat, |j: int| None::<Play>),
                review.analysis.finished == 0,
                !review.analysis.listening,
                review.positions@.len() == count,
                review.at == count - 1,
                review.plays@ == self.plays@,
                forall|j: int|
                    0 <= j < count ==> (#[trigger] review.positions@[j]).same_as(
                        &self.positions@[j],
                    ) && review.positions@[j].wf(),
                review.title@ == decimal(size as nat) + "x"@ + decimal(size as nat) + " game"@,
                !review.show_territory,
                review.status@ == "press a to let the engine go through the game"@,
            decreases count - i,
        {
            if let Some(value) = self.winrates[i] {
                review.analysis.winrates.set(i, Some(value));
            }
            i += 1;
        }
        proof {
            assert(review.analysis.winrates@ =~= self.winrates@);
            let first = self.positions@[0];
            assert(review.positions@[0].same_as(&first));
            first.board.lemma_wf();
            self.game.board.lemma_wf();
            assert(first.board@.len() == self.game.board@.len());
            assert forall|k: int| 0 <= k < review.plays@.len() implies ((#[trigger] review.plays@[
                k]).1 matches Play::Point(p) ==> p < review.positions@[0].board@.len()) by {
                assert(review.plays@[k] == self.plays@[k]);
            }
        }
        review
    }
}

/// Where the move that led to position `at` went: none at the start, after a pass, or past
/// the moves `plays`.
pub open spec fn shown_last(plays: Seq<(Stone, Play)>, at: int) -> Option<usize> {
    if at <= 0 || at - 1 >= plays.len() {
        None
    } else {
        match plays[at - 1].1 {
            Play::Point(p) => Some(p),
            Play::Pass => None,
        }
    }
}

impl Review {
    /// Where the move that led to the position on show went: see `shown_last`.
    pub fn last_stone(&self) -> (r: Option<usize>)
        ensures
            r == shown_last(self.plays@, self.at as int),
    {
        if self.at == 0 || self.at - 1 >= self.plays.len() {
            return None;
        }
        match self.plays[self.at - 1].1 {
            Play::Point(p) => Some(p),
            Play::Pass => None,
        }
    }
}

} // verus!
