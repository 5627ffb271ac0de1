//! Going through a finished game: how likely Black was to win after each move, the engine's
//! preferred moves, and what each move is judged to have been.
use vstd::prelude::*;
use crate::game::{Stone, Play};

verus! {

/// How a move is judged by the drop in its player's chance to win.
#[derive(Clone, Copy, PartialEq, Eq, Debug, Structural)]
pub enum Verdict {
    Fine,
    Inaccuracy,
    Mistake,
    Blunder,
}

impl Verdict {
    /// The mark put next to a judged move.
    pub fn mark(self) -> (r: &'static str)
        ensures
            r@ == (match self {
                Verdict::Fine => "  "@,
                Verdict::Inaccuracy => "?!"@,
                Verdict::Mistake => " ?"@,
                Verdict::Blunder => "??"@,
            }),
    {
        match self {
            Verdict::Fine => "  ",
            Verdict::Inaccuracy => "?!",
            Verdict::Mistake => " ?",
            Verdict::Blunder => "??",
        }
    }

    /// The words for a judged move.
    pub fn name(self) -> (r: &'static str)
        ensures
            r@ == (match self {
                Verdict::Fine => "good move"@,
                Verdict::Inaccuracy => "inaccuracy"@,
                Verdict::Mistake => "mistake"@,
                Verdict::Blunder => "blunder"@,
            }),
    {
        match self {
            Verdict::Fine => "good move",
            Verdict::Inaccuracy => "inaccuracy",
            Verdict::Mistake => "mistake",
            Verdict::Blunder => "blunder",
        }
    }
}

/// The verdict on a move that cost its player `loss` thousandths of their chance to win:
/// more than a quarter is a blunder, more than 15% a mistake, more than 8% an inaccuracy.
pub open spec fn verdict_for(loss: int) -> Verdict {
    if loss > 250 {
        Verdict::Blunder
    } else if loss > 150 {
        Verdict::Mistake
    } else if loss > 80 {
        Verdict::Inaccuracy
    } else {
        Verdict::Fine
    }
}

/// What a move cost `mover`, in thousandths, when Black's chance to win went from `before`
/// to `after`.
pub open spec fn loss_of(before: int, after: int, mover: Stone) -> int {
    if mover == Stone::Black {
        before - after
    } else {
        after - before
    }
}

/// The verdict on move `move_number` by `mover`, given Black's chances to win `w` after each
/// position: how much the move lowered `mover`'s chance, when both chances around it are known.
pub open spec fn verdict_view(w: Seq<Option<u32>>, move_number: int, mover: Stone) -> Option<Verdict> {
    if move_number <= 0 || move_number >= w.len() {
        None
    } else {
        match (w[move_number - 1], w[move_number]) {
            (Some(before), Some(after)) => Some(verdict_for(loss_of(before as int, after as int, mover))),
            _ => None,
        }
    }
}

/// What is known of a game gone through so far: Black's chance to win after each position, in
/// thousandths, the engine's move for each position, how many positions are done, and whether
/// more results are on their way.
pub struct Analysis {
    pub winrates: Vec<Option<u32>>,
    pub best: Vec<Option<Play>>,
    pub finished: usize,
    pub listening: bool,
}

/// What taking in step `s` (a position, Black's chance to win there and the engine's move)
/// makes of winning chances `w`, moves `b` and count `f`: see `Analysis::record`.
pub open spec fn taken(
    w: Seq<Option<u32>>,
    b: Seq<Option<Play>>,
    f: int,
    s: (usize, u32, Play),
) -> (Seq<Option<u32>>, Seq<Option<Play>>, int) {
    if s.0 < w.len() {
        (
            w.update(s.0 as int, Some(s.1)),
            if s.0 < b.len() {
                b.update(s.0 as int, Some(s.2))
            } else {
                b
            },
            f + 1,
        )
    } else {
        (w, b, f)
    }
}

/// What taking in `steps`, one after the other, makes of `w`, `b` and `f`.
pub open spec fn taken_all(
    w: Seq<Option<u32>>,
    b: Seq<Option<Play>>,
    f: int,
    steps: Seq<(usize, u32, Play)>,
) -> (Seq<Option<u32>>, Seq<Option<Play>>, int)
    decreases steps.len(),
{
    if steps.len() == 0 {
        (w, b, f)
    } else {
        let t = taken_all(w, b, f, steps.drop_last());
        taken(t.0, t.1, t.2, steps.last())
    }
}

/// Taking in steps never lowers the count, and raises it by at most one a step.
pub proof fn lemma_taken_count(
    w: Seq<Option<u32>>,
    b: Seq<Option<Play>>,
    f: int,
    steps: Seq<(usize, u32, Play)>,
)
    ensures
        f <= taken_all(w, b, f, steps).2 <= f + steps.len(),
        taken_all(w, b, f, steps).0.len() == w.len(),
    decreases steps.len(),
{
    if steps.len() > 0 {
        lemma_taken_count(w, b, f, steps.drop_last());
    }
}

impl Analysis {
    /// Nothing known yet of a game of `length` positions.
    pub fn idle(length: usize) -> (a: Analysis)
        ensures
            a.winrates@ == Seq::new(length as nat, |i: int| None::<u32>),
            a.best@ == Seq::new(length as nat, |i: int| None::<Play>),
            a.finished == 0,
            !a.listening,
    {
        let mut winrates: Vec<Option<u32>> = Vec::new();
        let mut best: Vec<Option<Play>> = Vec::new();
        let mut i: usize = 0;
        while i < length
            invariant
                0 <= i <= length,
                winrates@ == Seq::new(i as nat, |j: int| None::<u32>),
                best@ == Seq::new(i as nat, |j: int| None::<Play>),
            decreases length - i,
        {
            winrates.push(None);
            best.push(None);
            proof {
                assert(winrates@ =~= Seq::new(i as nat + 1, |j: int| None::<u32>));
                assert(best@ =~= Seq::new(i as nat + 1, |j: int| None::<Play>));
            }
            i += 1;
        }
        Analysis { winrates, best, finished: 0, listening: false }
    }

    /// A new run through a game of `length` positions: nothing known yet, results on their way.
    pub fn start(length: usize) -> (a: Analysis)
        ensures
            a.winrates@ == Seq::new(length as nat, |i: int| None::<u32>),
            a.best@ == Seq::new(length as nat, |i: int| None::<Play>),
            a.finished == 0,
            a.listening,
    {
        let mut a = Analysis::idle(length);
        a.listening = true;
        a
    }

    /// Whether results are still on their way: the run was not stopped and not every position
    /// is done.
    pub fn running(&self) -> (r: bool)
        ensures
            r == (self.listening && self.finished < self.winrates@.len()),
    {
        self.listening && self.finished < self.winrates.len()
    }

    /// Stops listening for results; what is known stays.
    pub fn cancel(&mut self)
        ensures
            final(self).winrates == old(self).winrates,
            final(self).best == old(self).best,
            final(self).finished == old(self).finished,
            !final(self).listening,
    {
        self.listening = false;
    }

    /// Takes in the results `steps` that arrived, one after the other (see `record`).
    pub fn collect(&mut self, steps: &Vec<(usize, u32, Play)>)
        requires
            old(self).finished + steps@.len() <= usize::MAX,
        ensures
            (final(self).winrates@, final(self).best@, final(self).finished as int) == taken_all(
                old(self).winrates@,
                old(self).best@,
                old(self).finished as int,
                steps@,
            ),
            final(self).listening == old(self).listening,
    {
        let mut k: usize = 0;
        while k < steps.len()
            invariant
                0 <= k <= steps@.len(),
                old(self).finished + steps@.len() <= usize::MAX,
                self.listening == old(self).listening,
                (self.winrates@, self.best@, self.finished as int) == taken_all(
                    old(self).winrates@,
                    old(self).best@,
                    old(self).finished as int,
                    steps@.take(k as int),
                ),
            decreases steps@.len() - k,
        {
            proof {
                lemma_taken_count(
                    old(self).winrates@,
                    old(self).best@,
                    old(self).finished as int,
                    steps@.take(k as int),
                );
                assert(steps@.take(k as int + 1).drop_last() =~= steps@.take(k as int));
                assert(steps@.take(k as int + 1).last() == steps@[k as int]);
            }
            let (index, winrate, best) = steps[k];
            self.record(index, winrate, best);
            k += 1;
        }
        proof {
            assert(steps@.take(steps@.len() as int) =~= steps@);
        }
    }

    /// Takes in what the engine found for position `index`: Black's chance to win there and
    /// its move; a position past the end is ignored.
    pub fn record(&mut self, index: usize, winrate: u32, best: Play)
        requires
            old(self).finished < usize::MAX,
        ensures
            index < old(self).winrates@.len() ==> {
                &&& final(self).winrates@ == old(self).winrates@.update(index as int, Some(winrate))
                &&& final(self).best@ == (if index < old(self).best@.len() {
                    old(self).best@.update(index as int, Some(best))
                } else {
                    old(self).best@
                })
                &&& final(self).finished == old(self).finished + 1
            },
            index >= old(self).winrates@.len() ==> final(self).winrates@ == old(self).winrates@
                && final(self).best@ == old(self).best@ && final(self).finished == old(
                self,
            ).finished,
            final(self).listening == old(self).listening,
    {
        if index < self.winrates.len() {
            self.winrates.set(index, Some(winrate));
            if index < self.best.len() {
                self.best.set(index, Some(best));
            }
            self.finished = self.finished + 1;
        }
    }

    /// The verdict on move `move_number` by `mover`: how much the move lowered `mover`'s chance
    /// to win, when both chances around it are known.
    pub fn verdict(&self, move_number: usize, mover: Stone) -> (r: Option<Verdict>)
        ensures
            r == verdict_view(self.winrates@, move_number as int, mover),
    {
        if move_number == 0 || move_number >= self.winrates.len() {
            return None;
        }
        let before = match self.winrates[move_number - 1] {
            Some(b) => b as i64,
            None => return None,
        };
        let after = match self.winrates[move_number] {
            Some(a) => a as i64,
            None => return None,
        };
        let loss = if mover == Stone::Black {
            before - after
        } else {
            after - before
        };
        Some(
            if loss > 250 {
                Verdict::Blunder
            } else if loss > 150 {
                Verdict::Mistake
            } else if loss > 80 {
                Verdict::Inaccuracy
            } else {
                Verdict::Fine
            },
        )
    }
}


/// How severe a verdict is: 0 for a good move, 1 for an inaccuracy, 2 for a mistake and 3 for
/// a blunder.
pub open spec fn severity(v: Verdict) -> int {
    match v {
        Verdict::Fine => 0,
        Verdict::Inaccuracy => 1,
        Verdict::Mistake => 2,
        Verdict::Blunder => 3,
    }
}

/// How many thousandths of their chance to win the player of move `m` lost, given Black's
/// chances `w`: the fall of Black's chance for a Black move, its rise for a White one.
pub open spec fn drop_at(w: Seq<Option<u32>>, m: int, mover: Stone) -> int {
    if mover == Stone::Black {
        w[m - 1].unwrap() as int - w[m].unwrap() as int
    } else {
        w[m].unwrap() as int - w[m - 1].unwrap() as int
    }
}

/// A move is judged exactly when its player's chance to win is known before and after it, and
/// the verdict counts the marks its player's loss goes past: more than 80 thousandths (an
/// inaccuracy), more than 150 (a mistake), more than 250 (a blunder).
pub proof fn lemma_verdict_counts_thresholds(w: Seq<Option<u32>>, m: int, mover: Stone)
    ensures
        verdict_view(w, m, mover) is Some <==> (0 < m < w.len() && w[m - 1] is Some && w[m] is Some),
        verdict_view(w, m, mover) matches Some(v) ==> severity(v) == (if drop_at(w, m, mover) > 80 {
            1int
        } else {
            0
        }) + (if drop_at(w, m, mover) > 150 {
            1int
        } else {
            0
        }) + (if drop_at(w, m, mover) > 250 {
            1int
        } else {
            0
        }),
{
}

/// The verdict grows with the loss: of two moves that both have a verdict, the move whose
/// player lost more of their chance to win never has the lesser verdict.
pub proof fn lemma_verdict_monotone(
    w1: Seq<Option<u32>>,
    m1: int,
    mover1: Stone,
    w2: Seq<Option<u32>>,
    m2: int,
    mover2: Stone,
)
    requires
        verdict_view(w1, m1, mover1) is Some,
        verdict_view(w2, m2, mover2) is Some,
        drop_at(w1, m1, mover1) <= drop_at(w2, m2, mover2),
    ensures
        severity(verdict_view(w1, m1, mover1).unwrap()) <= severity(
            verdict_view(w2, m2, mover2).unwrap(),
        ),
{
    lemma_verdict_counts_thresholds(w1, m1, mover1);
    lemma_verdict_counts_thresholds(w2, m2, mover2);
}

/// The same swing judges the same either way: a fall in Black's chance judges a Black move as
/// the same rise judges a White move.
pub proof fn lemma_verdict_either_colour(w: Seq<Option<u32>>, m: int, v: Seq<Option<u32>>, k: int)
    requires
        0 < m < w.len(),
        0 < k < v.len(),
        w[m - 1] is Some && w[m] is Some,
        v[k - 1] is Some && v[k] is Some,
        w[m - 1].unwrap() - w[m].unwrap() == v[k].unwrap() - v[k - 1].unwrap(),
    ensures
        verdict_view(w, m, Stone::Black) == verdict_view(v, k, Stone::White),
{
}

} // verus!
