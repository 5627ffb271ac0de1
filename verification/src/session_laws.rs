//! What taking moves back undoes in a game being played.
use vstd::prelude::*;
use crate::game::{Game, Play, Stone, opposite};
use crate::app::Mode;
use crate::session::{Session, Follow};

verus! {

/// Whether making `play` in `g` hands the turn over: a legal stone, or a pass while the game
/// goes on.
pub open spec fn turn_passes(g: Game, play: Play) -> bool {
    match play {
        Play::Point(p) => g.legal_at(p as int),
        Play::Pass => !g.finished,
    }
}

/// Between friends, taking back right after a move gives back the game as it was before the
/// move: the same moves, positions and chances to win, and the position before it on the
/// board.
pub proof fn lemma_undo_after_a_move(
    s: Session,
    color: Stone,
    play: Play,
    s1: Session,
    f: Follow,
    s2: Session,
    removed: usize,
)
    requires
        s.wf(),
        s.mode == Mode::Friend,
        s.undo_enabled,
        !s.thinking,
        !s.hint_pending,
        s.applied(color, play, &s1, f),
        s1.undoing(&s2, removed),
    ensures
        removed == 1,
        s2.plays@ == s.plays@,
        s2.positions@ == s.positions@,
        s2.winrates@ == s.winrates@,
        s2.game.same_as(&s.positions@.last()),
{
    assert(s1.plays@.len() > 0);
    assert(s2.plays@ =~= s.plays@);
    assert(s2.positions@ =~= s.positions@);
    assert(s2.winrates@ =~= s.winrates@);
}

/// Against the engine, taking back after the human's move and the engine's reply gives back
/// the game as it was before both: two moves go, and the human is to move in the position the
/// human moved from. `t` is the game as the engine's reply found it, done thinking.
pub proof fn lemma_undo_after_a_reply(
    s: Session,
    play: Play,
    s1: Session,
    f1: Follow,
    t: Session,
    reply: Play,
    f2: Follow,
    s2: Session,
    s3: Session,
    removed: usize,
)
    requires
        s.wf(),
        s.mode == Mode::Engine,
        s.human != Stone::Empty,
        s.game.turn == s.human,
        s.positions@.last().same_as(&s.game),
        turn_passes(s.game, play),
        s.applied(s.human, play, &s1, f1),
        t == (Session { thinking: false, ..s1 }),
        t.applied(s1.game.turn, reply, &s2, f2),
        s2.undo_enabled,
        !s2.thinking,
        !s2.hint_pending,
        s2.undoing(&s3, removed),
    ensures
        removed == 2,
        s3.plays@ == s.plays@,
        s3.positions@ == s.positions@,
        s3.winrates@ == s.winrates@,
        s3.game.same_as(&s.game),
        s3.game.turn == s.human,
{
    let len = s.positions@.len() as int;
    let count = s2.positions@.len() as int;
    assert(count == len + 2);
    assert(s2.plays@.len() > 0);
    assert(s1.game.turn == opposite(s.game.turn));
    assert(s2.positions@[len - 1] == s.positions@[len - 1]) by {
        assert(s2.positions@[len - 1] == t.positions@[len - 1]);
        assert(s1.positions@[len - 1] == s.positions@[len - 1]);
    }
    assert(s2.positions@[len] == s1.positions@[len]) by {
        assert(s2.positions@[len] == t.positions@[len]);
    }
    assert(s1.positions@[len].turn != s.human);
    assert(s2.positions@[len - 1].turn == s.human);
    if removed == 1 {
        assert(s2.positions@[count - 2].turn != s.human);
        assert(false);
    }
    if removed >= 3 {
        assert(count - 1 - removed < len - 1 < count - 1);
        assert(s2.positions@[len - 1].turn != s.human);
        assert(false);
    }
    assert(removed == 2);
    assert(s3.plays@ =~= s.plays@);
    assert(s3.positions@ =~= s.positions@) by {
        assert forall|k: int| 0 <= k < len implies s3.positions@[k] == s.positions@[k] by {
            assert(s2.positions@[k] == t.positions@[k]);
            assert(s1.positions@[k] == s.positions@[k]);
        }
    }
    assert(s3.winrates@ =~= s.winrates@);
}

} // verus!
