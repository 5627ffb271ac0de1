//! The built-in engine's own work: the moves it considers, random play to the end of a game,
//! the replies it makes at once, and the bookkeeping of its search tree.
use vstd::prelude::*;
use vstd::multiset::Multiset;
use rand::rngs::SmallRng;
use rand::Rng;
use rand::seq::SliceRandom;
use crate::game::{Stone, Play, Game, opposite, eye_at, liberties_of, area};
use crate::geometry::{adjacent_points, lemma_adjacent};

verus! {

#[verifier::external_type_specification]
#[verifier::external_body]
pub struct ExSmallRng(SmallRng);


/// `SliceRandom::shuffle`: puts the items of `v` in a random order; the items stay the same.
#[verifier::external_body]
pub(crate) fn shuffle<T>(v: &mut Vec<T>, rng: &mut SmallRng)
    ensures
        final(v)@.to_multiset() == old(v)@.to_multiset(),
{
    v.shuffle(rng)
}

/// `Rng::random_range` over `0..n`: a random number below `n`.
#[verifier::external_body]
pub(crate) fn below(rng: &mut SmallRng, n: usize) -> (r: usize)
    requires
        n > 0,
    ensures
        r < n,
{
    rng.random_range(0..n)
}

/// `Rng::random_ratio`: true with a chance of `numerator` in `denominator`; always false for
/// a numerator of zero and always true when the two are equal.
#[verifier::external_body]
pub(crate) fn chance(rng: &mut SmallRng, numerator: u32, denominator: u32) -> (r: bool)
    requires
        0 < denominator,
        numerator <= denominator,
    ensures
        numerator == 0 ==> !r,
        numerator == denominator ==> r,
{
    rng.random_ratio(numerator, denominator)
}

/// The points up to `k` where the player to move may play and which are not their own eyes.
pub open spec fn candidate_points(g: Game, k: int) -> Seq<Play>
    decreases k,
{
    if k <= 0 {
        Seq::empty()
    } else {
        let rest = candidate_points(g, k - 1);
        let p = k - 1;
        if !eye_at(g.board.width(), g.board@, p, g.turn) && g.legal_at(p) {
            rest.push(Play::Point(p as usize))
        } else {
            rest
        }
    }
}

/// The moves the engine considers: every point where the player to move may play and which
/// is not their own eye, in order, then the pass; none once the game is over.
pub open spec fn candidates(g: Game) -> Seq<Play> {
    if g.finished {
        Seq::empty()
    } else {
        candidate_points(g, g.board@.len() as int).push(Play::Pass)
    }
}

/// The moves the engine considers: see `candidates`.
pub fn candidate_moves(game: &mut Game) -> (moves: Vec<Play>)
    requires
        old(game).wf(),
    ensures
        final(game).wf(),
        final(game).same_as(old(game)),
        moves@ == candidates(*old(game)),
{
    let ghost start = *game;
    if game.finished {
        return Vec::new();
    }
    let mut moves: Vec<Play> = Vec::new();
    let total = game.board.points();
    let mut p: usize = 0;
    while p < total
        invariant
            game.wf(),
            game.same_as(&start),
            total == start.board@.len(),
            0 <= p <= total,
            moves@ == candidate_points(start, p as int),
        decreases total - p,
    {
        let turn = game.turn;
        if !game.is_eye(p, turn) && game.legal(p) {
            moves.push(Play::Point(p));
        }
        p += 1;
    }
    moves.push(Play::Pass);
    moves
}

/// The points up to `k` the engine considers are exactly those below `k` where the player to
/// move may play and which are not their own eye, in increasing order.
proof fn lemma_considered_points(g: Game, k: int)
    requires
        k <= usize::MAX + 1,
    ensures
        forall|i: int| 0 <= i < candidate_points(g, k).len() ==> (#[trigger] candidate_points(g, k)[i]) is Point,
        forall|i: int, j: int|
            0 <= i < j < candidate_points(g, k).len() ==> (#[trigger] candidate_points(g, k)[i])->Point_0
                < (#[trigger] candidate_points(g, k)[j])->Point_0,
        forall|i: int|
            0 <= i < candidate_points(g, k).len() ==> (#[trigger] candidate_points(g, k)[i])->Point_0 < k,
        forall|p: int|
            0 <= p < k ==> (#[trigger] candidate_points(g, k).contains(Play::Point(p as usize)) <==> (
            g.legal_at(p) && !eye_at(g.board.width(), g.board@, p, g.turn))),
    decreases k,
{
    if k > 0 {
        lemma_considered_points(g, k - 1);
        let rest = candidate_points(g, k - 1);
        let cur = candidate_points(g, k);
        let q = k - 1;
        let add = !eye_at(g.board.width(), g.board@, q, g.turn) && g.legal_at(q);
        if add {
            assert(cur == rest.push(Play::Point(q as usize)));
        } else {
            assert(cur == rest);
        }
        assert forall|i: int| 0 <= i < cur.len() implies (#[trigger] cur[i]) is Point && cur[i]->Point_0 < k by {
            if i < rest.len() {
                assert(cur[i] == rest[i]);
            }
        }
        assert forall|i: int, j: int| 0 <= i < j < cur.len() implies (#[trigger] cur[i])->Point_0
            < (#[trigger] cur[j])->Point_0 by {
            assert(cur[i] == rest[i]);
            if j < rest.len() {
                assert(cur[j] == rest[j]);
            } else {
                assert(rest[i]->Point_0 < q);
            }
        }
        assert forall|p: int| 0 <= p < k implies (#[trigger] cur.contains(Play::Point(p as usize)) <==> (
        g.legal_at(p) && !eye_at(g.board.width(), g.board@, p, g.turn))) by {
            if cur.contains(Play::Point(p as usize)) {
                let i = choose|i: int| 0 <= i < cur.len() && cur[i] == Play::Point(p as usize);
                if i < rest.len() {
                    assert(cur[i] == rest[i]);
                    assert(rest[i]->Point_0 < q);
                    assert(rest.contains(Play::Point(p as usize)));
                } else {
                    assert(p == q);
                }
            }
            if p < q && rest.contains(Play::Point(p as usize)) {
                let i = choose|i: int| 0 <= i < rest.len() && rest[i] == Play::Point(p as usize);
                assert(cur[i] == rest[i]);
            }
            if p == q && add {
                assert(cur[cur.len() - 1] == Play::Point(p as usize));
            }
        }
    }
}

/// The engine considers exactly the moves open to the player to move while the game goes on:
/// every point where they may play and which is not their own eye, each once and in order, and
/// the pass, last; nothing once the game is over. So a legal capture on the other side's eye is
/// never left out.
pub proof fn lemma_candidates_exact(g: Game)
    requires
        g.board@.len() <= usize::MAX + 1,
    ensures
        g.finished ==> candidates(g).len() == 0,
        !g.finished ==> candidates(g).len() > 0 && candidates(g).last() == Play::Pass,
        !g.finished ==> forall|i: int|
            0 <= i < candidates(g).len() - 1 ==> (#[trigger] candidates(g)[i]) is Point,
        !g.finished ==> forall|i: int, j: int|
            0 <= i < j < candidates(g).len() - 1 ==> (#[trigger] candidates(g)[i])->Point_0 < (
            #[trigger] candidates(g)[j])->Point_0,
        !g.finished ==> forall|p: int|
            0 <= p < g.board@.len() ==> (#[trigger] candidates(g).contains(Play::Point(p as usize)) <==> (
            g.legal_at(p) && !eye_at(g.board.width(), g.board@, p, g.turn))),
{
    if !g.finished {
        let len = g.board@.len() as int;
        let pts = candidate_points(g, len);
        let c = candidates(g);
        lemma_considered_points(g, len);
        assert(c == pts.push(Play::Pass));
        assert(c.last() == Play::Pass);
        assert forall|i: int| 0 <= i < c.len() - 1 implies (#[trigger] c[i]) is Point by {
            assert(c[i] == pts[i]);
        }
        assert forall|i: int, j: int|
            0 <= i < j < c.len() - 1 implies (#[trigger] c[i])->Point_0 < (#[trigger] c[j])->Point_0 by {
            assert(c[i] == pts[i]);
            assert(c[j] == pts[j]);
        }
        assert forall|p: int|
            0 <= p < len implies (#[trigger] c.contains(Play::Point(p as usize)) <==> (g.legal_at(p) && !eye_at(
            g.board.width(),
            g.board@,
            p,
            g.turn,
        ))) by {
            assert(pts.contains(Play::Point(p as usize)) <==> (g.legal_at(p) && !eye_at(
                g.board.width(),
                g.board@,
                p,
                g.turn,
            )));
            if c.contains(Play::Point(p as usize)) {
                let i = choose|i: int| 0 <= i < c.len() && c[i] == Play::Point(p as usize);
                assert(i != c.len() - 1);
                assert(c[i] == pts[i]);
                assert(pts.contains(Play::Point(p as usize)));
            }
            if pts.contains(Play::Point(p as usize)) {
                let i = choose|i: int| 0 <= i < pts.len() && pts[i] == Play::Point(p as usize);
                assert(c[i] == pts[i]);
            }
        }
    }
}

/// Whether the player to move may play on `p`, which is empty and not their own eye.
pub open spec fn playable(g: Game, p: int) -> bool {
    &&& g.board@[p] == Stone::Empty
    &&& !eye_at(g.board.width(), g.board@, p, g.turn)
    &&& g.legal_at(p)
}

/// The place `j` steps round a list of `len` items from place `first`.
pub open spec fn round_at(first: int, j: int, len: int) -> int {
    (first + j) % len
}

/// The first point of `items` where the player to move in `g` may play (see `playable`),
/// going round the list from place `first` and looking from `j` steps on; none when there is
/// none.
pub open spec fn scan_from(g: Game, items: Seq<usize>, first: int, j: int) -> Option<usize>
    decreases items.len() - j,
{
    if j < 0 || j >= items.len() {
        None
    } else {
        let p = items[round_at(first, j, items.len() as int)];
        if playable(g, p as int) {
            Some(p)
        } else {
            scan_from(g, items, first, j + 1)
        }
    }
}

/// The first point of `empties` where the player to move may play and which is not their own
/// eye, going round the list from place `first`: see `scan_from`.
pub fn move_from(game: &mut Game, empties: &Vec<usize>, first: usize) -> (r: Option<usize>)
    requires
        old(game).wf(),
        first < empties@.len(),
        forall|i: int| 0 <= i < empties@.len() ==> #[trigger] empties@[i] < old(game).board@.len(),
    ensures
        final(game).wf(),
        final(game).same_as(old(game)),
        r == scan_from(*old(game), empties@, first as int, 0),
        r matches Some(p) ==> empties@.contains(p) && playable(*old(game), p as int),
        r is None ==> forall|i: int|
            0 <= i < empties@.len() ==> !playable(*old(game), #[trigger] empties@[i] as int),
{
    let ghost start = *game;
    let len = empties.len();
    let mut offset: usize = 0;
    while offset < len
        invariant
            game.wf(),
            game.same_as(&start),
            start == *old(game),
            len == empties@.len(),
            first < len,
            0 <= offset <= len,
            forall|i: int| 0 <= i < len ==> #[trigger] empties@[i] < start.board@.len(),
            forall|j: int|
                0 <= j < offset ==> !playable(
                    start,
                    empties@[#[trigger] round_at(first as int, j, len as int)] as int,
                ),
            scan_from(start, empties@, first as int, 0) == scan_from(
                start,
                empties@,
                first as int,
                offset as int,
            ),
        decreases len - offset,
    {
        let at = if offset < len - first {
            first + offset
        } else {
            offset - (len - first)
        };
        proof {
            assert(at == (first + offset) % (len as int)) by (nonlinear_arith)
                requires
                    first < len,
                    offset < len,
                    at == if offset < len - first {
                        first + offset
                    } else {
                        offset - (len - first)
                    },
            ;
        }
        let p = empties[at];
        proof {
            assert(empties@[at as int] == p);
            assert(round_at(first as int, offset as int, len as int) == at);
        }
        if game.board.at(p) == Stone::Empty {
            let turn = game.turn;
            if !game.is_eye(p, turn) {
                let ghost before = *game;
                if game.legal(p) {
                    proof {
                        assert(empties@.contains(p));
                        assert(game.same_as(&before));
                        assert(before.same_as(&start));
                        assert(game.same_as(&start));
                        assert(playable(start, p as int));
                    }
                    return Some(p);
                }
            }
        }
        offset += 1;
    }
    proof {
        assert forall|i: int| 0 <= i < empties@.len() implies !playable(start, #[trigger] empties@[i] as int) by {
            let j = (i - first + len) % (len as int);
            assert(0 <= j < len) by (nonlinear_arith)
                requires
                    len > 0,
                    j == (i - first + len) % (len as int),
            ;
            assert((first + j) % (len as int) == i) by (nonlinear_arith)
                requires
                    len > 0,
                    0 <= i < len,
                    0 <= first < len,
                    j == (i - first + len) % (len as int),
            ;
            assert(round_at(first as int, j, len as int) == i);
        }
    }
    None
}

/// A random point of `empties` where the player to move may play and which is not their own
/// eye: the first one going round the list from a random place (see `move_from`); none when
/// there is no such point.
pub fn random_move(game: &mut Game, empties: &Vec<usize>, rng: &mut SmallRng) -> (r: Option<usize>)
    requires
        old(game).wf(),
        empties@.len() > 0,
        forall|i: int| 0 <= i < empties@.len() ==> #[trigger] empties@[i] < old(game).board@.len(),
    ensures
        final(game).wf(),
        final(game).same_as(old(game)),
        exists|first: int|
            0 <= first < empties@.len() && r == #[trigger] scan_from(*old(game), empties@, first, 0),
        r matches Some(p) ==> empties@.contains(p) && playable(*old(game), p as int),
        r is None ==> forall|i: int|
            0 <= i < empties@.len() ==> !playable(*old(game), #[trigger] empties@[i] as int),
{
    let first = below(rng, empties.len());
    move_from(game, empties, first)
}

/// The liberty of the chain of `s` when it has exactly one.
pub open spec fn lone_liberty(n: int, cells: Seq<Stone>, s: int) -> Option<int> {
    let l = liberties_of(n, cells, s);
    if l.len() == 1 {
        Some(l.choose())
    } else {
        None
    }
}

/// Whether the player to move may save their stones on `q`: they are in atari, and their last
/// liberty is a legal move that is not the player's own eye.
pub open spec fn rescues(g: Game, q: int) -> bool {
    let n = g.board.width();
    let cells = g.board@;
    &&& cells[q] == g.turn
    &&& lone_liberty(n, cells, q) is Some
    &&& g.legal_at(lone_liberty(n, cells, q).unwrap())
    &&& !eye_at(n, cells, lone_liberty(n, cells, q).unwrap(), g.turn)
}

/// The first of the points `nbs` from the `k`-th on whose stones the player to move may save,
/// and the liberty that saves them.
pub open spec fn rescue_from(g: Game, nbs: Seq<int>, k: int) -> Option<int>
    decreases nbs.len() - k,
{
    if k < 0 || k >= nbs.len() {
        None
    } else if rescues(g, nbs[k]) {
        lone_liberty(g.board.width(), g.board@, nbs[k])
    } else {
        rescue_from(g, nbs, k + 1)
    }
}

/// The move the engine makes at once after a stone on `last`: take that stone's chain when it
/// is in atari and taking it is legal; otherwise save a chain of its own next to `last` that
/// is in atari (see `rescue_from`); otherwise none.
pub open spec fn urgent_move(g: Game, last: int) -> Option<int> {
    let n = g.board.width();
    let cells = g.board@;
    if cells[last] == opposite(g.turn) && lone_liberty(n, cells, last) is Some && g.legal_at(
        lone_liberty(n, cells, last).unwrap(),
    ) {
        lone_liberty(n, cells, last)
    } else {
        rescue_from(g, adjacent_points(n, last), 0)
    }
}

/// The last liberty of the chain of `s`, when it has exactly one: see `lone_liberty`.
fn lone_liberty_of(game: &mut Game, s: usize) -> (r: Option<usize>)
    requires
        old(game).wf(),
        s < old(game).board@.len(),
    ensures
        final(game).wf(),
        final(game).same_as(old(game)),
        r matches Some(q) ==> lone_liberty(old(game).board.width(), old(game).board@, s as int)
            == Some(q as int),
        r is None ==> lone_liberty(old(game).board.width(), old(game).board@, s as int) is None,
        r matches Some(q) ==> q < old(game).board@.len(),
{
    let ghost n = game.board.width();
    let ghost cells = game.board@;
    let r = game.board.last_liberty(s);
    proof {
        if let Some(q) = r {
            let l = liberties_of(n, cells, s as int);
            assert(l == set![q as int]);
            assert(set![q as int].contains(set![q as int].choose()));
            assert(l.contains(q as int));
        }
    }
    r
}

/// The move the engine makes at once after a stone on `last`: see `urgent_move`.
pub fn urgent_reply(game: &mut Game, last: usize) -> (r: Option<usize>)
    requires
        old(game).wf(),
        last < old(game).board@.len(),
    ensures
        final(game).wf(),
        final(game).same_as(old(game)),
        r matches Some(p) ==> urgent_move(*old(game), last as int) == Some(p as int),
        r is None ==> urgent_move(*old(game), last as int) is None,
        r matches Some(p) ==> p < old(game).board@.len(),
{
    let ghost start = *game;
    let ghost n = game.board.width();
    let ghost cells = game.board@;
    let me = game.turn;
    if game.board.at(last) == me.other() {
        if let Some(p) = lone_liberty_of(game, last) {
            if game.legal(p) {
                return Some(p);
            }
        }
    }
    proof {
        game.board.lemma_wf();
        if n == 0 {
            assert(n * n == 0) by (nonlinear_arith)
                requires
                    n == 0,
            ;
        }
        lemma_adjacent(n, last as int);
    }
    let nb = game.board.neighbors(last);
    let ghost nbs = adjacent_points(n, last as int);
    let mut k: usize = 0;
    while k < nb.len()
        invariant
            game.wf(),
            game.same_as(&start),
            start == *old(game),
            n == start.board.width(),
            cells == start.board@,
            me == start.turn,
            nb@ == nbs,
            nbs == adjacent_points(n, last as int),
            forall|j: int| 0 <= j < nbs.len() ==> 0 <= #[trigger] nbs[j] < cells.len(),
            0 <= k <= nbs.len(),
            urgent_move(start, last as int) == rescue_from(start, nbs, k as int),
        decreases nbs.len() - k,
    {
        let q = nb.get(k);
        proof {
            assert(nbs[k as int] == q as int);
        }
        if game.board.at(q) == me {
            if let Some(p) = lone_liberty_of(game, q) {
                let ghost before = *game;
                if game.legal(p) && !game.is_eye(p, me) {
                    return Some(p);
                }
            }
        }
        k += 1;
    }
    None
}

/// Who wins the position `g` as scored now: Black when Black's area is worth more than White's
/// area with komi, White otherwise.
pub open spec fn winner_of(g: Game) -> Stone {
    let n = g.board.width();
    let cells = g.board@;
    if 10 * area(n, cells, Stone::Black, cells.len() as int) > g.komi + 10 * area(
        n,
        cells,
        Stone::White,
        cells.len() as int,
    ) {
        Stone::Black
    } else {
        Stone::White
    }
}

/// The points of a board of `len` points, in order.
pub open spec fn all_points(len: nat) -> Seq<usize> {
    Seq::new(len, |i: int| i as usize)
}

/// The points of a board with `len` points, each once, in a random order.
fn shuffled_points(len: usize, rng: &mut SmallRng) -> (v: Vec<usize>)
    ensures
        v@.len() == len,
        forall|i: int| 0 <= i < v@.len() ==> #[trigger] v@[i] < len,
        v@.to_multiset() == all_points(len as nat).to_multiset(),
{
    let mut v: Vec<usize> = Vec::new();
    let mut p: usize = 0;
    while p < len
        invariant
            0 <= p <= len,
            v@.len() == p,
            forall|i: int| 0 <= i < v@.len() ==> #[trigger] v@[i] < len,
            v@ == all_points(p as nat),
        decreases len - p,
    {
        v.push(p);
        proof {
            assert(v@ =~= all_points(p as nat + 1));
        }
        p += 1;
    }
    let ghost before = v@;
    shuffle(&mut v, rng);
    proof {
        before.to_multiset_ensures();
        v@.to_multiset_ensures();
        assert forall|i: int| 0 <= i < v@.len() implies #[trigger] v@[i] < len by {
            assert(v@.contains(v@[i]));
            assert(v@.to_multiset().count(v@[i]) > 0);
            assert(before.contains(v@[i]));
        }
    }
    v
}

/// A rescue found from the `k`-th neighbour on is a legal move.
proof fn lemma_rescue_legal(g: Game, nbs: Seq<int>, k: int)
    ensures
        rescue_from(g, nbs, k) matches Some(p) ==> g.legal_at(p),
    decreases nbs.len() - k,
{
    if 0 <= k < nbs.len() && !rescues(g, nbs[k]) {
        lemma_rescue_legal(g, nbs, k + 1);
    }
}

/// An urgent move is a legal move.
proof fn lemma_urgent_legal(g: Game, last: int)
    ensures
        urgent_move(g, last) matches Some(p) ==> g.legal_at(p),
{
    lemma_rescue_legal(g, adjacent_points(g.board.width(), last), 0);
}

/// Positions that agree on all that a game is find the same point going round a list.
proof fn lemma_scan_same(g1: Game, g2: Game, items: Seq<usize>, first: int, j: int)
    requires
        g1.same_as(&g2),
    ensures
        scan_from(g1, items, first, j) == scan_from(g2, items, first, j),
    decreases items.len() - j,
{
    if 0 <= j < items.len() {
        lemma_scan_same(g1, g2, items, first, j + 1);
    }
}

/// The move a playout makes in `g` when the last stone went on `last`, given the two draws of
/// the step: `lucky`, whether the urgent reply is tried first, and `first`, the place in
/// `items` from which a random move is looked for. It is the urgent reply to the last stone
/// (see `urgent_move`) when it is tried and there is one, else the first playable point going
/// round `items` from `first` (see `scan_from`); none, for a pass, when there is none.
pub open spec fn step_choice(
    g: Game,
    items: Seq<usize>,
    last: Option<usize>,
    lucky: bool,
    first: int,
) -> Option<usize> {
    let urgent = match last {
        Some(p) => if lucky {
            urgent_move(g, p as int)
        } else {
            None
        },
        None => None,
    };
    match urgent {
        Some(q) => Some(q as usize),
        None => scan_from(g, items, first, 0),
    }
}

/// `next` is `g` after the move of a playout step (see `step_choice`): the stone played, or a
/// pass.
pub open spec fn stepped_out(
    g: Game,
    items: Seq<usize>,
    last: Option<usize>,
    lucky: bool,
    first: int,
    next: Game,
) -> bool {
    match step_choice(g, items, last, lucky, first) {
        Some(p) => g.after_play(p as int, &next),
        None => g.after_pass(&next),
    }
}

/// The move a playout makes, given the draws of the step: see `step_choice`.
pub fn playout_step(
    game: &mut Game,
    empties: &Vec<usize>,
    last: Option<usize>,
    lucky: bool,
    first: usize,
) -> (r: Option<usize>)
    requires
        old(game).wf(),
        first < empties@.len(),
        forall|i: int| 0 <= i < empties@.len() ==> #[trigger] empties@[i] < old(game).board@.len(),
        last matches Some(p) ==> p < old(game).board@.len(),
    ensures
        final(game).wf(),
        final(game).same_as(old(game)),
        r == step_choice(*old(game), empties@, last, lucky, first as int),
        r matches Some(p) ==> p < old(game).board@.len() && old(game).legal_at(p as int),
{
    let ghost start = *game;
    let mut choice: Option<usize> = None;
    if lucky {
        if let Some(p) = last {
            choice = urgent_reply(game, p);
            proof {
                lemma_urgent_legal(start, p as int);
            }
        }
    }
    if choice.is_none() {
        let ghost here = *game;
        choice = move_from(game, empties, first);
        proof {
            lemma_scan_same(here, start, empties@, first as int, 0);
            if let Some(q) = choice {
                assert(playable(here, q as int));
                assert(here.legal_at(q as int) == start.legal_at(q as int));
            }
        }
    }
    choice
}

/// `games` are the positions a playout from `start` went through, `lasts` where the last stone
/// went before each step (none after a pass) and `draws` the two draws of each step, over the
/// points `items`: each step starts from a game that goes on and makes the move `step_choice`
/// gives (see `stepped_out`).
pub open spec fn playout_steps(
    start: Game,
    items: Seq<usize>,
    games: Seq<Game>,
    lasts: Seq<Option<usize>>,
    draws: Seq<(bool, usize)>,
) -> bool {
    &&& games.len() == draws.len() + 1
    &&& lasts.len() == games.len()
    &&& games[0] == start
    &&& lasts[0] is None
    &&& forall|k: int|
        #![trigger draws[k]]
        0 <= k < draws.len() ==> {
            &&& draws[k].1 < items.len()
            &&& !games[k].finished
            &&& stepped_out(games[k], items, lasts[k], draws[k].0, draws[k].1 as int, games[k + 1])
            &&& lasts[k + 1] == step_choice(
                games[k],
                items,
                lasts[k],
                draws[k].0,
                draws[k].1 as int,
            )
        }
}

/// `end` is what passing until the game is over leaves of `g`: `g` itself when the game is
/// over, else `g` after a pass, and after a second one when the first does not end the game.
pub open spec fn wound_up(g: Game, end: Game) -> bool {
    if g.finished {
        end == g
    } else {
        exists|mid: Game|
            #[trigger] g.after_pass(&mid) && if mid.finished {
                end == mid
            } else {
                mid.after_pass(&end)
            }
    }
}

/// `end` is where a playout from `start` ends: over the points of the board in some order,
/// step after step (see `playout_steps`) until the game is over or twice as many steps as the
/// board has points, and twenty more, were made; then the players pass until the game is over
/// (see `wound_up`).
pub open spec fn played_out(start: Game, end: Game) -> bool {
    exists|
        items: Seq<usize>,
        games: Seq<Game>,
        lasts: Seq<Option<usize>>,
        draws: Seq<(bool, usize)>,
    |
        #[trigger] playout_steps(start, items, games, lasts, draws) && items.to_multiset()
            == all_points(start.board@.len()).to_multiset() && wound_up(games.last(), end) && (
        games.last().finished || draws.len() == 2 * start.board@.len() + 20)
}

/// Plays the game on to the end at random, as the engine's search does, and gives who wins
/// it: after a stone, four times in five it first tries the urgent reply (see `urgent_move`),
/// then a random move (see `random_move`), and passes when there is none, until the game is
/// over; once twice as many moves as the board has points, and twenty more, are made, the
/// players pass until it is over.
pub fn playout(game: &mut Game, rng: &mut SmallRng) -> (winner: Stone)
    requires
        old(game).wf(),
        old(game).board.width() > 0,
        old(game).move_number + 2 * old(game).board@.len() + 22 <= usize::MAX,
        old(game).passes + 2 * old(game).board@.len() + 22 <= usize::MAX,
        old(game).captured[0] + (2 * old(game).board@.len() + 21) * old(game).board@.len()
            <= usize::MAX,
        old(game).captured[1] + (2 * old(game).board@.len() + 21) * old(game).board@.len()
            <= usize::MAX,
        20 * old(game).board@.len() <= i64::MAX,
    ensures
        final(game).wf(),
        final(game).board.width() == old(game).board.width(),
        final(game).komi == old(game).komi,
        final(game).handicap == old(game).handicap,
        final(game).move_number <= old(game).move_number + 2 * old(game).board@.len() + 22,
        final(game).finished,
        winner == winner_of(*final(game)),
        played_out(*old(game), *final(game)),
{
    let ghost start = *game;
    let len = game.board.points();
    proof {
        game.board.lemma_wf();
        assert(len > 0) by (nonlinear_arith)
            requires
                len == start.board.width() * start.board.width(),
                start.board.width() > 0,
        ;
    }
    let empties = shuffled_points(len, rng);
    let limit = len * 2 + 20;
    let mut last: Option<usize> = None;
    let mut i: usize = 0;
    let ghost mut games: Seq<Game> = seq![*game];
    let ghost mut lasts: Seq<Option<usize>> = seq![None];
    let ghost mut draws: Seq<(bool, usize)> = Seq::empty();
    while i < limit
        invariant
            game.wf(),
            len == game.board@.len(),
            len == start.board.width() * start.board.width(),
            len > 0,
            limit == 2 * len + 20,
            game.board.width() == start.board.width(),
            game.komi == start.komi,
            game.handicap == start.handicap,
            0 <= i <= limit,
            game.move_number == start.move_number + i,
            game.passes <= start.passes + i,
            game.captured[0] <= start.captured[0] + i * len,
            game.captured[1] <= start.captured[1] + i * len,
            start.move_number + limit + 2 <= usize::MAX,
            start.passes + limit + 2 <= usize::MAX,
            start.captured[0] + (limit + 1) * len <= usize::MAX,
            start.captured[1] + (limit + 1) * len <= usize::MAX,
            empties@.len() == len,
            forall|j: int| 0 <= j < empties@.len() ==> #[trigger] empties@[j] < len,
            last matches Some(p) ==> p < len,
            playout_steps(start, empties@, games, lasts, draws),
            games.last() == *game,
            lasts.last() == last,
            draws.len() == i,
        ensures
            game.finished || i == limit,
        decreases limit - i,
    {
        if game.finished {
            break;
        }
        proof {
            assert(i * len + len <= (limit + 1) * len) by (nonlinear_arith)
                requires
                    i < limit,
                    len > 0,
            ;
            assert((i + 1) * len == i * len + len) by (nonlinear_arith);
        }
        let ghost before = *game;
        let lucky = match last {
            Some(_) => chance(rng, 4, 5),
            None => false,
        };
        let first = below(rng, len);
        let choice = playout_step(game, &empties, last, lucky, first);
        let ghost here = *game;
        proof {
            if let Some(q) = choice {
                assert(game.legal_at(q as int));
            }
        }
        match choice {
            Some(p) => {
                game.play(p);
                last = Some(p);
            },
            None => {
                game.pass();
                last = None;
            },
        }
        proof {
            game.board.lemma_wf();
            let g2 = games.push(*game);
            let l2 = lasts.push(last);
            let d2 = draws.push((lucky, first));
            assert(stepped_out(before, empties@, lasts.last(), lucky, first as int, *game));
            assert(last == step_choice(before, empties@, lasts.last(), lucky, first as int));
            assert forall|k: int| #![trigger d2[k]] 0 <= k < d2.len() implies {
                &&& d2[k].1 < empties@.len()
                &&& !g2[k].finished
                &&& stepped_out(g2[k], empties@, l2[k], d2[k].0, d2[k].1 as int, g2[k + 1])
                &&& l2[k + 1] == step_choice(g2[k], empties@, l2[k], d2[k].0, d2[k].1 as int)
            } by {
                if k < draws.len() {
                    assert(d2[k] == draws[k]);
                    assert(g2[k] == games[k]);
                    assert(g2[k + 1] == games[k + 1]);
                    assert(l2[k] == lasts[k]);
                    assert(l2[k + 1] == lasts[k + 1]);
                } else {
                    assert(g2[k] == before);
                    assert(l2[k] == lasts.last());
                }
            }
            games = g2;
            lasts = l2;
            draws = d2;
        }
        i += 1;
    }
    let ghost stopped = *game;
    if !game.finished {
        game.pass();
        let ghost mid = *game;
        if !game.finished {
            game.pass();
        }
        proof {
            assert(stopped.after_pass(&mid));
        }
    }
    proof {
        assert(wound_up(stopped, *game));
        assert(played_out(start, *game)) by {
            assert(playout_steps(start, empties@, games, lasts, draws));
        }
    }
    let (black, white) = game.score();
    if black > white {
        Stone::Black
    } else {
        Stone::White
    }
}

/// One position of the search tree: the move that led to it, who is to move there, the position
/// above it, the positions below it, the moves not tried from it yet, and how many playouts
/// through it Black won out of how many.
struct Node {
    play: Play,
    turn: Stone,
    parent: Option<usize>,
    children: Vec<usize>,
    untried: Vec<Play>,
    wins: u64,
    visits: u64,
}

/// The engine's search tree, its root at index 0, for a board of `points` points.
pub struct Tree {
    nodes: Vec<Node>,
    points: usize,
}

/// The count `c` one up, stopping at the largest `u64`.
pub open spec fn bumped(c: u64, by: u64) -> u64 {
    if c + by > u64::MAX {
        u64::MAX
    } else {
        (c + by) as u64
    }
}

impl Tree {
    /// The root has no parent, and every other node's parent stands before it.
    pub closed spec fn parents_ok(&self) -> bool {
        let ns = self.nodes@;
        &&& ns.len() > 0
        &&& ns[0].parent is None
        &&& forall|i: int| 0 < i < ns.len() ==> ((#[trigger] ns[i]).parent matches Some(j) && j < i)
    }

    /// Every node's children stand after it, every move named is on the board, and no node has
    /// won more playouts than it has seen.
    pub closed spec fn nodes_ok(&self) -> bool {
        let ns = self.nodes@;
        &&& forall|i: int, k: int|
            0 <= i < ns.len() && 0 <= k < ns[i].children@.len() ==> i < #[trigger] ns[i].children@[k]
                < ns.len()
        &&& forall|i: int, k: int|
            0 <= i < ns.len() && 0 <= k < ns[i].untried@.len() ==> (
            #[trigger] ns[i].untried@[k] matches Play::Point(p) ==> p < self.points)
        &&& forall|i: int| 0 <= i < ns.len() ==> (#[trigger] ns[i]).wins <= ns[i].visits
        &&& forall|i: int|
            0 <= i < ns.len() ==> ((#[trigger] ns[i]).play matches Play::Point(p) ==> p < self.points)
    }

    /// The nodes hang together: see `parents_ok` and `nodes_ok`.
    pub closed spec fn wf(&self) -> bool {
        self.parents_ok() && self.nodes_ok()
    }

    /// How many nodes the tree has.
    pub closed spec fn size(&self) -> nat {
        self.nodes@.len()
    }

    /// How many points the board has.
    pub closed spec fn board_points(&self) -> nat {
        self.points as nat
    }

    /// The move that led to node `i`.
    pub closed spec fn play_of(&self, i: int) -> Play {
        self.nodes@[i].play
    }

    /// Who is to move at node `i`.
    pub closed spec fn turn_of(&self, i: int) -> Stone {
        self.nodes@[i].turn
    }

    /// The node above node `i`.
    pub closed spec fn parent_of(&self, i: int) -> Option<usize> {
        self.nodes@[i].parent
    }

    /// The nodes below node `i`.
    pub closed spec fn children_of(&self, i: int) -> Seq<usize> {
        self.nodes@[i].children@
    }

    /// The moves not tried yet from node `i`.
    pub closed spec fn untried_of(&self, i: int) -> Seq<Play> {
        self.nodes@[i].untried@
    }

    /// How many playouts through node `i` Black won.
    pub closed spec fn wins_of(&self, i: int) -> u64 {
        self.nodes@[i].wins
    }

    /// How many playouts went through node `i`.
    pub closed spec fn visits_of(&self, i: int) -> u64 {
        self.nodes@[i].visits
    }

    /// Every node's parent stands before it, the root at 0 has none and every other node has
    /// one; a node's children stand after it.
    pub proof fn lemma_wf(&self)
        requires
            self.wf(),
        ensures
            self.size() > 0,
            self.parent_of(0) is None,
            forall|i: int| 0 < i < self.size() ==> ((#[trigger] self.parent_of(i)) matches Some(j) && j < i),
            forall|i: int, k: int|
                0 <= i < self.size() && 0 <= k < self.children_of(i).len() ==> i < #[trigger] self.children_of(i)[k]
                    < self.size(),
            forall|i: int| 0 <= i < self.size() ==> #[trigger] self.wins_of(i) <= self.visits_of(i),
    {
    }

    /// A tree of one node for position `game`, with the engine's moves there (see `candidates`)
    /// in a random order, none of them tried.
    pub fn new(game: &mut Game, rng: &mut SmallRng) -> (t: Tree)
        requires
            old(game).wf(),
        ensures
            final(game).wf(),
            final(game).same_as(old(game)),
            t.wf(),
            t.size() == 1,
            t.board_points() == old(game).board@.len(),
            t.play_of(0) == Play::Pass,
            t.turn_of(0) == old(game).turn,
            t.children_of(0).len() == 0,
            t.untried_of(0).to_multiset() == candidates(*old(game)).to_multiset(),
            t.wins_of(0) == 0,
            t.visits_of(0) == 0,
    {
        let points = game.board.points();
        let node = fresh_node(Play::Pass, game, None, rng);
        let mut nodes: Vec<Node> = Vec::new();
        nodes.push(node);
        Tree { nodes, points }
    }

    /// How many nodes the tree has.
    pub fn node_count(&self) -> (r: usize)
        ensures
            r == self.size(),
    {
        self.nodes.len()
    }

    /// The move that led to node `i`.
    pub fn play(&self, i: usize) -> (r: Play)
        requires
            i < self.size(),
        ensures
            r == self.play_of(i as int),
    {
        self.nodes[i].play
    }

    /// Who is to move at node `i`.
    pub fn turn(&self, i: usize) -> (r: Stone)
        requires
            i < self.size(),
        ensures
            r == self.turn_of(i as int),
    {
        self.nodes[i].turn
    }

    /// How many nodes hang below node `i`.
    pub fn child_count(&self, i: usize) -> (r: usize)
        requires
            i < self.size(),
        ensures
            r == self.children_of(i as int).len(),
    {
        self.nodes[i].children.len()
    }

    /// The `k`-th node below node `i`.
    pub fn child(&self, i: usize, k: usize) -> (r: usize)
        requires
            i < self.size(),
            k < self.children_of(i as int).len(),
        ensures
            r == self.children_of(i as int)[k as int],
    {
        self.nodes[i].children[k]
    }

    /// Whether every move from node `i` has been tried.
    pub fn all_tried(&self, i: usize) -> (r: bool)
        requires
            i < self.size(),
        ensures
            r == (self.untried_of(i as int).len() == 0),
    {
        self.nodes[i].untried.len() == 0
    }

    /// How many playouts through node `i` Black won.
    pub fn wins(&self, i: usize) -> (r: u64)
        requires
            i < self.size(),
        ensures
            r == self.wins_of(i as int),
    {
        self.nodes[i].wins
    }

    /// How many playouts went through node `i`.
    pub fn visits(&self, i: usize) -> (r: u64)
        requires
            i < self.size(),
        ensures
            r == self.visits_of(i as int),
    {
        self.nodes[i].visits
    }

    /// Tries the next untried move from node `current`: makes it in `position` (the position of
    /// that node) and hangs a new node for the result below `current`; gives the new node, or
    /// none when every move from `current` has been tried. The new node's moves are the
    /// engine's moves there, in a random order.
    pub fn expand(&mut self, current: usize, position: &mut Game, rng: &mut SmallRng) -> (r: Option<usize>)
        requires
            old(self).wf(),
            current < old(self).size(),
            old(self).size() < usize::MAX,
            old(position).wf(),
            old(position).board@.len() == old(self).board_points(),
            old(position).move_number < usize::MAX,
            old(position).passes < usize::MAX,
            old(position).captured[0] + old(position).board@.len() <= usize::MAX,
            old(position).captured[1] + old(position).board@.len() <= usize::MAX,
        ensures
            final(self).wf(),
            final(position).wf(),
            final(self).board_points() == old(self).board_points(),
            old(self).untried_of(current as int).len() == 0 ==> r is None && *final(self) == *old(
                self,
            ) && *final(position) == *old(position),
            old(self).untried_of(current as int).len() > 0 ==> {
                let play = old(self).untried_of(current as int).last();
                &&& r == Some(old(self).size() as usize)
                &&& final(self).size() == old(self).size() + 1
                &&& old(position).after_make(play, final(position))
                &&& final(self).play_of(old(self).size() as int) == play
                &&& final(self).turn_of(old(self).size() as int) == final(position).turn
                &&& final(self).parent_of(old(self).size() as int) == Some(current)
                &&& final(self).children_of(old(self).size() as int).len() == 0
                &&& final(self).untried_of(old(self).size() as int).to_multiset() == candidates(
                    *final(position),
                ).to_multiset()
                &&& final(self).visits_of(old(self).size() as int) == 0
                &&& final(self).untried_of(current as int) == old(self).untried_of(
                    current as int,
                ).drop_last()
                &&& final(self).children_of(current as int) == old(self).children_of(
                    current as int,
                ).push(old(self).size() as usize)
                &&& forall|i: int|
                    0 <= i < old(self).size() && i != current ==> final(self).untried_of(i)
                        == old(self).untried_of(i) && final(self).children_of(i)
                        == old(self).children_of(i)
                &&& forall|i: int|
                    0 <= i < old(self).size() ==> final(self).play_of(i) == old(self).play_of(i)
                        && final(self).turn_of(i) == old(self).turn_of(i) && final(self).parent_of(i)
                        == old(self).parent_of(i) && final(self).wins_of(i) == old(self).wins_of(i)
                        && final(self).visits_of(i) == old(self).visits_of(i)
            },
    {
        if self.nodes[current].untried.len() == 0 {
            return None;
        }
        let mut taken: Vec<Play> = Vec::new();
        std::mem::swap(&mut taken, &mut self.nodes[current].untried);
        let ghost all = taken@;
        let play = taken.pop().unwrap();
        std::mem::swap(&mut taken, &mut self.nodes[current].untried);
        proof {
            assert(all[all.len() - 1] == play);
            if let Play::Point(p) = play {
                assert(p < self.points);
            }
        }
        position.make(play);
        let ghost made = *position;
        proof {
            position.board.lemma_wf();
            old(position).board.lemma_wf();
        }
        let node = fresh_node(play, position, Some(current), rng);
        proof {
            lemma_candidates_same(made, *position);
        }
        let index = self.nodes.len();
        self.nodes.push(node);
        let mut below: Vec<usize> = Vec::new();
        std::mem::swap(&mut below, &mut self.nodes[current].children);
        below.push(index);
        std::mem::swap(&mut below, &mut self.nodes[current].children);
        proof {
            let ns = self.nodes@;
            let os = old(self).nodes@;
            assert(ns.len() == os.len() + 1);
            assert forall|i: int| 0 < i < ns.len() implies ((#[trigger] ns[i]).parent matches Some(j)
                && j < i) by {
                if i < index {
                    assert(ns[i].parent == os[i].parent);
                }
            }
            assert forall|i: int, k: int|
                0 <= i < ns.len() && 0 <= k < ns[i].children@.len() implies i
                    < #[trigger] ns[i].children@[k] < ns.len() by {
                if i != current && i < index {
                    assert(ns[i].children@ == os[i].children@);
                }
            }
            assert forall|i: int, k: int|
                0 <= i < ns.len() && 0 <= k < ns[i].untried@.len() implies (
                #[trigger] ns[i].untried@[k] matches Play::Point(p) ==> p < self.points) by {
                if i == current {
                    assert(ns[i].untried@[k] == os[i].untried@[k]);
                } else if i < index {
                    assert(ns[i].untried@ == os[i].untried@);
                } else {
                    assert(ns[i] == node);
                }
            }
            assert(self.parents_ok());
            assert(self.nodes_ok());
        }
        Some(index)
    }

    /// Counts a playout through node `from` and every node above it, won by Black or not;
    /// counts stop at the largest `u64`.
    pub fn backup(&mut self, from: usize, black_won: bool)
        requires
            old(self).wf(),
            from < old(self).size(),
        ensures
            final(self).wf(),
            final(self).size() == old(self).size(),
            final(self).board_points() == old(self).board_points(),
            forall|i: int|
                0 <= i < old(self).size() ==> {
                    &&& final(self).play_of(i) == old(self).play_of(i)
                    &&& final(self).turn_of(i) == old(self).turn_of(i)
                    &&& final(self).parent_of(i) == old(self).parent_of(i)
                    &&& final(self).children_of(i) == old(self).children_of(i)
                    &&& final(self).untried_of(i) == old(self).untried_of(i)
                    &&& final(self).visits_of(i) == if old(self).on_path(from as int, i) {
                        bumped(old(self).visits_of(i), 1)
                    } else {
                        old(self).visits_of(i)
                    }
                    &&& final(self).wins_of(i) == if old(self).on_path(from as int, i) {
                        bumped(old(self).wins_of(i), if black_won { 1 } else { 0 })
                    } else {
                        old(self).wins_of(i)
                    }
                },
    {
        let score: u64 = if black_won {
            1
        } else {
            0
        };
        let mut walk: Option<usize> = Some(from);
        proof {
            old(self).lemma_wf();
        }
        while walk.is_some()
            invariant
                self.wf(),
                old(self).wf(),
                self.nodes@.len() == old(self).nodes@.len(),
                self.points == old(self).points,
                from < old(self).size(),
                score == (if black_won {
                    1u64
                } else {
                    0u64
                }),
                walk matches Some(w) ==> w <= from && old(self).on_path(from as int, w as int),
                forall|i: int|
                    0 <= i < old(self).size() ==> {
                        let done = old(self).on_path(from as int, i) && match walk {
                            Some(w) => !old(self).on_path(w as int, i),
                            None => true,
                        };
                        &&& (#[trigger] self.nodes@[i]).play == old(self).nodes@[i].play
                        &&& self.nodes@[i].turn == old(self).nodes@[i].turn
                        &&& self.nodes@[i].parent == old(self).nodes@[i].parent
                        &&& self.nodes@[i].children@ == old(self).nodes@[i].children@
                        &&& self.nodes@[i].untried@ == old(self).nodes@[i].untried@
                        &&& self.nodes@[i].visits == if done {
                            bumped(old(self).nodes@[i].visits, 1)
                        } else {
                            old(self).nodes@[i].visits
                        }
                        &&& self.nodes@[i].wins == if done {
                            bumped(old(self).nodes@[i].wins, score)
                        } else {
                            old(self).nodes@[i].wins
                        }
                    },
            decreases (match walk {
                Some(w) => w + 1,
                None => 0,
            }),
        {
            let index = walk.unwrap();
            let ghost pre = self.nodes@;
            proof {
                old(self).lemma_path_below(from as int, index as int);
            }
            let visits = self.nodes[index].visits.saturating_add(1);
            let wins = self.nodes[index].wins.saturating_add(score);
            self.nodes[index].visits = visits;
            self.nodes[index].wins = wins;
            walk = self.nodes[index].parent;
            proof {
                old(self).lemma_path_step(from as int, index as int);
                let ns = self.nodes@;
                assert forall|i: int| 0 < i < ns.len() implies ((#[trigger] ns[i]).parent matches Some(j)
                    && j < i) by {
                    assert(ns[i].parent == pre[i].parent);
                    assert(pre[i].parent matches Some(j) && j < i);
                }
                assert forall|i: int, k: int|
                    0 <= i < ns.len() && 0 <= k < ns[i].children@.len() implies i
                        < #[trigger] ns[i].children@[k] < ns.len() by {
                    assert(ns[i].children@ == pre[i].children@);
                }
                assert forall|i: int, k: int|
                    0 <= i < ns.len() && 0 <= k < ns[i].untried@.len() implies (
                    #[trigger] ns[i].untried@[k] matches Play::Point(p) ==> p < self.points) by {
                    assert(ns[i].untried@ == pre[i].untried@);
                    assert(pre[i].untried@[k] matches Play::Point(p) ==> p < self.points);
                }
                assert forall|i: int| 0 <= i < ns.len() implies (#[trigger] ns[i]).wins <= ns[i].visits by {
                    assert(pre[i].wins <= pre[i].visits);
                    if i == index {
                        assert(ns[i].wins == wins);
                        assert(ns[i].visits == visits);
                        assert(score <= 1);
                    } else {
                        assert(ns[i].wins == pre[i].wins);
                        assert(ns[i].visits == pre[i].visits);
                    }
                }
                assert forall|i: int|
                    0 <= i < ns.len() implies ((#[trigger] ns[i]).play matches Play::Point(p) ==> p
                        < self.points) by {
                    assert(ns[i].play == pre[i].play);
                    assert(pre[i].play matches Play::Point(p) ==> p < self.points);
                }
            }
        }
    }

    /// Whether node `a` is `x` or a node above it.
    pub closed spec fn on_path(&self, x: int, a: int) -> bool
        decreases x,
    {
        if x < 0 || x >= self.nodes@.len() {
            false
        } else if a == x {
            true
        } else {
            match self.nodes@[x].parent {
                Some(p) => if p < x {
                    self.on_path(p as int, a)
                } else {
                    false
                },
                None => false,
            }
        }
    }

    /// The nodes on the way up from `x` stand at or before it.
    proof fn lemma_path_below(&self, x: int, a: int)
        requires
            self.parents_ok(),
            self.on_path(x, a),
        ensures
            0 <= a <= x < self.nodes@.len(),
        decreases x,
    {
        if a != x {
            let p = self.nodes@[x].parent.unwrap();
            self.lemma_path_below(p as int, a);
        }
    }

    /// The way up from `x` is `x`, then the way up from its parent.
    proof fn lemma_path_step(&self, from: int, x: int)
        requires
            self.parents_ok(),
            0 <= x < self.nodes@.len(),
        ensures
            forall|a: int| #[trigger] self.on_path(x, a) <==> (a == x || match self.nodes@[x].parent {
                Some(p) => self.on_path(p as int, a),
                None => false,
            }),
            self.nodes@[x].parent matches Some(p) ==> !self.on_path(p as int, x) && (
            self.on_path(from, x) ==> self.on_path(from, p as int)),
        decreases from,
    {
        if let Some(p) = self.nodes@[x].parent {
            assert(p < x);
            if self.on_path(p as int, x) {
                self.lemma_path_below(p as int, x);
            }
            if self.on_path(from, x) {
                self.lemma_path_trans(from, x, p);
            }
        }
    }

    /// A node above a node on the way up from `from` is on that way too.
    proof fn lemma_path_trans(&self, from: int, x: int, p: usize)
        requires
            self.parents_ok(),
            self.on_path(from, x),
            0 <= x < self.nodes@.len(),
            self.nodes@[x].parent == Some(p),
        ensures
            self.on_path(from, p as int),
        decreases from,
    {
        let ns = self.nodes@;
        assert(x > 0);
        assert(ns[x].parent matches Some(j) && j < x);
        if from == x {
            assert(self.on_path(p as int, p as int));
        } else {
            let q = ns[from].parent.unwrap();
            assert(q < from);
            self.lemma_path_trans(q as int, x, p);
            if p as int != from {
                assert(self.on_path(from, p as int) == self.on_path(q as int, p as int));
            }
        }
    }

    /// The moves from the root and how many playouts went through each, in the order they
    /// were first tried.
    pub fn branches(&self) -> (r: Vec<(Play, u64)>)
        requires
            self.wf(),
        ensures
            r@.len() == self.children_of(0).len(),
            forall|k: int|
                0 <= k < r@.len() ==> #[trigger] r@[k] == (
                    self.play_of(self.children_of(0)[k] as int),
                    self.visits_of(self.children_of(0)[k] as int),
                ),
    {
        let mut r: Vec<(Play, u64)> = Vec::new();
        let count = self.nodes[0].children.len();
        let mut k: usize = 0;
        while k < count
            invariant
                self.wf(),
                count == self.children_of(0).len(),
                0 <= k <= count,
                r@.len() == k,
                forall|j: int|
                    0 <= j < k ==> #[trigger] r@[j] == (
                        self.play_of(self.children_of(0)[j] as int),
                        self.visits_of(self.children_of(0)[j] as int),
                    ),
            decreases count - k,
        {
            let child = self.nodes[0].children[k];
            proof {
                self.lemma_wf();
                assert(self.children_of(0)[k as int] == child);
            }
            r.push((self.nodes[child].play, self.nodes[child].visits));
            k += 1;
        }
        r
    }
}

/// A node for position `game`, reached by `play` from `parent`, with the engine's moves there
/// in a random order and no playouts yet.
fn fresh_node(play: Play, game: &mut Game, parent: Option<usize>, rng: &mut SmallRng) -> (node: Node)
    requires
        old(game).wf(),
    ensures
        final(game).wf(),
        final(game).same_as(old(game)),
        node.play == play,
        node.turn == old(game).turn,
        node.parent == parent,
        node.children@.len() == 0,
        node.untried@.to_multiset() == candidates(*old(game)).to_multiset(),
        forall|k: int|
            0 <= k < node.untried@.len() ==> (#[trigger] node.untried@[k] matches Play::Point(p) ==> p
                < old(game).board@.len()),
        node.wins == 0,
        node.visits == 0,
{
    let ghost start = *game;
    let mut untried = candidate_moves(game);
    proof {
        lemma_candidates_on_board(start);
    }
    let ghost before = untried@;
    shuffle(&mut untried, rng);
    proof {
        before.to_multiset_ensures();
        untried@.to_multiset_ensures();
        assert forall|k: int| 0 <= k < untried@.len() implies (#[trigger] untried@[k] matches Play::Point(
            p,
        ) ==> p < start.board@.len()) by {
            assert(untried@.contains(untried@[k]));
            assert(untried@.to_multiset().count(untried@[k]) > 0);
            assert(before.contains(untried@[k]));
        }
    }
    Node {
        play,
        turn: game.turn,
        parent,
        children: Vec::new(),
        untried,
        wins: 0,
        visits: 0,
    }
}

/// Positions that are the same give the same moves.
proof fn lemma_candidates_same(a: Game, b: Game)
    requires
        a.same_as(&b),
    ensures
        candidates(a) == candidates(b),
{
    lemma_candidate_points_same(a, b, a.board@.len() as int);
}

/// Positions that are the same give the same moves among the first `k` points.
proof fn lemma_candidate_points_same(a: Game, b: Game, k: int)
    requires
        a.same_as(&b),
    ensures
        candidate_points(a, k) == candidate_points(b, k),
    decreases k,
{
    if k > 0 {
        lemma_candidate_points_same(a, b, k - 1);
    }
}

/// The engine's moves among the first `k` points name points before `k`.
proof fn lemma_candidate_points(g: Game, k: int)
    ensures
        forall|j: int|
            0 <= j < candidate_points(g, k).len() ==> (#[trigger] candidate_points(g, k)[j] matches Play::Point(
                p,
            ) ==> p < k),
    decreases k,
{
    if k > 0 {
        lemma_candidate_points(g, k - 1);
    }
}

/// The engine's moves name points of the board.
proof fn lemma_candidates_on_board(g: Game)
    ensures
        forall|j: int|
            0 <= j < candidates(g).len() ==> (#[trigger] candidates(g)[j] matches Play::Point(p) ==> p
                < g.board@.len()),
{
    let n = g.board@.len() as int;
    lemma_candidate_points(g, n);
    if !g.finished {
        assert forall|j: int| 0 <= j < candidates(g).len() implies (#[trigger] candidates(
            g,
        )[j] matches Play::Point(p) ==> p < g.board@.len()) by {
            if j < candidate_points(g, n).len() {
                assert(candidates(g)[j] == candidate_points(g, n)[j]);
            }
        }
    }
}

/// How long the engine thinks at strength `level` on a board `size` wide, in milliseconds:
/// 120 and 220 more for each step of strength from 1 to 10, twice that from 13 points wide and
/// three times from 19.
pub open spec fn budget_ms(level: int, size: int) -> int {
    let strength: int = if level < 1 {
        1
    } else if level > 10 {
        10
    } else {
        level
    };
    let slower: int = if size >= 19 {
        3
    } else if size >= 13 {
        2
    } else {
        1
    };
    (120 + 220 * strength) * slower
}

/// How long the engine thinks, in milliseconds: see `budget_ms`.
pub fn budget_for(level: u8, size: usize) -> (ms: u64)
    ensures
        ms == budget_ms(level as int, size as int),
{
    let strength: u64 = if level < 1 {
        1
    } else if level > 10 {
        10
    } else {
        level as u64
    };
    let base = 120 + 220 * strength;
    let slower: u64 = if size >= 19 {
        3
    } else if size >= 13 {
        2
    } else {
        1
    };
    base * slower
}

/// How often, in percent, the engine at strength `level` plays one of its other good moves
/// instead of its best: often at strength 1, less and less up to 6, never from 7 on.
pub open spec fn sloppiness(level: int) -> int {
    if level == 1 {
        80
    } else if level == 2 {
        55
    } else if level == 3 {
        35
    } else if level == 4 {
        20
    } else if level == 5 {
        10
    } else if level == 6 {
        4
    } else {
        0
    }
}

/// How many of its best moves a sloppy engine picks from among `count`: a third of them,
/// at least one and at most twelve.
pub open spec fn spread(count: int) -> int {
    if count / 3 < 1 {
        1
    } else if count / 3 > 12 {
        12
    } else {
        count / 3
    }
}

/// Whether the engine at strength `level` plays another of its `count` moves, ranked best
/// first, and which: by chance (see `sloppiness`), one of the first few (see `spread`); none
/// when it is not sloppy at all or has one move only.
pub fn sloppy_pick(count: usize, level: u8, rng: &mut SmallRng) -> (r: Option<usize>)
    ensures
        r matches Some(i) ==> i < spread(count as int) && count > 1 && sloppiness(level as int) > 0,
        sloppiness(level as int) == 0 || count <= 1 ==> r is None,
{
    let percent = sloppiness_of(level);
    if percent == 0 || count <= 1 {
        return None;
    }
    let lucky = chance(rng, percent, 100);
    let width = spread_of(count);
    let pick = if lucky {
        below(rng, width)
    } else {
        0
    };
    sloppy_choice(count, level, lucky, pick)
}

/// How often, in hundredths, the engine at strength `level` plays another move: see
/// `sloppiness`.
pub fn sloppiness_of(level: u8) -> (r: u32)
    ensures
        r == sloppiness(level as int),
{
    if level == 1 {
        80
    } else if level == 2 {
        55
    } else if level == 3 {
        35
    } else if level == 4 {
        20
    } else if level == 5 {
        10
    } else if level == 6 {
        4
    } else {
        0
    }
}

/// Among how many of `count` moves the other move is drawn: see `spread`.
pub fn spread_of(count: usize) -> (r: usize)
    ensures
        r == spread(count as int),
        r >= 1,
{
    let third = count / 3;
    if third < 1 {
        1
    } else if third > 12 {
        12
    } else {
        third
    }
}

/// Which of `count` moves, ranked best first, the engine at strength `level` plays instead of
/// the best, given whether chance fell its way (`lucky`) and the place `pick` drawn among the
/// first few: that place when the engine is sloppy at all, has more than one move and chance
/// fell its way; none otherwise.
pub fn sloppy_choice(count: usize, level: u8, lucky: bool, pick: usize) -> (r: Option<usize>)
    ensures
        r == (if sloppiness(level as int) > 0 && count > 1 && lucky {
            Some(pick)
        } else {
            None
        }),
{
    if level < 1 || level > 6 || count <= 1 || !lucky {
        None
    } else {
        Some(pick)
    }
}

/// The moves of several searches put together: each move once, with the playouts of all the
/// searches that tried it added up (stopping at the largest `u64`), in the order first seen.
pub open spec fn merged(branches: Seq<(Play, u64)>) -> Seq<(Play, u64)>
    decreases branches.len(),
{
    if branches.len() == 0 {
        Seq::empty()
    } else {
        let before = merged(branches.drop_last());
        let (play, visits) = branches.last();
        match find_play(before, play) {
            Some(k) => before.update(k, (play, bumped(before[k].1, visits))),
            None => before.push((play, visits)),
        }
    }
}

/// Where move `play` stands in `items`, if anywhere.
pub open spec fn find_play(items: Seq<(Play, u64)>, play: Play) -> Option<int> {
    if exists|k: int| 0 <= k < items.len() && items[k].0 == play {
        Some(choose|k: int| 0 <= k < items.len() && items[k].0 == play)
    } else {
        None
    }
}

/// No move stands twice in `items`.
pub open spec fn distinct_plays(items: Seq<(Play, u64)>) -> bool {
    forall|i: int, j: int| 0 <= i < j < items.len() ==> #[trigger] items[i].0 != #[trigger] items[j].0
}

/// Puts together the moves that several searches found at the root: see `merged`; then ranks
/// them, the most played first, moves played as often in the order they were first found.
pub fn merge_branches(branches: &Vec<(Play, u64)>) -> (r: Vec<(Play, u64)>)
    ensures
        r@.to_multiset() == merged(branches@).to_multiset(),
        distinct_plays(r@),
        forall|i: int, j: int| 0 <= i < j < r@.len() ==> #[trigger] r@[i].1 >= #[trigger] r@[j].1,
        forall|i: int, j: int|
            0 <= i < j < r@.len() && #[trigger] r@[i].1 == #[trigger] r@[j].1 ==> find_play(
                merged(branches@),
                r@[i].0,
            ).unwrap() < find_play(merged(branches@), r@[j].0).unwrap(),
{
    let mut items: Vec<(Play, u64)> = Vec::new();
    let mut b: usize = 0;
    while b < branches.len()
        invariant
            0 <= b <= branches@.len(),
            items@ == merged(branches@.take(b as int)),
            distinct_plays(items@),
        decreases branches@.len() - b,
    {
        let (play, visits) = branches[b];
        proof {
            assert(branches@.take(b as int + 1).drop_last() =~= branches@.take(b as int));
            assert(branches@.take(b as int + 1).last() == (play, visits));
        }
        let mut k: usize = 0;
        while k < items.len() && items[k].0 != play
            invariant
                0 <= k <= items@.len(),
                forall|j: int| 0 <= j < k ==> items@[j].0 != play,
            decreases items@.len() - k,
        {
            k += 1;
        }
        if k < items.len() {
            let (p, v) = items[k];
            proof {
                assert(items@[k as int].0 == play);
                let c = choose|c: int| 0 <= c < items@.len() && items@[c].0 == play;
                if c != k as int {
                    assert(items@[c].0 == items@[k as int].0);
                }
            }
            items.set(k, (p, v.saturating_add(visits)));
            proof {
                assert(p == play);
            }
        } else {
            items.push((play, visits));
        }
        b += 1;
    }
    proof {
        assert(branches@.take(branches@.len() as int) =~= branches@);
    }
    rank_by_visits(items)
}

/// `items` ranked by their playouts, the most first; items with as many playouts keep their
/// order.
fn rank_by_visits(items: Vec<(Play, u64)>) -> (r: Vec<(Play, u64)>)
    requires
        distinct_plays(items@),
    ensures
        r@.to_multiset() == items@.to_multiset(),
        distinct_plays(r@),
        forall|i: int, j: int| 0 <= i < j < r@.len() ==> #[trigger] r@[i].1 >= #[trigger] r@[j].1,
        forall|i: int, j: int|
            0 <= i < j < r@.len() && #[trigger] r@[i].1 == #[trigger] r@[j].1 ==> find_play(
                items@,
                r@[i].0,
            ).unwrap() < find_play(items@, r@[j].0).unwrap(),
{
    let mut ranked: Vec<(Play, u64)> = Vec::new();
    let mut i: usize = 0;
    proof {
        assert(items@.take(0) =~= ranked@);
    }
    while i < items.len()
        invariant
            0 <= i <= items@.len(),
            distinct_plays(items@),
            ranked@.to_multiset() == items@.take(i as int).to_multiset(),
            forall|a: int, b: int|
                0 <= a < b < ranked@.len() ==> #[trigger] ranked@[a].1 >= #[trigger] ranked@[b].1,
            forall|a: int| 0 <= a < ranked@.len() ==> items@.take(i as int).contains(#[trigger] ranked@[a]),
            distinct_plays(ranked@),
            forall|a: int, b: int|
                0 <= a < b < ranked@.len() && #[trigger] ranked@[a].1 == #[trigger] ranked@[b].1
                    ==> find_play(items@, ranked@[a].0).unwrap() < find_play(
                    items@,
                    ranked@[b].0,
                ).unwrap(),
        decreases items@.len() - i,
    {
        let item = items[i];
        let mut at: usize = 0;
        while at < ranked.len() && ranked[at].1 >= item.1
            invariant
                0 <= at <= ranked@.len(),
                forall|a: int| 0 <= a < at ==> ranked@[a].1 >= item.1,
            decreases ranked@.len() - at,
        {
            at += 1;
        }
        let ghost before = ranked@;
        ranked.insert(at, item);
        proof {
            let t0 = items@.take(i as int);
            let t1 = items@.take(i as int + 1);
            assert(t1 =~= t0.push(item));
            assert(ranked@ =~= before.insert(at as int, item));
            vstd::seq_lib::to_multiset_insert(before, at as int, item);
            vstd::seq_lib::to_multiset_build(t0, item);
            assert(ranked@.to_multiset() =~= t1.to_multiset());
            assert forall|a: int| 0 <= a < ranked@.len() implies t1.contains(#[trigger] ranked@[a]) by {
                if a < at {
                    assert(ranked@[a] == before[a]);
                    assert(t0.contains(before[a]));
                } else if a == at {
                    assert(t1[i as int] == item);
                } else {
                    assert(ranked@[a] == before[a - 1]);
                    assert(t0.contains(before[a - 1]));
                }
            }
            assert forall|a: int, b: int|
                0 <= a < b < ranked@.len() implies #[trigger] ranked@[a].0 != #[trigger] ranked@[b].0 by {
                let xa = if a < at { a } else if a == at { -1 } else { a - 1 };
                let xb = if b < at { b } else if b == at { -1 } else { b - 1 };
                if a == at || b == at {
                    let other = if a == at { xb } else { xa };
                    let ka = choose|k: int| 0 <= k < t0.len() && t0[k] == before[other];
                    assert(t0[ka] == items@[ka]);
                    assert(ka < i);
                    assert(items@[i as int] == item);
                } else {
                    assert(ranked@[a] == before[xa]);
                    assert(ranked@[b] == before[xb]);
                }
            }
            assert forall|a: int, b: int|
                0 <= a < b < ranked@.len() implies #[trigger] ranked@[a].1 >= #[trigger] ranked@[b].1 by {
                if b < at {
                } else if a < at && b == at {
                    assert(before[a].1 >= item.1);
                } else if a < at {
                    assert(ranked@[b] == before[b - 1]);
                    assert(ranked@[a] == before[a]);
                } else if a == at {
                    assert(ranked@[b] == before[b - 1]);
                    assert(before[at as int].1 < item.1);
                    assert(before[at as int].1 >= before[b - 1].1);
                } else {
                    assert(ranked@[b] == before[b - 1]);
                    assert(ranked@[a] == before[a - 1]);
                }
            }
            lemma_find_distinct(items@, i as int);
            assert forall|a: int, b: int|
                0 <= a < b < ranked@.len() && #[trigger] ranked@[a].1 == #[trigger] ranked@[b].1
                    implies find_play(items@, ranked@[a].0).unwrap() < find_play(
                    items@,
                    ranked@[b].0,
                ).unwrap() by {
                if b < at {
                    assert(ranked@[a] == before[a]);
                    assert(ranked@[b] == before[b]);
                } else if a < at && b == at {
                    assert(ranked@[a] == before[a]);
                    assert(t0.contains(before[a]));
                    let k = choose|k: int| 0 <= k < t0.len() && t0[k] == before[a];
                    assert(items@[k] == before[a]);
                    lemma_find_distinct(items@, k);
                } else if a < at {
                    assert(ranked@[b] == before[b - 1]);
                    assert(ranked@[a] == before[a]);
                } else if a == at {
                    assert(ranked@[b] == before[b - 1]);
                    assert(before[at as int].1 < item.1);
                    assert(before[at as int].1 >= before[b - 1].1);
                } else {
                    assert(ranked@[b] == before[b - 1]);
                    assert(ranked@[a] == before[a - 1]);
                }
            }
        }
        i += 1;
    }
    proof {
        assert(items@.take(items@.len() as int) =~= items@);
    }
    ranked
}

/// In a list where no move stands twice, the move at `k` is found at `k`.
proof fn lemma_find_distinct(items: Seq<(Play, u64)>, k: int)
    requires
        distinct_plays(items),
        0 <= k < items.len(),
    ensures
        find_play(items, items[k].0) == Some(k),
{
    assert(items[k].0 == items[k].0);
    let c = choose|c: int| 0 <= c < items.len() && items[c].0 == items[k].0;
    if c < k {
        assert(items[c].0 != items[k].0);
    } else if c > k {
        assert(items[k].0 != items[c].0);
    }
}

/// A move from a searched position and how many random games went through it.
#[derive(Clone, Copy, PartialEq, Eq, Debug, Structural)]
pub struct Candidate {
    pub play: Play,
    pub visits: u32,
}

/// The ranked moves `ranked` as candidates, each count kept within the largest `u32`.
pub fn candidates_of(ranked: &Vec<(Play, u64)>) -> (r: Vec<Candidate>)
    ensures
        r@.len() == ranked@.len(),
        forall|k: int|
            0 <= k < r@.len() ==> #[trigger] r@[k] == (Candidate {
                play: ranked@[k].0,
                visits: if ranked@[k].1 <= u32::MAX {
                    ranked@[k].1 as u32
                } else {
                    u32::MAX
                },
            }),
{
    let mut r: Vec<Candidate> = Vec::new();
    let mut k: usize = 0;
    while k < ranked.len()
        invariant
            0 <= k <= ranked@.len(),
            r@.len() == k,
            forall|j: int|
                0 <= j < k ==> #[trigger] r@[j] == (Candidate {
                    play: ranked@[j].0,
                    visits: if ranked@[j].1 <= u32::MAX {
                        ranked@[j].1 as u32
                    } else {
                        u32::MAX
                    },
                }),
        decreases ranked@.len() - k,
    {
        let (play, visits) = ranked[k];
        let kept: u32 = if visits <= u32::MAX as u64 {
            visits as u32
        } else {
            u32::MAX
        };
        r.push(Candidate { play, visits: kept });
        k += 1;
    }
    r
}

} // verus!
