//! What a legal move leaves on the board: captures only empty points, and the stone played
//! always has a liberty afterwards.
use vstd::prelude::*;
use vstd::set_lib::*;
use crate::game::{
    Game, Stone, opposite, capture_pass, group_of, liberties_of, without_group, opens_at,
};
use crate::geometry::{
    adjacent_points, connected, step, lemma_adjacent, lemma_connected_start, lemma_connected_step,
    lemma_connected_within, lemma_connected_same, lemma_connected_colour,
    lemma_connected_same_region, lemma_connected_finite,
};
use crate::walk::lemma_liberties_finite;

verus! {

/// Taking chains off the board only empties points that held the colour taken.
pub proof fn lemma_capture_only_empties(n: int, cells: Seq<Stone>, nbs: Seq<int>, enemy: Stone)
    requires
        enemy != Stone::Empty,
    ensures
        capture_pass(n, cells, nbs, enemy).0.len() == cells.len(),
        forall|i: int|
            0 <= i < cells.len() ==> (#[trigger] capture_pass(n, cells, nbs, enemy).0[i] == cells[i]
                || (cells[i] == enemy && capture_pass(n, cells, nbs, enemy).0[i] == Stone::Empty)),
    decreases nbs.len(),
{
    if nbs.len() > 0 {
        lemma_capture_only_empties(n, cells, nbs.drop_last(), enemy);
        let c0 = capture_pass(n, cells, nbs.drop_last(), enemy).0;
        let q = nbs.last();
        if c0[q] == enemy && liberties_of(n, c0, q).len() == 0 {
            let c1 = without_group(n, c0, q);
            assert forall|i: int| 0 <= i < cells.len() implies (c1[i] == cells[i] || (cells[i]
                == enemy && c1[i] == Stone::Empty)) by {
                if group_of(n, c0, q).contains(i) {
                    if i != q {
                        lemma_connected_colour(n, c0, enemy, q, i);
                    }
                    assert(c0[i] == enemy);
                }
            }
        }
    }
}

/// Two chains of one colour that do not hold each other's stones share no point.
proof fn lemma_chains_apart(n: int, c: Seq<Stone>, enemy: Stone, q2: int, q: int)
    requires
        0 < n,
        c.len() == n * n,
        0 <= q < c.len(),
        0 <= q2 < c.len(),
        c[q] == enemy,
        c[q2] == enemy,
        !connected(n, c, enemy, q2).contains(q),
    ensures
        forall|x: int| connected(n, c, enemy, q2).contains(x) ==> !connected(n, c, enemy, q).contains(x),
{
    assert forall|x: int| connected(n, c, enemy, q2).contains(x) implies !connected(n, c, enemy, q).contains(x) by {
        if connected(n, c, enemy, q).contains(x) {
            if x != q2 {
                lemma_connected_colour(n, c, enemy, q2, x);
            }
            lemma_connected_same_region(n, c, enemy, q2, x);
            lemma_connected_same_region(n, c, enemy, q, x);
            lemma_connected_start(n, c, enemy, q);
        }
    }
}

/// After one chain is taken off, another chain of the same colour holds no more than before.
proof fn lemma_other_chain_within(n: int, c0: Seq<Stone>, enemy: Stone, q2: int, q: int)
    requires
        0 < n,
        c0.len() == n * n,
        enemy != Stone::Empty,
        0 <= q < c0.len(),
        c0[q2] == enemy,
    ensures
        connected(n, without_group(n, c0, q2), enemy, q).subset_of(connected(n, c0, enemy, q)),
{
    let c1 = without_group(n, c0, q2);
    let v = connected(n, c0, enemy, q);
    lemma_connected_finite(n, c0, enemy, q);
    assert forall|a: int, b: int| v.contains(a) && #[trigger] step(n, c1, enemy, a, b) implies v.contains(b) by {
        lemma_adjacent(n, a);
        let k = choose|k: int| 0 <= k < adjacent_points(n, a).len() && adjacent_points(n, a)[k] == b;
        assert(0 <= b < c0.len());
        assert(c0[b] == enemy);
        assert(step(n, c0, enemy, a, b));
        lemma_connected_step(n, c0, enemy, q, a, b);
    }
    lemma_connected_start(n, c0, enemy, q);
    lemma_connected_within(n, c1, enemy, q, v);
}

/// After one chain is taken off, another chain of the same colour still holds all it held.
proof fn lemma_other_chain_keeps(n: int, c0: Seq<Stone>, enemy: Stone, q2: int, q: int)
    requires
        0 < n,
        c0.len() == n * n,
        enemy != Stone::Empty,
        0 <= q < c0.len(),
        0 <= q2 < c0.len(),
        c0[q] == enemy,
        c0[q2] == enemy,
        !connected(n, c0, enemy, q2).contains(q),
    ensures
        connected(n, c0, enemy, q).subset_of(connected(n, without_group(n, c0, q2), enemy, q)),
{
    let c1 = without_group(n, c0, q2);
    let r = connected(n, c0, enemy, q2);
    assert(group_of(n, c0, q2) == r);
    lemma_chains_apart(n, c0, enemy, q2, q);
    lemma_other_chain_within(n, c0, enemy, q2, q);
    let v = connected(n, c0, enemy, q);
    let w = connected(n, c1, enemy, q);
    lemma_connected_finite(n, c0, enemy, q);
    assert forall|a: int, b: int| w.contains(a) && #[trigger] step(n, c0, enemy, a, b) implies w.contains(b) by {
        assert(v.contains(a));
        lemma_connected_step(n, c0, enemy, q, a, b);
        assert(v.contains(b));
        assert(!r.contains(b));
        assert(0 <= b < c0.len());
        assert(c1[b] == c0[b]);
        assert(step(n, c1, enemy, a, b));
        lemma_connected_step(n, c1, enemy, q, a, b);
    }
    lemma_connected_start(n, c1, enemy, q);
    lemma_connected_within(n, c0, enemy, q, w);
}

/// Taking off one chain leaves another chain of the same colour as it was.
proof fn lemma_other_chain_stays(n: int, c0: Seq<Stone>, enemy: Stone, q2: int, q: int)
    requires
        0 < n,
        c0.len() == n * n,
        enemy != Stone::Empty,
        0 <= q < c0.len(),
        0 <= q2 < c0.len(),
        c0[q] == enemy,
        c0[q2] == enemy,
        !connected(n, c0, enemy, q2).contains(q),
    ensures
        without_group(n, c0, q2)[q] == enemy,
        connected(n, without_group(n, c0, q2), enemy, q) == connected(n, c0, enemy, q),
{
    assert(group_of(n, c0, q2) == connected(n, c0, enemy, q2));
    lemma_other_chain_within(n, c0, enemy, q2, q);
    lemma_other_chain_keeps(n, c0, enemy, q2, q);
    assert(connected(n, without_group(n, c0, q2), enemy, q) =~= connected(n, c0, enemy, q));
}

/// Taking off one chain gives another chain of the same colour no new liberty.
proof fn lemma_other_chain_liberties(n: int, c0: Seq<Stone>, enemy: Stone, q2: int, q: int)
    requires
        0 < n,
        c0.len() == n * n,
        enemy != Stone::Empty,
        0 <= q < c0.len(),
        0 <= q2 < c0.len(),
        c0[q] == enemy,
        c0[q2] == enemy,
        !connected(n, c0, enemy, q2).contains(q),
    ensures
        liberties_of(n, without_group(n, c0, q2), q) == liberties_of(n, c0, q),
{
    let c1 = without_group(n, c0, q2);
    let r = connected(n, c0, enemy, q2);
    assert(group_of(n, c0, q2) == r);
    lemma_other_chain_stays(n, c0, enemy, q2, q);
    lemma_chains_apart(n, c0, enemy, q2, q);
    assert(group_of(n, c1, q) == group_of(n, c0, q));
    assert forall|x: int| #[trigger] liberties_of(n, c1, q).contains(x) == liberties_of(n, c0, q).contains(x) by {
        if liberties_of(n, c1, q).contains(x) {
            let gg = choose|gg: int|
                #[trigger] group_of(n, c1, q).contains(gg) && adjacent_points(n, gg).contains(x);
            if r.contains(x) {
                if x != q2 {
                    lemma_connected_colour(n, c0, enemy, q2, x);
                }
                assert(step(n, c0, enemy, gg, x));
                lemma_connected_step(n, c0, enemy, q, gg, x);
                assert(false);
            }
            assert(c0[x] == Stone::Empty);
        }
        if liberties_of(n, c0, q).contains(x) {
            let gg = choose|gg: int|
                #[trigger] group_of(n, c0, q).contains(gg) && adjacent_points(n, gg).contains(x);
            assert(!r.contains(x));
            assert(c1[x] == Stone::Empty);
            assert(group_of(n, c1, q).contains(gg));
        }
    }
    assert(liberties_of(n, c1, q) =~= liberties_of(n, c0, q));
}

/// A chain of the colour taken that has no liberty left either comes off, or stays as it is,
/// still without a liberty, while other chains are taken.
proof fn lemma_capture_keeps_dead(n: int, placed: Seq<Stone>, nbs: Seq<int>, enemy: Stone, q: int)
    requires
        0 < n,
        placed.len() == n * n,
        enemy != Stone::Empty,
        0 <= q < placed.len(),
        placed[q] == enemy,
        liberties_of(n, placed, q) == Set::<int>::empty(),
        forall|k: int| 0 <= k < nbs.len() ==> 0 <= #[trigger] nbs[k] < placed.len(),
    ensures
        ({
            let c = capture_pass(n, placed, nbs, enemy).0;
            ||| c[q] == Stone::Empty
            ||| (c[q] == enemy && liberties_of(n, c, q) == Set::<int>::empty())
        }),
    decreases nbs.len(),
{
    if nbs.len() > 0 {
        lemma_capture_keeps_dead(n, placed, nbs.drop_last(), enemy, q);
        lemma_capture_only_empties(n, placed, nbs.drop_last(), enemy);
        let c0 = capture_pass(n, placed, nbs.drop_last(), enemy).0;
        let q2 = nbs.last();
        assert(nbs[nbs.len() - 1] == q2);
        if c0[q2] == enemy && liberties_of(n, c0, q2).len() == 0 && c0[q] == enemy {
            assert(group_of(n, c0, q2) == connected(n, c0, enemy, q2));
            if !connected(n, c0, enemy, q2).contains(q) {
                lemma_other_chain_stays(n, c0, enemy, q2, q);
                lemma_other_chain_liberties(n, c0, enemy, q2, q);
            }
        }
    }
}

/// A chain next to an empty point has a liberty.
proof fn lemma_empty_neighbour(n: int, after: Seq<Stone>, p: int, q: int)
    requires
        0 < n,
        after.len() == n * n,
        0 <= p < after.len(),
        0 <= q < after.len(),
        after[p] != Stone::Empty,
        adjacent_points(n, p).contains(q),
        after[q] == Stone::Empty,
    ensures
        liberties_of(n, after, p).len() > 0,
{
    lemma_liberties_finite(n, after, p);
    lemma_connected_start(n, after, after[p], p);
    assert(group_of(n, after, p).contains(p));
    assert(liberties_of(n, after, p).contains(q));
    lemma_len_subset(set![q], liberties_of(n, after, p));
}

/// An enemy chain next to the new stone whose only liberty was the point played is taken off.
proof fn lemma_enemy_taken(
    n: int,
    cells: Seq<Stone>,
    p: int,
    q: int,
    nbs: Seq<int>,
    me: Stone,
)
    requires
        0 < n,
        cells.len() == n * n,
        me != Stone::Empty,
        0 <= p < cells.len(),
        0 <= q < cells.len(),
        cells[p] == Stone::Empty,
        cells[q] == opposite(me),
        adjacent_points(n, q).contains(p),
        liberties_of(n, cells, q).len() == 1,
        forall|k: int| 0 <= k < nbs.len() ==> 0 <= #[trigger] nbs[k] < cells.len(),
        exists|k: int| 0 <= k < nbs.len() && nbs[k] == q,
    ensures
        capture_pass(n, cells.update(p, me), nbs, opposite(me)).0[q] == Stone::Empty,
{
    let enemy = opposite(me);
    let placed = cells.update(p, me);
    let cl = liberties_of(n, cells, q);
    lemma_connected_start(n, cells, enemy, q);
    assert(group_of(n, cells, q).contains(q));
    assert(cl.contains(p));
    lemma_liberties_finite(n, cells, q);
    assert forall|x: int| cl.contains(x) implies x == p by {
        if x != p {
            lemma_len_subset(set![p, x], cl);
        }
    }
    assert(forall|i: int| 0 <= i < cells.len() ==> (cells[i] == enemy <==> placed[i] == enemy));
    lemma_connected_same(n, cells, placed, enemy, q);
    assert(group_of(n, placed, q) == group_of(n, cells, q));
    assert forall|x: int| !liberties_of(n, placed, q).contains(x) by {
        if liberties_of(n, placed, q).contains(x) {
            let gg = choose|gg: int|
                #[trigger] group_of(n, placed, q).contains(gg) && adjacent_points(n, gg).contains(x);
            assert(group_of(n, cells, q).contains(gg));
            assert(x != p);
            assert(cl.contains(x));
        }
    }
    assert(liberties_of(n, placed, q) =~= Set::<int>::empty());
    lemma_capture_until_taken(n, placed, nbs, enemy, q);
}

/// A chain without liberties that is looked at is taken off, and stays off.
proof fn lemma_capture_until_taken(n: int, placed: Seq<Stone>, nbs: Seq<int>, enemy: Stone, q: int)
    requires
        0 < n,
        placed.len() == n * n,
        enemy != Stone::Empty,
        0 <= q < placed.len(),
        placed[q] == enemy,
        liberties_of(n, placed, q) == Set::<int>::empty(),
        forall|k: int| 0 <= k < nbs.len() ==> 0 <= #[trigger] nbs[k] < placed.len(),
        exists|k: int| 0 <= k < nbs.len() && nbs[k] == q,
    ensures
        capture_pass(n, placed, nbs, enemy).0[q] == Stone::Empty,
    decreases nbs.len(),
{
    let c0 = capture_pass(n, placed, nbs.drop_last(), enemy).0;
    let q2 = nbs.last();
    lemma_capture_only_empties(n, placed, nbs.drop_last(), enemy);
    if nbs.last() == q {
        lemma_capture_keeps_dead(n, placed, nbs.drop_last(), enemy, q);
        if c0[q] == enemy {
            assert(liberties_of(n, c0, q) =~= Set::<int>::empty());
            lemma_connected_start(n, c0, enemy, q);
            assert(group_of(n, c0, q).contains(q));
        }
    } else {
        let k = choose|k: int| 0 <= k < nbs.len() && nbs[k] == q;
        assert(k < nbs.len() - 1);
        assert(nbs.drop_last()[k] == q);
        lemma_capture_until_taken(n, placed, nbs.drop_last(), enemy, q);
        assert(c0[q] == Stone::Empty);
        if c0[q2] == enemy && liberties_of(n, c0, q2).len() == 0 {
            assert(without_group(n, c0, q2)[q] == Stone::Empty);
        }
    }
}

/// A set of more than one point holds a point other than `p`.
proof fn lemma_other_point(cl: Set<int>, p: int) -> (l: int)
    requires
        cl.finite(),
        cl.len() > 1,
    ensures
        cl.contains(l),
        l != p,
{
    if exists|x: int| cl.contains(x) && x != p {
        choose|x: int| cl.contains(x) && x != p
    } else {
        assert(cl.subset_of(set![p]));
        lemma_len_subset(cl, set![p]);
        p
    }
}

/// A chain of the player's own next to the point played joins the new stone's chain.
proof fn lemma_own_chain_joins(n: int, cells: Seq<Stone>, p: int, q: int, me: Stone)
    requires
        0 < n,
        cells.len() == n * n,
        me != Stone::Empty,
        0 <= p < cells.len(),
        0 <= q < cells.len(),
        cells[p] == Stone::Empty,
        cells[q] == me,
        adjacent_points(n, p).contains(q),
    ensures
        connected(n, cells, me, q).subset_of(connected(n, cells.update(p, me), me, p)),
{
    let placed = cells.update(p, me);
    let v = connected(n, placed, me, p);
    lemma_connected_start(n, placed, me, p);
    lemma_connected_finite(n, placed, me, p);
    assert(q != p);
    assert(placed[q] == me);
    assert(step(n, placed, me, p, q));
    lemma_connected_step(n, placed, me, p, p, q);
    assert forall|a: int, b: int| v.contains(a) && #[trigger] step(n, cells, me, a, b) implies v.contains(
        b,
    ) by {
        lemma_adjacent(n, a);
        let k = choose|k: int| 0 <= k < adjacent_points(n, a).len() && adjacent_points(n, a)[k] == b;
        assert(0 <= b < cells.len());
        assert(b != p);
        assert(placed[b] == me);
        assert(step(n, placed, me, a, b));
        lemma_connected_step(n, placed, me, p, a, b);
    }
    lemma_connected_within(n, cells, me, q, v);
}

/// A chain of the player's own next to the new stone that keeps another liberty gives the new
/// stone's chain that liberty.
proof fn lemma_own_chain_liberty(
    n: int,
    cells: Seq<Stone>,
    after: Seq<Stone>,
    p: int,
    q: int,
    me: Stone,
)
    requires
        0 < n,
        cells.len() == n * n,
        after.len() == n * n,
        me != Stone::Empty,
        0 <= p < cells.len(),
        0 <= q < cells.len(),
        cells[p] == Stone::Empty,
        cells[q] == me,
        adjacent_points(n, p).contains(q),
        liberties_of(n, cells, q).len() > 1,
        forall|i: int|
            0 <= i < cells.len() ==> (after[i] == me <==> cells.update(p, me)[i] == me),
        forall|i: int|
            0 <= i < cells.len() && i != p && cells[i] == Stone::Empty ==> after[i] == Stone::Empty,
    ensures
        liberties_of(n, after, p).len() > 0,
{
    let placed = cells.update(p, me);
    let cl = liberties_of(n, cells, q);
    lemma_liberties_finite(n, cells, q);
    let l = lemma_other_point(cl, p);
    let gg = choose|gg: int|
        #[trigger] group_of(n, cells, q).contains(gg) && adjacent_points(n, gg).contains(l);
    lemma_own_chain_joins(n, cells, p, q, me);
    assert(connected(n, placed, me, p).contains(gg));
    lemma_connected_same(n, placed, after, me, p);
    assert(group_of(n, after, p).contains(gg));
    assert(after[l] == Stone::Empty);
    lemma_liberties_finite(n, after, p);
    assert(liberties_of(n, after, p).contains(l));
    lemma_len_subset(set![l], liberties_of(n, after, p));
}

/// A stone played legally always has a liberty afterwards: whatever the move, the chain of
/// the new stone touches an empty point once the captures it makes are taken off.
pub proof fn lemma_legal_move_keeps_a_liberty(g: Game, p: int, next: Game)
    requires
        g.wf(),
        g.turn != Stone::Empty,
        0 <= p < g.board@.len(),
        g.legal_at(p),
        g.after_play(p, &next),
    ensures
        liberties_of(next.board.width(), next.board@, p).len() > 0,
{
    let n = g.board.width();
    let cells = g.board@;
    let me = g.turn;
    let enemy = opposite(me);
    g.board.lemma_wf();
    if n == 0 {
        assert(n * n == 0) by (nonlinear_arith)
            requires
                n == 0,
        ;
    }
    let placed = cells.update(p, me);
    let nbs = adjacent_points(n, p);
    lemma_adjacent(n, p);
    let after = next.board@;
    assert(after == capture_pass(n, placed, nbs, enemy).0);
    lemma_capture_only_empties(n, placed, nbs, enemy);
    assert(after[p] == me);
    let k = choose|k: int| 0 <= k < nbs.len() && opens_at(n, cells, me, #[trigger] nbs[k]);
    let q = nbs[k];
    assert(adjacent_points(n, q).contains(p));
    assert(nbs.contains(q));
    if cells[q] == Stone::Empty {
        assert(after[q] == Stone::Empty);
        lemma_empty_neighbour(n, after, p, q);
    } else if cells[q] != me {
        assert(cells[q] == enemy);
        lemma_enemy_taken(n, cells, p, q, nbs, me);
        lemma_empty_neighbour(n, after, p, q);
    } else {
        lemma_own_chain_liberty(n, cells, after, p, q, me);
    }
}

/// Once the chains next to the new stone have been looked at, none of the colour taken that
/// is left on the board is without a liberty.
proof fn lemma_no_dead_left(n: int, placed: Seq<Stone>, nbs: Seq<int>, enemy: Stone, q: int)
    requires
        0 < n,
        placed.len() == n * n,
        enemy != Stone::Empty,
        0 <= q < placed.len(),
        forall|k: int| 0 <= k < nbs.len() ==> 0 <= #[trigger] nbs[k] < placed.len(),
        exists|k: int| 0 <= k < nbs.len() && nbs[k] == q,
    ensures
        capture_pass(n, placed, nbs, enemy).0[q] == enemy ==> liberties_of(
            n,
            capture_pass(n, placed, nbs, enemy).0,
            q,
        ).len() > 0,
    decreases nbs.len(),
{
    let c0 = capture_pass(n, placed, nbs.drop_last(), enemy).0;
    let q2 = nbs.last();
    lemma_capture_only_empties(n, placed, nbs.drop_last(), enemy);
    if nbs.last() == q {
        if c0[q] == enemy && liberties_of(n, c0, q).len() == 0 {
            lemma_connected_start(n, c0, enemy, q);
            assert(group_of(n, c0, q).contains(q));
        }
    } else {
        let k = choose|k: int| 0 <= k < nbs.len() && nbs[k] == q;
        assert(k < nbs.len() - 1);
        assert(nbs.drop_last()[k] == q);
        lemma_no_dead_left(n, placed, nbs.drop_last(), enemy, q);
        assert(nbs[nbs.len() - 1] == q2);
        if c0[q2] == enemy && liberties_of(n, c0, q2).len() == 0 && c0[q] == enemy {
            assert(group_of(n, c0, q2) == connected(n, c0, enemy, q2));
            if !connected(n, c0, enemy, q2).contains(q) {
                lemma_other_chain_stays(n, c0, enemy, q2, q);
                lemma_other_chain_liberties(n, c0, enemy, q2, q);
            }
        }
    }
}

/// After a stone is played, no chain of the other colour next to it is left on the board
/// without a liberty: those that lost their last liberty have been taken off.
pub proof fn lemma_play_takes_dead_chains(g: Game, p: int, next: Game)
    requires
        g.wf(),
        g.turn != Stone::Empty,
        0 <= p < g.board@.len(),
        g.after_play(p, &next),
    ensures
        forall|k: int|
            0 <= k < adjacent_points(g.board.width(), p).len() && next.board@[#[trigger] adjacent_points(
                g.board.width(),
                p,
            )[k]] == opposite(g.turn) ==> liberties_of(
                g.board.width(),
                next.board@,
                adjacent_points(g.board.width(), p)[k],
            ).len() > 0,
{
    let n = g.board.width();
    let cells = g.board@;
    let me = g.turn;
    let enemy = opposite(me);
    g.board.lemma_wf();
    if n == 0 {
        assert(n * n == 0) by (nonlinear_arith)
            requires
                n == 0,
        ;
    }
    let placed = cells.update(p, me);
    let nbs = adjacent_points(n, p);
    lemma_adjacent(n, p);
    assert(next.board@ == capture_pass(n, placed, nbs, enemy).0);
    assert forall|k: int|
        0 <= k < nbs.len() && next.board@[#[trigger] nbs[k]] == enemy implies liberties_of(
        n,
        next.board@,
        nbs[k],
    ).len() > 0 by {
        lemma_no_dead_left(n, placed, nbs, enemy, nbs[k]);
    }
}


/// With no chain taken off by the pass, the board is as it was.
proof fn lemma_nothing_taken(n: int, placed: Seq<Stone>, nbs: Seq<int>, enemy: Stone)
    requires
        forall|k: int|
            0 <= k < nbs.len() && placed[#[trigger] nbs[k]] == enemy ==> liberties_of(
                n,
                placed,
                nbs[k],
            ).len() != 0,
    ensures
        capture_pass(n, placed, nbs, enemy).0 == placed,
    decreases nbs.len(),
{
    if nbs.len() > 0 {
        let rest = nbs.drop_last();
        assert forall|k: int|
            0 <= k < rest.len() && placed[#[trigger] rest[k]] == enemy implies liberties_of(
            n,
            placed,
            rest[k],
        ).len() != 0 by {
            assert(rest[k] == nbs[k]);
        }
        lemma_nothing_taken(n, placed, rest, enemy);
        assert(placed[nbs.last()] == enemy ==> liberties_of(n, placed, nbs[nbs.len() - 1]).len()
            != 0);
    }
}

/// An enemy chain next to an empty point `p` that has a liberty besides `p` keeps it once a
/// stone of the player's own is put on `p`.
proof fn lemma_enemy_keeps_liberty(n: int, cells: Seq<Stone>, p: int, q: int, me: Stone)
    requires
        0 < n,
        cells.len() == n * n,
        me != Stone::Empty,
        0 <= p < cells.len(),
        0 <= q < cells.len(),
        cells[p] == Stone::Empty,
        cells[q] == opposite(me),
        adjacent_points(n, q).contains(p),
        liberties_of(n, cells, q).len() != 1,
    ensures
        liberties_of(n, cells.update(p, me), q).len() != 0,
{
    let enemy = opposite(me);
    let placed = cells.update(p, me);
    let cl = liberties_of(n, cells, q);
    lemma_liberties_finite(n, cells, q);
    lemma_connected_start(n, cells, enemy, q);
    assert(group_of(n, cells, q).contains(q));
    assert(cl.contains(p));
    lemma_len_subset(set![p], cl);
    let l = lemma_other_point(cl, p);
    let gg = choose|gg: int|
        #[trigger] group_of(n, cells, q).contains(gg) && adjacent_points(n, gg).contains(l);
    lemma_connected_same(n, cells, placed, enemy, q);
    assert(group_of(n, placed, q) == group_of(n, cells, q));
    assert(liberties_of(n, placed, q).contains(l));
    lemma_liberties_finite(n, placed, q);
    lemma_len_subset(set![l], liberties_of(n, placed, q));
}

/// When every neighbour of `p` holds a stone and each chain of the player's own among them has
/// no liberty but `p`, a stone put on `p` has no liberty.
proof fn lemma_shut_in(n: int, cells: Seq<Stone>, p: int, me: Stone)
    requires
        0 < n,
        cells.len() == n * n,
        me != Stone::Empty,
        0 <= p < cells.len(),
        cells[p] == Stone::Empty,
        forall|k: int|
            0 <= k < adjacent_points(n, p).len() ==> cells[#[trigger] adjacent_points(n, p)[k]]
                != Stone::Empty,
        forall|k: int|
            0 <= k < adjacent_points(n, p).len() && cells[#[trigger] adjacent_points(n, p)[k]]
                == me ==> liberties_of(n, cells, adjacent_points(n, p)[k]).len() <= 1,
    ensures
        liberties_of(n, cells.update(p, me), p).len() == 0,
{
    let placed = cells.update(p, me);
    let nbs = adjacent_points(n, p);
    lemma_adjacent(n, p);
    let v = Set::new(
        |x: int|
            x == p || exists|k: int|
                0 <= k < nbs.len() && cells[#[trigger] nbs[k]] == me && connected(
                    n,
                    cells,
                    me,
                    nbs[k],
                ).contains(x),
    );
    assert forall|a: int, b: int| v.contains(a) && #[trigger] step(n, placed, me, a, b) implies v.contains(
        b,
    ) by {
        if b != p {
            if a == p {
                let k = choose|k: int| 0 <= k < nbs.len() && nbs[k] == b;
                assert(cells[nbs[k]] == me);
                lemma_connected_start(n, cells, me, nbs[k]);
            } else {
                let k = choose|k: int|
                    0 <= k < nbs.len() && cells[#[trigger] nbs[k]] == me && connected(
                        n,
                        cells,
                        me,
                        nbs[k],
                    ).contains(a);
                lemma_connected_finite(n, cells, me, nbs[k]);
                assert(0 <= a < n * n);
                lemma_adjacent(n, a);
                let j = choose|j: int|
                    0 <= j < adjacent_points(n, a).len() && adjacent_points(n, a)[j] == b;
                assert(0 <= b < n * n);
                assert(step(n, cells, me, a, b));
                lemma_connected_step(n, cells, me, nbs[k], a, b);
            }
        }
    }
    assert(v.contains(p));
    lemma_connected_within(n, placed, me, p, v);
    assert(group_of(n, placed, p) == connected(n, placed, me, p));
    assert forall|y: int| !#[trigger] liberties_of(n, placed, p).contains(y) by {
        if liberties_of(n, placed, p).contains(y) {
            let x = choose|x: int|
                #[trigger] group_of(n, placed, p).contains(x) && adjacent_points(n, x).contains(y);
            assert(v.contains(x));
            assert(y != p);
            assert(cells[y] == Stone::Empty);
            if x == p {
                let j = choose|j: int| 0 <= j < nbs.len() && nbs[j] == y;
                assert(cells[nbs[j]] != Stone::Empty);
            } else {
                let k = choose|k: int|
                    0 <= k < nbs.len() && cells[#[trigger] nbs[k]] == me && connected(
                        n,
                        cells,
                        me,
                        nbs[k],
                    ).contains(x);
                let q = nbs[k];
                let cl = liberties_of(n, cells, q);
                assert(group_of(n, cells, q).contains(x));
                assert(cl.contains(y));
                lemma_connected_start(n, cells, me, q);
                assert(group_of(n, cells, q).contains(q));
                assert(adjacent_points(n, q).contains(p));
                assert(cl.contains(p));
                lemma_liberties_finite(n, cells, q);
                lemma_len_subset(set![p, y], cl);
                assert(set![p, y].len() == 2);
            }
        }
    }
    assert(liberties_of(n, placed, p) =~= Set::<int>::empty());
}

/// Every move that leaves its stone a liberty is legal: when the game goes on and the point
/// is empty and not the ko point, a stone there that has a liberty once the enemy chains next
/// to it left without one are taken off may be played. So a stone joining a chain of the
/// player's own that keeps another liberty is never refused, nor one that captures.
pub proof fn lemma_stone_with_a_liberty_is_legal(g: Game, p: int)
    requires
        g.wf(),
        g.turn != Stone::Empty,
        0 <= p < g.board@.len(),
        !g.finished,
        g.board@[p] == Stone::Empty,
        g.ko != Some(p as usize),
        liberties_of(
            g.board.width(),
            capture_pass(
                g.board.width(),
                g.board@.update(p, g.turn),
                adjacent_points(g.board.width(), p),
                opposite(g.turn),
            ).0,
            p,
        ).len() > 0,
    ensures
        g.legal_at(p),
{
    let n = g.board.width();
    let cells = g.board@;
    let me = g.turn;
    let enemy = opposite(me);
    g.board.lemma_wf();
    if n == 0 {
        assert(n * n == 0) by (nonlinear_arith)
            requires
                n == 0,
        ;
    }
    let placed = cells.update(p, me);
    let nbs = adjacent_points(n, p);
    lemma_adjacent(n, p);
    if !g.legal_at(p) {
        assert forall|k: int| 0 <= k < nbs.len() implies !opens_at(n, cells, me, #[trigger] nbs[k]) by {
        }
        assert forall|k: int|
            0 <= k < nbs.len() && placed[#[trigger] nbs[k]] == enemy implies liberties_of(
            n,
            placed,
            nbs[k],
        ).len() != 0 by {
            assert(!opens_at(n, cells, me, nbs[k]));
            lemma_enemy_keeps_liberty(n, cells, p, nbs[k], me);
        }
        lemma_nothing_taken(n, placed, nbs, enemy);
        assert forall|k: int| 0 <= k < nbs.len() implies cells[#[trigger] nbs[k]] != Stone::Empty by {
            assert(!opens_at(n, cells, me, nbs[k]));
        }
        assert forall|k: int|
            0 <= k < nbs.len() && cells[#[trigger] nbs[k]] == me implies liberties_of(
            n,
            cells,
            nbs[k],
        ).len() <= 1 by {
            assert(!opens_at(n, cells, me, nbs[k]));
        }
        lemma_shut_in(n, cells, p, me);
    }
}


/// A legal move is never made once the game is over, on a point that holds a stone, or on the
/// ko point; with `lemma_legal_move_keeps_a_liberty` and `lemma_stone_with_a_liberty_is_legal`,
/// a move is legal exactly when it is none of these and its stone has a liberty once the enemy
/// chains it leaves without one are taken off.
pub proof fn lemma_legal_needs_an_open_point(g: Game, p: int)
    requires
        g.legal_at(p),
    ensures
        !g.finished,
        g.board@[p] == Stone::Empty,
        g.ko != Some(p as usize),
{
}

} // verus!
