//! Properties that span several functions: names of points read back, settings lists stepped
//! through and back, and passes ending the game.
use vstd::prelude::*;
use vstd::std_specs::cmp::PartialEqSpec;
use crate::game::{
    Game, Play, Stone, column_letter, column_of, coord_text, coord_of_upper, handicap_spots,
    spots_to_points,
};
use crate::text::{decimal, parse_unsigned};
use crate::record_laws::lemma_decimal;
use crate::app::{cycled, match_from, round_index, Setup};
use crate::ai::winner_of;
use crate::session::lead_of;

verus! {

/// Column letters name their column back.
pub proof fn lemma_column_letter(col: int)
    requires
        0 <= col < 25,
    ensures
        column_of(column_letter(col)) == Some(col),
{
}

/// The name of a point of a board up to 25 points wide reads back as that point.
pub proof fn lemma_coord_round_trip(p: int, size: int)
    requires
        0 < size <= 25,
        0 <= p < size * size,
    ensures
        coord_of_upper(coord_text(p, size), size) == Some(p),
{
    let row = p / size;
    let col = p % size;
    assert(0 <= row < size) by (nonlinear_arith)
        requires
            0 < size,
            0 <= p < size * size,
            row == p / size,
    ;
    assert(p == row * size + col) by (nonlinear_arith)
        requires
            0 < size,
            row == p / size,
            col == p % size,
    ;
    let number = (size - row) as nat;
    lemma_column_letter(col);
    lemma_decimal(number);
    let t = coord_text(p, size);
    assert(t.drop_first() =~= decimal(number));
    assert(decimal(number)[0] != '+');
    assert(parse_unsigned(t.drop_first(), usize::MAX as nat) == Some(number));
    assert((size - number) * size + col == p);
}

/// From a game that goes on, two passes in a row end it.
pub proof fn lemma_two_passes_end(g: Game, g1: Game, g2: Game)
    requires
        !g.finished,
        g.after_make(Play::Pass, &g1),
        g1.after_make(Play::Pass, &g2),
    ensures
        g2.finished,
        g2.board@ == g.board@,
{
}

/// The first match from `j` on is the first option equal to `x` when it stands at `i` and
/// none between `j` and `i` is equal.
proof fn lemma_match_at<T: PartialEqSpec>(options: Seq<T>, x: T, j: int, i: int)
    requires
        0 <= j <= i < options.len(),
        options[i].eq_spec(&x),
        forall|k: int| j <= k < i ==> !(#[trigger] options[k]).eq_spec(&x),
    ensures
        match_from(options, x, j) == i,
    decreases i - j,
{
    if j < i {
        lemma_match_at(options, x, j + 1, i);
    }
}

/// Stepping through a list of settings to the next value and back again, or back and then
/// on again, comes back to the value one started from, when that value is in the list, no value
/// stands in it twice, and values compare as they are.
pub proof fn lemma_cycle_back<T: PartialEqSpec>(options: Seq<T>, i: int, forward: bool)
    requires
        0 <= i < options.len(),
        forall|a: T, b: T| #[trigger] a.eq_spec(&b) <==> a == b,
        forall|a: int, b: int| 0 <= a < b < options.len() ==> #[trigger] options[a] != #[trigger] options[b],
    ensures
        cycled(options, cycled(options, options[i], forward), !forward) == options[i],
{
    let len = options.len() as int;
    let x = options[i];
    assert forall|k: int| 0 <= k < i implies !(#[trigger] options[k]).eq_spec(&x) by {
        assert(options[k] != options[i]);
    }
    lemma_match_at(options, x, 0, i);
    let next = round_index(i, len, forward);
    assert(0 <= next < len) by (nonlinear_arith)
        requires
            0 <= i < len,
            next == (if forward {
                (i + 1) % len
            } else {
                (i + len - 1) % len
            }),
    ;
    let y = options[next];
    assert(cycled(options, x, forward) == y);
    assert forall|k: int| 0 <= k < next implies !(#[trigger] options[k]).eq_spec(&y) by {
        assert(options[k] != options[next]);
    }
    lemma_match_at(options, y, 0, next);
    assert(round_index(next, len, !forward) == i) by (nonlinear_arith)
        requires
            0 <= i < len,
            next == (if forward {
                (i + 1) % len
            } else {
                (i + len - 1) % len
            }),
            round_index(next, len, !forward) == (if !forward {
                (next + 1) % len
            } else {
                (next + len - 1) % len
            }),
    ;
}

/// Whether the setting on the picked row of `s` holds one of that row's options, so that a
/// change of it one way can be taken back the other way: for strength, one that is not at the
/// end of 1 to 10 that the change runs into.
pub open spec fn on_its_list(s: Setup, forward: bool) -> bool {
    &&& s.row == 0 ==> seq![9usize, 13, 19].contains(s.board_size)
    &&& s.row == 3 ==> if forward {
        1 <= s.level <= 9
    } else {
        2 <= s.level <= 10
    }
    &&& s.row == 5 ==> seq![0u8, 2, 3, 4, 5, 6, 7, 8, 9].contains(s.handicap)
    &&& s.row == 6 ==> seq![0i32, 5, 55, 65, 75].contains(s.komi)
    &&& s.row == 7 ==> seq![None, Some(180u64), Some(300u64), Some(600u64), Some(1200u64), Some(1800u64)].contains(s.main_time)
    &&& s.row == 8 ==> seq![0u64, 3, 5, 10, 30].contains(s.increment)
    &&& s.row == 9 ==> seq![0u32, 3, 5, 10, u32::MAX].contains(s.hints)
}

/// Changing the setting on the picked row one way and then the other way gives back the
/// settings as they were, when the setting holds one of its row's options (see
/// `on_its_list`); the rows that flip a setting need nothing.
pub proof fn lemma_change_back(s: Setup, t: Setup, u: Setup, forward: bool)
    requires
        on_its_list(s, forward),
        s.changed(&t, forward),
        t.changed(&u, !forward),
    ensures
        u == s,
{
    if s.row == 0 {
        let o = seq![9usize, 13, 19];
        let i = choose|i: int| 0 <= i < o.len() && o[i] == s.board_size;
        lemma_cycle_back(o, i, forward);
    } else if s.row == 5 {
        let o = seq![0u8, 2, 3, 4, 5, 6, 7, 8, 9];
        let i = choose|i: int| 0 <= i < o.len() && o[i] == s.handicap;
        lemma_cycle_back(o, i, forward);
    } else if s.row == 6 {
        let o = seq![0i32, 5, 55, 65, 75];
        let i = choose|i: int| 0 <= i < o.len() && o[i] == s.komi;
        lemma_cycle_back(o, i, forward);
    } else if s.row == 7 {
        let o = seq![None, Some(180u64), Some(300u64), Some(600u64), Some(1200u64), Some(1800u64)];
        let i = choose|i: int| 0 <= i < o.len() && o[i] == s.main_time;
        lemma_cycle_back(o, i, forward);
    } else if s.row == 8 {
        let o = seq![0u64, 3, 5, 10, 30];
        let i = choose|i: int| 0 <= i < o.len() && o[i] == s.increment;
        lemma_cycle_back(o, i, forward);
    } else if s.row == 9 {
        let o = seq![0u32, 3, 5, 10, u32::MAX];
        let i = choose|i: int| 0 <= i < o.len() && o[i] == s.hints;
        lemma_cycle_back(o, i, forward);
    }
}


/// Points given by row and column on a board `n` wide are the same only for the same row and
/// column.
proof fn lemma_spot_unique(n: int, r1: int, c1: int, r2: int, c2: int)
    requires
        0 <= r1,
        0 <= r2,
        0 <= c1 < n,
        0 <= c2 < n,
        r1 * n + c1 == r2 * n + c2,
    ensures
        r1 == r2,
        c1 == c2,
{
    if r1 < r2 {
        assert(r1 * n + n <= r2 * n) by (nonlinear_arith)
            requires
                r1 < r2,
                0 <= n,
        ;
    } else if r2 < r1 {
        assert(r2 * n + n <= r1 * n) by (nonlinear_arith)
            requires
                r2 < r1,
                0 <= n,
        ;
    }
}

/// The line the corner handicap stones stand on, counted from the edge of a board `n` wide:
/// the fourth, or the third on a board of 9.
pub open spec fn handicap_line(n: int) -> int {
    if n > 9 {
        3
    } else {
        2
    }
}

/// Whether `x` is one of the lines handicap stones stand on, on a board `n` wide: the
/// handicap line from either edge, or the middle.
pub open spec fn on_handicap_line(n: int, x: int) -> bool {
    x == handicap_line(n) || x == n - 1 - handicap_line(n) || x == n / 2
}

/// The handicap stones for `stones` stones on a board `n` wide, as rows and columns: as many
/// as asked for, up to nine, on a board of at least 9 and for at least two stones, each on the
/// board and no two on one point; every one on the handicap lines (see `on_handicap_line`),
/// all four corners from four stones on, and the centre exactly for an odd number of five or
/// more.
pub proof fn lemma_spots_apart(n: int, stones: int)
    ensures
        handicap_spots(n, stones).len() == (if n >= 9 && stones >= 2 {
            if stones < 9 {
                stones
            } else {
                9
            }
        } else {
            0
        }),
        forall|i: int|
            0 <= i < handicap_spots(n, stones).len() ==> 0 <= (#[trigger] handicap_spots(n, stones)[i]).0
                < n && 0 <= handicap_spots(n, stones)[i].1 < n,
        forall|i: int, j: int|
            0 <= i < j < handicap_spots(n, stones).len() ==> #[trigger] handicap_spots(n, stones)[i]
                != #[trigger] handicap_spots(n, stones)[j],
        forall|i: int|
            0 <= i < handicap_spots(n, stones).len() ==> on_handicap_line(
                n,
                (#[trigger] handicap_spots(n, stones)[i]).0,
            ) && on_handicap_line(n, handicap_spots(n, stones)[i].1),
        handicap_spots(n, stones).len() >= 4 ==> {
            let e = handicap_line(n);
            let f = n - 1 - e;
            &&& handicap_spots(n, stones).contains((e, e))
            &&& handicap_spots(n, stones).contains((e, f))
            &&& handicap_spots(n, stones).contains((f, e))
            &&& handicap_spots(n, stones).contains((f, f))
        },
        handicap_spots(n, stones).contains((n / 2, n / 2)) <==> (handicap_spots(n, stones).len()
            >= 5 && handicap_spots(n, stones).len() % 2 == 1),
{
    if n >= 9 && stones >= 2 {
        let edge = if n > 9 { 3int } else { 2int };
        let far = n - 1 - edge;
        let mid = n / 2;
        assert(edge < mid < far);
        let a = (far, edge);
        let b = (edge, far);
        let c = (edge, edge);
        let d = (far, far);
        let e = (mid, edge);
        let f = (mid, far);
        let h = (edge, mid);
        let k = (far, mid);
        let m = (mid, mid);
        let spots = handicap_spots(n, stones);
        let count = if stones < 9 { stones } else { 9 };
        if count == 2 {
            assert(spots =~= seq![a, b]);
        } else if count == 3 {
            assert(spots =~= seq![a, b, c]);
        } else if count == 4 {
            assert(spots =~= seq![a, b, c, d]);
            assert(spots[0] == a && spots[1] == b && spots[2] == c && spots[3] == d);
        } else if count == 5 {
            assert(spots =~= seq![a, b, c, d, m]);
            assert(spots[4] == m);
            assert(spots[0] == a && spots[1] == b && spots[2] == c && spots[3] == d);
        } else if count == 6 {
            assert(spots =~= seq![a, b, c, d, e, f]);
            assert(spots[0] == a && spots[1] == b && spots[2] == c && spots[3] == d);
        } else if count == 7 {
            assert(spots =~= seq![a, b, c, d, e, f, m]);
            assert(spots[6] == m);
            assert(spots[0] == a && spots[1] == b && spots[2] == c && spots[3] == d);
        } else if count == 8 {
            assert(spots =~= seq![a, b, c, d, e, f, h, k]);
            assert(spots[0] == a && spots[1] == b && spots[2] == c && spots[3] == d);
        } else {
            assert(spots =~= seq![a, b, c, d, e, f, h, k, m]);
            assert(spots[8] == m);
            assert(spots[0] == a && spots[1] == b && spots[2] == c && spots[3] == d);
        }
    }
}

/// A game set up with `stones` handicap stones on a board `n` wide gets as many stones as it
/// asks for, up to nine, when the board is at least 9 wide and at least two are asked for, and
/// none otherwise; every one on the board and no two on one point.
pub proof fn lemma_handicap_stones(n: int, stones: int)
    requires
        0 < n,
        n * n <= usize::MAX,
    ensures
        spots_to_points(n, handicap_spots(n, stones)).len() == (if n >= 9 && stones >= 2 {
            if stones < 9 {
                stones
            } else {
                9
            }
        } else {
            0
        }),
        forall|i: int|
            0 <= i < spots_to_points(n, handicap_spots(n, stones)).len() ==> #[trigger] spots_to_points(
                n,
                handicap_spots(n, stones),
            )[i] < n * n,
        forall|i: int, j: int|
            0 <= i < j < spots_to_points(n, handicap_spots(n, stones)).len() ==> #[trigger] spots_to_points(
                n,
                handicap_spots(n, stones),
            )[i] != #[trigger] spots_to_points(n, handicap_spots(n, stones))[j],
{
    let spots = handicap_spots(n, stones);
    let pts = spots_to_points(n, spots);
    lemma_spots_apart(n, stones);
    assert forall|i: int| 0 <= i < pts.len() implies pts[i] == spots[i].0 * n + spots[i].1
        && #[trigger] pts[i] < n * n by {
        let (r, c) = spots[i];
        assert(0 <= r < n && 0 <= c < n);
        assert(0 <= r * n + c < n * n) by (nonlinear_arith)
            requires
                0 <= r < n,
                0 <= c < n,
        ;
    }
    assert forall|i: int, j: int| 0 <= i < j < pts.len() implies #[trigger] pts[i] != #[trigger] pts[j] by {
        assert(pts[i] == spots[i].0 * n + spots[i].1);
        assert(pts[j] == spots[j].0 * n + spots[j].1);
        assert(spots[i] != spots[j]);
        if pts[i] == pts[j] {
            lemma_spot_unique(n, spots[i].0, spots[i].1, spots[j].0, spots[j].1);
        }
    }
}


/// A playout names as its winner the side ahead on the score of the position it ends in: Black
/// exactly when Black's score is more than White's with komi, that is when Black's lead (see
/// `Game::lead`, which the result of a finished game is written from) is above zero, and White
/// otherwise, a tie included; never nobody.
pub proof fn lemma_winner_is_the_side_ahead(g: Game)
    ensures
        winner_of(g) == Stone::Black || winner_of(g) == Stone::White,
        winner_of(g) == Stone::Black <==> lead_of(g) > 0,
        winner_of(g) == Stone::White <==> lead_of(g) <= 0,
{
}

} // verus!
