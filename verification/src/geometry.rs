//! Points of a square board, numbered row by row, and the ways they touch.
use vstd::prelude::*;
use vstd::arithmetic::div_mod::{lemma_fundamental_div_mod, lemma_fundamental_div_mod_converse};
use vstd::set_lib::*;

verus! {

/// The points that touch `p` along a line: above, below, left, right, in that order,
/// leaving out those that would fall off the board.
pub open spec fn adjacent_points(n: int, p: int) -> Seq<int> {
    let r = p / n;
    let c = p % n;
    let a = if r > 0 { seq![p - n] } else { Seq::<int>::empty() };
    let b = if r + 1 < n { a.push(p + n) } else { a };
    let d = if c > 0 { b.push(p - 1) } else { b };
    if c + 1 < n { d.push(p + 1) } else { d }
}

/// The points that touch `p` at a corner: up-left, up-right, down-left, down-right.
pub open spec fn diagonal_points(n: int, p: int) -> Seq<int> {
    let r = p / n;
    let c = p % n;
    let a = if r > 0 && c > 0 { seq![p - n - 1] } else { Seq::<int>::empty() };
    let b = if r > 0 && c + 1 < n { a.push(p - n + 1) } else { a };
    let d = if r + 1 < n && c > 0 { b.push(p + n - 1) } else { b };
    if r + 1 < n && c + 1 < n { d.push(p + n + 1) } else { d }
}

/// Whether `p` lies on the outer line of the board.
pub open spec fn on_edge_of(n: int, p: int) -> bool {
    p / n == 0 || p % n == 0 || p / n + 1 == n || p % n + 1 == n
}

/// Row and column recover the point.
pub proof fn lemma_row_col(n: int, p: int)
    requires
        0 < n,
        0 <= p < n * n,
    ensures
        p == (p / n) * n + p % n,
        0 <= p / n < n,
        0 <= p % n < n,
{
    lemma_fundamental_div_mod(p, n);
    assert(p == n * (p / n) + p % n);
    assert((p / n) * n == n * (p / n)) by (nonlinear_arith);
    vstd::arithmetic::div_mod::lemma_mod_bound(p, n);
    if p / n >= n {
        assert((p / n) * n >= n * n) by (nonlinear_arith)
            requires
                p / n >= n,
                n > 0,
        ;
    }
    if p / n < 0 {
        assert((p / n) * n <= -n) by (nonlinear_arith)
            requires
                p / n < 0,
                n > 0,
        ;
    }
}

/// The point in row `r` and column `c`.
pub proof fn lemma_point_of(n: int, r: int, c: int)
    requires
        0 < n,
        0 <= r < n,
        0 <= c < n,
    ensures
        (r * n + c) / n == r,
        (r * n + c) % n == c,
        0 <= r * n + c < n * n,
{
    lemma_fundamental_div_mod_converse(r * n + c, n, r, c);
    assert(r * n + c < n * n) by (nonlinear_arith)
        requires
            0 <= r < n,
            0 <= c < n,
    ;
    assert(0 <= r * n) by (nonlinear_arith)
        requires
            0 <= r,
            0 < n,
    ;
}

/// Each point that touches `p` lies on the board, differs from `p`,
/// and has `p` among the points that touch it.
pub proof fn lemma_adjacent(n: int, p: int)
    requires
        0 < n,
        0 <= p < n * n,
    ensures
        forall|k: int|
            0 <= k < adjacent_points(n, p).len() ==> {
                let q = #[trigger] adjacent_points(n, p)[k];
                &&& 0 <= q < n * n
                &&& q != p
                &&& adjacent_points(n, q).contains(p)
            },
        adjacent_points(n, p).len() <= 4,
{
    lemma_row_col(n, p);
    let r = p / n;
    let c = p % n;
    if r > 0 {
        lemma_point_of(n, r - 1, c);
        assert((r - 1) * n + c == p - n) by (nonlinear_arith)
            requires
                p == r * n + c,
        ;
        let q = p - n;
        assert(adjacent_points(n, q)[if q / n > 0 { 1int } else { 0int }] == p);
    }
    if r + 1 < n {
        lemma_point_of(n, r + 1, c);
        assert((r + 1) * n + c == p + n) by (nonlinear_arith)
            requires
                p == r * n + c,
        ;
        let q = p + n;
        assert(adjacent_points(n, q)[0] == p);
    }
    if c > 0 {
        lemma_point_of(n, r, c - 1);
        let q = p - 1;
        let a = if r > 0 { 1int } else { 0int };
        let b = if r + 1 < n { a + 1 } else { a };
        let d = if c - 1 > 0 { b + 1 } else { b };
        assert(q / n == r);
        assert(q % n == c - 1);
        assert(adjacent_points(n, q)[d] == p);
    }
    if c + 1 < n {
        lemma_point_of(n, r, c + 1);
        let q = p + 1;
        let a = if r > 0 { 1int } else { 0int };
        let b = if r + 1 < n { a + 1 } else { a };
        assert(q / n == r);
        assert(q % n == c + 1);
        assert(adjacent_points(n, q)[b] == p);
    }
}

/// Each point that touches `p` at a corner lies on the board.
pub proof fn lemma_diagonal(n: int, p: int)
    requires
        0 < n,
        0 <= p < n * n,
    ensures
        forall|k: int|
            0 <= k < diagonal_points(n, p).len() ==> {
                let q = #[trigger] diagonal_points(n, p)[k];
                0 <= q < n * n
            },
        diagonal_points(n, p).len() <= 4,
{
    lemma_row_col(n, p);
    let r = p / n;
    let c = p % n;
    if r > 0 && c > 0 {
        lemma_point_of(n, r - 1, c - 1);
        assert((r - 1) * n + (c - 1) == p - n - 1) by (nonlinear_arith)
            requires
                p == r * n + c,
        ;
    }
    if r > 0 && c + 1 < n {
        lemma_point_of(n, r - 1, c + 1);
        assert((r - 1) * n + (c + 1) == p - n + 1) by (nonlinear_arith)
            requires
                p == r * n + c,
        ;
    }
    if r + 1 < n && c > 0 {
        lemma_point_of(n, r + 1, c - 1);
        assert((r + 1) * n + (c - 1) == p + n - 1) by (nonlinear_arith)
            requires
                p == r * n + c,
        ;
    }
    if r + 1 < n && c + 1 < n {
        lemma_point_of(n, r + 1, c + 1);
        assert((r + 1) * n + (c + 1) == p + n + 1) by (nonlinear_arith)
            requires
                p == r * n + c,
        ;
    }
}

/// One step of a chain: `b` touches `a` and holds a stone of colour `c`.
pub open spec fn step<S>(n: int, cells: Seq<S>, c: S, a: int, b: int) -> bool {
    adjacent_points(n, a).contains(b) && cells[b] == c
}

/// A chain of points in which every point after the first touches the one before it
/// and holds `c`.
pub open spec fn is_chain<S>(n: int, cells: Seq<S>, c: S, w: Seq<int>) -> bool {
    &&& w.len() > 0
    &&& forall|i: int| #![trigger w[i]] 0 < i < w.len() ==> step(n, cells, c, w[i - 1], w[i])
}

/// The points that a chain of colour `c` reaches from `start`.
pub open spec fn connected<S>(n: int, cells: Seq<S>, c: S, start: int) -> Set<int> {
    Set::new(
        |q: int|
            exists|w: Seq<int>|
                #![trigger is_chain(n, cells, c, w), w.last()]
                is_chain(n, cells, c, w) && w[0] == start && w.last() == q,
    )
}

/// The start is reached by the chain that holds only it.
pub proof fn lemma_connected_start<S>(n: int, cells: Seq<S>, c: S, start: int)
    ensures
        connected(n, cells, c, start).contains(start),
{
    let w = seq![start];
    assert(is_chain(n, cells, c, w));
    assert(w.last() == start);
}

/// A chain can be carried one step further.
pub proof fn lemma_connected_step<S>(n: int, cells: Seq<S>, c: S, start: int, a: int, b: int)
    requires
        connected(n, cells, c, start).contains(a),
        step(n, cells, c, a, b),
    ensures
        connected(n, cells, c, start).contains(b),
{
    let w = choose|w: Seq<int>| is_chain(n, cells, c, w) && w[0] == start && w.last() == a;
    let w2 = w.push(b);
    assert forall|i: int| #![trigger w2[i]] 0 < i < w2.len() implies step(
        n,
        cells,
        c,
        w2[i - 1],
        w2[i],
    ) by {
        if i < w.len() {
            assert(w[i] == w2[i]);
        }
    }
    assert(is_chain(n, cells, c, w2));
    assert(w2.last() == b);
}

/// A set that holds `start` and is closed under steps of colour `c` holds every point
/// that a chain reaches from `start`.
pub proof fn lemma_connected_within<S>(n: int, cells: Seq<S>, c: S, start: int, v: Set<int>)
    requires
        v.contains(start),
        forall|a: int, b: int| v.contains(a) && #[trigger] step(n, cells, c, a, b) ==> v.contains(b),
    ensures
        connected(n, cells, c, start).subset_of(v),
{
    assert forall|q: int| connected(n, cells, c, start).contains(q) implies v.contains(q) by {
        let w = choose|w: Seq<int>| is_chain(n, cells, c, w) && w[0] == start && w.last() == q;
        lemma_chain_within(n, cells, c, v, w, w.len() - 1);
    }
}

proof fn lemma_chain_within<S>(n: int, cells: Seq<S>, c: S, v: Set<int>, w: Seq<int>, k: int)
    requires
        is_chain(n, cells, c, w),
        v.contains(w[0]),
        forall|a: int, b: int| v.contains(a) && #[trigger] step(n, cells, c, a, b) ==> v.contains(b),
        0 <= k < w.len(),
    ensures
        v.contains(w[k]),
    decreases k,
{
    if k > 0 {
        lemma_chain_within(n, cells, c, v, w, k - 1);
        assert(step(n, cells, c, w[k - 1], w[k]));
    }
}

/// Two boards that agree on the points of colour `c` give the same chains of colour `c`.
pub proof fn lemma_connected_same<S>(n: int, cells1: Seq<S>, cells2: Seq<S>, c: S, start: int)
    requires
        cells1.len() == cells2.len(),
        forall|i: int| 0 <= i < cells1.len() ==> (cells1[i] == c <==> cells2[i] == c),
        0 < n,
        cells1.len() == n * n,
        0 <= start < n * n,
    ensures
        connected(n, cells1, c, start) == connected(n, cells2, c, start),
{
    assert forall|q: int|
        connected(n, cells1, c, start).contains(q) implies connected(n, cells2, c, start).contains(
        q,
    ) by {
        let w = choose|w: Seq<int>| is_chain(n, cells1, c, w) && w[0] == start && w.last() == q;
        lemma_chain_transfer(n, cells1, cells2, c, w);
    }
    assert forall|q: int|
        connected(n, cells2, c, start).contains(q) implies connected(n, cells1, c, start).contains(
        q,
    ) by {
        let w = choose|w: Seq<int>| is_chain(n, cells2, c, w) && w[0] == start && w.last() == q;
        lemma_chain_transfer(n, cells2, cells1, c, w);
    }
    assert(connected(n, cells1, c, start) =~= connected(n, cells2, c, start));
}

proof fn lemma_chain_transfer<S>(n: int, cells1: Seq<S>, cells2: Seq<S>, c: S, w: Seq<int>)
    requires
        is_chain(n, cells1, c, w),
        cells1.len() == cells2.len(),
        forall|i: int| 0 <= i < cells1.len() ==> (cells1[i] == c <==> cells2[i] == c),
        0 < n,
        cells1.len() == n * n,
        0 <= w[0] < n * n,
    ensures
        is_chain(n, cells2, c, w),
{
    assert forall|i: int| #![trigger w[i]] 0 < i < w.len() implies step(
        n,
        cells2,
        c,
        w[i - 1],
        w[i],
    ) by {
        assert(step(n, cells1, c, w[i - 1], w[i]));
        lemma_chain_in_board(n, cells1, c, w, i);
    }
}

/// Every point of a chain of colour `c` after the start holds `c`.
pub proof fn lemma_connected_colour<S>(n: int, cells: Seq<S>, c: S, start: int, q: int)
    requires
        connected(n, cells, c, start).contains(q),
        q != start,
    ensures
        cells[q] == c,
{
    let w = choose|w: Seq<int>| is_chain(n, cells, c, w) && w[0] == start && w.last() == q;
    assert(w.len() > 1);
    assert(step(n, cells, c, w[w.len() - 2], w[w.len() - 1]));
}

/// Reaching is symmetric between points of colour `c`: the reverse of a chain is a chain.
pub proof fn lemma_connected_symmetric<S>(n: int, cells: Seq<S>, c: S, start: int, q: int)
    requires
        0 < n,
        cells.len() == n * n,
        0 <= start < n * n,
        cells[start] == c,
        connected(n, cells, c, start).contains(q),
    ensures
        connected(n, cells, c, q).contains(start),
{
    let w = choose|w: Seq<int>| is_chain(n, cells, c, w) && w[0] == start && w.last() == q;
    let r = w.reverse();
    assert forall|i: int| 0 <= i < w.len() implies 0 <= #[trigger] w[i] < n * n && cells[w[i]] == c by {
        if i > 0 {
            assert(step(n, cells, c, w[i - 1], w[i]));
        }
        lemma_chain_in_board(n, cells, c, w, i);
    }
    assert forall|i: int| #![trigger r[i]] 0 < i < r.len() implies step(n, cells, c, r[i - 1], r[i]) by {
        let j = w.len() - i;
        assert(r[i] == w[w.len() - 1 - i]);
        assert(r[i - 1] == w[j]);
        assert(step(n, cells, c, w[j - 1], w[j]));
        lemma_adjacent(n, w[j - 1]);
        let s = adjacent_points(n, w[j - 1]);
        let k = choose|k: int| 0 <= k < s.len() && s[k] == w[j];
        assert(s[k] == w[j]);
    }
    assert(is_chain(n, cells, c, r));
    assert(r[0] == q);
    assert(r.last() == start);
}

proof fn lemma_chain_in_board<S>(n: int, cells: Seq<S>, c: S, w: Seq<int>, i: int)
    requires
        0 < n,
        is_chain(n, cells, c, w),
        0 <= w[0] < n * n,
        0 <= i < w.len(),
    ensures
        0 <= w[i] < n * n,
    decreases i,
{
    if i > 0 {
        lemma_chain_in_board(n, cells, c, w, i - 1);
        assert(step(n, cells, c, w[i - 1], w[i]));
        lemma_adjacent(n, w[i - 1]);
        let s = adjacent_points(n, w[i - 1]);
        let k = choose|k: int| 0 <= k < s.len() && s[k] == w[i];
        assert(s[k] == w[i]);
    }
}

/// The points a chain reaches lie on the board.
pub proof fn lemma_connected_finite<S>(n: int, cells: Seq<S>, c: S, start: int)
    requires
        0 < n,
        0 <= start < n * n,
    ensures
        connected(n, cells, c, start).subset_of(set_int_range(0, n * n)),
        connected(n, cells, c, start).finite(),
{
    assert forall|q: int| connected(n, cells, c, start).contains(q) implies 0 <= q < n * n by {
        let w = choose|w: Seq<int>| is_chain(n, cells, c, w) && w[0] == start && w.last() == q;
        lemma_chain_in_board(n, cells, c, w, w.len() - 1);
    }
    lemma_int_range(0, n * n);
    lemma_len_subset(connected(n, cells, c, start), set_int_range(0, n * n));
}

/// Every point that a chain of colour `c` reaches from `start` reaches the same points.
pub proof fn lemma_connected_same_region<S>(n: int, cells: Seq<S>, c: S, start: int, r: int)
    requires
        0 < n,
        cells.len() == n * n,
        0 <= start < n * n,
        cells[start] == c,
        connected(n, cells, c, start).contains(r),
    ensures
        connected(n, cells, c, r) == connected(n, cells, c, start),
{
    let a = connected(n, cells, c, start);
    assert forall|x: int, y: int| a.contains(x) && #[trigger] step(n, cells, c, x, y) implies a.contains(y) by {
        lemma_connected_step(n, cells, c, start, x, y);
    }
    lemma_connected_within(n, cells, c, r, a);
    lemma_connected_symmetric(n, cells, c, start, r);
    let b = connected(n, cells, c, r);
    assert forall|x: int, y: int| b.contains(x) && #[trigger] step(n, cells, c, x, y) implies b.contains(y) by {
        lemma_connected_step(n, cells, c, r, x, y);
    }
    lemma_connected_within(n, cells, c, start, b);
    assert(a =~= b);
}

} // verus!
