//! What holds while a chain is walked with a stack: the points marked so far, the points
//! whose neighbours have all been looked at, and the points still waiting on the stack.
use vstd::prelude::*;
use vstd::set_lib::*;
use crate::game::{Stone, walkable, group_of, liberties_of, walk_target};
use crate::geometry::{
    adjacent_points, connected, step, lemma_adjacent, lemma_connected_start,
    lemma_connected_step, lemma_connected_within,
};

verus! {

/// The walk runs on a board of `n * n` points from `s`, which is marked.
#[verifier::opaque]
pub open spec fn wb_frame(n: int, cells: Seq<Stone>, s: int, color: Stone,
    region: bool, marked: Set<int>) -> bool {
    let len = cells.len() as int;
    &&& n > 0
    &&& n * n == len
    &&& len <= usize::MAX
    &&& 0 <= s < len
    &&& color == cells[s]
    &&& (region ==> color == Stone::Empty)
    &&& marked.subset_of(set_int_range(0, len))
    &&& marked.contains(s)
}

/// The stack holds marked points that the walk passes through.
#[verifier::opaque]
pub open spec fn wb_stack(cells: Seq<Stone>, s: int, color: Stone,
    region: bool, marked: Set<int>, stack: Seq<usize>) -> bool {
    forall|k: int|
        0 <= k < stack.len() ==> {
            let x = #[trigger] stack[k] as int;
            &&& marked.contains(x)
            &&& walkable(cells, s, color, region, x)
        }
}

/// No point waits twice on the stack, and no finished point waits on it.
#[verifier::opaque]
pub open spec fn wb_fresh(done: Set<int>, stack: Seq<usize>) -> bool {
    &&& forall|k: int| 0 <= k < stack.len() ==> !done.contains(#[trigger] stack[k] as int)
    &&& forall|k1: int, k2: int|
        0 <= k1 < k2 < stack.len() ==> #[trigger] stack[k1] != #[trigger] stack[k2]
}

/// The finished points are marked points that the walk passes through.
#[verifier::opaque]
pub open spec fn wb_done(cells: Seq<Stone>, s: int, color: Stone,
    region: bool, marked: Set<int>, done: Set<int>) -> bool {
    &&& done.subset_of(marked)
    &&& forall|p: int| done.contains(p) ==> walkable(cells, s, color, region, p)
}

/// Every marked point that the walk passes through is finished or waits on the stack.
#[verifier::opaque]
pub open spec fn wb_cover(
    cells: Seq<Stone>,
    s: int,
    color: Stone,
    region: bool,
    marked: Set<int>,
    done: Set<int>,
    stack: Seq<usize>,
) -> bool {
    forall|i: int|
        marked.contains(i) && walkable(cells, s, color, region, i) ==> done.contains(i) || stack.contains(
            i as usize,
        )
}

/// Every marked point that the walk passes through belongs to the chain of `s`.
#[verifier::opaque]
pub open spec fn wb_group(n: int, cells: Seq<Stone>, s: int, color: Stone,
    region: bool, marked: Set<int>) -> bool {
    forall|i: int|
        marked.contains(i) && walkable(cells, s, color, region, i) ==> walk_target(n, cells, s, region).contains(i)
}

/// Every marked point but `s` touches a finished point.
#[verifier::opaque]
pub open spec fn wb_reason(n: int, s: int, marked: Set<int>, done: Set<int>) -> bool {
    forall|i: int|
        marked.contains(i) && i != s ==> exists|p: int|
            done.contains(p) && #[trigger] adjacent_points(n, p).contains(i)
}

/// The part of the walk's state that holds between any two looks at a neighbour.
pub open spec fn walk_base(
    n: int,
    cells: Seq<Stone>,
    s: int,
    color: Stone,
    region: bool,
    marked: Set<int>,
    done: Set<int>,
    stack: Seq<usize>,
) -> bool {
    &&& wb_frame(n, cells, s, color, region, marked)
    &&& wb_stack(cells, s, color, region, marked, stack)
    &&& wb_done(cells, s, color, region, marked, done)
    &&& wb_cover(cells, s, color, region, marked, done, stack)
    &&& wb_group(n, cells, s, color, region, marked)
    &&& wb_reason(n, s, marked, done)
    &&& wb_fresh(done, stack)
}

/// Between walk steps: every neighbour of a finished point is marked.
#[verifier::opaque]
pub open spec fn walk_inv(
    n: int,
    cells: Seq<Stone>,
    s: int,
    color: Stone,
    region: bool,
    marked: Set<int>,
    done: Set<int>,
    stack: Seq<usize>,
    all: bool,
) -> bool {
    &&& walk_base(n, cells, s, color, region, marked, done, stack)
    &&& forall|p: int, q: int|
        done.contains(p) && #[trigger] adjacent_points(n, p).contains(q) && (all || walkable(
            cells,
            s,
            color,
            region,
            q,
        )) ==> marked.contains(q)
}

/// While the neighbours of `p` are looked at: the first `k` of them are marked.
#[verifier::opaque]
pub open spec fn walk_inner(
    n: int,
    cells: Seq<Stone>,
    s: int,
    color: Stone,
    region: bool,
    marked: Set<int>,
    done: Set<int>,
    stack: Seq<usize>,
    p: int,
    k: int,
    all: bool,
) -> bool {
    &&& walk_base(n, cells, s, color, region, marked, done, stack)
    &&& done.contains(p)
    &&& 0 <= k <= adjacent_points(n, p).len()
    &&& forall|x: int, q: int|
        done.contains(x) && x != p && #[trigger] adjacent_points(n, x).contains(q) && (all
            || walkable(cells, s, color, region, q)) ==> marked.contains(q)
    &&& forall|j: int|
        0 <= j < k && (all || walkable(cells, s, color, region, adjacent_points(n, p)[j]))
            ==> marked.contains(#[trigger] adjacent_points(n, p)[j])
}

/// A walk starts with `s` marked and on the stack.
pub proof fn lemma_walk_start(
    n: int,
    cells: Seq<Stone>,
    start: usize,
    region: bool,
    stack: Seq<usize>,
    all: bool,
)
    requires
        n > 0,
        n * n == cells.len(),
        cells.len() <= usize::MAX,
        start < cells.len(),
        stack == seq![start],
        region ==> cells[start as int] == Stone::Empty,
    ensures
        walk_inv(
            n,
            cells,
            start as int,
            cells[start as int],
            region,
            set![start as int],
            Set::empty(),
            stack,
            all,
        ),
{
    reveal(walk_inv);
    reveal(wb_fresh);
    reveal(wb_frame);
    reveal(wb_stack);
    reveal(wb_done);
    reveal(wb_cover);
    reveal(wb_group);
    reveal(wb_reason);
    let s = start as int;
    lemma_connected_start(n, cells, cells[s], s);
    lemma_int_range(0, cells.len() as int);
    assert(stack[0] == start);
    assert(stack.contains(start));
}

/// Taking `p` off the stack starts looking at its neighbours.
#[verifier::rlimit(60)]
pub proof fn lemma_walk_pop(
    n: int,
    cells: Seq<Stone>,
    s: int,
    color: Stone,
    region: bool,
    marked: Set<int>,
    done: Set<int>,
    stack: Seq<usize>,
    p: usize,
    all: bool,
)
    requires
        stack.len() > 0,
        stack.last() == p,
        walk_inv(n, cells, s, color, region, marked, done, stack, all),
    ensures
        walk_inner(
            n,
            cells,
            s,
            color,
            region,
            marked,
            done.insert(p as int),
            stack.drop_last(),
            p as int,
            0,
            all,
        ),
        0 <= p < cells.len(),
        marked.contains(p as int),
        !done.contains(p as int),
{
    reveal(walk_inv);
    reveal(walk_inner);
    let st = stack.drop_last();
    let d = done.insert(p as int);
    assert(stack[stack.len() - 1] == p);
    assert(marked.contains(p as int) && walkable(cells, s, color, region, p as int)) by {
        reveal(wb_stack);
    }
    assert(wb_stack(cells, s, color, region, marked, st)) by {
        reveal(wb_stack);
        assert forall|k: int| 0 <= k < st.len() implies {
            let x = #[trigger] st[k] as int;
            &&& marked.contains(x)
            &&& walkable(cells, s, color, region, x)
        } by {
            assert(st[k] == stack[k]);
        }
    }
    assert(wb_done(cells, s, color, region, marked, d)) by {
        reveal(wb_done);
    }
    assert(!done.contains(p as int)) by {
        reveal(wb_fresh);
        assert(!done.contains(stack[stack.len() - 1] as int));
    }
    assert(wb_fresh(d, st)) by {
        reveal(wb_fresh);
        assert forall|k: int| 0 <= k < st.len() implies !d.contains(#[trigger] st[k] as int) by {
            assert(st[k] == stack[k]);
            assert(stack[k] != stack[stack.len() - 1]);
            assert(!done.contains(stack[k] as int));
            reveal(wb_frame);
        }
        assert forall|k1: int, k2: int|
            0 <= k1 < k2 < st.len() implies #[trigger] st[k1] != #[trigger] st[k2] by {
            assert(st[k1] == stack[k1] && st[k2] == stack[k2]);
        }
    }
    assert(wb_cover(cells, s, color, region, marked, d, st)) by {
        reveal(wb_cover);
        assert forall|i: int|
            marked.contains(i) && walkable(cells, s, color, region, i) implies d.contains(i) || st.contains(
            i as usize,
        ) by {
            if !d.contains(i) {
                let kk = choose|kk: int| 0 <= kk < stack.len() && stack[kk] == i as usize;
                if kk == stack.len() - 1 {
                    reveal(wb_frame);
                    assert(i == p as int);
                } else {
                    assert(st[kk] == i as usize);
                }
            }
        }
    }
    assert(wb_reason(n, s, marked, d)) by {
        reveal(wb_reason);
        assert forall|i: int| marked.contains(i) && i != s implies exists|q: int|
            d.contains(q) && #[trigger] adjacent_points(n, q).contains(i) by {
            let q = choose|q: int| done.contains(q) && #[trigger] adjacent_points(n, q).contains(i);
            assert(d.contains(q));
        }
    }
    assert(0 <= p < cells.len()) by {
        reveal(wb_frame);
    }
    assert(forall|x: int, q: int|
        d.contains(x) && x != p && #[trigger] adjacent_points(n, x).contains(q) && (all || walkable(
            cells,
            s,
            color,
            region,
            q,
        )) ==> marked.contains(q));
    assert(n > 0 && n * n == cells.len()) by {
        reveal(wb_frame);
    }
    lemma_adjacent(n, p as int);
}

/// Looking at a neighbour that is already marked changes nothing.
pub proof fn lemma_walk_skip(
    n: int,
    cells: Seq<Stone>,
    s: int,
    color: Stone,
    region: bool,
    marked: Set<int>,
    done: Set<int>,
    stack: Seq<usize>,
    p: int,
    k: int,
    all: bool,
)
    requires
        walk_inner(n, cells, s, color, region, marked, done, stack, p, k, all),
        k < adjacent_points(n, p).len(),
        marked.contains(adjacent_points(n, p)[k]) || (!all && !walkable(
            cells,
            s,
            color,
            region,
            adjacent_points(n, p)[k],
        )),
    ensures
        walk_inner(n, cells, s, color, region, marked, done, stack, p, k + 1, all),
{
    reveal(walk_inner);
}

/// Marking a new neighbour `q` of `p`; it goes on the stack when the walk passes through it.
pub proof fn lemma_walk_mark(
    n: int,
    cells: Seq<Stone>,
    s: int,
    color: Stone,
    region: bool,
    marked: Set<int>,
    done: Set<int>,
    stack: Seq<usize>,
    p: int,
    k: int,
    push: bool,
    all: bool,
)
    requires
        walk_inner(n, cells, s, color, region, marked, done, stack, p, k, all),
        k < adjacent_points(n, p).len(),
        !marked.contains(adjacent_points(n, p)[k]),
        push == walkable(cells, s, color, region, adjacent_points(n, p)[k]),
    ensures
        ({
            let q = adjacent_points(n, p)[k];
            let st = if push { stack.push(q as usize) } else { stack };
            walk_inner(n, cells, s, color, region, marked.insert(q), done, st, p, k + 1, all)
        }),
        0 <= adjacent_points(n, p)[k] < cells.len(),
        adjacent_points(n, p)[k] != s,
{
    reveal(walk_inner);
    let q = adjacent_points(n, p)[k];
    let m = marked.insert(q);
    let st = if push { stack.push(q as usize) } else { stack };
    assert(marked.contains(p)) by {
        reveal(wb_done);
    }
    assert(0 <= p < cells.len() && n > 0 && n * n == cells.len() && marked.contains(s)
        && cells.len() <= usize::MAX) by {
        reveal(wb_frame);
    }
    lemma_adjacent(n, p);
    assert(0 <= q < cells.len());
    assert(adjacent_points(n, p).contains(q));
    assert(wb_frame(n, cells, s, color, region, m)) by {
        reveal(wb_frame);
    }
    assert(forall|kk: int| 0 <= kk < stack.len() ==> marked.contains(#[trigger] stack[kk] as int)) by {
        reveal(wb_stack);
    }
    assert(done.subset_of(marked)) by {
        reveal(wb_done);
    }
    lemma_mark_stack(cells, s, color, region, marked, stack, q, push);
    assert(wb_done(cells, s, color, region, m, done)) by {
        reveal(wb_done);
    }
    lemma_mark_cover(cells, s, color, region, marked, done, stack, q, push);
    lemma_mark_group(n, cells, s, color, region, marked, done, p, q, push);
    lemma_mark_reason(n, s, marked, done, p, q);
    lemma_mark_fresh(marked, done, stack, q, push);
    assert forall|j: int|
        0 <= j < k + 1 && (all || walkable(cells, s, color, region, adjacent_points(n, p)[j])) implies m.contains(
        #[trigger] adjacent_points(n, p)[j],
    ) by {
        if j < k {
            assert(marked.contains(adjacent_points(n, p)[j]));
        }
    }
}

proof fn lemma_mark_fresh(marked: Set<int>, done: Set<int>, stack: Seq<usize>, q: int, push: bool)
    requires
        wb_fresh(done, stack),
        done.subset_of(marked),
        forall|k: int| 0 <= k < stack.len() ==> marked.contains(#[trigger] stack[k] as int),
        !marked.contains(q),
        0 <= q <= usize::MAX,
    ensures
        wb_fresh(done, if push { stack.push(q as usize) } else { stack }),
{
    reveal(wb_fresh);
    let st = if push { stack.push(q as usize) } else { stack };
    assert forall|k: int| 0 <= k < st.len() implies !done.contains(#[trigger] st[k] as int) by {
        if k < stack.len() {
            assert(st[k] == stack[k]);
        }
    }
    assert forall|k1: int, k2: int|
        0 <= k1 < k2 < st.len() implies #[trigger] st[k1] != #[trigger] st[k2] by {
        assert(st[k1] == stack[k1]);
        if k2 < stack.len() {
            assert(st[k2] == stack[k2]);
        } else {
            assert(marked.contains(stack[k1] as int));
        }
    }
}

proof fn lemma_mark_stack(
    cells: Seq<Stone>,
    s: int,
    color: Stone,
    region: bool,
    marked: Set<int>,
    stack: Seq<usize>,
    q: int,
    push: bool,
)
    requires
        wb_stack(cells, s, color, region, marked, stack),
        0 <= q <= usize::MAX,
        push == walkable(cells, s, color, region, q),
    ensures
        wb_stack(
            cells,
            s,
            color,
            region,
            marked.insert(q),
            if push { stack.push(q as usize) } else { stack },
        ),
{
    reveal(wb_stack);
    let m = marked.insert(q);
    let st = if push { stack.push(q as usize) } else { stack };
    assert forall|kk: int| 0 <= kk < st.len() implies {
        let x = #[trigger] st[kk] as int;
        &&& m.contains(x)
        &&& walkable(cells, s, color, region, x)
    } by {
        if kk < stack.len() {
            assert(st[kk] == stack[kk]);
        }
    }
}

proof fn lemma_mark_cover(
    cells: Seq<Stone>,
    s: int,
    color: Stone,
    region: bool,
    marked: Set<int>,
    done: Set<int>,
    stack: Seq<usize>,
    q: int,
    push: bool,
)
    requires
        wb_cover(cells, s, color, region, marked, done, stack),
        0 <= q <= usize::MAX,
        push == walkable(cells, s, color, region, q),
    ensures
        wb_cover(
            cells,
            s,
            color,
            region,
            marked.insert(q),
            done,
            if push { stack.push(q as usize) } else { stack },
        ),
{
    reveal(wb_cover);
    let m = marked.insert(q);
    let st = if push { stack.push(q as usize) } else { stack };
    assert forall|i: int|
        m.contains(i) && walkable(cells, s, color, region, i) implies done.contains(i) || st.contains(
        i as usize,
    ) by {
        if i == q {
            assert(st[st.len() - 1] == q as usize);
        } else if !done.contains(i) {
            let kk = choose|kk: int| 0 <= kk < stack.len() && stack[kk] == i as usize;
            assert(st[kk] == i as usize);
        }
    }
}

proof fn lemma_mark_group(
    n: int,
    cells: Seq<Stone>,
    s: int,
    color: Stone,
    region: bool,
    marked: Set<int>,
    done: Set<int>,
    p: int,
    q: int,
    push: bool,
)
    requires
        wb_group(n, cells, s, color, region, marked),
        wb_done(cells, s, color, region, marked, done),
        wb_frame(n, cells, s, color, region, marked),
        done.contains(p),
        adjacent_points(n, p).contains(q),
        push == walkable(cells, s, color, region, q),
    ensures
        wb_group(n, cells, s, color, region, marked.insert(q)),
{
    reveal(wb_group);
    assert(color == cells[s] && (region ==> color == Stone::Empty)) by {
        reveal(wb_frame);
    }
    if push && q != s {
        assert(cells[q] == color);
        assert(step(n, cells, color, p, q));
        assert(walkable(cells, s, color, region, p) && marked.contains(p)) by {
            reveal(wb_done);
        }
        assert(color == cells[s]) by {
            reveal(wb_frame);
        }
        if p == s {
            lemma_connected_start(n, cells, color, s);
        } else {
            assert(walk_target(n, cells, s, region).contains(p));
        }
        lemma_connected_step(n, cells, color, s, p, q);
    }
    if q == s {
        assert(marked.contains(s)) by {
            reveal(wb_frame);
        }
        assert(marked.insert(q) =~= marked);
    }
}

proof fn lemma_mark_reason(n: int, s: int, marked: Set<int>, done: Set<int>, p: int, q: int)
    requires
        wb_reason(n, s, marked, done),
        done.contains(p),
        adjacent_points(n, p).contains(q),
    ensures
        wb_reason(n, s, marked.insert(q), done),
{
    reveal(wb_reason);
    let m = marked.insert(q);
    assert forall|i: int| m.contains(i) && i != s implies exists|x: int|
        done.contains(x) && #[trigger] adjacent_points(n, x).contains(i) by {
        if i == q {
            assert(done.contains(p) && adjacent_points(n, p).contains(q));
        }
    }
}

/// After the last neighbour of `p` the walk is back between steps.
pub proof fn lemma_walk_close(
    n: int,
    cells: Seq<Stone>,
    s: int,
    color: Stone,
    region: bool,
    marked: Set<int>,
    done: Set<int>,
    stack: Seq<usize>,
    p: int,
    all: bool,
)
    requires
        walk_inner(
            n,
            cells,
            s,
            color,
            region,
            marked,
            done,
            stack,
            p,
            adjacent_points(n, p).len() as int,
            all,
        ),
    ensures
        walk_inv(n, cells, s, color, region, marked, done, stack, all),
{
    reveal(walk_inner);
    reveal(walk_inv);
    assert forall|x: int, q: int|
        done.contains(x) && #[trigger] adjacent_points(n, x).contains(q) && (all || walkable(
            cells,
            s,
            color,
            region,
            q,
        )) implies marked.contains(q) by {
        if x == p {
            let j = choose|j: int| 0 <= j < adjacent_points(n, p).len() && adjacent_points(n, p)[j] == q;
            assert(marked.contains(adjacent_points(n, p)[j]));
        }
    }
}

/// Facts of the walk's state that the loops need.
pub proof fn lemma_walk_facts(
    n: int,
    cells: Seq<Stone>,
    s: int,
    color: Stone,
    region: bool,
    marked: Set<int>,
    done: Set<int>,
    stack: Seq<usize>,
)
    requires
        walk_base(n, cells, s, color, region, marked, done, stack),
    ensures
        marked.finite(),
        marked.len() <= cells.len(),
        marked.subset_of(set_int_range(0, cells.len() as int)),
        marked.contains(s),
        n > 0,
        n * n == cells.len(),
        cells.len() <= usize::MAX,
        forall|k: int| 0 <= k < stack.len() ==> 0 <= #[trigger] stack[k] < cells.len(),
{
    reveal(wb_frame);
    reveal(wb_stack);
    lemma_int_range(0, cells.len() as int);
    lemma_len_subset(marked, set_int_range(0, cells.len() as int));
    assert forall|k: int| 0 <= k < stack.len() implies 0 <= #[trigger] stack[k] < cells.len() by {
        assert(marked.contains(stack[k] as int));
    }
}

/// The same facts while the neighbours of a point are looked at.
pub proof fn lemma_walk_inner_facts(
    n: int,
    cells: Seq<Stone>,
    s: int,
    color: Stone,
    region: bool,
    marked: Set<int>,
    done: Set<int>,
    stack: Seq<usize>,
    p: int,
    k: int,
    all: bool,
)
    requires
        walk_inner(n, cells, s, color, region, marked, done, stack, p, k, all),
    ensures
        walk_base(n, cells, s, color, region, marked, done, stack),
        marked.contains(p),
        done.contains(p),
{
    reveal(walk_inner);
    reveal(wb_done);
}

/// When the stack runs empty, the walkable marked points are exactly the chain of `s`,
/// and every neighbour of the chain is marked.
pub proof fn lemma_walk_end(
    n: int,
    cells: Seq<Stone>,
    s: int,
    color: Stone,
    region: bool,
    marked: Set<int>,
    done: Set<int>,
    all: bool,
)
    requires
        walk_inv(n, cells, s, color, region, marked, done, Seq::empty(), all),
    ensures
        walk_target(n, cells, s, region) == Set::new(|i: int| marked.contains(i) && walkable(cells, s, color, region, i)),
        walk_target(n, cells, s, region) == done,
        all ==> forall|g: int, q: int|
            walk_target(n, cells, s, region).contains(g) && #[trigger] adjacent_points(n, g).contains(q)
                ==> marked.contains(q),
        forall|i: int|
            marked.contains(i) && i != s ==> exists|p: int|
                walk_target(n, cells, s, region).contains(p) && #[trigger] adjacent_points(n, p).contains(i),
{
    reveal(walk_inv);
    reveal(wb_frame);
    reveal(wb_done);
    reveal(wb_cover);
    reveal(wb_group);
    reveal(wb_reason);
    let v = Set::new(|i: int| marked.contains(i) && walkable(cells, s, color, region, i));
    assert forall|i: int| v.contains(i) implies done.contains(i) by {
        assert(!Seq::<usize>::empty().contains(i as usize));
    }
    if region || color != Stone::Empty {
        assert forall|a: int, b: int|
            v.contains(a) && #[trigger] step(n, cells, color, a, b) implies v.contains(b) by {
            assert(done.contains(a));
            assert(adjacent_points(n, a).contains(b));
        }
        lemma_connected_within(n, cells, color, s, v);
    }
    assert(walk_target(n, cells, s, region) =~= v);
    assert(done =~= v);
}

/// A marked empty point other than `s` is a liberty of the chain of `s`.
pub proof fn lemma_walk_liberty(
    n: int,
    cells: Seq<Stone>,
    s: int,
    color: Stone,
    marked: Set<int>,
    done: Set<int>,
    stack: Seq<usize>,
    i: int,
)
    requires
        walk_base(n, cells, s, color, false, marked, done, stack),
        marked.contains(i),
        i != s,
        cells[i] == Stone::Empty,
    ensures
        liberties_of(n, cells, s).contains(i),
{
    reveal(wb_frame);
    reveal(wb_done);
    reveal(wb_group);
    reveal(wb_reason);
    let p = choose|p: int| done.contains(p) && #[trigger] adjacent_points(n, p).contains(i);
    assert(walk_target(n, cells, s, false).contains(p));
}

/// The liberties of a chain lie on the board.
pub proof fn lemma_liberties_finite(n: int, cells: Seq<Stone>, s: int)
    ensures
        liberties_of(n, cells, s).subset_of(set_int_range(0, cells.len() as int)),
        liberties_of(n, cells, s).finite(),
        liberties_of(n, cells, s).len() <= cells.len(),
{
    lemma_int_range(0, cells.len() as int);
    lemma_len_subset(liberties_of(n, cells, s), set_int_range(0, cells.len() as int));
}

/// At the end of a walk that marks every neighbour, the marked empty points other than `s`
/// are the liberties of the chain of `s`.
pub proof fn lemma_walk_liberties_end(
    n: int,
    cells: Seq<Stone>,
    s: int,
    color: Stone,
    marked: Set<int>,
    done: Set<int>,
    libs: Set<int>,
)
    requires
        walk_inv(n, cells, s, color, false, marked, done, Seq::empty(), true),
        forall|i: int|
            libs.contains(i) <==> (marked.contains(i) && cells[i] == Stone::Empty && i != s),
    ensures
        libs == liberties_of(n, cells, s),
{
    lemma_walk_end(n, cells, s, color, false, marked, done, true);
    reveal(walk_inv);
    lemma_walk_facts(n, cells, s, color, false, marked, done, Seq::empty());
    let grp = walk_target(n, cells, s, false);
    let target = liberties_of(n, cells, s);
    assert forall|q: int| libs.contains(q) implies target.contains(q) by {
        lemma_walk_liberty(n, cells, s, color, marked, done, Seq::empty(), q);
    }
    assert forall|q: int| target.contains(q) implies libs.contains(q) by {
        let g = choose|g: int| #[trigger] grp.contains(g) && adjacent_points(n, g).contains(q);
        assert(marked.contains(q));
        if q == s {
            assert(grp =~= set![s]);
            lemma_adjacent(n, s);
            let kk = choose|kk: int|
                0 <= kk < adjacent_points(n, s).len() && adjacent_points(n, s)[kk] == q;
            assert(adjacent_points(n, s)[kk] != s);
        }
    }
    assert(libs =~= target);
}

} // verus!
