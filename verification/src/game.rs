//! The board, the rules of play, scoring and board coordinates.
use vstd::prelude::*;
use vstd::set_lib::*;
use crate::text::{
    chars_of, string_of, trim_chars, push_char, push_decimal, parse_number, decimal, trim,
    parse_unsigned,
};
use crate::geometry::{
    adjacent_points, diagonal_points, on_edge_of, connected, step, lemma_adjacent,
    lemma_diagonal, lemma_row_col, lemma_connected_start, lemma_connected_step,
    lemma_connected_within, lemma_connected_finite, lemma_connected_same_region,
    lemma_connected_colour,
};
use crate::walk::{
    walk_inv, walk_inner, lemma_walk_start, lemma_walk_pop, lemma_walk_skip,
    lemma_walk_mark, lemma_walk_close, lemma_walk_facts, lemma_walk_inner_facts, lemma_walk_end,
    lemma_walk_liberty, lemma_liberties_finite, lemma_walk_liberties_end,
};

verus! {

/// What stands on a point of the board, or whose turn it is.
#[derive(Clone, Copy, PartialEq, Eq, Debug, Structural)]
pub enum Stone {
    Empty,
    Black,
    White,
}

/// The opposite colour; the empty point stays empty.
pub open spec fn opposite(s: Stone) -> Stone {
    match s {
        Stone::Black => Stone::White,
        Stone::White => Stone::Black,
        Stone::Empty => Stone::Empty,
    }
}

impl Stone {
    /// The opposite colour; `Empty` stays `Empty`.
    pub fn other(self) -> (r: Stone)
        ensures
            r == opposite(self),
    {
        match self {
            Stone::Black => Stone::White,
            Stone::White => Stone::Black,
            Stone::Empty => Stone::Empty,
        }
    }

    /// The name shown for the colour.
    pub fn name(self) -> (r: &'static str)
        ensures
            r@ == (match self {
                Stone::Black => "Black"@,
                Stone::White => "White"@,
                Stone::Empty => "Nobody"@,
            }),
    {
        match self {
            Stone::Black => "Black",
            Stone::White => "White",
            Stone::Empty => "Nobody",
        }
    }

    /// The glyph drawn for the colour.
    pub fn symbol(self) -> (r: &'static str)
        ensures
            r@ == (match self {
                Stone::Black => "\u{25cf}"@,
                Stone::White => "\u{25cb}"@,
                Stone::Empty => " "@,
            }),
    {
        match self {
            Stone::Black => "\u{25cf}",
            Stone::White => "\u{25cb}",
            Stone::Empty => " ",
        }
    }
}


/// A move: a stone on a point, or a pass.
#[derive(Clone, Copy, PartialEq, Eq, Debug, Structural)]
pub enum Play {
    Point(usize),
    Pass,
}

/// Up to four points around a point, handed out one at a time.
pub struct Neighbors {
    points: [usize; 4],
    count: usize,
    at: usize,
}

impl View for Neighbors {
    type V = Seq<int>;

    closed spec fn view(&self) -> Seq<int> {
        Seq::new(self.count as nat, |i: int| self.points@[i] as int)
    }
}

impl Neighbors {
    #[verifier::type_invariant]
    spec fn inv(self) -> bool {
        self.count <= 4 && self.at <= self.count
    }

    /// How many points have been handed out so far.
    pub closed spec fn handed_out(self) -> nat {
        self.at as nat
    }

    /// How many points there are.
    pub fn len(&self) -> (r: usize)
        ensures
            r == self@.len(),
    {
        self.count
    }

    /// The point at position `i`.
    pub fn get(&self, i: usize) -> (r: usize)
        requires
            i < self@.len(),
        ensures
            r as int == self@[i as int],
    {
        proof {
            use_type_invariant(self);
        }
        self.points[i]
    }

    /// The next point not handed out yet, if any.
    pub fn next(&mut self) -> (r: Option<usize>)
        ensures
            final(self)@ == old(self)@,
            old(self).handed_out() < old(self)@.len() ==> r == Some(
                old(self)@[old(self).handed_out() as int] as usize,
            ) && final(self).handed_out() == old(self).handed_out() + 1,
            old(self).handed_out() >= old(self)@.len() ==> r is None && final(self).handed_out()
                == old(self).handed_out(),
    {
        proof {
            use_type_invariant(&*self);
        }
        if self.at < self.count {
            self.at = self.at + 1;
            Some(self.points[self.at - 1])
        } else {
            None
        }
    }
}

/// The points of the chain of `start`: every stone of its colour that can be reached from it
/// through stones of that colour. An empty point is a chain of its own.
pub open spec fn group_of(n: int, cells: Seq<Stone>, start: int) -> Set<int> {
    if cells[start] == Stone::Empty {
        set![start]
    } else {
        connected(n, cells, cells[start], start)
    }
}

/// The empty points next to the chain of `start`.
pub open spec fn liberties_of(n: int, cells: Seq<Stone>, start: int) -> Set<int> {
    Set::new(
        |q: int|
            0 <= q < cells.len() && cells[q] == Stone::Empty && exists|g: int|
                #[trigger] group_of(n, cells, start).contains(g) && adjacent_points(n, g).contains(q),
    )
}

/// `cells` with the chain of `start` taken off.
pub open spec fn without_group(n: int, cells: Seq<Stone>, start: int) -> Seq<Stone> {
    Seq::new(
        cells.len(),
        |i: int|
            if group_of(n, cells, start).contains(i) {
                Stone::Empty
            } else {
                cells[i]
            },
    )
}

/// Whether no point next to `p` holds what `p` holds.
pub open spec fn alone_at(n: int, cells: Seq<Stone>, p: int) -> bool {
    forall|k: int|
        0 <= k < adjacent_points(n, p).len() ==> cells[#[trigger] adjacent_points(n, p)[k]]
            != cells[p]
}

/// Whether a walk from `s` (holding `color`) passes through `i`: over the chain of `s`, or over
/// its empty region when `region` holds.
pub open spec fn walkable(cells: Seq<Stone>, s: int, color: Stone, region: bool, i: int) -> bool {
    i == s || (cells[i] == color && (region || color != Stone::Empty))
}

/// What a walk from `s` covers: the empty region of `s` when `region` holds, else its chain.
pub open spec fn walk_target(n: int, cells: Seq<Stone>, s: int, region: bool) -> Set<int> {
    if region {
        connected(n, cells, Stone::Empty, s)
    } else {
        group_of(n, cells, s)
    }
}

/// A square board of points, each empty or holding a stone.
pub struct Board {
    pub size: usize,
    cells: Vec<Stone>,
    seen: Vec<u32>,
    stamp: u32,
    stack: Vec<usize>,
}

impl View for Board {
    type V = Seq<Stone>;

    closed spec fn view(&self) -> Seq<Stone> {
        self.cells@
    }
}

impl Board {
    /// The scratch space used to walk chains is in order.
    pub closed spec fn scratch_ok(&self) -> bool {
        &&& self.seen@.len() == self.cells@.len()
        &&& self.cells@.len() <= usize::MAX
        &&& self.stamp < u32::MAX
        &&& forall|i: int| 0 <= i < self.seen@.len() ==> self.seen@[i] <= self.stamp
    }

    /// How many points wide the board is.
    pub closed spec fn width(&self) -> int {
        self.size as int
    }

    /// The board holds `size * size` points.
    pub closed spec fn wf(&self) -> bool {
        &&& self@.len() == self.size * self.size
        &&& self.scratch_ok()
    }

    /// A well-formed board holds `width * width` points.
    pub proof fn lemma_wf(&self)
        requires
            self.wf(),
        ensures
            self@.len() == self.width() * self.width(),
            self.width() >= 0,
            self.width() * self.width() <= usize::MAX,
    {
    }

    /// An empty board `size` points wide.
    pub fn new(size: usize) -> (b: Board)
        requires
            size * size <= usize::MAX,
        ensures
            b.wf(),
            b.width() == size,
            b@ == Seq::new((size * size) as nat, |i: int| Stone::Empty),
    {
        let total = size * size;
        let b = Board {
            size,
            cells: vec![Stone::Empty; total],
            seen: vec![0; total],
            stamp: 0,
            stack: Vec::with_capacity(total),
        };
        assert(b@ =~= Seq::new((size * size) as nat, |i: int| Stone::Empty));
        b
    }

    /// How many points the board has.
    pub fn points(&self) -> (r: usize)
        ensures
            r == self@.len(),
    {
        self.cells.len()
    }

    /// The point in row `row` and column `col`.
    pub fn point(&self, row: usize, col: usize) -> (p: usize)
        requires
            row * self.width() + col <= usize::MAX,
        ensures
            p == row * self.width() + col,
    {
        row * self.size + col
    }

    /// The row and column of point `p`.
    pub fn row_col(&self, p: usize) -> (rc: (usize, usize))
        requires
            self.width() > 0,
        ensures
            rc.0 == p as int / self.width(),
            rc.1 == p as int % self.width(),
    {
        (p / self.size, p % self.size)
    }

    /// What stands on point `p`.
    pub fn at(&self, p: usize) -> (s: Stone)
        requires
            p < self@.len(),
        ensures
            s == self@[p as int],
    {
        self.cells[p]
    }

    /// Puts `stone` on point `p`, whatever stood there.
    pub fn put(&mut self, p: usize, stone: Stone)
        requires
            p < old(self)@.len(),
        ensures
            final(self)@ == old(self)@.update(p as int, stone),
            final(self).width() == old(self).width(),
            final(self).wf() == old(self).wf(),
    {
        self.cells[p] = stone;
    }

    /// The points next to `p`: above, below, left, right.
    pub fn neighbors(&self, p: usize) -> (nb: Neighbors)
        requires
            self.wf(),
            p < self@.len(),
        ensures
            nb@ == adjacent_points(self.width(), p as int),
            nb.handed_out() == 0,
    {
        let ghost n = self.size as int;
        proof {
            lemma_adjacent(n, p as int);
            lemma_row_col(n, p as int);
        }
        let ghost spec_seq = adjacent_points(n, p as int);
        let (row, col) = self.row_col(p);
        let mut points = [0usize; 4];
        let mut count: usize = 0;
        let ghost mut built: Seq<int> = Seq::empty();
        if row > 0 {
            proof {
                built = built.push(p as int - n);
                assert(built[0] == spec_seq[0]);
                assert(0 <= spec_seq[0] < n * n);
            }
            points[count] = p - self.size;
            count += 1;
        }
        if row + 1 < self.size {
            proof {
                built = built.push(p as int + n);
                assert(built[count as int] == spec_seq[count as int]);
                assert(0 <= spec_seq[count as int] < n * n);
            }
            points[count] = p + self.size;
            count += 1;
        }
        if col > 0 {
            proof {
                built = built.push(p as int - 1);
                assert(built[count as int] == spec_seq[count as int]);
                assert(0 <= spec_seq[count as int] < n * n);
            }
            points[count] = p - 1;
            count += 1;
        }
        if col + 1 < self.size {
            proof {
                built = built.push(p as int + 1);
                assert(built[count as int] == spec_seq[count as int]);
                assert(0 <= spec_seq[count as int] < n * n);
            }
            points[count] = p + 1;
            count += 1;
        }
        assert(built =~= spec_seq);
        let nb = Neighbors { points, count, at: 0 };
        assert(nb@ =~= spec_seq);
        nb
    }

    /// The points diagonally next to `p`.
    pub fn diagonals(&self, p: usize) -> (nb: Neighbors)
        requires
            self.wf(),
            p < self@.len(),
        ensures
            nb@ == diagonal_points(self.width(), p as int),
            nb.handed_out() == 0,
    {
        let ghost n = self.size as int;
        proof {
            lemma_diagonal(n, p as int);
            lemma_row_col(n, p as int);
        }
        let ghost spec_seq = diagonal_points(n, p as int);
        let (row, col) = self.row_col(p);
        let mut points = [0usize; 4];
        let mut count: usize = 0;
        let ghost mut built: Seq<int> = Seq::empty();
        if row > 0 && col > 0 {
            proof {
                built = built.push(p as int - n - 1);
                assert(built[0] == spec_seq[0]);
                assert(0 <= spec_seq[0] < n * n);
            }
            points[count] = p - self.size - 1;
            count += 1;
        }
        if row > 0 && col + 1 < self.size {
            proof {
                built = built.push(p as int - n + 1);
                assert(built[count as int] == spec_seq[count as int]);
                assert(0 <= spec_seq[count as int] < n * n);
            }
            points[count] = p + 1 - self.size;
            count += 1;
        }
        if row + 1 < self.size && col > 0 {
            proof {
                built = built.push(p as int + n - 1);
                assert(built[count as int] == spec_seq[count as int]);
                assert(0 <= spec_seq[count as int] < n * n);
            }
            points[count] = p + self.size - 1;
            count += 1;
        }
        if row + 1 < self.size && col + 1 < self.size {
            proof {
                built = built.push(p as int + n + 1);
                assert(built[count as int] == spec_seq[count as int]);
                assert(0 <= spec_seq[count as int] < n * n);
            }
            points[count] = p + self.size + 1;
            count += 1;
        }
        assert(built =~= spec_seq);
        let nb = Neighbors { points, count, at: 0 };
        assert(nb@ =~= spec_seq);
        nb
    }

    /// Whether `p` lies on the outer line of the board.
    pub fn on_edge(&self, p: usize) -> (r: bool)
        requires
            self.wf(),
            p < self@.len(),
        ensures
            r == on_edge_of(self.width(), p as int),
    {
        proof {
            lemma_row_col(self.size as int, p as int);
        }
        let (row, col) = self.row_col(p);
        row == 0 || col == 0 || row + 1 == self.size || col + 1 == self.size
    }

    /// Begins a walk from `start`: a fresh stamp marks `start` alone, and the stack holds it.
    fn start_walk(&mut self, start: usize) -> (stamp: u32)
        requires
            old(self).wf(),
            start < old(self)@.len(),
        ensures
            final(self).wf(),
            final(self)@ == old(self)@,
            final(self).size == old(self).size,
            final(self).stamp == stamp,
            final(self).stack@ == seq![start],
            forall|i: int|
                0 <= i < final(self).seen@.len() ==> (final(self).seen@[i] == stamp <==> i
                    == start),
    {
        if self.stamp + 1 == u32::MAX {
            let mut i: usize = 0;
            while i < self.seen.len()
                invariant
                    self.seen@.len() == self.cells@.len(),
                    self.cells@ == old(self).cells@,
                    self.size == old(self).size,
                    0 <= i <= self.seen@.len(),
                    forall|j: int| 0 <= j < i ==> self.seen@[j] == 0,
                decreases self.seen@.len() - i,
            {
                self.seen[i] = 0;
                i += 1;
            }
            self.stamp = 1;
        } else {
            self.stamp = self.stamp + 1;
        }
        self.stack.clear();
        self.stack.push(start);
        self.seen[start] = self.stamp;
        self.stamp
    }

    /// How many empty points touch the chain of `start`.
    pub fn liberties(&mut self, start: usize) -> (count: usize)
        requires
            old(self).wf(),
            start < old(self)@.len(),
        ensures
            final(self).wf(),
            final(self)@ == old(self)@,
            final(self).width() == old(self).width(),
            count == liberties_of(old(self).width(), old(self)@, start as int).len(),
    {
        let color = self.cells[start];
        let stamp = self.start_walk(start);
        let mut liberties: usize = 0;
        let ghost n = self.size as int;
        let ghost cells = self.cells@;
        let ghost len = cells.len() as int;
        let ghost s = start as int;
        let ghost mut marked: Set<int> = set![s];
        let ghost mut done: Set<int> = Set::empty();
        let ghost mut libs: Set<int> = Set::empty();
        proof {
            if n == 0 {
                assert(n * n == 0) by (nonlinear_arith)
                    requires
                        n == 0,
                ;
            }
            lemma_walk_start(n, cells, start, false, self.stack@, true);
        }
        while self.stack.len() > 0
            invariant
                self.wf(),
                self.cells@ == cells,
                self.size == n,
                self.stamp == stamp,
                len == cells.len(),
                color == cells[s],
                walk_inv(n, cells, s, color, false, marked, done, self.stack@, true),
                forall|i: int| 0 <= i < len ==> (self.seen@[i] == stamp <==> marked.contains(i)),
                forall|i: int|
                    libs.contains(i) <==> (marked.contains(i) && cells[i] == Stone::Empty && i != s),
                libs.subset_of(marked),
                liberties == libs.len(),
            decreases 2 * (len - marked.len()) + self.stack@.len(),
        {
            proof {
                reveal(walk_inv);
                lemma_walk_facts(n, cells, s, color, false, marked, done, self.stack@);
                lemma_len_subset(libs, marked);
            }
            let ghost measure = 2 * (len - marked.len()) + self.stack@.len();
            let ghost before = self.stack@;
            let p = self.stack.pop().unwrap();
            proof {
                lemma_walk_pop(n, cells, s, color, false, marked, done, before, p, true);
                done = done.insert(p as int);
            }
            let nb = self.neighbors(p);
            let mut k: usize = 0;
            while k < nb.len()
                invariant
                    self.wf(),
                    self.cells@ == cells,
                    self.size == n,
                    self.stamp == stamp,
                    len == cells.len(),
                    color == cells[s],
                    nb@ == adjacent_points(n, p as int),
                    0 <= k <= nb@.len(),
                    walk_inner(n, cells, s, color, false, marked, done, self.stack@, p as int, k as int, true),
                    forall|i: int| 0 <= i < len ==> (self.seen@[i] == stamp <==> marked.contains(i)),
                    forall|i: int|
                        libs.contains(i) <==> (marked.contains(i) && cells[i] == Stone::Empty && i
                            != s),
                    libs.subset_of(marked),
                    liberties == libs.len(),
                    2 * (len - marked.len()) + self.stack@.len() < measure,
                decreases nb@.len() - k,
            {
                proof {
                    lemma_walk_inner_facts(n, cells, s, color, false, marked, done, self.stack@, p as int, k as int, true);
                    lemma_walk_facts(n, cells, s, color, false, marked, done, self.stack@);
                    lemma_len_subset(libs, marked);
                    lemma_adjacent(n, p as int);
                }
                let q = nb.get(k);
                if self.seen[q] == stamp {
                    proof {
                        lemma_walk_skip(n, cells, s, color, false, marked, done, self.stack@, p as int, k as int, true);
                    }
                    k += 1;
                    continue;
                }
                let ghost push = walkable(cells, s, color, false, q as int);
                proof {
                    lemma_walk_mark(n, cells, s, color, false, marked, done, self.stack@, p as int, k as int, push, true);
                    lemma_int_range(0, len);
                    lemma_len_subset(marked.insert(q as int), set_int_range(0, len));
                    lemma_len_subset(libs.insert(q as int), marked.insert(q as int));
                    marked = marked.insert(q as int);
                }
                self.seen[q] = stamp;
                if self.cells[q] == Stone::Empty {
                    proof {
                        libs = libs.insert(q as int);
                    }
                    liberties += 1;
                } else if self.cells[q] == color {
                    self.stack.push(q);
                }
                k += 1;
            }
            proof {
                lemma_walk_close(n, cells, s, color, false, marked, done, self.stack@, p as int, true);
                reveal(walk_inv);
                lemma_walk_facts(n, cells, s, color, false, marked, done, self.stack@);
            }
        }
        proof {
            assert(self.stack@ =~= Seq::<usize>::empty());
            lemma_walk_liberties_end(n, cells, s, color, marked, done, libs);
        }
        liberties
    }

    /// The one empty point next to the chain of `start`, when there is exactly one.
    pub fn last_liberty(&mut self, start: usize) -> (r: Option<usize>)
        requires
            old(self).wf(),
            start < old(self)@.len(),
        ensures
            final(self).wf(),
            final(self)@ == old(self)@,
            final(self).width() == old(self).width(),
            r matches Some(q) ==> liberties_of(old(self).width(), old(self)@, start as int) == set![
                q as int,
            ],
            r is None ==> liberties_of(old(self).width(), old(self)@, start as int).len() != 1,
    {
        let color = self.cells[start];
        let stamp = self.start_walk(start);
        let mut found: Option<usize> = None;
        let ghost n = self.size as int;
        let ghost cells = self.cells@;
        let ghost len = cells.len() as int;
        let ghost s = start as int;
        let ghost mut marked: Set<int> = set![s];
        let ghost mut done: Set<int> = Set::empty();
        let ghost mut libs: Set<int> = Set::empty();
        proof {
            if n == 0 {
                assert(n * n == 0) by (nonlinear_arith)
                    requires
                        n == 0,
                ;
            }
            lemma_walk_start(n, cells, start, false, self.stack@, true);
            lemma_liberties_finite(n, cells, s);
        }
        while self.stack.len() > 0
            invariant
                self.wf(),
                self.cells@ == cells,
                cells == old(self)@,
                s == start as int,
                n == old(self).width(),
                self.size == n,
                self.stamp == stamp,
                len == cells.len(),
                color == cells[s],
                walk_inv(n, cells, s, color, false, marked, done, self.stack@, true),
                forall|i: int| 0 <= i < len ==> (self.seen@[i] == stamp <==> marked.contains(i)),
                forall|i: int|
                    libs.contains(i) <==> (marked.contains(i) && cells[i] == Stone::Empty && i != s),
                match found {
                    Some(x) => libs == set![x as int],
                    None => libs == Set::<int>::empty(),
                },
                liberties_of(n, cells, s).finite(),
            decreases 2 * (len - marked.len()) + self.stack@.len(),
        {
            proof {
                reveal(walk_inv);
                lemma_walk_facts(n, cells, s, color, false, marked, done, self.stack@);
            }
            let ghost measure = 2 * (len - marked.len()) + self.stack@.len();
            let ghost before = self.stack@;
            let p = self.stack.pop().unwrap();
            proof {
                lemma_walk_pop(n, cells, s, color, false, marked, done, before, p, true);
                done = done.insert(p as int);
            }
            let nb = self.neighbors(p);
            let mut k: usize = 0;
            while k < nb.len()
                invariant
                    self.wf(),
                    self.cells@ == cells,
                    cells == old(self)@,
                    s == start as int,
                s == start as int,
                    n == old(self).width(),
                    self.size == n,
                    self.stamp == stamp,
                    len == cells.len(),
                    color == cells[s],
                    nb@ == adjacent_points(n, p as int),
                    0 <= k <= nb@.len(),
                    walk_inner(n, cells, s, color, false, marked, done, self.stack@, p as int, k as int, true),
                    forall|i: int| 0 <= i < len ==> (self.seen@[i] == stamp <==> marked.contains(i)),
                    forall|i: int|
                        libs.contains(i) <==> (marked.contains(i) && cells[i] == Stone::Empty && i
                            != s),
                    match found {
                        Some(x) => libs == set![x as int],
                        None => libs == Set::<int>::empty(),
                    },
                    liberties_of(n, cells, s).finite(),
                    2 * (len - marked.len()) + self.stack@.len() < measure,
                decreases nb@.len() - k,
            {
                proof {
                    lemma_walk_inner_facts(n, cells, s, color, false, marked, done, self.stack@, p as int, k as int, true);
                    lemma_walk_facts(n, cells, s, color, false, marked, done, self.stack@);
                    lemma_adjacent(n, p as int);
                }
                let q = nb.get(k);
                if self.seen[q] == stamp {
                    proof {
                        lemma_walk_skip(n, cells, s, color, false, marked, done, self.stack@, p as int, k as int, true);
                    }
                    k += 1;
                    continue;
                }
                let ghost push = walkable(cells, s, color, false, q as int);
                proof {
                    lemma_walk_mark(n, cells, s, color, false, marked, done, self.stack@, p as int, k as int, push, true);
                    lemma_int_range(0, len);
                    lemma_len_subset(marked.insert(q as int), set_int_range(0, len));
                    marked = marked.insert(q as int);
                }
                self.seen[q] = stamp;
                if self.cells[q] == Stone::Empty {
                    if let Some(x) = found {
                        proof {
                            let target = liberties_of(n, cells, s);
                            lemma_walk_inner_facts(n, cells, s, color, false, marked, done, self.stack@, p as int, k as int + 1, true);
                            lemma_walk_liberty(n, cells, s, color, marked, done, self.stack@, q as int);
                            assert(libs.contains(x as int));
                            lemma_walk_liberty(n, cells, s, color, marked, done, self.stack@, x as int);
                            let two = set![x as int].insert(q as int);
                            assert(x as int != q as int);
                            assert(two.len() == 2);
                            assert(two.subset_of(target));
                            lemma_len_subset(two, target);
                            assert(target.len() >= 2);
                        }
                        return None;
                    }
                    proof {
                        libs = libs.insert(q as int);
                        assert(libs =~= set![q as int]);
                    }
                    found = Some(q);
                } else if self.cells[q] == color {
                    self.stack.push(q);
                }
                k += 1;
            }
            proof {
                lemma_walk_close(n, cells, s, color, false, marked, done, self.stack@, p as int, true);
                reveal(walk_inv);
                lemma_walk_facts(n, cells, s, color, false, marked, done, self.stack@);
            }
        }
        proof {
            assert(self.stack@ =~= Seq::<usize>::empty());
            lemma_walk_liberties_end(n, cells, s, color, marked, done, libs);
        }
        found
    }

    /// Whether no point next to `p` holds what `p` holds.
    pub fn alone(&self, p: usize) -> (r: bool)
        requires
            self.wf(),
            p < self@.len(),
        ensures
            r == alone_at(self.width(), self@, p as int),
    {
        let color = self.cells[p];
        let nb = self.neighbors(p);
        let ghost n = self.size as int;
        proof {
            if n == 0 {
                assert(n * n == 0) by (nonlinear_arith)
                    requires
                        n == 0,
                ;
            }
            lemma_adjacent(n, p as int);
        }
        let mut k: usize = 0;
        while k < nb.len()
            invariant
                self.wf(),
                nb@ == adjacent_points(n, p as int),
                n == self.size,
                color == self@[p as int],
                0 <= k <= nb@.len(),
                forall|j: int| 0 <= j < nb@.len() ==> 0 <= #[trigger] nb@[j] < self@.len(),
                forall|j: int| 0 <= j < k ==> self@[#[trigger] nb@[j]] != color,
            decreases nb@.len() - k,
        {
            let q = nb.get(k);
            if self.cells[q] == color {
                return false;
            }
            k += 1;
        }
        true
    }

    /// Takes the chain of `start` off the board; gives how many stones it held and one of them.
    fn take_group(&mut self, start: usize) -> (r: (usize, usize))
        requires
            old(self).wf(),
            start < old(self)@.len(),
            old(self)@[start as int] != Stone::Empty,
        ensures
            final(self).wf(),
            final(self).width() == old(self).width(),
            final(self)@ == without_group(old(self).width(), old(self)@, start as int),
            r.0 == group_of(old(self).width(), old(self)@, start as int).len(),
            group_of(old(self).width(), old(self)@, start as int).contains(r.1 as int),
    {
        let color = self.cells[start];
        let stamp = self.start_walk(start);
        let mut taken: usize = 0;
        let mut last = start;
        let ghost n = self.size as int;
        let ghost cells = self.cells@;
        let ghost len = cells.len() as int;
        let ghost s = start as int;
        let ghost mut marked: Set<int> = set![s];
        let ghost mut done: Set<int> = Set::empty();
        proof {
            if n == 0 {
                assert(n * n == 0) by (nonlinear_arith)
                    requires
                        n == 0,
                ;
            }
            lemma_walk_start(n, cells, start, false, self.stack@, false);
            lemma_connected_start(n, cells, color, s);
        }
        while self.stack.len() > 0
            invariant
                self.wf(),
                self.size == n,
                self.stamp == stamp,
                len == cells.len(),
                color == cells[s],
                color != Stone::Empty,
                walk_inv(n, cells, s, color, false, marked, done, self.stack@, false),
                forall|i: int| 0 <= i < len ==> (self.seen@[i] == stamp <==> marked.contains(i)),
                self.cells@ == Seq::new(
                    len as nat,
                    |i: int|
                        if done.contains(i) {
                            Stone::Empty
                        } else {
                            cells[i]
                        },
                ),
                done.finite(),
                taken == done.len(),
                group_of(n, cells, s).contains(last as int),
            decreases 2 * (len - marked.len()) + self.stack@.len(),
        {
            proof {
                reveal(walk_inv);
                lemma_walk_facts(n, cells, s, color, false, marked, done, self.stack@);
                reveal(crate::walk::wb_done);
                lemma_len_subset(done, marked);
            }
            let ghost measure = 2 * (len - marked.len()) + self.stack@.len();
            let ghost before = self.stack@;
            let p = self.stack.pop().unwrap();
            proof {
                lemma_walk_pop(n, cells, s, color, false, marked, done, before, p, false);
                done = done.insert(p as int);
                lemma_walk_inner_facts(n, cells, s, color, false, marked, done, self.stack@, p as int, 0, false);
                reveal(crate::walk::wb_done);
                reveal(crate::walk::wb_group);
                lemma_len_subset(done, marked);
            }
            self.cells[p] = Stone::Empty;
            taken += 1;
            last = p;
            proof {
                assert(self.cells@ =~= Seq::new(
                    len as nat,
                    |i: int|
                        if done.contains(i) {
                            Stone::Empty
                        } else {
                            cells[i]
                        },
                ));
            }
            let nb = self.neighbors(p);
            let mut k: usize = 0;
            while k < nb.len()
                invariant
                    self.wf(),
                    self.size == n,
                    self.stamp == stamp,
                    len == cells.len(),
                    color == cells[s],
                    color != Stone::Empty,
                    nb@ == adjacent_points(n, p as int),
                    0 <= k <= nb@.len(),
                    walk_inner(n, cells, s, color, false, marked, done, self.stack@, p as int, k as int, false),
                    forall|i: int| 0 <= i < len ==> (self.seen@[i] == stamp <==> marked.contains(i)),
                    self.cells@ == Seq::new(
                        len as nat,
                        |i: int|
                            if done.contains(i) {
                                Stone::Empty
                            } else {
                                cells[i]
                            },
                    ),
                    done.finite(),
                    taken == done.len(),
                    group_of(n, cells, s).contains(last as int),
                    2 * (len - marked.len()) + self.stack@.len() < measure,
                decreases nb@.len() - k,
            {
                proof {
                    lemma_walk_inner_facts(n, cells, s, color, false, marked, done, self.stack@, p as int, k as int, false);
                    lemma_walk_facts(n, cells, s, color, false, marked, done, self.stack@);
                    lemma_adjacent(n, p as int);
                    reveal(crate::walk::wb_done);
                }
                let q = nb.get(k);
                if self.seen[q] != stamp && self.cells[q] == color {
                    proof {
                        assert(!done.contains(q as int));
                        assert(walkable(cells, s, color, false, q as int));
                        lemma_walk_mark(n, cells, s, color, false, marked, done, self.stack@, p as int, k as int, true, false);
                        lemma_int_range(0, len);
                        lemma_len_subset(marked.insert(q as int), set_int_range(0, len));
                        marked = marked.insert(q as int);
                    }
                    self.seen[q] = stamp;
                    self.stack.push(q);
                } else {
                    proof {
                        if !marked.contains(q as int) {
                            assert(!done.contains(q as int));
                            assert(cells[q as int] != color);
                            assert(q as int != s);
                        }
                        lemma_walk_skip(n, cells, s, color, false, marked, done, self.stack@, p as int, k as int, false);
                    }
                }
                k += 1;
            }
            proof {
                lemma_walk_close(n, cells, s, color, false, marked, done, self.stack@, p as int, false);
                reveal(walk_inv);
                lemma_walk_facts(n, cells, s, color, false, marked, done, self.stack@);
            }
        }
        proof {
            assert(self.stack@ =~= Seq::<usize>::empty());
            lemma_walk_end(n, cells, s, color, false, marked, done, false);
            assert(self.cells@ =~= without_group(n, cells, s));
        }
        (taken, last)
    }
}

impl Clone for Board {
    /// A board with the same stones.
    fn clone(&self) -> (b: Board)
        ensures
            b@ == self@,
            b.width() == self.width(),
            self.wf() ==> b.wf(),
    {
        let n = self.cells.len();
        let mut cells: Vec<Stone> = Vec::with_capacity(n);
        let mut i: usize = 0;
        while i < n
            invariant
                n == self.cells@.len(),
                0 <= i <= n,
                cells@ == self.cells@.take(i as int),
            decreases n - i,
        {
            cells.push(self.cells[i]);
            proof {
                assert(self.cells@.take(i as int + 1) =~= self.cells@.take(i as int).push(
                    self.cells@[i as int],
                ));
            }
            i += 1;
        }
        proof {
            assert(self.cells@.take(n as int) =~= self.cells@);
        }
        Board { size: self.size, cells, seen: vec![0; n], stamp: 0, stack: Vec::new() }
    }
}

impl Clone for Game {
    /// The same position.
    fn clone(&self) -> (g: Game)
        ensures
            g.same_as(self),
            self.wf() ==> g.wf(),
    {
        Game {
            board: self.board.clone(),
            turn: self.turn,
            captured: self.captured,
            passes: self.passes,
            finished: self.finished,
            winner: self.winner,
            komi: self.komi,
            ko: self.ko,
            move_number: self.move_number,
            handicap: self.handicap,
        }
    }
}


/// Whether placing a stone of colour `turn` next to `q` leaves it a liberty there:
/// `q` is empty, a chain of `turn` that keeps another liberty, or another colour's chain
/// that would lose its last liberty.
pub open spec fn opens_at(n: int, cells: Seq<Stone>, turn: Stone, q: int) -> bool {
    ||| cells[q] == Stone::Empty
    ||| (cells[q] == turn && liberties_of(n, cells, q).len() > 1)
    ||| (cells[q] != turn && liberties_of(n, cells, q).len() == 1)
}

/// The board after the enemy chains next to the new stone, looked at in the order of `nbs`,
/// are taken off when they have no liberty left; with the points taken and how many there were.
pub open spec fn capture_pass(n: int, cells: Seq<Stone>, nbs: Seq<int>, enemy: Stone) -> (
    Seq<Stone>,
    Set<int>,
    nat,
)
    decreases nbs.len(),
{
    if nbs.len() == 0 {
        (cells, Set::empty(), 0)
    } else {
        let (c, d, t) = capture_pass(n, cells, nbs.drop_last(), enemy);
        let q = nbs.last();
        if c[q] == enemy && liberties_of(n, c, q).len() == 0 {
            (without_group(n, c, q), d.union(group_of(n, c, q)), t + group_of(n, c, q).len())
        } else {
            (c, d, t)
        }
    }
}

/// How many of the points `pts` hold `c`.
pub open spec fn count_of(cells: Seq<Stone>, pts: Seq<int>, c: Stone) -> nat
    decreases pts.len(),
{
    if pts.len() == 0 {
        0
    } else {
        count_of(cells, pts.drop_last(), c) + if cells[pts.last()] == c {
            1nat
        } else {
            0nat
        }
    }
}

/// Whether the empty point `p` is an eye of `color`: every point next to it holds `color`,
/// and the other colour holds no diagonal point on the edge, at most one inside the board.
pub open spec fn eye_at(n: int, cells: Seq<Stone>, p: int, color: Stone) -> bool {
    let enemies = count_of(cells, diagonal_points(n, p), opposite(color));
    &&& cells[p] == Stone::Empty
    &&& forall|k: int|
        0 <= k < adjacent_points(n, p).len() ==> cells[#[trigger] adjacent_points(n, p)[k]] == color
    &&& if on_edge_of(n, p) {
        enemies == 0
    } else {
        enemies <= 1
    }
}

/// Whether a point of `r` has a neighbour holding `c`.
pub open spec fn touches(n: int, cells: Seq<Stone>, r: Set<int>, c: Stone) -> bool {
    exists|x: int, j: int|
        r.contains(x) && 0 <= j < adjacent_points(n, x).len() && cells[#[trigger] adjacent_points(
            n,
            x,
        )[j]] == c
}

/// Who owns point `p` at the end: the colour whose stones alone border the empty region of `p`;
/// nobody for a stone, or for a region that both colours, or neither, border.
pub open spec fn owner_of(n: int, cells: Seq<Stone>, p: int) -> Option<Stone> {
    if cells[p] != Stone::Empty {
        None
    } else {
        let r = connected(n, cells, Stone::Empty, p);
        let b = touches(n, cells, r, Stone::Black);
        let w = touches(n, cells, r, Stone::White);
        if b && !w {
            Some(Stone::Black)
        } else if w && !b {
            Some(Stone::White)
        } else {
            None
        }
    }
}

/// The rows and columns of the handicap stones for `stones` stones on a board `size` wide:
/// none below two stones or on boards under 9; the corners first, then the sides, with the
/// centre for an odd number above four; at most nine.
pub open spec fn handicap_spots(size: int, stones: int) -> Seq<(int, int)> {
    if size < 9 || stones < 2 {
        Seq::empty()
    } else {
        let edge = if size > 9 { 3int } else { 2int };
        let far = size - 1 - edge;
        let mid = size / 2;
        let corners = seq![(far, edge), (edge, far), (edge, edge), (far, far)];
        let sides = seq![(mid, edge), (mid, far), (edge, mid), (far, mid)];
        let count = if stones < 9 { stones } else { 9 };
        let first = corners.take(if count < 4 { count } else { 4 });
        if count > 4 {
            let side_count = if count % 2 == 1 { count - 5 } else { count - 4 };
            let with_sides = first + sides.take(side_count);
            if count % 2 == 1 {
                with_sides.push((mid, mid))
            } else {
                with_sides
            }
        } else {
            first
        }
    }
}

/// The rows and columns of the star points drawn on a board `size` wide.
pub open spec fn star_spots(size: int) -> Seq<(int, int)> {
    if size < 9 {
        Seq::empty()
    } else {
        let edge = if size > 9 { 3int } else { 2int };
        let far = size - 1 - edge;
        let mid = size / 2;
        let corners = seq![(edge, edge), (edge, far), (far, edge), (far, far)];
        let with_centre = if size % 2 == 1 { corners.push((mid, mid)) } else { corners };
        if size >= 19 {
            with_centre + seq![(edge, mid), (mid, edge), (mid, far), (far, mid)]
        } else {
            with_centre
        }
    }
}

/// The points at the given rows and columns.
pub open spec fn spots_to_points(size: int, spots: Seq<(int, int)>) -> Seq<usize> {
    spots.map_values(|rc: (int, int)| (rc.0 * size + rc.1) as usize)
}

/// `cells` with `stone` on every point of `pts`.
pub open spec fn put_all(cells: Seq<Stone>, pts: Seq<usize>, stone: Stone) -> Seq<Stone> {
    Seq::new(cells.len(), |i: int| if pts.contains(i as usize) { stone } else { cells[i] })
}

/// Putting the stones of one more point is one more update.
pub proof fn lemma_put_all_step(cells: Seq<Stone>, pts: Seq<usize>, k: int, stone: Stone)
    requires
        0 <= k < pts.len(),
        pts[k] < cells.len(),
        cells.len() <= usize::MAX,
    ensures
        put_all(cells, pts.take(k + 1), stone) == put_all(cells, pts.take(k), stone).update(
            pts[k] as int,
            stone,
        ),
        put_all(cells, pts.take(0), stone) == cells,
{
    let t0 = pts.take(k);
    let t1 = pts.take(k + 1);
    let p = pts[k];
    assert(t1 =~= t0.push(p));
    assert forall|i: int| 0 <= i < cells.len() implies put_all(cells, t1, stone)[i] == put_all(
        cells,
        t0,
        stone,
    ).update(p as int, stone)[i] by {
        if t1.contains(i as usize) && i != p as int {
            let kk = choose|kk: int| 0 <= kk < t1.len() && t1[kk] == i as usize;
            if kk == k {
                assert(false);
            }
            assert(t0[kk] == i as usize);
        }
        if t0.contains(i as usize) {
            let kk = choose|kk: int| 0 <= kk < t0.len() && t0[kk] == i as usize;
            assert(t1[kk] == i as usize);
        }
        assert(t1[k] == p);
    }
    assert(put_all(cells, t1, stone) =~= put_all(cells, t0, stone).update(p as int, stone));
    assert(put_all(cells, pts.take(0), stone) =~= cells);
}

/// Whether point `i` counts for `c` at the end: a stone of `c`, or empty ground that `c` owns.
pub open spec fn counts_for(n: int, cells: Seq<Stone>, i: int, c: Stone) -> bool {
    cells[i] == c || owner_of(n, cells, i) == Some(c)
}

/// How many of the first `k` points count for `c`.
pub open spec fn area(n: int, cells: Seq<Stone>, c: Stone, k: int) -> nat
    decreases k,
{
    if k <= 0 {
        0
    } else {
        area(n, cells, c, k - 1) + if counts_for(n, cells, k - 1, c) {
            1nat
        } else {
            0nat
        }
    }
}

/// No more of the first `k` points count for `c` than there are.
pub proof fn lemma_area_bound(n: int, cells: Seq<Stone>, c: Stone, k: int)
    requires
        k >= 0,
    ensures
        area(n, cells, c, k) <= k,
    decreases k,
{
    if k > 0 {
        lemma_area_bound(n, cells, c, k - 1);
    }
}

/// No point counts for both colours, so between them they have no more of the first `k`
/// points than there are.
pub proof fn lemma_areas_apart(n: int, cells: Seq<Stone>, k: int)
    requires
        k >= 0,
    ensures
        area(n, cells, Stone::Black, k) + area(n, cells, Stone::White, k) <= k,
    decreases k,
{
    if k > 0 {
        lemma_areas_apart(n, cells, k - 1);
    }
}

/// The points marked in `seen` are empty, and the empty neighbours of a marked point are marked.
#[verifier::opaque]
pub open spec fn seen_closed(n: int, cells: Seq<Stone>, seen: Seq<bool>) -> bool {
    &&& seen.len() == cells.len()
    &&& forall|j: int| 0 <= j < cells.len() && seen[j] ==> cells[j] == Stone::Empty
    &&& forall|j: int, q: int|
        0 <= j < cells.len() && seen[j] && #[trigger] adjacent_points(n, j).contains(q)
            && cells[q] == Stone::Empty ==> seen[q]
}

/// The marked points carry their owner, the others none.
#[verifier::opaque]
pub open spec fn owners_ok(n: int, cells: Seq<Stone>, seen: Seq<bool>, owners: Seq<Option<Stone>>) -> bool {
    &&& owners.len() == cells.len()
    &&& forall|j: int| 0 <= j < cells.len() && seen[j] ==> owners[j] == owner_of(n, cells, j)
    &&& forall|j: int| 0 <= j < cells.len() && !seen[j] ==> owners[j] == None::<Stone>
}

/// A game in progress: the board, whose turn it is, the captures, the passes and the ko point.
/// Komi is counted in tenths of a point.
pub struct Game {
    pub board: Board,
    pub turn: Stone,
    pub captured: [usize; 2],
    pub passes: usize,
    pub finished: bool,
    pub winner: Option<Stone>,
    pub komi: i32,
    pub ko: Option<usize>,
    pub move_number: usize,
    pub handicap: u8,
}

impl Game {
    /// The board is well formed.
    pub open spec fn wf(&self) -> bool {
        self.board.wf()
    }

    /// Whether `other` is the same position as `self`: same stones and same counters.
    pub open spec fn same_as(&self, other: &Game) -> bool {
        &&& self.board@ == other.board@
        &&& self.board.width() == other.board.width()
        &&& self.turn == other.turn
        &&& self.captured == other.captured
        &&& self.passes == other.passes
        &&& self.finished == other.finished
        &&& self.winner == other.winner
        &&& self.komi == other.komi
        &&& self.ko == other.ko
        &&& self.move_number == other.move_number
        &&& self.handicap == other.handicap
    }

    /// Whether the player to move may put a stone on `p`: the game goes on, `p` is empty and
    /// not the ko point, and the stone would have a liberty, now or after its captures.
    pub open spec fn legal_at(&self, p: int) -> bool {
        let n = self.board.width();
        let cells = self.board@;
        &&& !self.finished
        &&& cells[p] == Stone::Empty
        &&& self.ko != Some(p as usize)
        &&& exists|k: int|
            0 <= k < adjacent_points(n, p).len() && opens_at(
                n,
                cells,
                self.turn,
                #[trigger] adjacent_points(n, p)[k],
            )
    }

    /// `next` is what follows when the player to move puts a stone on `p`: the stone goes down,
    /// the enemy chains next to it without a liberty come off and count as captures, the ko
    /// point is set when exactly one stone was taken by a lone stone left with one liberty,
    /// and the turn passes.
    pub open spec fn after_play(&self, p: int, next: &Game) -> bool {
        let n = self.board.width();
        let me = self.turn;
        let placed = self.board@.update(p, me);
        let (after, dead, taken) = capture_pass(n, placed, adjacent_points(n, p), opposite(me));
        &&& next.board@ == after
        &&& next.board.width() == n
        &&& next.captured[0] == if me == Stone::Black {
            self.captured[0] + taken
        } else {
            self.captured[0] as int
        }
        &&& next.captured[1] == if me == Stone::Black {
            self.captured[1] as int
        } else {
            self.captured[1] + taken
        }
        &&& next.ko == if taken == 1 && alone_at(n, after, p) && liberties_of(n, after, p).len() == 1 {
            Some(dead.choose() as usize)
        } else {
            None
        }
        &&& next.passes == 0
        &&& next.move_number == self.move_number + 1
        &&& next.turn == opposite(me)
        &&& next.finished == self.finished
        &&& next.winner == self.winner
        &&& next.komi == self.komi
        &&& next.handicap == self.handicap
    }

    /// `next` is what a pass leaves when the game goes on: the passes count one more, the ko
    /// point is gone and the turn goes over; the second pass in a row ends the game.
    pub open spec fn after_pass(&self, next: &Game) -> bool {
        &&& next.board@ == self.board@
        &&& next.board.width() == self.board.width()
        &&& next.passes == self.passes + 1
        &&& next.move_number == self.move_number + 1
        &&& next.ko is None
        &&& next.turn == opposite(self.turn)
        &&& next.finished == (self.passes + 1 >= 2)
        &&& next.captured == self.captured
        &&& next.winner == self.winner
        &&& next.komi == self.komi
        &&& next.handicap == self.handicap
    }

    /// `next` is what making `play` leaves: a legal stone is played, an illegal one changes
    /// nothing, a pass passes unless the game is over.
    pub open spec fn after_make(&self, play: Play, next: &Game) -> bool {
        match play {
            Play::Point(p) => if self.legal_at(p as int) {
                self.after_play(p as int, next)
            } else {
                next.same_as(self)
            },
            Play::Pass => if self.finished {
                next.same_as(self)
            } else {
                self.after_pass(next)
            },
        }
    }

    /// A new game on an empty board `size` points wide; Black moves first.
    pub fn new(size: usize, komi: i32) -> (g: Game)
        requires
            size * size <= usize::MAX,
        ensures
            g.wf(),
            g.board.width() == size,
            g.board@ == Seq::new((size * size) as nat, |i: int| Stone::Empty),
            g.turn == Stone::Black,
            g.captured == [0usize, 0usize],
            g.passes == 0,
            !g.finished,
            g.winner is None,
            g.komi == komi,
            g.ko is None,
            g.move_number == 0,
            g.handicap == 0,
    {
        Game {
            board: Board::new(size),
            turn: Stone::Black,
            captured: [0, 0],
            passes: 0,
            finished: false,
            winner: None,
            komi,
            ko: None,
            move_number: 0,
            handicap: 0,
        }
    }

    /// How many points wide the board is.
    pub fn size(&self) -> (r: usize)
        ensures
            r == self.board.width(),
    {
        self.board.size
    }

    /// Whether the player to move may put a stone on `p`.
    pub fn legal(&mut self, p: usize) -> (r: bool)
        requires
            old(self).wf(),
            p < old(self).board@.len(),
        ensures
            final(self).wf(),
            final(self).same_as(old(self)),
            r == old(self).legal_at(p as int),
    {
        if self.finished || self.board.at(p) != Stone::Empty || self.ko == Some(p) {
            return false;
        }
        let me = self.turn;
        let nb = self.board.neighbors(p);
        let ghost n = self.board.width();
        let ghost cells = self.board@;
        proof {
            self.board.lemma_wf();
            if n == 0 {
                assert(n * n == 0) by (nonlinear_arith)
                    requires
                        n == 0,
                ;
            }
            lemma_adjacent(n, p as int);
        }
        let mut k: usize = 0;
        while k < nb.len()
            invariant
                self.wf(),
                self.same_as(old(self)),
                cells == old(self).board@,
                n == old(self).board.width(),
                me == old(self).turn,
                !old(self).finished,
                cells[p as int] == Stone::Empty,
                old(self).ko != Some(p),
                nb@ == adjacent_points(n, p as int),
                0 <= k <= nb@.len(),
                forall|j: int| 0 <= j < nb@.len() ==> 0 <= #[trigger] nb@[j] < cells.len(),
                forall|j: int| 0 <= j < k ==> !opens_at(n, cells, me, #[trigger] nb@[j]),
            decreases nb@.len() - k,
        {
            let q = nb.get(k);
            let stone = self.board.at(q);
            proof {
                assert(adjacent_points(n, p as int)[k as int] == q as int);
            }
            if stone == Stone::Empty {
                return true;
            }
            if stone == me {
                if self.board.liberties(q) > 1 {
                    return true;
                }
            } else if self.board.liberties(q) == 1 {
                return true;
            }
            k += 1;
        }
        false
    }

    /// Puts a stone of the player to move on `p` when that is legal, takes off the enemy chains
    /// it leaves without a liberty and hands the turn over; gives whether the move was made.
    pub fn play(&mut self, p: usize) -> (ok: bool)
        requires
            old(self).wf(),
            p < old(self).board@.len(),
            old(self).move_number < usize::MAX,
            old(self).captured[0] + old(self).board@.len() <= usize::MAX,
            old(self).captured[1] + old(self).board@.len() <= usize::MAX,
        ensures
            final(self).wf(),
            ok == old(self).legal_at(p as int),
            !ok ==> final(self).same_as(old(self)),
            ok ==> old(self).after_play(p as int, final(self)),
            final(self).captured[0] <= old(self).captured[0] + old(self).board@.len(),
            final(self).captured[1] <= old(self).captured[1] + old(self).board@.len(),
    {
        if !self.legal(p) {
            return false;
        }
        let me = self.turn;
        let enemy = me.other();
        let ghost n = self.board.width();
        let ghost placed = self.board@.update(p as int, me);
        let ghost len = placed.len() as int;
        let ghost start_game = *self;
        self.board.put(p, me);
        let mut taken: usize = 0;
        let mut last_taken: usize = 0;
        let nb = self.board.neighbors(p);
        let ghost nbs = adjacent_points(n, p as int);
        let ghost mut dead: Set<int> = Set::empty();
        proof {
            self.board.lemma_wf();
            if n == 0 {
                assert(n * n == 0) by (nonlinear_arith)
                    requires
                        n == 0,
                ;
            }
            lemma_adjacent(n, p as int);
            assert(nbs.take(0) =~= Seq::<int>::empty());
            lemma_int_range(0, len);
        }
        let mut k: usize = 0;
        while k < nb.len()
            invariant
                self.board.wf(),
                self.board.width() == n,
                n * n == len,
                len == placed.len(),
                0 <= p < len,
                nb@ == nbs,
                nbs == adjacent_points(n, p as int),
                forall|j: int|
                    0 <= j < nbs.len() ==> 0 <= #[trigger] nbs[j] < len && adjacent_points(
                        n,
                        nbs[j],
                    ).contains(p as int),
                0 <= k <= nbs.len(),
                enemy == opposite(me),
                (self.board@, dead, taken as nat) == capture_pass(n, placed, nbs.take(k as int), enemy),
                self.board@[p as int] == me,
                dead.finite(),
                dead.subset_of(set_int_range(0, len)),
                taken == dead.len(),
                dead.len() > 0 ==> dead.contains(last_taken as int),
                forall|i: int| dead.contains(i) ==> self.board@[i] == Stone::Empty,
                set_int_range(0, len).finite(),
                set_int_range(0, len).len() == len,
                self.turn == me,
                self.captured == start_game.captured,
                self.passes == start_game.passes,
                self.finished == start_game.finished,
                self.winner == start_game.winner,
                self.komi == start_game.komi,
                self.ko == start_game.ko,
                self.move_number == start_game.move_number,
                self.handicap == start_game.handicap,
            decreases nbs.len() - k,
        {
            let q = nb.get(k);
            let ghost before = self.board@;
            proof {
                assert(nbs.take(k as int + 1).drop_last() =~= nbs.take(k as int));
                assert(nbs.take(k as int + 1).last() == q as int);
            }
            if self.board.at(q) == enemy && self.board.liberties(q) == 0 {
                proof {
                    lemma_capture_disjoint(n, before, q as int, p as int, me, dead);
                }
                let (count, last) = self.board.take_group(q);
                proof {
                    let g = group_of(n, before, q as int);
                    lemma_connected_finite(n, before, enemy, q as int);
                    lemma_set_disjoint_lens(dead, g);
                    lemma_len_subset(dead.union(g), set_int_range(0, len));
                    dead = dead.union(g);
                }
                taken += count;
                last_taken = last;
            }
            k += 1;
        }
        proof {
            assert(nbs.take(nbs.len() as int) =~= nbs);
            lemma_len_subset(dead, set_int_range(0, len));
        }
        let single = self.board.alone(p);
        let liberties = self.board.liberties(p);
        self.ko = if taken == 1 && single && liberties == 1 {
            Some(last_taken)
        } else {
            None
        };
        proof {
            if taken == 1 {
                assert(dead.contains(last_taken as int));
                assert(dead =~= set![last_taken as int]) by {
                    assert forall|i: int| dead.contains(i) implies i == last_taken as int by {
                        if i != last_taken as int {
                            lemma_len_subset(set![last_taken as int].insert(i), dead);
                        }
                    }
                }
                assert(set![last_taken as int].contains(set![last_taken as int].choose()));
            }
        }
        if me == Stone::Black {
            self.captured[0] = self.captured[0] + taken;
        } else {
            self.captured[1] = self.captured[1] + taken;
        }
        self.passes = 0;
        self.move_number = self.move_number + 1;
        self.turn = enemy;
        true
    }

    /// The player to move passes; two passes in a row end the game. Nothing happens once the
    /// game is over.
    pub fn pass(&mut self)
        requires
            !old(self).finished ==> old(self).passes < usize::MAX && old(self).move_number
                < usize::MAX,
        ensures
            old(self).finished ==> final(self).same_as(old(self)),
            !old(self).finished ==> {
                &&& final(self).board@ == old(self).board@
                &&& final(self).board.width() == old(self).board.width()
                &&& final(self).passes == old(self).passes + 1
                &&& final(self).move_number == old(self).move_number + 1
                &&& final(self).ko is None
                &&& final(self).turn == opposite(old(self).turn)
                &&& final(self).finished == (old(self).passes + 1 >= 2)
                &&& final(self).captured == old(self).captured
                &&& final(self).winner == old(self).winner
                &&& final(self).komi == old(self).komi
                &&& final(self).handicap == old(self).handicap
            },
            final(self).board.wf() == old(self).board.wf(),
    {
        if self.finished {
            return;
        }
        self.passes = self.passes + 1;
        self.move_number = self.move_number + 1;
        self.ko = None;
        self.turn = self.turn.other();
        if self.passes >= 2 {
            self.finished = true;
        }
    }

    /// Makes a move: a stone on a point, when legal, or a pass; gives whether it was made.
    pub fn make(&mut self, play: Play) -> (ok: bool)
        requires
            old(self).wf(),
            play matches Play::Point(p) ==> p < old(self).board@.len(),
            old(self).move_number < usize::MAX,
            old(self).passes < usize::MAX,
            old(self).captured[0] + old(self).board@.len() <= usize::MAX,
            old(self).captured[1] + old(self).board@.len() <= usize::MAX,
        ensures
            final(self).wf(),
            old(self).after_make(play, final(self)),
            final(self).captured[0] <= old(self).captured[0] + old(self).board@.len(),
            final(self).captured[1] <= old(self).captured[1] + old(self).board@.len(),
            match play {
                Play::Point(p) => {
                    &&& ok == old(self).legal_at(p as int)
                    &&& !ok ==> final(self).same_as(old(self))
                    &&& ok ==> old(self).after_play(p as int, final(self))
                },
                Play::Pass => {
                    &&& ok
                    &&& old(self).finished ==> final(self).same_as(old(self))
                    &&& !old(self).finished ==> {
                        &&& final(self).board@ == old(self).board@
                        &&& final(self).board.width() == old(self).board.width()
                        &&& final(self).passes == old(self).passes + 1
                        &&& final(self).move_number == old(self).move_number + 1
                        &&& final(self).ko is None
                        &&& final(self).turn == opposite(old(self).turn)
                        &&& final(self).finished == (old(self).passes + 1 >= 2)
                        &&& final(self).captured == old(self).captured
                        &&& final(self).winner == old(self).winner
                        &&& final(self).komi == old(self).komi
                        &&& final(self).handicap == old(self).handicap
                    }
                },
            },
    {
        match play {
            Play::Point(p) => self.play(p),
            Play::Pass => {
                self.pass();
                true
            },
        }
    }

    /// `loser` gives up: the game is over and the other colour wins.
    pub fn resign(&mut self, loser: Stone)
        ensures
            *final(self) == (Game { finished: true, winner: Some(opposite(loser)), ..*old(self) }),
    {
        self.finished = true;
        self.winner = Some(loser.other());
    }

    /// Whether the empty point `p` is an eye of `color`.
    pub fn is_eye(&self, p: usize, color: Stone) -> (r: bool)
        requires
            self.wf(),
            p < self.board@.len(),
        ensures
            r == eye_at(self.board.width(), self.board@, p as int, color),
    {
        if self.board.at(p) != Stone::Empty {
            return false;
        }
        let ghost n = self.board.width();
        let ghost cells = self.board@;
        proof {
            self.board.lemma_wf();
            if n == 0 {
                assert(n * n == 0) by (nonlinear_arith)
                    requires
                        n == 0,
                ;
            }
            lemma_adjacent(n, p as int);
            lemma_diagonal(n, p as int);
        }
        let nb = self.board.neighbors(p);
        let mut k: usize = 0;
        while k < nb.len()
            invariant
                self.wf(),
                self.board@ == cells,
                n == self.board.width(),
                nb@ == adjacent_points(n, p as int),
                0 <= k <= nb@.len(),
                forall|j: int| 0 <= j < nb@.len() ==> 0 <= #[trigger] nb@[j] < cells.len(),
                forall|j: int| 0 <= j < k ==> cells[#[trigger] nb@[j]] == color,
            decreases nb@.len() - k,
        {
            let q = nb.get(k);
            if self.board.at(q) != color {
                proof {
                    assert(adjacent_points(n, p as int)[k as int] == q as int);
                }
                return false;
            }
            k += 1;
        }
        let enemy = color.other();
        let diag = self.board.diagonals(p);
        let ghost dp = diagonal_points(n, p as int);
        let mut enemy_corners: usize = 0;
        let mut k: usize = 0;
        proof {
            assert(dp.take(0) =~= Seq::<int>::empty());
        }
        while k < diag.len()
            invariant
                self.wf(),
                self.board@ == cells,
                n == self.board.width(),
                diag@ == dp,
                dp == diagonal_points(n, p as int),
                enemy == opposite(color),
                0 <= k <= dp.len(),
                dp.len() <= 4,
                forall|j: int| 0 <= j < dp.len() ==> 0 <= #[trigger] dp[j] < cells.len(),
                enemy_corners == count_of(cells, dp.take(k as int), enemy),
                enemy_corners <= k,
            decreases dp.len() - k,
        {
            let d = diag.get(k);
            proof {
                assert(dp.take(k as int + 1).drop_last() =~= dp.take(k as int));
                assert(dp.take(k as int + 1).last() == d as int);
            }
            if self.board.at(d) == enemy {
                enemy_corners += 1;
            }
            k += 1;
        }
        proof {
            assert(dp.take(dp.len() as int) =~= dp);
        }
        if self.board.on_edge(p) {
            enemy_corners == 0
        } else {
            enemy_corners <= 1
        }
    }

    /// For every point, who owns it: see `owner_of`.
    pub fn territory(&self) -> (owners: Vec<Option<Stone>>)
        requires
            self.wf(),
        ensures
            owners@.len() == self.board@.len(),
            forall|i: int|
                0 <= i < owners@.len() ==> owners@[i] == owner_of(self.board.width(), self.board@, i),
    {
        let count = self.board.points();
        let ghost n = self.board.width();
        let ghost cells = self.board@;
        let ghost len = cells.len() as int;
        let mut owners: Vec<Option<Stone>> = Vec::new();
        let mut seen: Vec<bool> = Vec::new();
        let mut i: usize = 0;
        while i < count
            invariant
                count == len,
                owners@.len() == i,
                seen@.len() == i,
                i <= count,
                forall|j: int| 0 <= j < i ==> owners@[j] == None::<Stone>,
                forall|j: int| 0 <= j < i ==> !seen@[j],
            decreases count - i,
        {
            owners.push(None);
            seen.push(false);
            proof {
                assert(owners@[i as int] == None::<Stone>);
                assert(!seen@[i as int]);
            }
            i += 1;
        }
        proof {
            self.board.lemma_wf();
            if n == 0 {
                assert(n * n == 0) by (nonlinear_arith)
                    requires
                        n == 0,
                ;
            }
        }
        let mut start: usize = 0;
        proof {
            reveal(seen_closed);
            reveal(owners_ok);
        }
        while start < count
            invariant
                self.wf(),
                self.board@ == cells,
                n == self.board.width(),
                n * n == len,
                len > 0 ==> n > 0,
                len <= usize::MAX,
                count == len,
                owners@.len() == len,
                seen@.len() == len,
                start <= count,
                seen_closed(n, cells, seen@),
                owners_ok(n, cells, seen@, owners@),
                forall|j: int| 0 <= j < start && cells[j] == Stone::Empty ==> seen@[j],
            decreases count - start,
        {
            if self.board.at(start) != Stone::Empty || seen[start] {
                start += 1;
                continue;
            }
            let ghost before = seen@;
            let ghost owners_before = owners@;
            let (region, black, white) = self.region_from(start, &mut seen);
            proof {
                lemma_connected_start(n, cells, Stone::Empty, start as int);
            }
            let owner = if black && !white {
                Some(Stone::Black)
            } else if white && !black {
                Some(Stone::White)
            } else {
                None
            };
            assign_all(&mut owners, &region, owner);
            proof {
                let target = connected(n, cells, Stone::Empty, start as int);
                assert(forall|j: int| 0 <= j < cells.len() ==> (seen@[j] <==> (before[j] || target.contains(j))));
                lemma_owners_after(n, cells, start as int, before, seen@, owners_before, owners@, region@, black, white, owner);
            }
            start += 1;
        }
        proof {
            reveal(seen_closed);
            reveal(owners_ok);
            assert forall|i: int| 0 <= i < owners@.len() implies owners@[i] == owner_of(n, cells, i) by {
                if cells[i] == Stone::Empty {
                    assert(seen@[i]);
                }
            }
        }
        owners
    }

    /// Walks the empty region of `start`, marking it in `seen`; gives its points and whether it
    /// borders black and white stones.
    fn region_from(&self, start: usize, seen: &mut Vec<bool>) -> (r: (Vec<usize>, bool, bool))
        requires
            self.wf(),
            start < self.board@.len(),
            self.board@[start as int] == Stone::Empty,
            old(seen)@.len() == self.board@.len(),
            !old(seen)@[start as int],
            seen_closed(self.board.width(), self.board@, old(seen)@),
        ensures
            ({
                let n = self.board.width();
                let cells = self.board@;
                let target = connected(n, cells, Stone::Empty, start as int);
                &&& final(seen)@.len() == old(seen)@.len()
                &&& forall|j: int|
                    #![trigger final(seen)@[j]]
                    0 <= j < cells.len() ==> (final(seen)@[j] <==> (old(seen)@[j] || target.contains(j)))
                &&& forall|j: int| 0 <= j < cells.len() && old(seen)@[j] ==> !target.contains(j)
                &&& forall|k: int| 0 <= k < r.0@.len() ==> #[trigger] r.0@[k] < cells.len()
                &&& forall|j: int| 0 <= j < cells.len() ==> (r.0@.contains(j as usize) <==> target.contains(j))
                &&& r.1 == touches(n, cells, target, Stone::Black)
                &&& r.2 == touches(n, cells, target, Stone::White)
                &&& seen_closed(n, cells, final(seen)@)
            }),
    {
        let ghost n = self.board.width();
        let ghost cells = self.board@;
        let ghost len = cells.len() as int;
        let ghost s = start as int;
        let ghost base = seen@;
        proof {
            reveal(seen_closed);
        }
        let mut region: Vec<usize> = Vec::new();
        let mut black = false;
        let mut white = false;
        let mut stack: Vec<usize> = Vec::new();
        stack.push(start);
        seen[start] = true;
        let ghost mut marked: Set<int> = set![s];
        let ghost mut done: Set<int> = Set::empty();
        proof {
            self.board.lemma_wf();
            if n == 0 {
                assert(n * n == 0) by (nonlinear_arith)
                    requires
                        n == 0,
                ;
            }
            assert(stack@ =~= seq![start]);
            lemma_walk_start(n, cells, start, true, stack@, false);
            assert(done =~= Set::<int>::empty());
        }
        while stack.len() > 0
            invariant
                self.wf(),
                self.board@ == cells,
                n == self.board.width(),
                len == cells.len(),
                s == start as int,
                cells[s] == Stone::Empty,
                base.len() == len,
                !base[s],
                forall|j: int| 0 <= j < len && base[j] ==> cells[j] == Stone::Empty,
                forall|j: int, q: int|
                    0 <= j < len && base[j] && #[trigger] adjacent_points(n, j).contains(q)
                        && cells[q] == Stone::Empty ==> base[q],
                walk_inv(n, cells, s, Stone::Empty, true, marked, done, stack@, false),
                seen@.len() == len,
                forall|j: int| 0 <= j < len ==> (seen@[j] <==> (base[j] || marked.contains(j))),
                forall|j: int| 0 <= j < len && base[j] ==> !marked.contains(j),
                forall|j: int| marked.contains(j) ==> cells[j] == Stone::Empty,
                forall|k: int| 0 <= k < region@.len() ==> #[trigger] region@[k] < len,
                forall|j: int| 0 <= j < len ==> (region@.contains(j as usize) <==> done.contains(j)),
                black == touches(n, cells, done, Stone::Black),
                white == touches(n, cells, done, Stone::White),
            decreases 2 * (len - marked.len()) + stack@.len(),
        {
            proof {
                reveal(walk_inv);
                lemma_walk_facts(n, cells, s, Stone::Empty, true, marked, done, stack@);
            }
            let ghost measure = 2 * (len - marked.len()) + stack@.len();
            let ghost before = stack@;
            let p = stack.pop().unwrap();
            let ghost done_before = done;
            proof {
                lemma_walk_pop(n, cells, s, Stone::Empty, true, marked, done, before, p, false);
                done = done.insert(p as int);
                assert(done.remove(p as int) =~= done_before);
            }
            let ghost region_before = region@;
            region.push(p);
            proof {
                assert forall|j: int| 0 <= j < len implies (region@.contains(j as usize) <==> done.contains(j)) by {
                    if region@.contains(j as usize) && j != p as int {
                        let kk = choose|kk: int| 0 <= kk < region@.len() && region@[kk] == j as usize;
                        assert(kk != region@.len() - 1);
                        assert(region_before[kk] == j as usize);
                    }
                    if done.contains(j) && j != p as int {
                        assert(region_before.contains(j as usize));
                        let kk = choose|kk: int| 0 <= kk < region_before.len() && region_before[kk] == j as usize;
                        assert(region@[kk] == j as usize);
                    }
                    if j == p as int {
                        assert(region@[region@.len() - 1] == p);
                    }
                }
            }
            let nb = self.board.neighbors(p);
            let mut k: usize = 0;
            while k < nb.len()
                invariant
                    self.wf(),
                    self.board@ == cells,
                    n == self.board.width(),
                    len == cells.len(),
                    s == start as int,
                    cells[s] == Stone::Empty,
                    base.len() == len,
                    !base[s],
                    forall|j: int| 0 <= j < len && base[j] ==> cells[j] == Stone::Empty,
                    forall|j: int, q: int|
                        0 <= j < len && base[j] && #[trigger] adjacent_points(n, j).contains(q)
                            && cells[q] == Stone::Empty ==> base[q],
                    nb@ == adjacent_points(n, p as int),
                    0 <= k <= nb@.len(),
                    walk_inner(n, cells, s, Stone::Empty, true, marked, done, stack@, p as int, k as int, false),
                    seen@.len() == len,
                    forall|j: int| 0 <= j < len ==> (seen@[j] <==> (base[j] || marked.contains(j))),
                    forall|j: int| 0 <= j < len && base[j] ==> !marked.contains(j),
                    forall|j: int| marked.contains(j) ==> cells[j] == Stone::Empty,
                    forall|kk: int| 0 <= kk < region@.len() ==> #[trigger] region@[kk] < len,
                    forall|j: int| 0 <= j < len ==> (region@.contains(j as usize) <==> done.contains(j)),
                    black == (touches(n, cells, done.remove(p as int), Stone::Black) || exists|j: int|
                        0 <= j < k && cells[#[trigger] adjacent_points(n, p as int)[j]] == Stone::Black),
                    white == (touches(n, cells, done.remove(p as int), Stone::White) || exists|j: int|
                        0 <= j < k && cells[#[trigger] adjacent_points(n, p as int)[j]] == Stone::White),
                    2 * (len - marked.len()) + stack@.len() < measure,
                decreases nb@.len() - k,
            {
                proof {
                    lemma_walk_inner_facts(n, cells, s, Stone::Empty, true, marked, done, stack@, p as int, k as int, false);
                    lemma_walk_facts(n, cells, s, Stone::Empty, true, marked, done, stack@);
                    lemma_adjacent(n, p as int);
                }
                let q = nb.get(k);
                proof {
                    assert(adjacent_points(n, p as int)[k as int] == q as int);
                }
                let stone = self.board.at(q);
                if stone == Stone::Black {
                    black = true;
                } else if stone == Stone::White {
                    white = true;
                }
                if stone == Stone::Empty && !seen[q] {
                    proof {
                        lemma_walk_mark(n, cells, s, Stone::Empty, true, marked, done, stack@, p as int, k as int, true, false);
                        lemma_int_range(0, len);
                        lemma_len_subset(marked.insert(q as int), set_int_range(0, len));
                        marked = marked.insert(q as int);
                    }
                    seen[q] = true;
                    stack.push(q);
                } else {
                    proof {
                        if stone == Stone::Empty && !marked.contains(q as int) {
                            assert(base[q as int]);
                            assert(adjacent_points(n, q as int).contains(p as int));
                            assert(walkable(cells, s, Stone::Empty, true, p as int)) by {
                                reveal(crate::walk::wb_done);
                            }
                            assert(base[p as int]);
                            assert(false);
                        }
                        lemma_walk_skip(n, cells, s, Stone::Empty, true, marked, done, stack@, p as int, k as int, false);
                    }
                }
                k += 1;
            }
            proof {
                lemma_walk_close(n, cells, s, Stone::Empty, true, marked, done, stack@, p as int, false);
                reveal(walk_inv);
                lemma_walk_facts(n, cells, s, Stone::Empty, true, marked, done, stack@);
                assert(touches(n, cells, done, Stone::Black) == (touches(n, cells, done.remove(p as int), Stone::Black) || exists|j: int|
                        0 <= j < nb@.len() && cells[#[trigger] adjacent_points(n, p as int)[j]] == Stone::Black));
                assert(touches(n, cells, done, Stone::White) == (touches(n, cells, done.remove(p as int), Stone::White) || exists|j: int|
                        0 <= j < nb@.len() && cells[#[trigger] adjacent_points(n, p as int)[j]] == Stone::White));
            }
        }
        proof {
            assert(stack@ =~= Seq::<usize>::empty());
            lemma_region_end(n, cells, s, marked, done, base, seen@);
        }
        (region, black, white)
    }

    /// The area score in tenths of a point: every stone and every point of owned ground counts
    /// for its colour, and White gets komi on top. No point counts for both, so the two scores
    /// without komi come to no more than the board's points.
    pub fn score(&self) -> (r: (i64, i64))
        requires
            self.wf(),
            20 * self.board@.len() <= i64::MAX,
        ensures
            r.0 == 10 * area(self.board.width(), self.board@, Stone::Black, self.board@.len() as int),
            r.1 == self.komi + 10 * area(
                self.board.width(),
                self.board@,
                Stone::White,
                self.board@.len() as int,
            ),
            r.0 + r.1 - self.komi <= 10 * self.board@.len(),
    {
        let ghost n = self.board.width();
        let ghost cells = self.board@;
        proof {
            lemma_areas_apart(n, cells, cells.len() as int);
        }
        let mut black: i64 = 0;
        let mut white: i64 = self.komi as i64;
        let owners = self.territory();
        let count = self.board.points();
        let mut p: usize = 0;
        while p < count
            invariant
                count == cells.len(),
                cells == self.board@,
                n == self.board.width(),
                20 * cells.len() <= i64::MAX,
                owners@.len() == cells.len(),
                forall|i: int| 0 <= i < owners@.len() ==> owners@[i] == owner_of(n, cells, i),
                0 <= p <= count,
                black == 10 * area(n, cells, Stone::Black, p as int),
                white == self.komi + 10 * area(n, cells, Stone::White, p as int),
            decreases count - p,
        {
            proof {
                lemma_area_bound(n, cells, Stone::Black, p as int);
                lemma_area_bound(n, cells, Stone::White, p as int);
            }
            match self.board.at(p) {
                Stone::Black => black += 10,
                Stone::White => white += 10,
                Stone::Empty => match owners[p] {
                    Some(Stone::Black) => black += 10,
                    Some(Stone::White) => white += 10,
                    _ => {},
                },
            }
            p += 1;
        }
        (black, white)
    }

    /// Black's score minus White's, in tenths of a point.
    pub fn lead(&self) -> (r: i64)
        requires
            self.wf(),
            20 * self.board@.len() <= i64::MAX,
        ensures
            r == 10 * area(self.board.width(), self.board@, Stone::Black, self.board@.len() as int)
                - (self.komi + 10 * area(
                self.board.width(),
                self.board@,
                Stone::White,
                self.board@.len() as int,
            )),
    {
        let (black, white) = self.score();
        proof {
            lemma_area_bound(self.board.width(), self.board@, Stone::Black, self.board@.len() as int);
            lemma_area_bound(self.board.width(), self.board@, Stone::White, self.board@.len() as int);
        }
        black - white
    }

    /// The points of the handicap stones for `stones` stones.
    pub fn handicap_points(&self, stones: u8) -> (v: Vec<usize>)
        requires
            self.wf(),
        ensures
            v@ == spots_to_points(self.board.width(), handicap_spots(self.board.width(), stones as int)),
            forall|k: int| 0 <= k < v@.len() ==> #[trigger] v@[k] < self.board@.len(),
    {
        let size = self.board.size;
        let ghost spots = handicap_spots(size as int, stones as int);
        proof {
            self.board.lemma_wf();
        }
        if size < 9 || stones < 2 {
            let v = Vec::new();
            proof {
                assert(v@ =~= spots_to_points(size as int, spots));
            }
            return v;
        }
        let edge: usize = if size > 9 { 3 } else { 2 };
        let far = size - 1 - edge;
        let mid = size / 2;
        let count: usize = if stones < 9 { stones as usize } else { 9 };
        let mut list: Vec<(usize, usize)> = Vec::new();
        list.push((far, edge));
        list.push((edge, far));
        list.push((edge, edge));
        list.push((far, far));
        list.truncate(if count < 4 { count } else { 4 });
        if count > 4 {
            let side_count = if count % 2 == 1 { count - 5 } else { count - 4 };
            let mut sides: Vec<(usize, usize)> = Vec::new();
            sides.push((mid, edge));
            sides.push((mid, far));
            sides.push((edge, mid));
            sides.push((far, mid));
            sides.truncate(side_count);
            list.append(&mut sides);
            if count % 2 == 1 {
                list.push((mid, mid));
            }
        }
        proof {
            let corners = seq![(far as int, edge as int), (edge as int, far as int), (edge as int, edge as int), (far as int, far as int)];
            let sides_spec = seq![(mid as int, edge as int), (mid as int, far as int), (edge as int, mid as int), (far as int, mid as int)];
            assert(list@.map_values(|rc: (usize, usize)| (rc.0 as int, rc.1 as int)) =~= spots);
        }
        self.to_points(&list)
    }

    /// The star points of the board.
    pub fn star_points(&self) -> (v: Vec<usize>)
        requires
            self.wf(),
        ensures
            v@ == spots_to_points(self.board.width(), star_spots(self.board.width())),
            forall|k: int| 0 <= k < v@.len() ==> #[trigger] v@[k] < self.board@.len(),
    {
        let size = self.board.size;
        let ghost spots = star_spots(size as int);
        proof {
            self.board.lemma_wf();
        }
        if size < 9 {
            let v = Vec::new();
            proof {
                assert(v@ =~= spots_to_points(size as int, spots));
            }
            return v;
        }
        let edge: usize = if size > 9 { 3 } else { 2 };
        let far = size - 1 - edge;
        let mid = size / 2;
        let mut list: Vec<(usize, usize)> = Vec::new();
        list.push((edge, edge));
        list.push((edge, far));
        list.push((far, edge));
        list.push((far, far));
        if size % 2 == 1 {
            list.push((mid, mid));
        }
        if size >= 19 {
            list.push((edge, mid));
            list.push((mid, edge));
            list.push((mid, far));
            list.push((far, mid));
        }
        proof {
            assert(list@.map_values(|rc: (usize, usize)| (rc.0 as int, rc.1 as int)) =~= spots);
        }
        self.to_points(&list)
    }

    /// The points at the given rows and columns.
    fn to_points(&self, list: &Vec<(usize, usize)>) -> (v: Vec<usize>)
        requires
            self.wf(),
            forall|k: int| 0 <= k < list@.len() ==> #[trigger] list@[k].0 < self.board.width() && list@[k].1
                < self.board.width(),
        ensures
            v@ == spots_to_points(
                self.board.width(),
                list@.map_values(|rc: (usize, usize)| (rc.0 as int, rc.1 as int)),
            ),
            forall|k: int| 0 <= k < v@.len() ==> #[trigger] v@[k] < self.board@.len(),
    {
        let ghost n = self.board.width();
        let ghost spots = list@.map_values(|rc: (usize, usize)| (rc.0 as int, rc.1 as int));
        proof {
            self.board.lemma_wf();
        }
        let mut v: Vec<usize> = Vec::new();
        let mut k: usize = 0;
        while k < list.len()
            invariant
                self.wf(),
                n == self.board.width(),
                n * n == self.board@.len(),
                spots == list@.map_values(|rc: (usize, usize)| (rc.0 as int, rc.1 as int)),
                forall|j: int| 0 <= j < list@.len() ==> #[trigger] list@[j].0 < n && list@[j].1 < n,
                0 <= k <= list@.len(),
                v@ == spots_to_points(n, spots.take(k as int)),
                forall|j: int| 0 <= j < v@.len() ==> #[trigger] v@[j] < self.board@.len(),
            decreases list@.len() - k,
        {
            let (r, c) = list[k];
            proof {
                assert(list@[k as int].0 < n && list@[k as int].1 < n);
                crate::geometry::lemma_point_of(n, r as int, c as int);
            }
            let p = self.board.point(r, c);
            v.push(p);
            proof {
                assert(spots.take(k as int + 1) =~= spots.take(k as int).push((r as int, c as int)));
                assert(v@ =~= spots_to_points(n, spots.take(k as int + 1)));
            }
            k += 1;
        }
        proof {
            assert(spots.take(list@.len() as int) =~= spots);
        }
        v
    }

    /// Puts the handicap stones for `stones` stones on the board; with any, White moves next.
    pub fn place_handicap(&mut self, stones: u8)
        requires
            old(self).wf(),
        ensures
            final(self).wf(),
            final(self).board.width() == old(self).board.width(),
            final(self).board@ == put_all(
                old(self).board@,
                spots_to_points(old(self).board.width(), handicap_spots(old(self).board.width(), stones as int)),
                Stone::Black,
            ),
            final(self).handicap == if stones > 0 { stones } else { old(self).handicap },
            final(self).turn == if stones > 0 { Stone::White } else { old(self).turn },
            final(self).captured == old(self).captured,
            final(self).passes == old(self).passes,
            final(self).finished == old(self).finished,
            final(self).winner == old(self).winner,
            final(self).komi == old(self).komi,
            final(self).ko == old(self).ko,
            final(self).move_number == old(self).move_number,
    {
        let pts = self.handicap_points(stones);
        let ghost cells = self.board@;
        let mut k: usize = 0;
        while k < pts.len()
            invariant
                self.wf(),
                self.board.width() == old(self).board.width(),
                cells == old(self).board@,
                self.board@.len() == cells.len(),
                forall|j: int| 0 <= j < pts@.len() ==> #[trigger] pts@[j] < cells.len(),
                0 <= k <= pts@.len(),
                self.board@ == put_all(cells, pts@.take(k as int), Stone::Black),
                self.turn == old(self).turn,
                self.handicap == old(self).handicap,
                self.captured == old(self).captured,
                self.passes == old(self).passes,
                self.finished == old(self).finished,
                self.winner == old(self).winner,
                self.komi == old(self).komi,
                self.ko == old(self).ko,
                self.move_number == old(self).move_number,
            decreases pts@.len() - k,
        {
            let p = pts[k];
            self.board.put(p, Stone::Black);
            proof {
                let t0 = pts@.take(k as int);
                let t1 = pts@.take(k as int + 1);
                assert(t1 =~= t0.push(p));
                assert forall|i: int| 0 <= i < cells.len() implies self.board@[i] == put_all(cells, t1, Stone::Black)[i] by {
                    if t1.contains(i as usize) && i != p as int {
                        let kk = choose|kk: int| 0 <= kk < t1.len() && t1[kk] == i as usize;
                        if kk == k as int {
                            assert(i as usize == p);
                            assert(false);
                        }
                        assert(t0[kk] == i as usize);
                    }
                    if t0.contains(i as usize) {
                        let kk = choose|kk: int| 0 <= kk < t0.len() && t0[kk] == i as usize;
                        assert(t1[kk] == i as usize);
                    }
                    assert(t1[k as int] == p);
                }
                assert(self.board@ =~= put_all(cells, t1, Stone::Black));
            }
            k += 1;
        }
        proof {
            assert(pts@.take(pts@.len() as int) =~= pts@);
        }
        if stones > 0 {
            self.handicap = stones;
            self.turn = Stone::White;
        }
    }
}

/// At the end of the walk of an empty region, the newly marked points are the region, no point
/// of it was marked before, and the marked points stay closed.
proof fn lemma_region_end(
    n: int,
    cells: Seq<Stone>,
    s: int,
    marked: Set<int>,
    done: Set<int>,
    base: Seq<bool>,
    seen: Seq<bool>,
)
    requires
        walk_inv(n, cells, s, Stone::Empty, true, marked, done, Seq::empty(), false),
        base.len() == cells.len(),
        seen.len() == cells.len(),
        0 <= s < cells.len(),
        cells[s] == Stone::Empty,
        forall|j: int| 0 <= j < cells.len() ==> (seen[j] <==> (base[j] || marked.contains(j))),
        forall|j: int| 0 <= j < cells.len() && base[j] ==> !marked.contains(j),
        forall|j: int| marked.contains(j) ==> cells[j] == Stone::Empty,
        forall|j: int| 0 <= j < cells.len() && base[j] ==> cells[j] == Stone::Empty,
        forall|j: int, q: int|
            0 <= j < cells.len() && base[j] && #[trigger] adjacent_points(n, j).contains(q)
                && cells[q] == Stone::Empty ==> base[q],
    ensures
        connected(n, cells, Stone::Empty, s) == done,
        forall|j: int|
            0 <= j < cells.len() ==> (seen[j] <==> (base[j] || connected(n, cells, Stone::Empty, s).contains(j))),
        forall|j: int| 0 <= j < cells.len() && base[j] ==> !connected(n, cells, Stone::Empty, s).contains(j),
        seen_closed(n, cells, seen),
{
    lemma_walk_end(n, cells, s, Stone::Empty, true, marked, done, false);
    reveal(walk_inv);
    lemma_walk_facts(n, cells, s, Stone::Empty, true, marked, done, Seq::empty());
    let target = connected(n, cells, Stone::Empty, s);
    assert forall|j: int| target.contains(j) implies marked.contains(j) by {
        reveal(crate::walk::wb_done);
    }
    assert forall|j: int| marked.contains(j) implies target.contains(j) by {
        assert(walkable(cells, s, Stone::Empty, true, j));
    }
    reveal(seen_closed);
    assert forall|j: int, q: int|
        0 <= j < cells.len() && seen[j] && #[trigger] adjacent_points(n, j).contains(q) && cells[q]
            == Stone::Empty implies seen[q] by {
        lemma_adjacent(n, j);
        let kk = choose|kk: int| 0 <= kk < adjacent_points(n, j).len() && adjacent_points(n, j)[kk] == q;
        assert(0 <= adjacent_points(n, j)[kk] < cells.len());
        if !base[j] {
            assert(marked.contains(j));
            assert(target.contains(j));
            lemma_connected_step(n, cells, Stone::Empty, s, j, q);
        }
    }
}

/// After a region is walked and its owner written, the owners are right for every marked point.
proof fn lemma_owners_after(
    n: int,
    cells: Seq<Stone>,
    start: int,
    before: Seq<bool>,
    seen: Seq<bool>,
    owners_before: Seq<Option<Stone>>,
    owners: Seq<Option<Stone>>,
    region: Seq<usize>,
    black: bool,
    white: bool,
    owner: Option<Stone>,
)
    requires
        0 < n,
        cells.len() == n * n,
        0 <= start < cells.len(),
        cells[start] == Stone::Empty,
        owners_ok(n, cells, before, owners_before),
        owners.len() == cells.len(),
        before.len() == cells.len(),
        forall|j: int|
            0 <= j < cells.len() ==> (seen[j] <==> (before[j] || connected(n, cells, Stone::Empty, start).contains(j))),
        forall|j: int| 0 <= j < cells.len() && before[j] ==> !connected(n, cells, Stone::Empty, start).contains(j),
        forall|j: int| 0 <= j < cells.len() ==> (region.contains(j as usize) <==> connected(n, cells, Stone::Empty, start).contains(j)),
        forall|x: int|
            0 <= x < cells.len() ==> owners[x] == if region.contains(x as usize) {
                owner
            } else {
                owners_before[x]
            },
        cells.len() <= usize::MAX,
        black == touches(n, cells, connected(n, cells, Stone::Empty, start), Stone::Black),
        white == touches(n, cells, connected(n, cells, Stone::Empty, start), Stone::White),
        owner == if black && !white {
            Some(Stone::Black)
        } else if white && !black {
            Some(Stone::White)
        } else {
            None
        },
    ensures
        owners_ok(n, cells, seen, owners),
{
    lemma_region_owner(n, cells, start, black, white, owner);
    reveal(owners_ok);
}

/// Sets `owners` to `owner` at every point of `region`.
fn assign_all(owners: &mut Vec<Option<Stone>>, region: &Vec<usize>, owner: Option<Stone>)
    requires
        forall|k: int| 0 <= k < region@.len() ==> #[trigger] region@[k] < old(owners)@.len(),
        old(owners)@.len() <= usize::MAX,
    ensures
        final(owners)@.len() == old(owners)@.len(),
        forall|x: int|
            0 <= x < old(owners)@.len() ==> final(owners)@[x] == if region@.contains(x as usize) {
                owner
            } else {
                old(owners)@[x]
            },
{
    let ghost len = owners@.len();
    let mut j: usize = 0;
    while j < region.len()
        invariant
            owners@.len() == len,
            len == old(owners)@.len(),
            len <= usize::MAX,
            0 <= j <= region@.len(),
            forall|k: int| 0 <= k < region@.len() ==> #[trigger] region@[k] < len,
            forall|x: int|
                0 <= x < len ==> owners@[x] == if region@.take(j as int).contains(x as usize) {
                    owner
                } else {
                    old(owners)@[x]
                },
        decreases region@.len() - j,
    {
        let x = region[j];
        owners[x] = owner;
        proof {
            let t0 = region@.take(j as int);
            let t1 = region@.take(j as int + 1);
            assert(t1[j as int] == x);
            assert forall|y: int| 0 <= y < len implies owners@[y] == if t1.contains(y as usize) {
                owner
            } else {
                old(owners)@[y]
            } by {
                if t0.contains(y as usize) {
                    let kk = choose|kk: int| 0 <= kk < t0.len() && t0[kk] == y as usize;
                    assert(t1[kk] == y as usize);
                }
                if t1.contains(y as usize) && y != x as int {
                    let kk = choose|kk: int| 0 <= kk < t1.len() && t1[kk] == y as usize;
                    if kk == j as int {
                        assert(y as usize == x);
                        assert(false);
                    }
                    assert(t0[kk] == y as usize);
                }
            }
        }
        j += 1;
    }
    proof {
        assert(region@.take(region@.len() as int) =~= region@);
    }
}

/// Every point of the empty region of `start` has the owner that the region's borders give.
proof fn lemma_region_owner(
    n: int,
    cells: Seq<Stone>,
    start: int,
    black: bool,
    white: bool,
    owner: Option<Stone>,
)
    requires
        0 < n,
        cells.len() == n * n,
        0 <= start < cells.len(),
        cells[start] == Stone::Empty,
        black == touches(n, cells, connected(n, cells, Stone::Empty, start), Stone::Black),
        white == touches(n, cells, connected(n, cells, Stone::Empty, start), Stone::White),
        owner == if black && !white {
            Some(Stone::Black)
        } else if white && !black {
            Some(Stone::White)
        } else {
            None
        },
    ensures
        forall|r: int|
            connected(n, cells, Stone::Empty, start).contains(r) ==> owner_of(n, cells, r) == owner,
{
    assert forall|r: int| connected(n, cells, Stone::Empty, start).contains(r) implies owner_of(
        n,
        cells,
        r,
    ) == owner by {
        lemma_connected_same_region(n, cells, Stone::Empty, start, r);
        if r != start {
            crate::geometry::lemma_connected_colour(n, cells, Stone::Empty, start, r);
        }
    }
}

/// The chain taken off by a capture is made of enemy stones, so it holds neither the new
/// stone nor any point taken off before.
proof fn lemma_capture_disjoint(n: int, cells: Seq<Stone>, q: int, p: int, me: Stone, dead: Set<int>)
    requires
        0 < n,
        cells.len() == n * n,
        0 <= q < cells.len(),
        0 <= p < cells.len(),
        cells[p] == me,
        adjacent_points(n, q).contains(p),
        cells[q] == opposite(me),
        liberties_of(n, cells, q).len() == 0,
        forall|i: int| dead.contains(i) ==> cells[i] == Stone::Empty,
    ensures
        cells[q] != Stone::Empty,
        dead.disjoint(group_of(n, cells, q)),
        !group_of(n, cells, q).contains(p),
{
    let g = group_of(n, cells, q);
    lemma_liberties_finite(n, cells, q);
    if cells[q] == Stone::Empty {
        assert(g.contains(q));
        assert(liberties_of(n, cells, q).contains(p));
        assert(false);
    }
    assert forall|i: int| g.contains(i) implies cells[i] == opposite(me) by {
        if i != q {
            crate::geometry::lemma_connected_colour(n, cells, cells[q], q, i);
        }
    }
}

/// The letter of column `col`: `A` to `H`, then `J` to `Z`, for there is no I; `?` past the
/// last letter.
pub open spec fn column_letter(col: int) -> char {
    if 0 <= col < 8 {
        (65 + col) as char
    } else if 8 <= col < 25 {
        (66 + col) as char
    } else {
        '?'
    }
}

/// The column that letter `c` names, if any.
pub open spec fn column_of(c: char) -> Option<int> {
    if 'A' <= c && c <= 'H' {
        Some(c as int - 65)
    } else if 'J' <= c && c <= 'Z' {
        Some(c as int - 66)
    } else {
        None
    }
}

/// The name of point `p` on a board `size` wide: its column letter, then its row counted
/// from the bottom.
pub open spec fn coord_text(p: int, size: int) -> Seq<char> {
    seq![column_letter(p % size)] + decimal((size - p / size) as nat)
}

/// The point that an upper-case name such as `D4` gives on a board `size` wide: a column
/// letter, then a row number from 1 to `size` counted from the bottom.
pub open spec fn coord_of_upper(u: Seq<char>, size: int) -> Option<int> {
    if u.len() == 0 {
        None
    } else {
        match column_of(u[0]) {
            None => None,
            Some(col) => match parse_unsigned(u.drop_first(), usize::MAX as nat) {
                None => None,
                Some(number) => if col >= size || number == 0 || number > size {
                    None
                } else {
                    Some((size - number) * size + col)
                },
            },
        }
    }
}

/// What the standard library's `str::to_uppercase` makes of a text (Unicode upper-casing).
pub uninterp spec fn uppercase(s: Seq<char>) -> Seq<char>;

/// `str::to_uppercase`, whose result is named `uppercase`.
#[verifier::external_body]
pub(crate) fn to_upper(s: &str) -> (r: String)
    ensures
        r@ == uppercase(s@),
{
    s.to_uppercase()
}

/// The letter of column `col`, or `?` past the last letter.
pub fn column_char(col: usize) -> (c: char)
    ensures
        c == column_letter(col as int),
{
    match col {
        0 => 'A',
        1 => 'B',
        2 => 'C',
        3 => 'D',
        4 => 'E',
        5 => 'F',
        6 => 'G',
        7 => 'H',
        8 => 'J',
        9 => 'K',
        10 => 'L',
        11 => 'M',
        12 => 'N',
        13 => 'O',
        14 => 'P',
        15 => 'Q',
        16 => 'R',
        17 => 'S',
        18 => 'T',
        19 => 'U',
        20 => 'V',
        21 => 'W',
        22 => 'X',
        23 => 'Y',
        24 => 'Z',
        _ => '?',
    }
}

/// The column that letter `c` names, if any.
pub fn column_index(c: char) -> (r: Option<usize>)
    ensures
        r matches Some(i) ==> column_of(c) == Some(i as int),
        r is None ==> column_of(c) is None,
{
    if 'A' <= c && c <= 'H' {
        Some((c as u32 - 65) as usize)
    } else if 'J' <= c && c <= 'Z' {
        Some((c as u32 - 66) as usize)
    } else {
        None
    }
}

/// The name of point `p` on a board `size` wide, such as `D4`.
pub fn coord_name(p: usize, size: usize) -> (r: String)
    requires
        size > 0,
        p / size <= size,
    ensures
        r@ == coord_text(p as int, size as int),
{
    let row = p / size;
    let col = p % size;
    let mut text = String::new();
    push_char(&mut text, column_char(col));
    push_decimal(&mut text, (size - row) as u64);
    proof {
        assert(text@ =~= coord_text(p as int, size as int));
    }
    text
}

/// The name of a move: the point's name, or `pass`.
pub fn play_name(play: Play, size: usize) -> (r: String)
    requires
        play matches Play::Point(p) ==> size > 0 && p / size <= size,
    ensures
        r@ == match play {
            Play::Point(p) => coord_text(p as int, size as int),
            Play::Pass => seq!['p', 'a', 's', 's'],
        },
{
    match play {
        Play::Point(p) => coord_name(p, size),
        Play::Pass => {
            let mut text = String::new();
            push_char(&mut text, 'p');
            push_char(&mut text, 'a');
            push_char(&mut text, 's');
            push_char(&mut text, 's');
            proof {
                assert(text@ =~= seq!['p', 'a', 's', 's']);
            }
            text
        },
    }
}

/// The point named by the upper-case text `upper`, such as `D4`.
pub fn coord_from_upper(upper: &str, size: usize) -> (r: Option<usize>)
    requires
        size * size <= usize::MAX,
    ensures
        r matches Some(p) ==> coord_of_upper(upper@, size as int) == Some(p as int),
        r is None ==> coord_of_upper(upper@, size as int) is None,
{
    let u = chars_of(upper);
    if u.len() == 0 {
        return None;
    }
    let col = match column_index(u[0]) {
        Some(col) => col,
        None => return None,
    };
    let mut rest: Vec<char> = Vec::new();
    let mut i: usize = 1;
    while i < u.len()
        invariant
            1 <= i <= u@.len(),
            rest@ == u@.subrange(1, i as int),
        decreases u@.len() - i,
    {
        rest.push(u[i]);
        proof {
            assert(u@.subrange(1, i as int + 1) =~= u@.subrange(1, i as int).push(u@[i as int]));
        }
        i += 1;
    }
    proof {
        assert(rest@ =~= u@.drop_first());
    }
    let number = match parse_number(&rest, usize::MAX as u64) {
        Some(n) => n as usize,
        None => return None,
    };
    if col >= size || number == 0 || number > size {
        return None;
    }
    proof {
        assert((size - number) * size + col < size * size) by (nonlinear_arith)
            requires
                col < size,
                1 <= number <= size,
        ;
    }
    Some((size - number) * size + col)
}

/// The point named by `text`, such as `d4` or ` D4 `: white space around it is dropped and
/// letters are read in upper case.
pub fn parse_coord(text: &str, size: usize) -> (r: Option<usize>)
    requires
        size * size <= usize::MAX,
    ensures
        r matches Some(p) ==> coord_of_upper(uppercase(trim(text@)), size as int) == Some(p as int),
        r is None ==> coord_of_upper(uppercase(trim(text@)), size as int) is None,
{
    let v = chars_of(text);
    let t = trim_chars(&v);
    let trimmed = string_of(&t);
    let upper = to_upper(trimmed.as_str());
    coord_from_upper(upper.as_str(), size)
}

} // verus!
