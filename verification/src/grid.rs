//! Flood fills over a slice of the house.
//!
//! A horizontal slice is cut into square cells, and a cell is *open* when it is
//! not inside anything solid. Working out which cells are open is geometry and
//! is done by whoever owns the boxes; what happens next is the same question
//! twice over. The room finder floods every island of open air and keeps the
//! ones that look like rooms; the house audit floods once from the great room
//! and asks which rooms the fill never reached. Both are here, with what they
//! find stated exactly: the cells a fill reaches are the cells a fly could walk
//! to, one step to a side neighbour at a time, through nothing but open air.
use vstd::arithmetic::div_mod::{lemma_fundamental_div_mod, lemma_fundamental_div_mod_converse, lemma_mod_bound};
use vstd::prelude::*;
use vstd::set_lib::{lemma_int_range, lemma_len_subset, set_int_range};

verus! {

/// A slice of the house, `wide` cells across and `deep` cells down, stored
/// row by row: cell `iz * wide + ix` is column `ix` of row `iz`.
pub struct Grid {
    pub wide: usize,
    pub deep: usize,
    /// Whether each cell is open air.
    pub open: Vec<bool>,
}

/// The column of a cell.
pub open spec fn col(w: int, c: int) -> int {
    c % w
}

/// The row of a cell.
pub open spec fn row(w: int, c: int) -> int {
    c / w
}

/// Two cells of a `w` by `d` grid that share a side.
pub open spec fn neighbours(w: int, d: int, a: int, b: int) -> bool {
    &&& 0 <= a < w * d
    &&& 0 <= b < w * d
    &&& {
        ||| row(w, a) == row(w, b) && (col(w, b) == col(w, a) + 1 || col(w, a) == col(w, b) + 1)
        ||| col(w, a) == col(w, b) && (row(w, b) == row(w, a) + 1 || row(w, a) == row(w, b) + 1)
    }
}

/// Distinct cell numbers below `n` number at most `n`.
proof fn lemma_distinct_below(s: Seq<usize>, n: int)
    requires
        n >= 0,
        s.no_duplicates(),
        forall|i: int| 0 <= i < s.len() ==> #[trigger] s[i] < n,
    ensures
        s.len() <= n,
{
    let t = s.map_values(|x: usize| x as int);
    assert(t.no_duplicates()) by {
        assert forall|i: int, j: int| 0 <= i < t.len() && 0 <= j < t.len() && i != j implies t[i] != t[j] by {
            assert(s[i] != s[j]);
        }
    }
    t.unique_seq_to_set();
    lemma_int_range(0, n);
    assert(t.to_set().subset_of(set_int_range(0, n))) by {
        assert forall|x: int| t.to_set().contains(x) implies set_int_range(0, n).contains(x) by {
            let k = choose|k: int| 0 <= k < t.len() && t[k] == x;
            assert(s[k] < n);
        }
    }
    lemma_len_subset(t.to_set(), set_int_range(0, n));
}

/// Where a cell sits.
proof fn lemma_coords(w: int, d: int, c: int)
    requires
        w > 0,
        d > 0,
        0 <= c < w * d,
    ensures
        c == row(w, c) * w + col(w, c),
        0 <= col(w, c) < w,
        0 <= row(w, c) < d,
{
    lemma_fundamental_div_mod(c, w);
    lemma_mod_bound(c, w);
    let r = c / w;
    let k = c % w;
    assert(c == r * w + k) by (nonlinear_arith)
        requires
            c == w * r + k,
    ;
    assert(0 <= r < d) by (nonlinear_arith)
        requires
            c == r * w + k,
            0 <= k < w,
            0 <= c < w * d,
            w > 0,
    ;
}

/// The cell at a column and a row.
proof fn lemma_at(w: int, d: int, r: int, k: int)
    requires
        w > 0,
        d > 0,
        0 <= k < w,
        0 <= r < d,
    ensures
        0 <= r * w + k < w * d,
        row(w, r * w + k) == r,
        col(w, r * w + k) == k,
{
    lemma_fundamental_div_mod_converse(r * w + k, w, r, k);
    assert(0 <= r * w + k < w * d) by (nonlinear_arith)
        requires
            0 <= k < w,
            0 <= r < d,
    ;
}

/// A side neighbour is one of the four steps a fill tries.
proof fn lemma_neighbour_is_a_step(w: int, d: int, a: int, b: int)
    requires
        w > 0,
        d > 0,
        neighbours(w, d, a, b),
    ensures
        (col(w, a) > 0 && b == row(w, a) * w + (col(w, a) - 1))
            || (row(w, a) > 0 && b == (row(w, a) - 1) * w + col(w, a))
            || (col(w, a) + 1 < w && b == row(w, a) * w + (col(w, a) + 1))
            || (row(w, a) + 1 < d && b == (row(w, a) + 1) * w + col(w, a)),
{
    lemma_coords(w, d, a);
    lemma_coords(w, d, b);
    let ra = row(w, a);
    let rb = row(w, b);
    assert((ra + 1) * w == ra * w + w) by (nonlinear_arith);
    assert((ra - 1) * w == ra * w - w) by (nonlinear_arith);
    if rb == ra + 1 {
        assert(rb * w == ra * w + w);
    } else if ra == rb + 1 {
        assert(rb * w == ra * w - w);
    }
}

impl Grid {
    /// The slice is the shape it says it is.
    pub open spec fn wf(&self) -> bool {
        &&& self.wide > 0
        &&& self.deep > 0
        &&& self.open@.len() == self.wide * self.deep
        &&& self.open@.len() <= usize::MAX
    }

    /// How many cells there are.
    pub open spec fn size(&self) -> int {
        self.open@.len() as int
    }

    pub open spec fn is_open(&self, c: int) -> bool {
        0 <= c < self.open@.len() && self.open@[c]
    }

    /// Side neighbours, in this grid.
    pub open spec fn adjacent(&self, a: int, b: int) -> bool {
        neighbours(self.wide as int, self.deep as int, a, b)
    }

    /// A walk from its first cell: every later cell is open air and shares a
    /// side with the one before it. The first cell is where the walker
    /// stands, and need not be open itself.
    pub open spec fn is_walk(&self, p: Seq<int>) -> bool {
        &&& p.len() >= 1
        &&& 0 <= p[0] < self.size()
        &&& forall|i: int| 1 <= i < p.len() ==> #[trigger] self.is_open(p[i])
        &&& forall|i: int| 0 <= i < p.len() - 1 ==> #[trigger] self.adjacent(p[i], p[i + 1])
    }

    /// `c` can be walked to from `s`.
    pub open spec fn reaches(&self, s: int, c: int) -> bool {
        exists|p: Seq<int>| #[trigger] self.is_walk(p) && p[0] == s && p.last() == c
    }

    /// A set of cells no open neighbour of which is left out.
    pub open spec fn closed(&self, marked: Seq<bool>) -> bool {
        forall|a: int, b: int|
            0 <= a < marked.len() && marked[a] && #[trigger] self.adjacent(a, b) && self.is_open(b)
                ==> marked[b]
    }

    /// The cell on a column and a row.
    pub open spec fn cell_at(&self, ix: int, iz: int) -> int {
        iz * self.wide + ix
    }

    /// A cell on the outer ring of the slice, which is the air round the house
    /// rather than a room in it.
    pub open spec fn on_border(&self, c: int) -> bool {
        let w = self.wide as int;
        col(w, c) == 0 || row(w, c) == 0 || col(w, c) + 1 == w || row(w, c) + 1 == self.deep
    }

    /// A slice of the given shape. Every cell must be accounted for.
    pub fn new(wide: usize, deep: usize, open: Vec<bool>) -> (g: Grid)
        requires
            wide > 0,
            deep > 0,
            open@.len() == wide * deep,
        ensures
            g.wf(),
            g.wide == wide,
            g.deep == deep,
            g.open@ == open@,
    {
        // Asking the length is what shows it fits in a `usize`.
        let cells = open.len();
        proof {
            assert(cells == open@.len());
        }
        Grid { wide, deep, open }
    }

    /// What a fill keeps true: everything marked before stays marked, every
    /// newly marked cell can be walked to from the start and is either done
    /// or waiting on the stack, exactly once.
    spec fn tracking(
        &self,
        before: Seq<bool>,
        start: int,
        seen: Seq<bool>,
        stack: Seq<usize>,
        done: Seq<usize>,
    ) -> bool {
        let len = self.size();
        &&& seen.len() == len
        &&& forall|c: int| 0 <= c < len && #[trigger] before[c] ==> seen[c]
        &&& forall|c: int| 0 <= c < len && #[trigger] seen[c] && !before[c] ==> self.reaches(start, c)
        &&& forall|c: int|
            0 <= c < len ==> ((#[trigger] seen[c] && !before[c]) <==> (done.contains(c as usize) || stack.contains(c as usize)))
        &&& forall|i: int| 0 <= i < done.len() ==> #[trigger] done[i] < len
        &&& forall|i: int| 0 <= i < stack.len() ==> #[trigger] stack[i] < len
        &&& done.no_duplicates()
        &&& stack.no_duplicates()
        &&& forall|i: int, j: int| 0 <= i < done.len() && 0 <= j < stack.len() ==> done[i] != stack[j]
    }

    /// Mark `n` and put it on the stack if it is open air not yet marked.
    fn visit(
        &self,
        n: usize,
        seen: &mut Vec<bool>,
        stack: &mut Vec<usize>,
        Ghost(before): Ghost<Seq<bool>>,
        Ghost(start): Ghost<int>,
        Ghost(from): Ghost<int>,
        Ghost(done): Ghost<Seq<usize>>,
    )
        requires
            n < old(seen)@.len(),
            before.len() == self.size(),
            self.tracking(before, start, old(seen)@, old(stack)@, done),
            self.reaches(start, from),
            self.adjacent(from, n as int),
        ensures
            self.tracking(before, start, final(seen)@, final(stack)@, done),
            forall|c: int| 0 <= c < final(seen)@.len() && #[trigger] old(seen)@[c] ==> final(seen)@[c],
            self.open@[n as int] ==> final(seen)@[n as int],
    {
        let total = seen.len();
        if self.open[n] && !seen[n] {
            let ghost seen0 = seen@;
            let ghost stack0 = stack@;
            proof {
                if before[n as int] {
                    assert(seen0[n as int]);
                }
                self.lemma_walk_on(start, from, n as int);
                assert(!stack0.contains(n));
                assert(!done.contains(n));
            }
            seen.set(n, true);
            stack.push(n);
            proof {
                let len = self.size();
                assert(stack@ =~= stack0.push(n));
                assert forall|c: int|
                    0 <= c < len implies ((#[trigger] seen@[c] && !before[c]) <==> (done.contains(c as usize) || stack@.contains(c as usize))) by {
                    if c == n as int {
                        assert(stack@[stack@.len() - 1] == n);
                    } else {
                        assert(seen@[c] == seen0[c]);
                        if stack0.contains(c as usize) {
                            let k = choose|k: int| 0 <= k < stack0.len() && stack0[k] == c as usize;
                            assert(stack@[k] == c as usize);
                        }
                        if stack@.contains(c as usize) {
                            let k = choose|k: int| 0 <= k < stack@.len() && stack@[k] == c as usize;
                            if k == stack0.len() {
                                assert(stack@[k] == n);
                                assert(c as usize == n);
                                assert(c < total);
                                assert(false);
                            }
                            assert(k < stack0.len());
                            assert(stack0[k] == c as usize);
                        }
                    }
                }
                assert forall|i: int, j: int| 0 <= i < done.len() && 0 <= j < stack@.len() implies done[i] != stack@[j] by {
                    if j == stack0.len() {
                        assert(done[i] != n) by {
                            if done[i] == n {
                                assert(done.contains(n));
                            }
                        }
                    } else {
                        assert(stack@[j] == stack0[j]);
                    }
                }
                assert forall|i: int, j: int| 0 <= i < stack@.len() && 0 <= j < stack@.len() && i != j implies stack@[i] != stack@[j] by {
                    if i == stack0.len() && j < stack0.len() {
                        if stack@[i] == stack@[j] {
                            assert(stack0.contains(n));
                        }
                    } else if j == stack0.len() && i < stack0.len() {
                        if stack@[i] == stack@[j] {
                            assert(stack0.contains(n));
                        }
                    } else if i < stack0.len() && j < stack0.len() {
                        assert(stack0[i] != stack0[j]);
                    }
                }
                assert(stack@.no_duplicates());
            }
        }
    }

    /// Flood from `start`, marking what it reaches in `seen` and handing back
    /// the cells it marked.
    ///
    /// Whatever was already marked is a closed set the fill does not enter:
    /// either nothing at all, or islands already flooded from open cells.
    fn fill(&self, start: usize, seen: &mut Vec<bool>) -> (island: Vec<usize>)
        requires
            self.wf(),
            start < self.open@.len(),
            old(seen)@.len() == self.open@.len(),
            !old(seen)@[start as int],
            self.closed(old(seen)@),
            self.is_open(start as int) || forall|c: int| 0 <= c < old(seen)@.len() ==> !old(seen)@[c],
        ensures
            final(seen)@.len() == old(seen)@.len(),
            forall|c: int|
                0 <= c < final(seen)@.len() ==> (#[trigger] final(seen)@[c] == (old(seen)@[c] || self.reaches(start as int, c))),
            self.closed(final(seen)@),
            island@.no_duplicates(),
            forall|c: int| 0 <= c < self.size() ==> (island@.contains(c as usize) <==> #[trigger] self.reaches(start as int, c)),
            forall|i: int| 0 <= i < island@.len() ==> #[trigger] island@[i] < self.size(),
    {
        let ghost before = seen@;
        let ghost s = start as int;
        let ghost w = self.wide as int;
        let ghost d = self.deep as int;
        let len = self.open.len();
        let wide = self.wide;
        let deep = self.deep;
        let mut island: Vec<usize> = Vec::new();
        let mut stack: Vec<usize> = Vec::new();
        stack.push(start);
        seen.set(start, true);
        proof {
            let p = seq![s];
            assert(self.is_walk(p));
            assert(self.reaches(s, s));
            assert(stack@ == seq![start]);
            assert forall|c: int|
                0 <= c < len implies ((#[trigger] seen@[c] && !before[c]) <==> (island@.contains(c as usize) || stack@.contains(c as usize))) by {
                if c == s {
                    assert(stack@[0] == start);
                }
            }
        }
        while stack.len() > 0
            invariant
                self.wf(),
                w == self.wide as int,
                d == self.deep as int,
                s == start as int,
                len == self.open@.len(),
                wide == self.wide,
                deep == self.deep,
                start < len,
                before.len() == len,
                !before[s],
                self.closed(before),
                self.is_open(s) || forall|c: int| 0 <= c < before.len() ==> !before[c],
                seen@[s],
                self.tracking(before, s, seen@, stack@, island@),
                forall|i: int, b: int|
                    0 <= i < island@.len() && #[trigger] self.adjacent(island@[i] as int, b) && self.is_open(b) ==> seen@[b],
            decreases len - island@.len(),
        {
            let ghost seen0 = seen@;
            let ghost island0 = island@;
            let ghost stack_before = stack@;
            let cell = stack.pop().unwrap();
            let ghost c = cell as int;
            let ghost done = island@.push(cell);
            proof {
                assert(stack_before == stack@.push(cell));
                assert(!stack@.contains(cell)) by {
                    if stack@.contains(cell) {
                        let k = choose|k: int| 0 <= k < stack@.len() && stack@[k] == cell;
                        assert(stack_before[k] == stack_before[stack_before.len() - 1]);
                    }
                }
                assert(!island@.contains(cell)) by {
                    if island@.contains(cell) {
                        let k = choose|k: int| 0 <= k < island@.len() && island@[k] == cell;
                        assert(island@[k] != stack_before[stack_before.len() - 1]);
                    }
                }
                assert(stack_before.contains(cell)) by {
                    assert(stack_before[stack_before.len() - 1] == cell);
                }
                assert(seen@[c] && !before[c]);
                assert(self.reaches(s, c));
                assert(self.tracking(before, s, seen@, stack@, done)) by {
                    assert forall|x: int|
                        0 <= x < len implies ((#[trigger] seen@[x] && !before[x]) <==> (done.contains(x as usize) || stack@.contains(x as usize))) by {
                        if x == c {
                            assert(done[done.len() - 1] == cell);
                        } else {
                            if stack_before.contains(x as usize) {
                                let k = choose|k: int| 0 <= k < stack_before.len() && stack_before[k] == x as usize;
                                if k < stack@.len() {
                                    assert(stack@[k] == x as usize);
                                }
                            }
                            if island@.contains(x as usize) {
                                let k = choose|k: int| 0 <= k < island@.len() && island@[k] == x as usize;
                                assert(done[k] == x as usize);
                            }
                            if done.contains(x as usize) {
                                let k = choose|k: int| 0 <= k < done.len() && done[k] == x as usize;
                                assert(k < island@.len());
                                assert(island@[k] == x as usize);
                            }
                            if stack@.contains(x as usize) {
                                let k = choose|k: int| 0 <= k < stack@.len() && stack@[k] == x as usize;
                                assert(stack_before[k] == x as usize);
                            }
                        }
                    }
                    assert forall|i: int, j: int| 0 <= i < done.len() && 0 <= j < stack@.len() implies done[i] != stack@[j] by {
                        if i < island@.len() {
                            assert(stack_before[j] == stack@[j]);
                        } else {
                            assert(stack_before[j] == stack@[j]);
                            assert(stack_before[j] != stack_before[stack_before.len() - 1]);
                        }
                    }
                    assert forall|i: int, j: int| 0 <= i < done.len() && 0 <= j < done.len() && i != j implies done[i] != done[j] by {
                        if i < island@.len() && j < island@.len() {
                            assert(island@[i] != island@[j]);
                        } else if i < island@.len() {
                            assert(island@[i] != stack_before[stack_before.len() - 1]);
                        } else if j < island@.len() {
                            assert(island@[j] != stack_before[stack_before.len() - 1]);
                        }
                    }
                    assert(done.no_duplicates());
                    assert forall|i: int, j: int| 0 <= i < stack@.len() && 0 <= j < stack@.len() && i != j implies stack@[i] != stack@[j] by {
                        assert(stack_before[i] != stack_before[j]);
                    }
                }
                lemma_coords(w, d, c);
            }
            let ix = cell % wide;
            let iz = cell / wide;
            if ix > 0 {
                proof { lemma_at(w, d, iz as int, ix - 1); }
                self.visit(iz * wide + (ix - 1), seen, &mut stack, Ghost(before), Ghost(s), Ghost(c), Ghost(done));
            }
            let ghost seen1 = seen@;
            if iz > 0 {
                proof { lemma_at(w, d, iz - 1, ix as int); }
                self.visit((iz - 1) * wide + ix, seen, &mut stack, Ghost(before), Ghost(s), Ghost(c), Ghost(done));
            }
            let ghost seen2 = seen@;
            if ix + 1 < wide {
                proof { lemma_at(w, d, iz as int, ix + 1); }
                self.visit(iz * wide + (ix + 1), seen, &mut stack, Ghost(before), Ghost(s), Ghost(c), Ghost(done));
            }
            let ghost seen3 = seen@;
            if iz + 1 < deep {
                proof { lemma_at(w, d, iz + 1, ix as int); }
                self.visit((iz + 1) * wide + ix, seen, &mut stack, Ghost(before), Ghost(s), Ghost(c), Ghost(done));
            }
            island.push(cell);
            proof {
                assert(island@ == done);
                lemma_distinct_below(island@, len as int);
                assert forall|i: int, b: int|
                    0 <= i < island@.len() && #[trigger] self.adjacent(island@[i] as int, b) && self.is_open(b) implies seen@[b] by {
                    if i < island0.len() {
                        assert(island0[i] == island@[i]);
                        assert(seen0[b]);
                    } else {
                        lemma_neighbour_is_a_step(w, d, c, b);
                    }
                }
            }
        }
        proof {
            assert(stack@.len() == 0);
            assert forall|c: int| 0 <= c < len implies (island@.contains(c as usize) <==> #[trigger] self.reaches(s, c)) by {
                if island@.contains(c as usize) {
                    assert(seen@[c] && !before[c]);
                }
                if self.reaches(s, c) {
                    let p = choose|p: Seq<int>| #[trigger] self.is_walk(p) && p[0] == s && p.last() == c;
                    self.lemma_walk_stays_out(before, p);
                    let marked = seen@;
                    assert(self.closed(marked)) by {
                        assert forall|a: int, b: int|
                            0 <= a < marked.len() && marked[a] && #[trigger] self.adjacent(a, b) && self.is_open(b) implies marked[b] by {
                            if before[a] {
                                assert(before[b]);
                            } else {
                                assert(island@.contains(a as usize));
                                let k = choose|k: int| 0 <= k < island@.len() && island@[k] == a as usize;
                                assert(self.adjacent(island@[k] as int, b));
                            }
                        }
                    }
                    self.lemma_walk_stays_in(marked, p);
                    assert(marked[p[p.len() - 1]]);
                    assert(!before[p[p.len() - 1]]);
                }
            }
        }
        island
    }

    /// Extending a walk by one open neighbour of its end.
    proof fn lemma_walk_on(&self, s: int, c: int, n: int)
        requires
            self.reaches(s, c),
            self.adjacent(c, n),
            self.is_open(n),
        ensures
            self.reaches(s, n),
    {
        let p = choose|p: Seq<int>| #[trigger] self.is_walk(p) && p[0] == s && p.last() == c;
        let q = p.push(n);
        assert forall|i: int| 1 <= i < q.len() implies #[trigger] self.is_open(q[i]) by {
            if i < p.len() {
                assert(self.is_open(p[i]));
            }
        }
        assert forall|i: int| 0 <= i < q.len() - 1 implies #[trigger] self.adjacent(q[i], q[i + 1]) by {
            if i < p.len() - 1 {
                assert(self.adjacent(p[i], p[i + 1]));
            }
        }
        assert(self.is_walk(q));
    }

    /// A walk that starts outside a closed set of open air never enters it.
    proof fn lemma_walk_stays_out(&self, before: Seq<bool>, p: Seq<int>)
        requires
            self.wf(),
            before.len() == self.size(),
            self.closed(before),
            self.is_walk(p),
            !before[p[0]],
            self.is_open(p[0]) || forall|c: int| 0 <= c < before.len() ==> !before[c],
        ensures
            forall|i: int| 0 <= i < p.len() ==> !before[#[trigger] p[i]],
        decreases p.len(),
    {
        if p.len() > 1 {
            let q = p.drop_last();
            assert forall|i: int| 1 <= i < q.len() implies #[trigger] self.is_open(q[i]) by {
                assert(self.is_open(p[i]));
            }
            assert forall|i: int| 0 <= i < q.len() - 1 implies #[trigger] self.adjacent(q[i], q[i + 1]) by {
                assert(self.adjacent(p[i], p[i + 1]));
            }
            self.lemma_walk_stays_out(before, q);
            let j = p.len() - 1;
            let a = p[j];
            let b = p[j - 1];
            assert(self.adjacent(p[(j - 1)], p[(j - 1) + 1]));
            assert(self.adjacent(a, b));
            assert(q[j - 1] == b);
            assert(!before[b]);
            if before[a] {
                if j - 1 >= 1 {
                    assert(self.is_open(p[j - 1]));
                    assert(before[b]);
                } else {
                    assert(before[a] && 0 <= a < before.len());
                }
            }
            assert forall|i: int| 0 <= i < p.len() implies !before[#[trigger] p[i]] by {
                if i < j {
                    assert(q[i] == p[i]);
                }
            }
        }
    }

    /// Everything a walk touches lies in a closed set holding its first cell.
    proof fn lemma_walk_stays_in(&self, marked: Seq<bool>, p: Seq<int>)
        requires
            self.wf(),
            marked.len() == self.size(),
            self.closed(marked),
            self.is_walk(p),
            marked[p[0]],
        ensures
            forall|i: int| 0 <= i < p.len() ==> marked[#[trigger] p[i]],
        decreases p.len(),
    {
        if p.len() > 1 {
            let q = p.drop_last();
            assert forall|i: int| 1 <= i < q.len() implies #[trigger] self.is_open(q[i]) by {
                assert(self.is_open(p[i]));
            }
            assert forall|i: int| 0 <= i < q.len() - 1 implies #[trigger] self.adjacent(q[i], q[i + 1]) by {
                assert(self.adjacent(p[i], p[i + 1]));
            }
            self.lemma_walk_stays_in(marked, q);
            let j = p.len() - 1;
            assert(self.adjacent(p[(j - 1)], p[(j - 1) + 1]));
            assert(self.is_open(p[j]));
            assert(q[j - 1] == p[j - 1]);
            assert(marked[q[j - 1]]);
            assert forall|i: int| 0 <= i < p.len() implies marked[#[trigger] p[i]] by {
                if i < j {
                    assert(q[i] == p[i]);
                }
            }
        }
    }
}


/// Islands smaller than this are a cupboard, a chimney void, or the gap behind
/// a fridge.
pub const SMALLEST_ROOM: usize = 12;

/// One island of open air: every cell a fly could walk to from `start`.
pub struct Island {
    /// The lowest-numbered cell of the island, where its fill began.
    pub start: usize,
    /// Every cell of the island, once each, in the order the fill took them.
    pub cells: Vec<usize>,
    /// Whether the island touches the outer ring of the slice, which makes it
    /// the air round the house rather than a room in it.
    pub outdoors: bool,
}

impl Grid {
    /// The cells reachable from `s`, as a set.
    pub open spec fn component(&self, s: int) -> Set<int> {
        Set::new(|c: int| 0 <= c < self.size() && self.reaches(s, c))
    }

    /// `s` is open, and no open cell numbered below it can walk to it: it is
    /// the first cell of its island.
    pub open spec fn leader(&self, s: int) -> bool {
        &&& self.is_open(s)
        &&& forall|c: int| 0 <= c < s && self.is_open(c) ==> !#[trigger] self.reaches(c, s)
    }

    /// The island a fill from `s` reaches touches the outer ring.
    pub open spec fn reaches_border(&self, s: int) -> bool {
        exists|c: int| 0 <= c < self.size() && #[trigger] self.reaches(s, c) && self.on_border(c)
    }

    /// `isl` is exactly the island whose first cell is its start.
    pub open spec fn describes(&self, isl: Island) -> bool {
        &&& self.leader(isl.start as int)
        &&& isl.cells@.no_duplicates()
        &&& forall|i: int| 0 <= i < isl.cells@.len() ==> #[trigger] isl.cells@[i] < self.size()
        &&& forall|c: int| 0 <= c < self.size() ==> (isl.cells@.contains(c as usize) <==> #[trigger] self.reaches(isl.start as int, c))
        &&& isl.outdoors == self.reaches_border(isl.start as int)
    }

    /// An island that is a room: indoors, and big enough to stand in.
    pub open spec fn is_room(&self, s: int) -> bool {
        &&& self.leader(s)
        &&& !self.reaches_border(s)
        &&& self.component(s).len() >= SMALLEST_ROOM
    }

    /// Walks join end to end.
    proof fn lemma_reaches_trans(&self, a: int, b: int, c: int)
        requires
            self.reaches(a, b),
            self.reaches(b, c),
        ensures
            self.reaches(a, c),
    {
        let p = choose|p: Seq<int>| #[trigger] self.is_walk(p) && p[0] == a && p.last() == b;
        let q = choose|q: Seq<int>| #[trigger] self.is_walk(q) && q[0] == b && q.last() == c;
        let r = p + q.drop_first();
        assert forall|i: int| 1 <= i < r.len() implies #[trigger] self.is_open(r[i]) by {
            if i < p.len() {
                assert(self.is_open(p[i]));
            } else {
                assert(r[i] == q[i - p.len() + 1]);
                assert(self.is_open(q[i - p.len() + 1]));
            }
        }
        assert forall|i: int| 0 <= i < r.len() - 1 implies #[trigger] self.adjacent(r[i], r[i + 1]) by {
            if i < p.len() - 1 {
                assert(self.adjacent(p[i], p[i + 1]));
            } else if i == p.len() - 1 {
                assert(r[i] == q[0]);
                assert(r[i + 1] == q[1]);
                assert(self.adjacent(q[0int], q[0int + 1]));
            } else {
                let j = i - p.len() + 1;
                assert(r[i] == q[j]);
                assert(r[i + 1] == q[j + 1]);
                assert(self.adjacent(q[j], q[j + 1]));
            }
        }
        assert(self.is_walk(r));
        if q.len() == 1 {
            assert(r =~= p);
        } else {
            assert(r.last() == q.last());
        }
    }

    /// Every cell a fly could walk to from `start`: `true` for each cell of
    /// the slice that can be reached, through open air, from `start`.
    ///
    /// The start need not be open itself. This is the audit's question — can
    /// a fly get from the great room to every other room — so it is whatever
    /// the fill from the great room's middle touches.
    pub fn reach_from(&self, start: usize) -> (seen: Vec<bool>)
        requires
            self.wf(),
            start < self.open@.len(),
        ensures
            seen@.len() == self.size(),
            forall|c: int| 0 <= c < self.size() ==> (#[trigger] seen@[c] == self.reaches(start as int, c)),
    {
        let len = self.open.len();
        let mut seen: Vec<bool> = Vec::new();
        let mut i: usize = 0;
        while i < len
            invariant
                i <= len,
                len == self.open@.len(),
                seen@.len() == i,
                forall|c: int| 0 <= c < i ==> !#[trigger] seen@[c],
            decreases len - i,
        {
            seen.push(false);
            i += 1;
        }
        proof {
            assert forall|a: int, b: int|
                0 <= a < seen@.len() && seen@[a] && #[trigger] self.adjacent(a, b) && self.is_open(b) implies seen@[b] by {}
        }
        let _ = self.fill(start, &mut seen);
        seen
    }

    /// Whether the fill reached any of the given cells.
    ///
    /// A room is sampled at a handful of points rather than trusted at its
    /// middle, which may have a bed in it; one reached sample is enough.
    pub fn reached_any(seen: &Vec<bool>, samples: &Vec<usize>) -> (found: bool)
        requires
            forall|i: int| 0 <= i < samples@.len() ==> #[trigger] samples@[i] < seen@.len(),
        ensures
            found == exists|i: int| 0 <= i < samples@.len() && #[trigger] seen@[samples@[i] as int],
    {
        let mut i: usize = 0;
        while i < samples.len()
            invariant
                i <= samples@.len(),
                forall|i: int| 0 <= i < samples@.len() ==> #[trigger] samples@[i] < seen@.len(),
                forall|j: int| 0 <= j < i ==> !#[trigger] seen@[samples@[j] as int],
            decreases samples@.len() - i,
        {
            if seen[samples[i]] {
                return true;
            }
            i += 1;
        }
        false
    }

    /// Every island of open air in the slice, each flooded once from its
    /// lowest-numbered cell, in the order of those cells.
    pub fn islands(&self) -> (found: Vec<Island>)
        requires
            self.wf(),
        ensures
            forall|k: int| 0 <= k < found@.len() ==> self.describes(#[trigger] found@[k]),
            forall|k: int, j: int| 0 <= k < j < found@.len() ==> found@[k].start < found@[j].start,
            forall|s: int| #[trigger] self.leader(s) ==> exists|k: int| 0 <= k < found@.len() && found@[k].start == s,
    {
        let len = self.open.len();
        let wide = self.wide;
        let deep = self.deep;
        let mut seen: Vec<bool> = Vec::new();
        let mut i: usize = 0;
        while i < len
            invariant
                i <= len,
                len == self.open@.len(),
                seen@.len() == i,
                forall|c: int| 0 <= c < i ==> !#[trigger] seen@[c],
            decreases len - i,
        {
            seen.push(false);
            i += 1;
        }
        let mut found: Vec<Island> = Vec::new();
        let mut t: usize = 0;
        while t < len
            invariant
                self.wf(),
                t <= len,
                len == self.open@.len(),
                wide == self.wide,
                deep == self.deep,
                seen@.len() == len,
                self.closed(seen@),
                forall|c: int|
                    0 <= c < len ==> (#[trigger] seen@[c] <==> exists|k: int| 0 <= k < found@.len() && #[trigger] self.reaches(found@[k].start as int, c)),
                forall|c: int| 0 <= c < t && #[trigger] self.is_open(c) ==> seen@[c],
                forall|k: int| 0 <= k < found@.len() ==> self.describes(#[trigger] found@[k]),
                forall|k: int| 0 <= k < found@.len() ==> #[trigger] found@[k].start < t,
                forall|k: int, j: int| 0 <= k < j < found@.len() ==> found@[k].start < found@[j].start,
                forall|s: int| 0 <= s < t && #[trigger] self.leader(s) ==> exists|k: int| 0 <= k < found@.len() && found@[k].start == s,
            decreases len - t,
        {
            let ghost seen0 = seen@;
            if self.open[t] && !seen[t] {
                proof {
                    assert(self.is_open(t as int));
                    assert(self.leader(t as int)) by {
                        assert forall|c: int| 0 <= c < t && self.is_open(c) implies !#[trigger] self.reaches(c, t as int) by {
                            if self.reaches(c, t as int) {
                                assert(seen0[c]);
                                let k = choose|k: int| 0 <= k < found@.len() && #[trigger] self.reaches(found@[k].start as int, c);
                                self.lemma_reaches_trans(found@[k].start as int, c, t as int);
                                assert(seen0[t as int]);
                            }
                        }
                    }
                }
                let cells = self.fill(t, &mut seen);
                let mut outdoors = false;
                let mut j: usize = 0;
                while j < cells.len()
                    invariant
                        self.wf(),
                        wide == self.wide,
                        deep == self.deep,
                        j <= cells@.len(),
                        forall|i: int| 0 <= i < cells@.len() ==> #[trigger] cells@[i] < self.size(),
                        outdoors == exists|i: int| 0 <= i < j && #[trigger] self.on_border(cells@[i] as int),
                    decreases cells@.len() - j,
                {
                    let c = cells[j];
                    proof { lemma_coords(wide as int, deep as int, c as int); }
                    let ix = c % wide;
                    let iz = c / wide;
                    if ix == 0 || iz == 0 || ix + 1 == wide || iz + 1 == deep {
                        outdoors = true;
                    }
                    proof {
                        if outdoors && !(exists|i: int| 0 <= i < j && #[trigger] self.on_border(cells@[i] as int)) {
                            assert(self.on_border(cells@[j as int] as int));
                        }
                    }
                    j += 1;
                }
                proof {
                    let s = t as int;
                    if outdoors {
                        let i = choose|i: int| 0 <= i < cells@.len() && #[trigger] self.on_border(cells@[i] as int);
                        let c = cells@[i] as int;
                        assert(cells@.contains(c as usize));
                        assert(self.reaches(s, c));
                    }
                    if self.reaches_border(s) {
                        let c = choose|c: int| 0 <= c < self.size() && #[trigger] self.reaches(s, c) && self.on_border(c);
                        assert(cells@.contains(c as usize));
                        let i = choose|i: int| 0 <= i < cells@.len() && cells@[i] == c as usize;
                        assert(self.on_border(cells@[i] as int));
                    }
                }
                let island = Island { start: t, cells, outdoors };
                let ghost found0 = found@;
                found.push(island);
                proof {
                    let s = t as int;
                    assert(found@[found@.len() - 1].start == t);
                    assert forall|c: int|
                        0 <= c < len implies (#[trigger] seen@[c] <==> exists|k: int| 0 <= k < found@.len() && #[trigger] self.reaches(found@[k].start as int, c)) by {
                        if seen0[c] {
                            let k = choose|k: int| 0 <= k < found0.len() && #[trigger] self.reaches(found0[k].start as int, c);
                            assert(found@[k] == found0[k]);
                        }
                        if self.reaches(s, c) {
                            assert(self.reaches(found@[found@.len() - 1].start as int, c));
                        }
                        if exists|k: int| 0 <= k < found@.len() && #[trigger] self.reaches(found@[k].start as int, c) {
                            let k = choose|k: int| 0 <= k < found@.len() && #[trigger] self.reaches(found@[k].start as int, c);
                            if k < found0.len() {
                                assert(found0[k] == found@[k]);
                            }
                        }
                    }
                    assert forall|k: int| 0 <= k < found@.len() implies self.describes(#[trigger] found@[k]) by {
                        if k < found0.len() {
                            assert(found0[k] == found@[k]);
                        }
                    }
                    assert forall|l: int| 0 <= l < t + 1 && #[trigger] self.leader(l) implies exists|k: int| 0 <= k < found@.len() && found@[k].start == l by {
                        if l < t {
                            let k = choose|k: int| 0 <= k < found0.len() && found0[k].start == l;
                            assert(found@[k] == found0[k]);
                        } else {
                            assert(found@[found@.len() - 1].start == l);
                        }
                    }
                    assert forall|c: int| 0 <= c < t + 1 && #[trigger] self.is_open(c) implies seen@[c] by {
                        if c == s {
                            assert(self.reaches(s, s)) by {
                                assert(self.is_walk(seq![s]));
                            }
                        } else {
                            assert(seen0[c]);
                        }
                    }
                }
            } else {
                proof {
                    assert forall|l: int| 0 <= l < t + 1 && #[trigger] self.leader(l) implies exists|k: int| 0 <= k < found@.len() && found@[k].start == l by {
                        if l == t {
                            if self.is_open(l) {
                                assert(seen@[l]);
                                let k = choose|k: int| 0 <= k < found@.len() && #[trigger] self.reaches(found@[k].start as int, l);
                                let st = found@[k].start as int;
                                assert(st < t);
                                assert(self.is_open(st));
                                assert(!self.reaches(st, l));
                            }
                        }
                    }
                }
            }
            t += 1;
        }
        found
    }

    /// A walk read backwards is a walk, when it ends in open air.
    pub proof fn lemma_reaches_symmetric(&self, a: int, b: int)
        requires
            self.reaches(a, b),
            self.is_open(a),
        ensures
            self.reaches(b, a),
    {
        let p = choose|p: Seq<int>| #[trigger] self.is_walk(p) && p[0] == a && p.last() == b;
        let r = p.reverse();
        let n = p.len();
        assert forall|i: int| 1 <= i < r.len() implies #[trigger] self.is_open(r[i]) by {
            assert(r[i] == p[n - 1 - i]);
            if n - 1 - i >= 1 {
                assert(self.is_open(p[n - 1 - i]));
            }
        }
        assert forall|i: int| 0 <= i < r.len() - 1 implies #[trigger] self.adjacent(r[i], r[i + 1]) by {
            let j = n - 2 - i;
            assert(r[i] == p[j + 1]);
            assert(r[i + 1] == p[j]);
            assert(self.adjacent(p[j], p[j + 1]));
        }
        assert(r[0] == p[n - 1]);
        assert(0 <= r[0] < self.size()) by {
            if n > 1 {
                assert(self.is_open(p[n - 1]));
            }
        }
        assert(self.is_walk(r));
        assert(r.last() == p[0]);
    }

    /// The island's cell list holds its whole island, so its length is the
    /// island's size.
    proof fn lemma_island_size(&self, isl: Island)
        requires
            self.wf(),
            self.describes(isl),
        ensures
            isl.cells@.len() == self.component(isl.start as int).len(),
            self.component(isl.start as int).finite(),
    {
        let t = isl.cells@.map_values(|x: usize| x as int);
        assert(t.no_duplicates()) by {
            assert forall|i: int, j: int| 0 <= i < t.len() && 0 <= j < t.len() && i != j implies t[i] != t[j] by {
                assert(isl.cells@[i] != isl.cells@[j]);
            }
        }
        t.unique_seq_to_set();
        assert(t.to_set() =~= self.component(isl.start as int)) by {
            assert forall|c: int| t.to_set().contains(c) implies self.component(isl.start as int).contains(c) by {
                let k = choose|k: int| 0 <= k < t.len() && t[k] == c;
                assert(isl.cells@[k] < self.size());
                assert(isl.cells@.contains(c as usize));
            }
            assert forall|c: int| self.component(isl.start as int).contains(c) implies t.to_set().contains(c) by {
                assert(isl.cells@.contains(c as usize));
                let k = choose|k: int| 0 <= k < isl.cells@.len() && isl.cells@[k] == c as usize;
                assert(0 <= c <= usize::MAX);
                assert(t[k] == c);
            }
        }
    }

    /// The rooms of the slice: every island that is indoors and big enough to
    /// stand in, in the order of their first cells.
    pub fn rooms(&self) -> (found: Vec<Island>)
        requires
            self.wf(),
        ensures
            forall|k: int| 0 <= k < found@.len() ==> self.describes(#[trigger] found@[k]),
            forall|k: int| 0 <= k < found@.len() ==> self.is_room(#[trigger] found@[k].start as int),
            forall|k: int, j: int| 0 <= k < j < found@.len() ==> found@[k].start < found@[j].start,
            forall|s: int| #[trigger] self.is_room(s) ==> exists|k: int| 0 <= k < found@.len() && found@[k].start == s,
    {
        let mut all = self.islands();
        let ghost every = all@;
        let mut found: Vec<Island> = Vec::new();
        let mut taken: Vec<Island> = Vec::new();
        // Taken from the back and kept in order by building the list reversed.
        while all.len() > 0
            invariant
                self.wf(),
                every.len() == all@.len() + taken@.len(),
                forall|k: int| 0 <= k < all@.len() ==> #[trigger] all@[k] == every[k],
                forall|k: int| 0 <= k < taken@.len() ==> #[trigger] taken@[k] == every[every.len() - 1 - k],
            decreases all@.len(),
        {
            let isl = all.pop().unwrap();
            taken.push(isl);
        }
        while taken.len() > 0
            invariant
                self.wf(),
                taken@.len() <= every.len(),
                forall|k: int| 0 <= k < taken@.len() ==> #[trigger] taken@[k] == every[every.len() - 1 - k],
                forall|k: int| 0 <= k < every.len() ==> self.describes(#[trigger] every[k]),
                forall|k: int, j: int| 0 <= k < j < every.len() ==> every[k].start < every[j].start,
                forall|k: int| 0 <= k < found@.len() ==> self.describes(#[trigger] found@[k]),
                forall|k: int| 0 <= k < found@.len() ==> self.is_room(#[trigger] found@[k].start as int),
                forall|k: int, j: int| 0 <= k < j < found@.len() ==> found@[k].start < found@[j].start,
                forall|k: int| #![trigger found@[k]] 0 <= k < found@.len() ==> exists|j: int| 0 <= j < every.len() - taken@.len() && #[trigger] every[j].start == found@[k].start,
                forall|j: int| 0 <= j < every.len() - taken@.len() && self.is_room(#[trigger] every[j].start as int) ==> exists|k: int| 0 <= k < found@.len() && found@[k].start == every[j].start,
            decreases taken@.len(),
        {
            let ghost idx = every.len() - taken@.len();
            let ghost taken0 = taken@;
            let isl = taken.pop().unwrap();
            proof {
                assert(isl == taken0[taken0.len() - 1]);
                assert(isl == every[idx]);
                self.lemma_island_size(every[idx]);
                assert forall|k: int| 0 <= k < taken@.len() implies #[trigger] taken@[k] == every[every.len() - 1 - k] by {
                    assert(taken@[k] == taken0[k]);
                }
            }
            if !isl.outdoors && isl.cells.len() >= SMALLEST_ROOM {
                let ghost found0 = found@;
                found.push(isl);
                proof {
                    assert(found@[found@.len() - 1] == every[idx]);
                    assert forall|k: int, j: int| 0 <= k < j < found@.len() implies found@[k].start < found@[j].start by {
                        if j == found@.len() - 1 && k < j {
                            assert(found@[k] == found0[k]);
                            let m = choose|m: int| 0 <= m < idx && #[trigger] every[m].start == found0[k].start;
                            assert(every[m].start < every[idx].start);
                        } else {
                            assert(found@[k] == found0[k]);
                            assert(found@[j] == found0[j]);
                        }
                    }
                    assert forall|k: int| #![trigger found@[k]] 0 <= k < found@.len() implies exists|j: int| 0 <= j < every.len() - taken@.len() && #[trigger] every[j].start == found@[k].start by {
                        if k == found@.len() - 1 {
                            assert(every[idx].start == found@[k].start);
                        } else {
                            assert(found@[k] == found0[k]);
                            let m = choose|m: int| 0 <= m < idx && #[trigger] every[m].start == found0[k].start;
                            assert(every[m].start == found@[k].start);
                        }
                    }
                    assert forall|j: int| 0 <= j < every.len() - taken@.len() && self.is_room(#[trigger] every[j].start as int) implies exists|k: int| 0 <= k < found@.len() && found@[k].start == every[j].start by {
                        if j == idx {
                            assert(found@[found@.len() - 1].start == every[j].start);
                        } else {
                            let m = choose|m: int| 0 <= m < found0.len() && found0[m].start == every[j].start;
                            assert(found@[m] == found0[m]);
                        }
                    }
                }
            } else {
                proof {
                    assert forall|j: int| 0 <= j < every.len() - taken@.len() && self.is_room(#[trigger] every[j].start as int) implies exists|k: int| 0 <= k < found@.len() && found@[k].start == every[j].start by {
                        if j == idx {
                            assert(false);
                        }
                    }
                }
            }
        }
        proof {
            assert forall|s: int| #[trigger] self.is_room(s) implies exists|k: int| 0 <= k < found@.len() && found@[k].start == s by {
                let j = choose|j: int| 0 <= j < every.len() && every[j].start == s;
                assert(self.is_room(every[j].start as int));
            }
        }
        found
    }
}

/// Every cell of open air belongs to exactly one of the islands a slice
/// breaks into.
pub proof fn islands_partition_the_air(g: &Grid, found: Seq<Island>, c: int)
    requires
        g.wf(),
        g.is_open(c),
        forall|k: int| 0 <= k < found.len() ==> g.describes(#[trigger] found[k]),
        forall|k: int, j: int| 0 <= k < j < found.len() ==> found[k].start < found[j].start,
        forall|s: int| #[trigger] g.leader(s) ==> exists|k: int| 0 <= k < found.len() && found[k].start == s,
    ensures
        exists|k: int| 0 <= k < found.len() && #[trigger] found[k].cells@.contains(c as usize),
        forall|k: int, j: int|
            0 <= k < found.len() && 0 <= j < found.len() && #[trigger] found[k].cells@.contains(c as usize)
                && #[trigger] found[j].cells@.contains(c as usize) ==> k == j,
{
    // The lowest open cell that can walk to `c` starts its island.
    let lowest = g.lemma_lowest_walker(c);
    let k = choose|k: int| 0 <= k < found.len() && found[k].start == lowest;
    assert(found[k].cells@.contains(c as usize));
    assert forall|a: int, b: int|
        0 <= a < found.len() && 0 <= b < found.len() && #[trigger] found[a].cells@.contains(c as usize)
            && #[trigger] found[b].cells@.contains(c as usize) implies a == b by {
        let sa = found[a].start as int;
        let sb = found[b].start as int;
        assert(g.reaches(sa, c));
        assert(g.reaches(sb, c));
        if a < b {
            g.lemma_reaches_symmetric(sb, c);
            g.lemma_reaches_trans(sa, c, sb);
            assert(g.leader(sb));
            assert(g.is_open(sa));
        } else if b < a {
            g.lemma_reaches_symmetric(sa, c);
            g.lemma_reaches_trans(sb, c, sa);
            assert(g.leader(sa));
            assert(g.is_open(sb));
        }
    }
}

impl Grid {
    /// Some open cell walks to `c` and no lower open cell walks to it: that
    /// cell is a leader.
    proof fn lemma_lowest_walker(&self, c: int) -> (s: int)
        requires
            self.wf(),
            self.is_open(c),
        ensures
            self.leader(s),
            self.reaches(s, c),
    {
        assert(self.is_walk(seq![c]));
        assert(self.reaches(c, c));
        self.lemma_lowest_walker_from(c, c)
    }

    proof fn lemma_lowest_walker_from(&self, c: int, t: int) -> (s: int)
        requires
            self.wf(),
            self.is_open(c),
            0 <= t <= c,
            self.is_open(t),
            self.reaches(t, c),
        ensures
            self.leader(s),
            self.reaches(s, c),
        decreases t,
    {
        if exists|u: int| 0 <= u < t && self.is_open(u) && #[trigger] self.reaches(u, t) {
            let u = choose|u: int| 0 <= u < t && self.is_open(u) && #[trigger] self.reaches(u, t);
            self.lemma_reaches_trans(u, t, c);
            self.lemma_lowest_walker_from(c, u)
        } else {
            t
        }
    }
}

} // verus!
