use vstd::prelude::*;
use crate::point::Point;
use vstd::set_lib::lemma_len_intersect;

verus! {

broadcast use vstd::set::group_set_axioms;

/// The set of integer coordinate pairs held by a sequence of points.
pub open spec fn pts_of(s: Seq<Point>) -> Set<(int, int)> {
    Set::new(|q: (int, int)| exists|i: int| 0 <= i < s.len() && s[i]@ == q)
}

/// No two entries of the sequence denote the same lattice point.
pub open spec fn nodup_pts(s: Seq<Point>) -> bool {
    forall|i: int, j: int| 0 <= i < j < s.len() ==> s[i]@ != s[j]@
}

/// Two lattice points are adjacent when they differ, and each coordinate
/// differs by at most one (the Moore neighborhood).
pub open spec fn is_adjacent(p: (int, int), q: (int, int)) -> bool {
    &&& p != q
    &&& -1 <= p.0 - q.0 <= 1
    &&& -1 <= p.1 - q.1 <= 1
}

/// The 8 points of the Moore neighborhood of `p`.
pub open spec fn adjacent_spec(p: (int, int)) -> Set<(int, int)> {
    Set::new(|q: (int, int)| is_adjacent(p, q))
}

/// How many of the 8 neighbors of `p` are alive in `s`.
pub open spec fn live_count(s: Set<(int, int)>, p: (int, int)) -> nat {
    s.intersect(adjacent_spec(p)).len()
}

/// Every point whose liveness could change in the next generation: each live
/// cell together with its whole neighborhood.
pub open spec fn active_spec(s: Set<(int, int)>) -> Set<(int, int)> {
    Set::new(|q: (int, int)| s.contains(q) || exists|p: (int, int)| s.contains(p) && is_adjacent(p, q))
}

/// Both coordinates of `p` stay at least `m` away from the ends of the
/// machine range, so that neighborhood arithmetic cannot overflow.
pub open spec fn coords_within(p: (int, int), m: int) -> bool {
    &&& i64::MIN + m <= p.0 <= i64::MAX - m
    &&& i64::MIN + m <= p.1 <= i64::MAX - m
}

/// `lo` and `hi` are the componentwise minimum and maximum over `s`; an
/// empty set is assigned the zero point for both.
pub open spec fn bounds_ok(s: Set<(int, int)>, lo: (int, int), hi: (int, int)) -> bool {
    if s.is_empty() {
        lo == (0int, 0int) && hi == (0int, 0int)
    } else {
        &&& (forall|p: (int, int)| s.contains(p) ==> lo.0 <= p.0 <= hi.0 && lo.1 <= p.1 <= hi.1)
        &&& (exists|p: (int, int)| s.contains(p) && p.0 == lo.0)
        &&& (exists|p: (int, int)| s.contains(p) && p.1 == lo.1)
        &&& (exists|p: (int, int)| s.contains(p) && p.0 == hi.0)
        &&& (exists|p: (int, int)| s.contains(p) && p.1 == hi.1)
    }
}

/// The componentwise bounds of `s`, as a pair (lowest, highest).
pub open spec fn spec_bounds(s: Set<(int, int)>) -> ((int, int), (int, int)) {
    choose|b: ((int, int), (int, int))| bounds_ok(s, b.0, b.1)
}

/// Rust's truncating integer division (toward zero), for a positive divisor.
pub open spec fn div_trunc(x: int, d: int) -> int {
    if x >= 0 {
        x / d
    } else {
        -((-x) / d)
    }
}

/// The midpoint of the bounding box of `s`, by the truncating formula
/// `((x0 + x1 + 1) / 2, (y0 + y1 + 1) / 2)`.
pub open spec fn spec_midpoint(s: Set<(int, int)>) -> (int, int) {
    let b = spec_bounds(s);
    (div_trunc(b.0.0 + b.1.0 + 1, 2), div_trunc(b.0.1 + b.1.1 + 1, 2))
}

/// The bounding-box sums that `midpoint` computes stay inside the machine
/// range.
pub open spec fn midpoint_fits(s: Set<(int, int)>) -> bool {
    let b = spec_bounds(s);
    &&& i64::MIN <= b.0.0 + b.1.0 && b.0.0 + b.1.0 + 1 <= i64::MAX
    &&& i64::MIN <= b.0.1 + b.1.1 && b.0.1 + b.1.1 + 1 <= i64::MAX
}

/// Only one pair of bounds describes a given set.
pub proof fn lemma_bounds_unique(s: Set<(int, int)>, l1: (int, int), h1: (int, int), l2: (int, int), h2: (int, int))
    requires
        bounds_ok(s, l1, h1),
        bounds_ok(s, l2, h2),
    ensures
        l1 == l2,
        h1 == h2,
{
    if !s.is_empty() {
        assert(l1.0 == l2.0) by {
            let p1 = choose|p: (int, int)| s.contains(p) && p.0 == l1.0;
            let p2 = choose|p: (int, int)| s.contains(p) && p.0 == l2.0;
            assert(l1.0 <= p2.0 && l2.0 <= p1.0);
        }
        assert(l1.1 == l2.1) by {
            let p1 = choose|p: (int, int)| s.contains(p) && p.1 == l1.1;
            let p2 = choose|p: (int, int)| s.contains(p) && p.1 == l2.1;
            assert(l1.1 <= p2.1 && l2.1 <= p1.1);
        }
        assert(h1.0 == h2.0) by {
            let p1 = choose|p: (int, int)| s.contains(p) && p.0 == h1.0;
            let p2 = choose|p: (int, int)| s.contains(p) && p.0 == h2.0;
            assert(p2.0 <= h1.0 && p1.0 <= h2.0);
        }
        assert(h1.1 == h2.1) by {
            let p1 = choose|p: (int, int)| s.contains(p) && p.1 == h1.1;
            let p2 = choose|p: (int, int)| s.contains(p) && p.1 == h2.1;
            assert(p2.1 <= h1.1 && p1.1 <= h2.1);
        }
    }
}

/// A Grid holds the sparse set of live cells of one generation.  Its view is
/// the set of integer coordinate pairs of those cells.
#[derive(Debug, Clone)]
pub struct Grid {
    cells: Vec<Point>,
}

impl View for Grid {
    type V = Set<(int, int)>;

    closed spec fn view(&self) -> Set<(int, int)> {
        pts_of(self.cells@)
    }
}

impl Grid {
    /// The backing vector never lists the same cell twice.  Constructors
    /// establish this and mutating methods preserve it.
    pub closed spec fn wf(self) -> bool {
        nodup_pts(self.cells@)
    }

    /// Create a new Grid holding exactly the given cells, duplicates merged.
    pub fn new(cells: Vec<Point>) -> (r: Grid)
        ensures
            r.wf(),
            r@ == pts_of(cells@),
    {
        let mut g = Grid { cells: Vec::new() };
        assert(g@ =~= pts_of(cells@.take(0)));
        let n = cells.len();
        let mut i: usize = 0;
        while i < n
            invariant
                i <= n == cells@.len(),
                g.wf(),
                g@ == pts_of(cells@.take(i as int)),
            decreases n - i,
        {
            let ghost pre = g@;
            g.set_alive(cells[i]);
            proof {
                let t0 = cells@.take(i as int);
                let t1 = cells@.take(i + 1);
                assert forall|q: (int, int)| pts_of(t1).contains(q) implies pre.insert(cells@[i as int]@).contains(q) by {
                    let j = choose|j: int| 0 <= j < t1.len() && t1[j]@ == q;
                    if j < i {
                        assert(t0[j]@ == q);
                        assert(pts_of(t0).contains(q));
                    }
                }
                assert forall|q: (int, int)| pre.insert(cells@[i as int]@).contains(q) implies pts_of(t1).contains(q) by {
                    if q == cells@[i as int]@ {
                        assert(t1[i as int]@ == q);
                    } else {
                        let j = choose|j: int| 0 <= j < t0.len() && t0[j]@ == q;
                        assert(t1[j]@ == q);
                    }
                }
                assert(g@ =~= pts_of(t1));
            }
            i += 1;
        }
        assert(cells@.take(n as int) == cells@);
        g
    }

    /// Create an empty Grid.
    pub fn empty() -> (r: Grid)
        ensures
            r.wf(),
            r@ == Set::<(int, int)>::empty(),
    {
        let g = Grid { cells: Vec::new() };
        assert(g@ =~= Set::<(int, int)>::empty());
        g
    }

    /// Return whether the Grid has no live cells.
    pub fn is_empty(&self) -> (r: bool)
        ensures
            r == self@.is_empty(),
    {
        if self.cells.len() == 0 {
            assert(self@ =~= Set::<(int, int)>::empty());
            true
        } else {
            assert(self@.contains(self.cells@[0]@));
            false
        }
    }

    /// Return whether the cell at `cell` is alive.
    pub fn is_alive(&self, cell: &Point) -> (r: bool)
        ensures
            r == self@.contains(cell@),
    {
        let n = self.cells.len();
        let mut i: usize = 0;
        while i < n
            invariant
                i <= n == self.cells@.len(),
                forall|j: int| 0 <= j < i ==> self.cells@[j]@ != cell@,
            decreases n - i,
        {
            if self.cells[i].0 == cell.0 && self.cells[i].1 == cell.1 {
                assert(self.cells@[i as int]@ == cell@);
                return true;
            }
            i += 1;
        }
        false
    }

    /// Bring the cell at `cell` to life; report whether it was newly added.
    pub fn set_alive(&mut self, cell: Point) -> (r: bool)
        requires
            old(self).wf(),
        ensures
            final(self).wf(),
            final(self)@ == old(self)@.insert(cell@),
            r == !old(self)@.contains(cell@),
    {
        if self.is_alive(&cell) {
            assert(self@ =~= self@.insert(cell@));
            false
        } else {
            let ghost pre = self.cells@;
            self.cells.push(cell);
            proof {
                assert forall|q: (int, int)| self@.contains(q) implies pts_of(pre).insert(cell@).contains(q) by {
                    let j = choose|j: int| 0 <= j < self.cells@.len() && self.cells@[j]@ == q;
                    if j < pre.len() {
                        assert(pre[j]@ == q);
                    }
                }
                assert forall|q: (int, int)| pts_of(pre).insert(cell@).contains(q) implies self@.contains(q) by {
                    if q == cell@ {
                        assert(self.cells@[pre.len() as int]@ == q);
                    } else {
                        let j = choose|j: int| 0 <= j < pre.len() && pre[j]@ == q;
                        assert(self.cells@[j]@ == q);
                    }
                }
                assert(self@ =~= pts_of(pre).insert(cell@));
            }
            true
        }
    }

    /// Kill the cell at `cell`; report whether it was present.
    pub fn set_dead(&mut self, cell: &Point) -> (r: bool)
        requires
            old(self).wf(),
        ensures
            final(self).wf(),
            final(self)@ == old(self)@.remove(cell@),
            r == old(self)@.contains(cell@),
    {
        let n = self.cells.len();
        let mut i: usize = 0;
        while i < n
            invariant
                i <= n == self.cells@.len(),
                self.wf(),
                self == old(self),
                forall|j: int| 0 <= j < i ==> self.cells@[j]@ != cell@,
            decreases n - i,
        {
            if self.cells[i].0 == cell.0 && self.cells[i].1 == cell.1 {
                let ghost pre = self.cells@;
                assert(pre[i as int]@ == cell@);
                self.cells.remove(i);
                proof {
                    let post = self.cells@;
                    assert(post == pre.subrange(0, i as int) + pre.subrange(i + 1, pre.len() as int));
                    assert forall|q: (int, int)| self@.contains(q) implies pts_of(pre).remove(cell@).contains(q) by {
                        let j = choose|j: int| 0 <= j < post.len() && post[j]@ == q;
                        if j < i {
                            assert(pre[j]@ == q);
                        } else {
                            assert(pre[j + 1]@ == q);
                        }
                    }
                    assert forall|q: (int, int)| pts_of(pre).remove(cell@).contains(q) implies self@.contains(q) by {
                        let j = choose|j: int| 0 <= j < pre.len() && pre[j]@ == q;
                        if j < i {
                            assert(post[j]@ == q);
                        } else {
                            assert(j != i);
                            assert(post[j - 1]@ == q);
                        }
                    }
                    assert(self@ =~= pts_of(pre).remove(cell@));
                }
                return true;
            }
            i += 1;
        }
        assert(!self@.contains(cell@));
        assert(self@ =~= self@.remove(cell@));
        false
    }

    /// Clear the Grid of all living cells.
    pub fn clear(&mut self)
        ensures
            final(self).wf(),
            final(self)@ == Set::<(int, int)>::empty(),
    {
        self.cells = Vec::new();
        assert(self@ =~= Set::<(int, int)>::empty());
    }
}

/// The set of points named by a sequence is finite.
pub proof fn lemma_pts_of_finite(s: Seq<Point>)
    ensures
        pts_of(s).finite(),
    decreases s.len(),
{
    if s.len() == 0 {
        assert(pts_of(s) =~= Set::<(int, int)>::empty());
    } else {
        lemma_pts_of_finite(s.drop_last());
        assert forall|q: (int, int)| pts_of(s).contains(q) implies pts_of(s.drop_last()).insert(s.last()@).contains(q) by {
            let j = choose|j: int| 0 <= j < s.len() && s[j]@ == q;
            if j < s.len() - 1 {
                assert(s.drop_last()[j]@ == q);
            }
        }
        assert forall|q: (int, int)| pts_of(s.drop_last()).insert(s.last()@).contains(q) implies pts_of(s).contains(q) by {
            if q == s.last()@ {
                assert(s[s.len() - 1]@ == q);
            } else {
                let j = choose|j: int| 0 <= j < s.len() - 1 && s.drop_last()[j]@ == q;
                assert(s[j]@ == q);
            }
        }
        assert(pts_of(s) =~= pts_of(s.drop_last()).insert(s.last()@));
    }
}

/// Taking one more entry of a sequence adds exactly that entry's point.
pub proof fn lemma_pts_take_succ(s: Seq<Point>, i: int)
    requires
        0 <= i < s.len(),
    ensures
        pts_of(s.take(i + 1)) == pts_of(s.take(i)).insert(s[i]@),
{
    let t0 = s.take(i);
    let t1 = s.take(i + 1);
    assert forall|q: (int, int)| pts_of(t1).contains(q) implies pts_of(t0).insert(s[i]@).contains(q) by {
        let j = choose|j: int| 0 <= j < t1.len() && t1[j]@ == q;
        if j < i {
            assert(t0[j]@ == q);
        }
    }
    assert forall|q: (int, int)| pts_of(t0).insert(s[i]@).contains(q) implies pts_of(t1).contains(q) by {
        if q == s[i]@ {
            assert(t1[i]@ == q);
        } else {
            let j = choose|j: int| 0 <= j < t0.len() && t0[j]@ == q;
            assert(t1[j]@ == q);
        }
    }
    assert(pts_of(t1) =~= pts_of(t0).insert(s[i]@));
}

/// Adding a live cell extends the active region by that cell and its
/// neighborhood.
proof fn lemma_active_insert(s: Set<(int, int)>, c: (int, int))
    ensures
        active_spec(s.insert(c)) == active_spec(s).union(adjacent_spec(c).insert(c)),
{
    let lhs = active_spec(s.insert(c));
    let rhs = active_spec(s).union(adjacent_spec(c).insert(c));
    assert forall|q: (int, int)| lhs.contains(q) implies rhs.contains(q) by {
        if s.insert(c).contains(q) {
            if q == c {
                assert(adjacent_spec(c).insert(c).contains(q));
            } else {
                assert(active_spec(s).contains(q));
            }
        } else {
            let p = choose|p: (int, int)| s.insert(c).contains(p) && is_adjacent(p, q);
            if p == c {
                assert(is_adjacent(c, q));
                assert(adjacent_spec(c).contains(q));
            } else {
                assert(s.contains(p) && is_adjacent(p, q));
                assert(active_spec(s).contains(q));
            }
        }
    }
    assert forall|q: (int, int)| rhs.contains(q) implies lhs.contains(q) by {
        if active_spec(s).contains(q) {
            if !s.contains(q) {
                let p = choose|p: (int, int)| s.contains(p) && is_adjacent(p, q);
                assert(s.insert(c).contains(p) && is_adjacent(p, q));
            }
        } else {
            if q == c {
                assert(s.insert(c).contains(q));
            } else {
                assert(is_adjacent(c, q));
                assert(s.insert(c).contains(c) && is_adjacent(c, q));
            }
        }
    }
    assert(lhs =~= rhs);
}

impl Grid {
    /// Return all 8 Points directly adjacent to `cell`, regardless of
    /// liveness.
    pub fn adjacent_cells(&self, cell: &Point) -> (r: Vec<Point>)
        requires
            coords_within(cell@, 1),
        ensures
            nodup_pts(r@),
            r@.len() == 8,
            pts_of(r@) == adjacent_spec(cell@),
    {
        let x = cell.0;
        let y = cell.1;
        let mut v: Vec<Point> = Vec::new();
        v.push(Point(x - 1, y - 1));
        v.push(Point(x - 1, y));
        v.push(Point(x - 1, y + 1));
        v.push(Point(x, y - 1));
        v.push(Point(x, y + 1));
        v.push(Point(x + 1, y - 1));
        v.push(Point(x + 1, y));
        v.push(Point(x + 1, y + 1));
        proof {
            assert forall|q: (int, int)| pts_of(v@).contains(q) implies adjacent_spec(cell@).contains(q) by {
                let j = choose|j: int| 0 <= j < v@.len() && v@[j]@ == q;
            }
            assert forall|q: (int, int)| adjacent_spec(cell@).contains(q) implies pts_of(v@).contains(q) by {
                let cx = cell@.0;
                let cy = cell@.1;
                if q.0 == cx - 1 {
                    if q.1 == cy - 1 {
                        assert(v@[0]@ == q);
                    } else if q.1 == cy {
                        assert(v@[1]@ == q);
                    } else {
                        assert(v@[2]@ == q);
                    }
                } else if q.0 == cx {
                    if q.1 == cy - 1 {
                        assert(v@[3]@ == q);
                    } else {
                        assert(q.1 == cy + 1);
                        assert(v@[4]@ == q);
                    }
                } else {
                    assert(q.0 == cx + 1);
                    if q.1 == cy - 1 {
                        assert(v@[5]@ == q);
                    } else if q.1 == cy {
                        assert(v@[6]@ == q);
                    } else {
                        assert(v@[7]@ == q);
                    }
                }
            }
            assert(pts_of(v@) =~= adjacent_spec(cell@));
        }
        v
    }

    /// Return the number of living cells adjacent to `point`.
    pub fn live_neighbors(&self, point: &Point) -> (r: usize)
        requires
            coords_within(point@, 1),
        ensures
            r == live_count(self@, point@),
            r <= 8,
    {
        let adj = self.adjacent_cells(point);
        proof {
            lemma_pts_of_finite(self.cells@);
            assert(self@.intersect(pts_of(adj@.take(0))) =~= Set::<(int, int)>::empty());
        }
        let n = adj.len();
        let mut count: usize = 0;
        let mut i: usize = 0;
        while i < n
            invariant
                i <= n == adj@.len(),
                nodup_pts(adj@),
                self@.finite(),
                count == self@.intersect(pts_of(adj@.take(i as int))).len(),
                count <= i,
            decreases n - i,
        {
            let alive = self.is_alive(&adj[i]);
            proof {
                let q = adj@[i as int]@;
                let p0 = pts_of(adj@.take(i as int));
                let p1 = pts_of(adj@.take(i + 1));
                lemma_pts_take_succ(adj@, i as int);
                lemma_pts_of_finite(adj@.take(i as int));
                assert(!p0.contains(q));
                if alive {
                    assert(self@.intersect(p1) =~= self@.intersect(p0).insert(q));
                    lemma_len_intersect(self@, p0);
                } else {
                    assert(self@.intersect(p1) =~= self@.intersect(p0));
                }
            }
            if alive {
                count += 1;
            }
            i += 1;
        }
        proof {
            assert(adj@.take(n as int) == adj@);
            assert(self@.intersect(pts_of(adj@)) == self@.intersect(adjacent_spec(point@)));
        }
        count
    }

    /// Push `p` unless an equal point is already present.
    fn push_unique(out: &mut Vec<Point>, p: Point)
        requires
            nodup_pts(old(out)@),
        ensures
            nodup_pts(final(out)@),
            pts_of(final(out)@) == pts_of(old(out)@).insert(p@),
    {
        let n = out.len();
        let mut i: usize = 0;
        while i < n
            invariant
                i <= n == out@.len(),
                out@ == old(out)@,
                nodup_pts(out@),
                forall|j: int| 0 <= j < i ==> out@[j]@ != p@,
            decreases n - i,
        {
            if out[i].0 == p.0 && out[i].1 == p.1 {
                assert(out@[i as int]@ == p@);
                assert(pts_of(out@).contains(p@));
                assert(pts_of(out@) =~= pts_of(out@).insert(p@));
                return ;
            }
            i += 1;
        }
        let ghost pre = out@;
        out.push(p);
        proof {
            assert forall|q: (int, int)| pts_of(out@).contains(q) implies pts_of(pre).insert(p@).contains(q) by {
                let j = choose|j: int| 0 <= j < out@.len() && out@[j]@ == q;
                if j < pre.len() {
                    assert(pre[j]@ == q);
                }
            }
            assert forall|q: (int, int)| pts_of(pre).insert(p@).contains(q) implies pts_of(out@).contains(q) by {
                if q == p@ {
                    assert(out@[pre.len() as int]@ == q);
                } else {
                    let j = choose|j: int| 0 <= j < pre.len() && pre[j]@ == q;
                    assert(out@[j]@ == q);
                }
            }
            assert(pts_of(out@) =~= pts_of(pre).insert(p@));
        }
    }

    /// Return every cell that must be evaluated for the next generation:
    /// each live cell and all of its neighbors.
    pub fn active_cells(&self) -> (r: Vec<Point>)
        requires
            forall|p: (int, int)| self@.contains(p) ==> coords_within(p, 1),
        ensures
            nodup_pts(r@),
            pts_of(r@) == active_spec(self@),
    {
        let mut out: Vec<Point> = Vec::new();
        proof {
            assert(pts_of(out@) =~= Set::<(int, int)>::empty());
            assert(pts_of(self.cells@.take(0)) =~= Set::<(int, int)>::empty());
            assert forall|q: (int, int)| active_spec(Set::<(int, int)>::empty()).contains(q) implies false by {
                if !Set::<(int, int)>::empty().contains(q) {
                    let p = choose|p: (int, int)| Set::<(int, int)>::empty().contains(p) && is_adjacent(p, q);
                }
            }
            assert(active_spec(pts_of(self.cells@.take(0))) =~= Set::<(int, int)>::empty());
        }
        let n = self.cells.len();
        let mut i: usize = 0;
        while i < n
            invariant
                i <= n == self.cells@.len(),
                nodup_pts(out@),
                pts_of(out@) == active_spec(pts_of(self.cells@.take(i as int))),
                forall|p: (int, int)| self@.contains(p) ==> coords_within(p, 1),
            decreases n - i,
        {
            let c = self.cells[i];
            proof {
                assert(self.cells@[i as int]@ == c@);
                assert(self@.contains(c@));
            }
            let ghost u0 = pts_of(out@);
            Self::push_unique(&mut out, c);
            let adj = self.adjacent_cells(&c);
            proof {
                assert(pts_of(adj@.take(0)) =~= Set::<(int, int)>::empty());
                assert(pts_of(out@) =~= u0.insert(c@).union(pts_of(adj@.take(0))));
            }
            let m = adj.len();
            let mut j: usize = 0;
            while j < m
                invariant
                    j <= m == adj@.len(),
                    nodup_pts(out@),
                    nodup_pts(adj@),
                    pts_of(out@) == u0.insert(c@).union(pts_of(adj@.take(j as int))),
                decreases m - j,
            {
                Self::push_unique(&mut out, adj[j]);
                proof {
                    lemma_pts_take_succ(adj@, j as int);
                    assert(pts_of(out@) =~= u0.insert(c@).union(pts_of(adj@.take(j + 1))));
                }
                j += 1;
            }
            proof {
                assert(adj@.take(m as int) == adj@);
                let t0 = pts_of(self.cells@.take(i as int));
                lemma_pts_take_succ(self.cells@, i as int);
                lemma_active_insert(t0, c@);
                assert(u0.insert(c@).union(adjacent_spec(c@)) =~= u0.union(adjacent_spec(c@).insert(c@)));
                assert(pts_of(out@) =~= active_spec(t0.insert(c@)));
            }
            i += 1;
        }
        assert(self.cells@.take(n as int) == self.cells@);
        out
    }

    /// Return the lowest and highest x and y coordinates among the live
    /// cells; an empty Grid reports the zero point twice.
    pub fn bounds(&self) -> (r: (Point, Point))
        ensures
            bounds_ok(self@, r.0@, r.1@),
            (r.0@, r.1@) == spec_bounds(self@),
    {
        let n = self.cells.len();
        if n == 0 {
            proof {
                assert(self@ =~= Set::<(int, int)>::empty());
            }
            let r = (Point(0, 0), Point(0, 0));
            proof {
                assert(bounds_ok(self@, r.0@, r.1@));
                let b = spec_bounds(self@);
                assert(bounds_ok(self@, b.0, b.1)) by {
                    assert(bounds_ok(self@, ((0int, 0int), (0int, 0int)).0, ((0int, 0int), (0int, 0int)).1));
                }
                lemma_bounds_unique(self@, r.0@, r.1@, b.0, b.1);
            }
            r
        } else {
            let first = self.cells[0];
            let mut x0 = first.0;
            let mut y0 = first.1;
            let mut x1 = first.0;
            let mut y1 = first.1;
            let mut i: usize = 1;
            while i < n
                invariant
                    1 <= i <= n == self.cells@.len(),
                    x0 <= x1,
                    y0 <= y1,
                    forall|j: int| 0 <= j < i ==> x0 <= (#[trigger] self.cells@[j])@.0 <= x1 && y0 <= self.cells@[j]@.1 <= y1,
                    exists|j: int| 0 <= j < i && self.cells@[j]@.0 == x0,
                    exists|j: int| 0 <= j < i && self.cells@[j]@.1 == y0,
                    exists|j: int| 0 <= j < i && self.cells@[j]@.0 == x1,
                    exists|j: int| 0 <= j < i && self.cells@[j]@.1 == y1,
                decreases n - i,
            {
                let p = self.cells[i];
                if p.0 < x0 {
                    x0 = p.0;
                } else if p.0 > x1 {
                    x1 = p.0;
                }
                if p.1 < y0 {
                    y0 = p.1;
                } else if p.1 > y1 {
                    y1 = p.1;
                }
                i += 1;
            }
            let r = (Point(x0, y0), Point(x1, y1));
            proof {
                assert(self@.contains(self.cells@[0]@));
                assert(!self@.is_empty());
                assert forall|p: (int, int)| self@.contains(p) implies r.0@.0 <= p.0 <= r.1@.0 && r.0@.1 <= p.1 <= r.1@.1 by {
                    let j = choose|j: int| 0 <= j < self.cells@.len() && self.cells@[j]@ == p;
                }
                assert(exists|p: (int, int)| self@.contains(p) && p.0 == r.0@.0) by {
                    let j = choose|j: int| 0 <= j < n && self.cells@[j]@.0 == x0 as int;
                    assert(self@.contains(self.cells@[j]@));
                }
                assert(exists|p: (int, int)| self@.contains(p) && p.1 == r.0@.1) by {
                    let j = choose|j: int| 0 <= j < n && self.cells@[j]@.1 == y0 as int;
                    assert(self@.contains(self.cells@[j]@));
                }
                assert(exists|p: (int, int)| self@.contains(p) && p.0 == r.1@.0) by {
                    let j = choose|j: int| 0 <= j < n && self.cells@[j]@.0 == x1 as int;
                    assert(self@.contains(self.cells@[j]@));
                }
                assert(exists|p: (int, int)| self@.contains(p) && p.1 == r.1@.1) by {
                    let j = choose|j: int| 0 <= j < n && self.cells@[j]@.1 == y1 as int;
                    assert(self@.contains(self.cells@[j]@));
                }
                assert(bounds_ok(self@, r.0@, r.1@));
                let b = spec_bounds(self@);
                assert(bounds_ok(self@, b.0, b.1)) by {
                    assert(bounds_ok(self@, (r.0@, r.1@).0, (r.0@, r.1@).1));
                }
                lemma_bounds_unique(self@, r.0@, r.1@, b.0, b.1);
            }
            r
        }
    }

    /// Return the Point closest to the center of the bounding box, by the
    /// truncating formula `((x0 + x1 + 1) / 2, (y0 + y1 + 1) / 2)`.
    pub fn midpoint(&self) -> (r: Point)
        requires
            midpoint_fits(self@),
        ensures
            r@ == spec_midpoint(self@),
    {
        let (lo, hi) = self.bounds();
        proof {
            let b = spec_bounds(self@);
            assert(b.0 == lo@ && b.1 == hi@);
        }
        let sx = lo.0 + hi.0 + 1;
        let sy = lo.1 + hi.1 + 1;
        let mx = div_half(sx);
        let my = div_half(sy);
        Point(mx, my)
    }
}

/// Truncating division of `n` by two, as Rust's `/` computes it.
pub(crate) fn div_half(n: i64) -> (r: i64)
    ensures
        r == div_trunc(n as int, 2),
        n >= 0 ==> 0 <= r <= n,
        n < 0 ==> n <= r <= 0,
{
    proof {
        if n >= 0 {
            vstd::arithmetic::div_mod::lemma_div_pos_is_pos(n as int, 2);
            vstd::arithmetic::div_mod::lemma_div_nonincreasing(n as int, 2);
        } else {
            vstd::arithmetic::div_mod::lemma_div_pos_is_pos(-(n as int), 2);
            vstd::arithmetic::div_mod::lemma_div_nonincreasing(-(n as int), 2);
        }
    }
    match n.checked_div(2) {
        Some(q) => q,
        None => 0,
    }
}

impl Grid {
    /// Whether every live cell of `self` is alive in `other`.
    fn subset_of(&self, other: &Grid) -> (r: bool)
        ensures
            r == self@.subset_of(other@),
    {
        let n = self.cells.len();
        let mut i: usize = 0;
        while i < n
            invariant
                i <= n == self.cells@.len(),
                forall|j: int| 0 <= j < i ==> other@.contains(self.cells@[j]@),
            decreases n - i,
        {
            if !other.is_alive(&self.cells[i]) {
                assert(self@.contains(self.cells@[i as int]@));
                return false;
            }
            i += 1;
        }
        assert forall|q: (int, int)| self@.contains(q) implies other@.contains(q) by {
            let j = choose|j: int| 0 <= j < self.cells@.len() && self.cells@[j]@ == q;
        }
        true
    }
}

impl PartialEq for Grid {
    /// Two Grids are equal when they hold the same live cells, in any
    /// order.
    fn eq(&self, other: &Grid) -> (r: bool) {
        let r = self.subset_of(other) && other.subset_of(self);
        proof {
            if r {
                assert(self@ =~= other@);
            }
        }
        r
    }
}

impl vstd::std_specs::cmp::PartialEqSpecImpl for Grid {
    open spec fn obeys_eq_spec() -> bool {
        true
    }

    open spec fn eq_spec(&self, other: &Grid) -> bool {
        self@ == other@
    }
}

impl Default for Grid {
    /// The empty Grid.
    fn default() -> (r: Grid)
        ensures
            r.wf(),
            r@ == Set::<(int, int)>::empty(),
    {
        Grid::empty()
    }
}

/// Appending one point to a sequence adds exactly that point to its set.
pub proof fn lemma_pts_push(s: Seq<Point>, p: Point)
    ensures
        pts_of(s.push(p)) == pts_of(s).insert(p@),
{
    let t = s.push(p);
    assert forall|q: (int, int)| pts_of(t).contains(q) implies pts_of(s).insert(p@).contains(q) by {
        let j = choose|j: int| 0 <= j < t.len() && t[j]@ == q;
        if j < s.len() {
            assert(s[j]@ == q);
        }
    }
    assert forall|q: (int, int)| pts_of(s).insert(p@).contains(q) implies pts_of(t).contains(q) by {
        if q == p@ {
            assert(t[s.len() as int]@ == q);
        } else {
            let j = choose|j: int| 0 <= j < s.len() && s[j]@ == q;
            assert(t[j]@ == q);
        }
    }
    assert(pts_of(t) =~= pts_of(s).insert(p@));
}

/// A Grid's view is a finite set.
pub proof fn lemma_grid_view_finite(g: &Grid)
    ensures
        g@.finite(),
{
    lemma_pts_of_finite(g.cells@);
}

/// Reviving a cell that is already alive changes nothing, just as
/// `Grid::set_alive` then also reports `false`.
pub proof fn lemma_set_alive_idempotent(s: Set<(int, int)>, p: (int, int))
    requires
        s.contains(p),
    ensures
        s.insert(p) == s,
{
    assert(s.insert(p) =~= s);
}

/// Killing a cell that is already dead changes nothing, just as
/// `Grid::set_dead` then also reports `false`.
pub proof fn lemma_set_dead_idempotent(s: Set<(int, int)>, p: (int, int))
    requires
        !s.contains(p),
    ensures
        s.remove(p) == s,
{
    assert(s.remove(p) =~= s);
}

} // verus!
