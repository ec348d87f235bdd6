use vstd::prelude::*;
use vstd::view::View as VstdView;
use crate::point::Point;
use crate::grid::{
    Grid, adjacent_spec, active_spec, coords_within, div_half, div_trunc, is_adjacent,
    live_count, midpoint_fits, spec_bounds, spec_midpoint,
};
use crate::text::{rect_chars, row_chars};

verus! {

broadcast use vstd::set::group_set_axioms;

/// The three framing policies for the rendered window.
#[derive(Debug, Clone, Copy, PartialEq, Eq, Structural)]
pub enum View {
    Centered,
    Fixed,
    Follow,
}

/// The rendering and behavior options a Game consumes: the two glyphs, the
/// requested pause between generations, and the framing policy.  The values
/// are handed in already validated; how they are obtained is no concern of
/// this library.
#[derive(Debug, Clone, PartialEq, Eq, Structural)]
pub struct Settings {
    pub char_alive: char,
    pub char_dead: char,
    pub delay_ms: u64,
    pub view: View,
}

impl Default for Settings {
    /// The alive and dead glyphs of the text format, no pause, fixed framing.
    fn default() -> (r: Settings)
        ensures
            r == (Settings {
                char_alive: crate::text::READ_CHAR_ALIVE,
                char_dead: crate::text::READ_CHAR_DEAD,
                delay_ms: 0u64,
                view: View::Fixed,
            }),
    {
        Settings {
            char_alive: crate::text::READ_CHAR_ALIVE,
            char_dead: crate::text::READ_CHAR_DEAD,
            delay_ms: 0,
            view: View::Fixed,
        }
    }
}

/// Splitting an integer into the two halves that sum back to it, the odd
/// remainder going to the second half: `(n / 2, n / 2 + n % 2)` with
/// truncating division.
pub open spec fn spec_split_int(n: int) -> (int, int) {
    (div_trunc(n, 2), n - div_trunc(n, 2))
}

/// Split an integer into 2 halves that always add up to the given number.
pub fn split_int(n: i64) -> (r: (i64, i64))
    ensures
        r.0 == spec_split_int(n as int).0,
        r.1 == spec_split_int(n as int).1,
        r.0 + r.1 == n,
{
    let q = div_half(n);
    (q, n - q)
}

/// Both halves of a non-negative split are non-negative, and the first is
/// no larger than the second.
pub proof fn lemma_split_bounds(n: int)
    requires
        0 <= n,
    ensures
        0 <= spec_split_int(n).0 <= n,
        0 <= spec_split_int(n).1 <= n,
        1 <= n ==> 1 <= spec_split_int(n).1,
{
    vstd::arithmetic::div_mod::lemma_div_pos_is_pos(n, 2);
    vstd::arithmetic::div_mod::lemma_div_nonincreasing(n, 2);
    if 1 <= n {
        vstd::arithmetic::div_mod::lemma_div_decreases(n, 2);
    }
}

/// The window arithmetic of a fixed viewport stays in machine range, and
/// the window is at least one cell in either direction.
pub open spec fn fixed_fit(o: (int, int), sc: (int, int), w: int, h: int) -> bool {
    &&& 1 <= w && 1 <= h
    &&& i64::MIN <= o.0 + sc.0 && o.0 + sc.0 + w - 1 <= i64::MAX
    &&& i64::MIN <= o.1 + sc.1 && o.1 + sc.1 + h - 1 <= i64::MAX
}

/// The visible rectangle of a fixed viewport: pure translation of the
/// origin by the scroll offset, extended by width and height.
pub open spec fn fixed_bounds_spec(o: (int, int), sc: (int, int), w: int, h: int) -> ((int, int), (int, int)) {
    ((o.0 + sc.0, o.1 + sc.1), (o.0 + sc.0 + w - 1, o.1 + sc.1 + h - 1))
}

/// The window arithmetic of a centered viewport around `c` stays in machine
/// range.
pub open spec fn centered_fit(w: int, h: int, c: (int, int)) -> bool {
    &&& 1 <= w <= i64::MAX && 1 <= h <= i64::MAX
    &&& i64::MIN <= c.0 - spec_split_int(w).0
    &&& c.0 + spec_split_int(w).1 - 1 <= i64::MAX
    &&& i64::MIN <= c.1 - spec_split_int(h).0
    &&& c.1 + spec_split_int(h).1 - 1 <= i64::MAX
}

/// The visible rectangle of a `w` by `h` window centered on `c`, the odd
/// remainder of either dimension extending past the center.
pub open spec fn centered_bounds_spec(w: int, h: int, c: (int, int)) -> ((int, int), (int, int)) {
    let dx = spec_split_int(w);
    let dy = spec_split_int(h);
    ((c.0 - dx.0, c.1 - dy.0), (c.0 + dx.1 - 1, c.1 + dy.1 - 1))
}

/// Recentering a viewport with origin `o` on `c` stays in machine range.
pub open spec fn center_fit(o: (int, int), w: int, h: int, c: (int, int)) -> bool {
    &&& centered_fit(w, h, c)
    &&& i64::MIN <= centered_bounds_spec(w, h, c).0.0 - o.0 <= i64::MAX
    &&& i64::MIN <= centered_bounds_spec(w, h, c).0.1 - o.1 <= i64::MAX
}

/// The Viewport describes the visible rendering window: a fixed origin, a
/// mutable scroll offset, and the fixed positive window dimensions.
#[derive(Debug, Clone, PartialEq, Eq, Structural)]
pub struct Viewport {
    pub origin: Point,
    pub scroll: Point,
    pub width: u64,
    pub height: u64,
}

impl Default for Viewport {
    /// The zero viewport; callers give it real dimensions before use.
    fn default() -> (r: Viewport)
        ensures
            r == (Viewport { origin: Point(0, 0), scroll: Point(0, 0), width: 0u64, height: 0u64 }),
    {
        Viewport { origin: Point(0, 0), scroll: Point(0, 0), width: 0, height: 0 }
    }
}

impl Viewport {
    /// Return the visible rectangle: the origin shifted by the scroll
    /// offset, extended by width and height.
    pub fn bounds(&self) -> (r: (Point, Point))
        requires
            fixed_fit(self.origin@, self.scroll@, self.width as int, self.height as int),
        ensures
            (r.0@, r.1@) == fixed_bounds_spec(self.origin@, self.scroll@, self.width as int, self.height as int),
    {
        let x0 = self.origin.0 + self.scroll.0;
        let y0 = self.origin.1 + self.scroll.1;
        let x1 = ((x0 as i128) + (self.width as i128) - 1) as i64;
        let y1 = ((y0 as i128) + (self.height as i128) - 1) as i64;
        (Point(x0, y0), Point(x1, y1))
    }

    /// Return the rectangle of this viewport's dimensions centered on the
    /// given point, ignoring the scroll offset.
    pub fn centered(&self, mid: Point) -> (r: (Point, Point))
        requires
            centered_fit(self.width as int, self.height as int, mid@),
        ensures
            (r.0@, r.1@) == centered_bounds_spec(self.width as int, self.height as int, mid@),
    {
        proof {
            lemma_split_bounds(self.width as int);
            lemma_split_bounds(self.height as int);
        }
        let w = self.width as i64;
        let h = self.height as i64;
        let (dx0, dx1) = split_int(w);
        let (dy0, dy1) = split_int(h);
        let lx = mid.0 - dx0;
        let ly = mid.1 - dy0;
        let hx = mid.0 + (dx1 - 1);
        let hy = mid.1 + (dy1 - 1);
        (Point(lx, ly), Point(hx, hy))
    }

    /// Set the scroll offset so that the fixed window starts where a
    /// centered window on `point` would start.
    pub fn center(&mut self, point: Point)
        requires
            center_fit(old(self).origin@, old(self).width as int, old(self).height as int, point@),
        ensures
            final(self).origin == old(self).origin,
            final(self).width == old(self).width,
            final(self).height == old(self).height,
            final(self).scroll@ == ({
                let lo = centered_bounds_spec(old(self).width as int, old(self).height as int, point@).0;
                (lo.0 - old(self).origin@.0, lo.1 - old(self).origin@.1)
            }),
    {
        let (o, _) = self.centered(point);
        self.scroll = o.minus(self.origin);
    }

    /// Shift the scroll offset by the given deltas, unconditionally.
    pub fn scroll(&mut self, dx: i64, dy: i64)
        requires
            i64::MIN <= old(self).scroll@.0 + dx <= i64::MAX,
            i64::MIN <= old(self).scroll@.1 + dy <= i64::MAX,
        ensures
            final(self).origin == old(self).origin,
            final(self).width == old(self).width,
            final(self).height == old(self).height,
            final(self).scroll@ == (old(self).scroll@.0 + dx, old(self).scroll@.1 + dy),
    {
        self.scroll = self.scroll.plus(Point(dx, dy));
    }
}

/// Whether the cell at `q` is alive in the generation after `s`: a live
/// cell survives with 2 or 3 live neighbors, a dead cell awakens with
/// exactly 3.
pub open spec fn survives_spec(s: Set<(int, int)>, q: (int, int)) -> bool {
    if s.contains(q) {
        live_count(s, q) == 2 || live_count(s, q) == 3
    } else {
        live_count(s, q) == 3
    }
}

/// The generation after `s`.
pub open spec fn next_gen(s: Set<(int, int)>) -> Set<(int, int)> {
    Set::new(|q: (int, int)| survives_spec(s, q))
}

/// Every surviving cell lies in the active region: a cell with live
/// neighbors is adjacent to a live cell.
pub proof fn lemma_next_gen_active(s: Set<(int, int)>, q: (int, int))
    requires
        s.finite(),
        next_gen(s).contains(q),
    ensures
        active_spec(s).contains(q),
{
    if !s.contains(q) {
        let inter = s.intersect(adjacent_spec(q));
        assert(inter.len() == 3);
        vstd::set_lib::lemma_len_intersect(s, adjacent_spec(q));
        if inter.is_empty() {
            assert(inter.len() == 0);
        }
        let p = inter.choose();
        assert(inter.contains(p));
        assert(s.contains(p) && is_adjacent(p, q));
    }
}

/// Every active cell of a set within margin 2 is itself within margin 1.
pub proof fn lemma_active_within(s: Set<(int, int)>, q: (int, int))
    requires
        forall|p: (int, int)| s.contains(p) ==> coords_within(p, 2),
        active_spec(s).contains(q),
    ensures
        coords_within(q, 1),
{
    if !s.contains(q) {
        let p = choose|p: (int, int)| s.contains(p) && is_adjacent(p, q);
        assert(coords_within(p, 2));
    }
}

/// Game holds the high-level gameplay logic: the current generation, a
/// scratch grid for computing the next one, the options, and the viewport.
#[derive(Debug, Clone)]
pub struct Game {
    pub grid: Grid,
    pub swap: Grid,
    pub opts: Settings,
    pub viewport: Viewport,
}

/// The window arithmetic of one rendered frame of `s`, as the view mode
/// frames it, stays in machine range.  The reserved follow mode never fits:
/// it is rejected up front rather than silently redirected.
pub open spec fn frame_fit(opts: Settings, vp: Viewport, s: Set<(int, int)>) -> bool {
    match opts.view {
        View::Fixed => fixed_fit(vp.origin@, vp.scroll@, vp.width as int, vp.height as int),
        View::Centered => midpoint_fits(s) && centered_fit(vp.width as int, vp.height as int, spec_midpoint(s)),
        View::Follow => false,
    }
}

/// The rectangle one frame of `s` covers, as the view mode frames it.
pub open spec fn frame_bounds(opts: Settings, vp: Viewport, s: Set<(int, int)>) -> ((int, int), (int, int)) {
    match opts.view {
        View::Fixed => fixed_bounds_spec(vp.origin@, vp.scroll@, vp.width as int, vp.height as int),
        View::Centered => centered_bounds_spec(vp.width as int, vp.height as int, spec_midpoint(s)),
        View::Follow => ((0int, 0int), (0int, 0int)),
    }
}

/// The width the initial viewport gets: the explicit one if given, else the
/// horizontal extent of the initial grid's bounding box.
pub open spec fn new_width(s: Set<(int, int)>, bounds: (Option<u64>, Option<u64>)) -> int {
    match bounds.0 {
        Some(w) => w as int,
        None => spec_bounds(s).1.0 - spec_bounds(s).0.0 + 1,
    }
}

/// The height the initial viewport gets, chosen like the width.
pub open spec fn new_height(s: Set<(int, int)>, bounds: (Option<u64>, Option<u64>)) -> int {
    match bounds.1 {
        Some(h) => h as int,
        None => spec_bounds(s).1.1 - spec_bounds(s).0.1 + 1,
    }
}

/// The arithmetic of building a Game over `s` stays in machine range, and
/// explicit dimensions are positive.
pub open spec fn new_fit(s: Set<(int, int)>, bounds: (Option<u64>, Option<u64>)) -> bool {
    &&& (match bounds.0 {
        Some(w) => 1 <= w <= i64::MAX,
        None => spec_bounds(s).1.0 - spec_bounds(s).0.0 + 1 <= i64::MAX,
    })
    &&& (match bounds.1 {
        Some(h) => 1 <= h <= i64::MAX,
        None => spec_bounds(s).1.1 - spec_bounds(s).0.1 + 1 <= i64::MAX,
    })
    &&& midpoint_fits(s)
    &&& center_fit(spec_bounds(s).0, new_width(s, bounds), new_height(s, bounds), spec_midpoint(s))
}

impl Game {
    /// The live cells of the current generation.
    pub open spec fn cells(self) -> Set<(int, int)> {
        self.grid@
    }

    /// The cells of the scratch grid; empty between ticks.
    pub open spec fn scratch(self) -> Set<(int, int)> {
        self.swap@
    }

    /// Both grids are well formed and the scratch grid is empty.
    pub open spec fn wf(self) -> bool {
        &&& self.grid.wf()
        &&& self.swap.wf()
        &&& self.swap@.is_empty()
    }

    /// Build a Game over an initial grid: the viewport takes the grid's
    /// lower bounds as origin, the explicit dimensions or the grid's
    /// extent, and a scroll offset that centers it on the grid's midpoint.
    pub fn new(grid: Grid, opts: Settings, bounds: (Option<u64>, Option<u64>)) -> (r: Game)
        requires
            grid.wf(),
            new_fit(grid@, bounds),
        ensures
            r.wf(),
            r.cells() == grid@,
            r.opts == opts,
            r.viewport.origin@ == spec_bounds(grid@).0,
            r.viewport.width == new_width(grid@, bounds),
            r.viewport.height == new_height(grid@, bounds),
            r.viewport.scroll@ == ({
                let lo = centered_bounds_spec(new_width(grid@, bounds), new_height(grid@, bounds), spec_midpoint(grid@)).0;
                (lo.0 - spec_bounds(grid@).0.0, lo.1 - spec_bounds(grid@).0.1)
            }),
    {
        let swap = Grid::empty();
        let (origin, hi) = grid.bounds();
        let width: u64 = match bounds.0 {
            Some(w) => w,
            None => (hi.0 - origin.0 + 1) as u64,
        };
        let height: u64 = match bounds.1 {
            Some(h) => h,
            None => (hi.1 - origin.1 + 1) as u64,
        };
        let viewport = Viewport { origin, scroll: Point::origin(), width, height };
        let mut game = Game { grid, swap, opts, viewport };
        let m = game.grid.midpoint();
        game.viewport.center(m);
        game
    }

    /// Execute the next turn of the Game of Life.
    ///
    /// Every cell of the active region is evaluated against the current
    /// generation and the survivors are collected in the scratch grid;
    /// the grids then switch roles, so that no write is visible to any
    /// read of the same turn.
    pub fn tick(&mut self)
        requires
            old(self).wf(),
            forall|p: (int, int)| old(self).cells().contains(p) ==> coords_within(p, 2),
        ensures
            final(self).wf(),
            final(self).cells() == next_gen(old(self).cells()),
            final(self).opts == old(self).opts,
            final(self).viewport == old(self).viewport,
    {
        let ghost g0 = self.grid@;
        proof {
            crate::grid::lemma_grid_view_finite(&self.grid);
            assert forall|p: (int, int)| self.grid@.contains(p) implies coords_within(p, 1) by {
                assert(old(self).cells().contains(p));
                assert(coords_within(p, 2));
            }
        }
        let active = self.grid.active_cells();
        let n = active.len();
        let mut i: usize = 0;
        proof {
            assert(self.swap@.intersect(Set::<(int, int)>::empty()) =~= Set::<(int, int)>::empty());
            assert(crate::grid::pts_of(active@.take(0)) =~= Set::<(int, int)>::empty());
            assert(next_gen(g0).intersect(crate::grid::pts_of(active@.take(0))) =~= Set::<(int, int)>::empty());
            assert(self.swap@ =~= Set::<(int, int)>::empty());
        }
        while i < n
            invariant
                i <= n == active@.len(),
                crate::grid::nodup_pts(active@),
                crate::grid::pts_of(active@) == active_spec(g0),
                self.grid.wf(),
                self.grid@ == g0,
                g0.finite(),
                forall|p: (int, int)| g0.contains(p) ==> coords_within(p, 2),
                self.swap.wf(),
                self.swap@ == next_gen(g0).intersect(crate::grid::pts_of(active@.take(i as int))),
                self.opts == old(self).opts,
                self.viewport == old(self).viewport,
            decreases n - i,
        {
            let cell = active[i];
            proof {
                assert(active@[i as int]@ == cell@);
                assert(crate::grid::pts_of(active@).contains(cell@));
                lemma_active_within(g0, cell@);
            }
            let alive = self.survives(&cell);
            let ghost p0 = crate::grid::pts_of(active@.take(i as int));
            let ghost p1 = crate::grid::pts_of(active@.take(i + 1));
            proof {
                crate::grid::lemma_pts_take_succ(active@, i as int);
                assert(!p0.contains(cell@));
            }
            if alive {
                self.swap.set_alive(cell);
                proof {
                    assert(next_gen(g0).contains(cell@));
                    assert(self.swap@ =~= next_gen(g0).intersect(p1));
                }
            } else {
                proof {
                    assert(!next_gen(g0).contains(cell@));
                    assert(next_gen(g0).intersect(p1) =~= next_gen(g0).intersect(p0));
                }
            }
            i += 1;
        }
        proof {
            assert(active@.take(n as int) == active@);
            assert forall|q: (int, int)| next_gen(g0).contains(q) implies self.swap@.contains(q) by {
                lemma_next_gen_active(g0, q);
            }
            assert(self.swap@ =~= next_gen(g0));
        }
        self.grid.clear();
        core::mem::swap(&mut self.grid, &mut self.swap);
    }

    /// Render the Game as a grid of cells framed by the current view mode.
    pub fn draw(&self) -> (r: String)
        requires
            frame_fit(self.opts, self.viewport, self.cells()),
        ensures
            r@ == ({
                let b = frame_bounds(self.opts, self.viewport, self.cells());
                rect_chars(self.cells(), b.0.0, b.0.1, b.1.0, b.1.1, self.opts.char_alive, self.opts.char_dead)
            }),
    {
        let b = self.viewport();
        self.draw_viewport(b)
    }

    /// Render the section of the Game within the given bounds as a grid of
    /// cells, row by row, top to bottom, each row closed by a newline.
    pub fn draw_viewport(&self, bounds: (Point, Point)) -> (r: String)
        requires
            bounds.0@.0 <= bounds.1@.0,
            bounds.0@.1 <= bounds.1@.1,
        ensures
            r@ == rect_chars(self.cells(), bounds.0@.0, bounds.0@.1, bounds.1@.0, bounds.1@.1, self.opts.char_alive, self.opts.char_dead),
    {
        let (lo, hi) = bounds;
        let x0 = lo.0;
        let y0 = lo.1;
        let x1 = hi.0;
        let y1 = hi.1;
        let mut out: Vec<char> = Vec::new();
        let ghost s = self.cells();
        let ghost ca = self.opts.char_alive;
        let ghost cd = self.opts.char_dead;
        proof {
            assert(out@ =~= rect_chars(s, x0 as int, y0 as int, x1 as int, y0 - 1, ca, cd));
        }
        let mut y = y0;
        while y < y1
            invariant
                y0 <= y <= y1,
                x0 <= x1,
                out@ == rect_chars(s, x0 as int, y0 as int, x1 as int, y - 1, ca, cd),
                s == self.cells(),
                ca == self.opts.char_alive,
                cd == self.opts.char_dead,
            decreases y1 - y,
        {
            self.push_row(&mut out, y, x0, x1);
            y += 1;
        }
        self.push_row(&mut out, y1, x0, x1);
        crate::text::string_from_chars(out)
    }

    /// Append one rendered row and its newline to `out`.
    fn push_row(&self, out: &mut Vec<char>, y: i64, x0: i64, x1: i64)
        requires
            x0 <= x1,
        ensures
            final(out)@ == old(out)@ + row_chars(self.cells(), y as int, x0 as int, x1 as int, self.opts.char_alive, self.opts.char_dead).push('\n'),
    {
        let ghost s = self.cells();
        let ghost ca = self.opts.char_alive;
        let ghost cd = self.opts.char_dead;
        let ghost base = out@;
        proof {
            assert(out@ =~= base + row_chars(s, y as int, x0 as int, x0 - 1, ca, cd));
        }
        let mut x = x0;
        while x < x1
            invariant
                x0 <= x <= x1,
                out@ == base + row_chars(s, y as int, x0 as int, x - 1, ca, cd),
                s == self.cells(),
                ca == self.opts.char_alive,
                cd == self.opts.char_dead,
                base == old(out)@,
            decreases x1 - x,
        {
            self.push_glyph(out, x, y);
            x += 1;
        }
        self.push_glyph(out, x1, y);
        out.push('\n');
        proof {
            assert(out@ =~= base + row_chars(s, y as int, x0 as int, x1 as int, ca, cd).push('\n'));
        }
    }

    /// Append the glyph for the cell at `(x, y)` to `out`.
    fn push_glyph(&self, out: &mut Vec<char>, x: i64, y: i64)
        ensures
            final(out)@ == old(out)@.push(crate::text::glyph(self.cells(), x as int, y as int, self.opts.char_alive, self.opts.char_dead)),
    {
        if self.grid.is_alive(&Point(x, y)) {
            out.push(self.opts.char_alive);
        } else {
            out.push(self.opts.char_dead);
        }
    }

    /// Shift the Game's viewport by the given x and y deltas.
    pub fn scroll(&mut self, dx: i64, dy: i64)
        requires
            i64::MIN <= old(self).viewport.scroll@.0 + dx <= i64::MAX,
            i64::MIN <= old(self).viewport.scroll@.1 + dy <= i64::MAX,
        ensures
            final(self).cells() == old(self).cells(),
            final(self).scratch() == old(self).scratch(),
            final(self).wf() == old(self).wf(),
            final(self).opts == old(self).opts,
            final(self).viewport.origin == old(self).viewport.origin,
            final(self).viewport.width == old(self).viewport.width,
            final(self).viewport.height == old(self).viewport.height,
            final(self).viewport.scroll@ == (old(self).viewport.scroll@.0 + dx, old(self).viewport.scroll@.1 + dy),
    {
        self.viewport.scroll(dx, dy);
    }

    /// Move the Game's viewport to the center of the current grid.
    pub fn center_viewport(&mut self)
        requires
            midpoint_fits(old(self).cells()),
            center_fit(old(self).viewport.origin@, old(self).viewport.width as int, old(self).viewport.height as int, spec_midpoint(old(self).cells())),
        ensures
            final(self).cells() == old(self).cells(),
            final(self).scratch() == old(self).scratch(),
            final(self).wf() == old(self).wf(),
            final(self).opts == old(self).opts,
            final(self).viewport.origin == old(self).viewport.origin,
            final(self).viewport.width == old(self).viewport.width,
            final(self).viewport.height == old(self).viewport.height,
            final(self).viewport.scroll@ == ({
                let lo = centered_bounds_spec(old(self).viewport.width as int, old(self).viewport.height as int, spec_midpoint(old(self).cells())).0;
                (lo.0 - old(self).viewport.origin@.0, lo.1 - old(self).viewport.origin@.1)
            }),
    {
        let m = self.grid.midpoint();
        self.viewport.center(m);
    }

    /// Calculate and return the lower and upper bounds of the Game's
    /// viewport under the current view mode.
    pub fn viewport(&self) -> (r: (Point, Point))
        requires
            frame_fit(self.opts, self.viewport, self.cells()),
        ensures
            (r.0@, r.1@) == frame_bounds(self.opts, self.viewport, self.cells()),
            r.0@.0 <= r.1@.0,
            r.0@.1 <= r.1@.1,
    {
        match self.opts.view {
            View::Fixed => self.viewport.bounds(),
            View::Centered => {
                let m = self.grid.midpoint();
                self.viewport.centered(m)
            },
            View::Follow => {
                proof {
                    assert(false);
                }
                (Point::origin(), Point::origin())
            },
        }
    }

    /// Return whether the Game is over: true exactly when the grid is
    /// empty.  A still life or an oscillator never ends the game; that
    /// coarseness is part of the observable behavior and kept as is.
    pub fn is_over(&self) -> (r: bool)
        ensures
            r == self.cells().is_empty(),
    {
        self.grid.is_empty()
    }

    /// Return whether the cell at the given Point lives through one
    /// application of the rules.
    pub fn survives(&self, cell: &Point) -> (r: bool)
        requires
            coords_within(cell@, 1),
        ensures
            r == survives_spec(self.cells(), cell@),
    {
        let live_neighbors = self.grid.live_neighbors(cell);
        if self.grid.is_alive(cell) {
            live_neighbors == 2 || live_neighbors == 3
        } else {
            live_neighbors == 3
        }
    }

    /// Turn the Game into an iterator over its remaining turns, yielding
    /// the rendered output of each turn.
    pub fn iter(self) -> (r: GameIter)
        ensures
            r.game == self,
            r.with_delay == false,
    {
        GameIter { game: self, with_delay: false }
    }
}

/// Yields the rendered frames of successive generations until extinction.
/// The requested inter-frame pause is recorded here; the embedding program
/// applies it between pulls, timing being no concern of this library.
pub struct GameIter {
    pub game: Game,
    pub with_delay: bool,
}

impl GameIter {
    /// Record whether the embedding program should pause between frames.
    pub fn with_delay(self, with_delay: bool) -> (r: GameIter)
        ensures
            r.game == self.game,
            r.with_delay == with_delay,
    {
        GameIter { game: self.game, with_delay }
    }

    /// Advance by one generation and render it, or yield nothing once the
    /// game is over.  The sequence is finite exactly when the simulation
    /// reaches extinction.
    pub fn next(&mut self) -> (r: Option<String>)
        requires
            old(self).game.wf(),
            !old(self).game.cells().is_empty() ==> forall|p: (int, int)| old(self).game.cells().contains(p) ==> coords_within(p, 2),
            !old(self).game.cells().is_empty() ==> frame_fit(old(self).game.opts, old(self).game.viewport, next_gen(old(self).game.cells())),
        ensures
            final(self).with_delay == old(self).with_delay,
            old(self).game.cells().is_empty() ==> r is None && *final(self) == *old(self),
            !old(self).game.cells().is_empty() ==> ({
                let s1 = next_gen(old(self).game.cells());
                let b = frame_bounds(old(self).game.opts, old(self).game.viewport, s1);
                &&& final(self).game.wf()
                &&& final(self).game.cells() == s1
                &&& final(self).game.opts == old(self).game.opts
                &&& final(self).game.viewport == old(self).game.viewport
                &&& r matches Some(t) && t@ == rect_chars(s1, b.0.0, b.0.1, b.1.0, b.1.1, old(self).game.opts.char_alive, old(self).game.opts.char_dead)
            }),
    {
        if self.game.is_over() {
            None
        } else {
            self.game.tick();
            Some(self.game.draw())
        }
    }
}

/// The rectangle of any frame that fits spans exactly the viewport's
/// width and height; with the row shape of the rendering this makes every
/// drawn frame `height` rows of `width` glyphs, each closed by a newline.
pub proof fn lemma_frame_extent(opts: Settings, vp: Viewport, s: Set<(int, int)>)
    requires
        frame_fit(opts, vp, s),
    ensures
        ({
            let b = frame_bounds(opts, vp, s);
            &&& b.1.0 - b.0.0 + 1 == vp.width
            &&& b.1.1 - b.0.1 + 1 == vp.height
        }),
{
}

/// A lone live cell sees no live neighbor, so one tick extinguishes the
/// grid; `is_over` then holds and the frame sequence yields nothing more.
pub proof fn lemma_single_cell_extinction(p: (int, int))
    ensures
        next_gen(Set::<(int, int)>::empty().insert(p)) == Set::<(int, int)>::empty(),
{
    let s = Set::<(int, int)>::empty().insert(p);
    assert(s.len() == 1);
    assert forall|q: (int, int)| !next_gen(s).contains(q) by {
        vstd::set_lib::lemma_len_intersect(s, adjacent_spec(q));
    }
    assert(next_gen(s) =~= Set::<(int, int)>::empty());
}

} // verus!
