//! The fixed terrain grid.
//!
//! The grid never moves; plates move across it. All large fields are flat
//! vectors indexed by `y * width + x`. East/west wraps, north/south are walls.

use crate::fixed::Fixed;
use crate::math::{delta_between, span, Vec2};
use crate::plate::PlateId;
use crate::scalar::{clamp_to, clamped, repeated, Scalar};
use vstd::arithmetic::div_mod::{
    lemma_add_mod_noop, lemma_fundamental_div_mod, lemma_fundamental_div_mod_converse,
    lemma_mod_add_multiples_vanish, lemma_mod_multiples_vanish, lemma_mod_sub_multiples_vanish,
    lemma_small_mod,
};
use vstd::prelude::*;

verus! {

pub const DEFAULT_WIDTH: usize = 1024;

pub const DEFAULT_HEIGHT: usize = 512;

/// Sentinel for "no plate owns this cell yet".
pub const NO_PLATE: PlateId = 65535;

/// Offsets of an 8-connected walk.
pub const OFFSETS8: [(i64, i64); 8] = [
    (1, 0),
    (1, 1),
    (0, 1),
    (-1, 1),
    (-1, 0),
    (-1, -1),
    (0, -1),
    (1, -1),
];

#[derive(Clone, Debug)]
pub struct World<S> {
    pub width: usize,
    pub height: usize,
    /// Height of the terrain; the sea level is a parameter of the simulation.
    pub elevation: Vec<S>,
    /// Hydrology fields, filled in by the hydrology and erosion stages.
    pub rainfall: Vec<S>,
    /// Standing water depth (lakes) above `elevation`.
    pub water: Vec<S>,
    /// Flow accumulation (upstream rainfall volume).
    pub flow: Vec<S>,
    /// Sediment deposited by the erosion stage.
    pub sediment: Vec<S>,
    /// Current Voronoi ownership.
    pub plate_id: Vec<PlateId>,
    /// Geological memory: time since this cell's crust was (re)created.
    pub crust_age: Vec<S>,
}

/// A grid whose cells can be numbered, and whose sides are signed integers.
pub open spec fn is_grid(w: int, h: int) -> bool {
    &&& 0 < w <= i64::MAX
    &&& 0 <= h <= i64::MAX
    &&& w * h <= usize::MAX
}

pub open spec fn cell_index(w: int, x: int, y: int) -> int {
    y * w + x
}

/// The cell a step away, wrapping in x; `None` past a wall.
pub open spec fn neighbor_of(w: int, h: int, x: int, y: int, dx: int, dy: int) -> Option<int> {
    if 0 <= y + dy < h {
        Some(cell_index(w, (x + dx) % w, y + dy))
    } else {
        None
    }
}

/// Neighbours of cell `c` by the first `k` of the eight offsets, as
/// `(index, dx, dy)`.
pub open spec fn neighbors_by(w: int, h: int, c: int, k: nat) -> Seq<(usize, i64, i64)>
    decreases k,
{
    if k == 0 {
        Seq::empty()
    } else {
        let before = neighbors_by(w, h, c, (k - 1) as nat);
        let (dx, dy) = OFFSETS8[k - 1];
        match neighbor_of(w, h, c % w, c / w, dx as int, dy as int) {
            Some(n) => before.push((n as usize, dx, dy)),
            None => before,
        }
    }
}

/// All neighbours of a cell on the cylinder.
pub open spec fn neighbors_of(w: int, h: int, c: int) -> Seq<(usize, i64, i64)> {
    neighbors_by(w, h, c, 8)
}

impl<S> World<S> {
    pub open spec fn cells(&self) -> int {
        self.width * self.height
    }

    /// Every field has one value per cell.
    pub open spec fn wf(&self) -> bool {
        &&& is_grid(self.width as int, self.height as int)
        &&& self.elevation@.len() == self.cells()
        &&& self.rainfall@.len() == self.cells()
        &&& self.water@.len() == self.cells()
        &&& self.flow@.len() == self.cells()
        &&& self.sediment@.len() == self.cells()
        &&& self.plate_id@.len() == self.cells()
        &&& self.crust_age@.len() == self.cells()
    }
}

/// A cell's row and column give the cell back.
pub proof fn lemma_cell_of_coords(w: int, c: int)
    requires
        w > 0,
    ensures
        cell_index(w, c % w, c / w) == c,
        0 <= c % w < w,
{
    lemma_fundamental_div_mod(c, w);
    assert(w * (c / w) == (c / w) * w) by (nonlinear_arith);
}

/// A row and a column are those of the cell they give.
pub proof fn lemma_coords_of_cell(w: int, x: int, y: int)
    requires
        0 <= x < w,
    ensures
        cell_index(w, x, y) % w == x,
        cell_index(w, x, y) / w == y,
{
    lemma_fundamental_div_mod_converse(cell_index(w, x, y), w, y, x);
}

/// A row and a column inside the grid give a cell inside the grid.
pub proof fn lemma_cell_in_grid(w: int, h: int, x: int, y: int)
    requires
        0 <= x < w,
        0 <= y < h,
    ensures
        0 <= cell_index(w, x, y) < w * h,
{
    assert(0 <= y * w + x < w * h) by (nonlinear_arith)
        requires
            0 <= x < w,
            0 <= y < h,
    ;
}

/// A cell inside the grid has its row inside the grid.
pub proof fn lemma_row_in_grid(w: int, h: int, c: int)
    requires
        w > 0,
        0 <= c < w * h,
    ensures
        0 <= c / w < h,
        0 <= c % w < w,
{
    lemma_fundamental_div_mod(c, w);
    assert(0 <= c / w < h) by (nonlinear_arith)
        requires
            w > 0,
            0 <= c < w * h,
            c == w * (c / w) + c % w,
            0 <= c % w < w,
    ;
}

/// Neighbours of a cell of the grid are cells of the grid, and there are at
/// most eight of them.
pub proof fn lemma_neighbors_in_grid(w: int, h: int, c: int, k: nat)
    requires
        is_grid(w, h),
        0 <= c < w * h,
        k <= 8,
    ensures
        neighbors_by(w, h, c, k).len() <= k,
        forall|i: int|
            0 <= i < neighbors_by(w, h, c, k).len() ==> 0 <= (#[trigger] neighbors_by(
                w,
                h,
                c,
                k,
            )[i]).0 < w * h,
    decreases k,
{
    if k > 0 {
        lemma_neighbors_in_grid(w, h, c, (k - 1) as nat);
        let (dx, dy) = OFFSETS8[k - 1];
        if 0 <= c / w + dy < h {
            lemma_cell_in_grid(w, h, (c % w + dx) % w, c / w + dy);
        }
    }
}

impl<S: Scalar> World<S> {
    pub fn new(width: usize, height: usize) -> (r: Self)
        requires
            width * height <= usize::MAX,
        ensures
            r.width == width,
            r.height == height,
            r.elevation@ == Seq::new((width * height) as nat, |i: int| S::of_int(0)),
            r.rainfall@ == Seq::new((width * height) as nat, |i: int| S::of_int(0)),
            r.water@ == Seq::new((width * height) as nat, |i: int| S::of_int(0)),
            r.flow@ == Seq::new((width * height) as nat, |i: int| S::of_int(0)),
            r.sediment@ == Seq::new((width * height) as nat, |i: int| S::of_int(0)),
            r.plate_id@ == Seq::new((width * height) as nat, |i: int| NO_PLATE),
            r.crust_age@ == Seq::new((width * height) as nat, |i: int| S::of_int(0)),
            is_grid(width as int, height as int) ==> r.wf(),
    {
        let n: usize = width * height;
        World {
            width,
            height,
            elevation: repeated(S::whole(0), n),
            rainfall: repeated(S::whole(0), n),
            water: repeated(S::whole(0), n),
            flow: repeated(S::whole(0), n),
            sediment: repeated(S::whole(0), n),
            plate_id: repeated(NO_PLATE, n),
            crust_age: repeated(S::whole(0), n),
        }
    }

    pub fn len(&self) -> (r: usize)
        requires
            self.width * self.height <= usize::MAX,
        ensures
            r == self.cells(),
    {
        self.width * self.height
    }

    pub fn is_empty(&self) -> (r: bool)
        requires
            self.width * self.height <= usize::MAX,
        ensures
            r == (self.cells() == 0),
    {
        self.len() == 0
    }

    pub fn idx(&self, x: usize, y: usize) -> (r: usize)
        requires
            y * self.width + x <= usize::MAX,
        ensures
            r == cell_index(self.width as int, x as int, y as int),
    {
        assert(0 <= y * self.width) by (nonlinear_arith)
            requires
                0 <= y,
                0 <= self.width,
        ;
        y * self.width + x
    }

    pub fn coords(&self, idx: usize) -> (r: (usize, usize))
        requires
            self.width > 0,
        ensures
            r.0 == idx as int % self.width as int,
            r.1 == idx as int / self.width as int,
    {
        (idx % self.width, idx / self.width)
    }

    /// East/west wrap.
    pub fn wrap_x(&self, x: i64) -> (r: usize)
        requires
            0 < self.width <= i64::MAX,
        ensures
            r == x as int % self.width as int,
            r < self.width,
    {
        x.checked_rem_euclid(self.width as i64).unwrap() as usize
    }

    /// North/south walls: a row past a wall is taken to be the row along it.
    pub fn clamp_y(&self, y: i64) -> (r: usize)
        requires
            0 < self.height <= i64::MAX,
        ensures
            r == if y < 0 {
                0
            } else if y >= self.height {
                self.height - 1
            } else {
                y as int
            },
    {
        if y < 0 {
            0
        } else if y >= self.height as i64 {
            self.height - 1
        } else {
            y as usize
        }
    }

    /// Index of a neighbour, wrapping in x and rejecting rows off the walls.
    pub fn neighbor(&self, x: usize, y: usize, dx: i64, dy: i64) -> (r: Option<usize>)
        requires
            is_grid(self.width as int, self.height as int),
            i64::MIN <= x + dx <= i64::MAX,
            i64::MIN <= y + dy <= i64::MAX,
            x <= i64::MAX,
            y <= i64::MAX,
        ensures
            match neighbor_of(
                self.width as int,
                self.height as int,
                x as int,
                y as int,
                dx as int,
                dy as int,
            ) {
                Some(n) => r == Some(n as usize) && 0 <= n < self.cells(),
                None => r is None,
            },
    {
        let ny: i64 = y as i64 + dy;
        if ny < 0 || ny >= self.height as i64 {
            return None;
        }
        let nx: usize = self.wrap_x(x as i64 + dx);
        proof {
            lemma_cell_in_grid(self.width as int, self.height as int, nx as int, ny as int);
        }
        Some(self.idx(nx, ny as usize))
    }

    /// The neighbours of a cell, wrapping in x and clipped at the walls, as
    /// `(index, dx, dy)`.
    pub fn neighbors8(&self, idx: usize) -> (r: Vec<(usize, i64, i64)>)
        requires
            is_grid(self.width as int, self.height as int),
            idx < self.cells(),
        ensures
            r@ == neighbors_of(self.width as int, self.height as int, idx as int),
            r@.len() <= 8,
            forall|i: int| 0 <= i < r@.len() ==> (#[trigger] r@[i]).0 < self.cells(),
    {
        let (x, y) = self.coords(idx);
        let mut out: Vec<(usize, i64, i64)> = Vec::new();
        let mut i: usize = 0;
        proof {
            lemma_row_in_grid(self.width as int, self.height as int, idx as int);
        }
        while i < 8
            invariant
                i <= 8,
                is_grid(self.width as int, self.height as int),
                idx < self.cells(),
                x == idx as int % self.width as int,
                y == idx as int / self.width as int,
                0 <= x < self.width,
                0 <= y < self.height,
                out@ == neighbors_by(self.width as int, self.height as int, idx as int, i as nat),
            decreases 8 - i,
        {
            let (dx, dy) = OFFSETS8[i];
            assert(-1 <= dx <= 1 && -1 <= dy <= 1);
            if let Some(n) = self.neighbor(x, y, dx, dy) {
                out.push((n, dx, dy));
            }
            i += 1;
        }
        proof {
            lemma_neighbors_in_grid(self.width as int, self.height as int, idx as int, 8);
        }
        out
    }

    /// Shortest vector from `(bx, by)` to `(ax, ay)` on the cylinder.
    pub fn delta(&self, ax: S, ay: S, bx: S, by: S) -> (r: Vec2<S>)
        requires
            self.width <= i64::MAX,
        ensures
            r == delta_between(self.width as int, ax, ay, bx, by),
    {
        span(self.width, ax, ay, bx, by)
    }

    /// Squared distance between two points on the cylinder.
    pub fn dist2(&self, ax: S, ay: S, bx: S, by: S) -> (r: S)
        requires
            self.width <= i64::MAX,
        ensures
            r == delta_between(self.width as int, ax, ay, bx, by).squared(),
    {
        self.delta(ax, ay, bx, by).length_squared()
    }

    /// Clamp a position to the world: wrap x, keep y inside the walls.
    pub fn contain(&self, p: Vec2<S>) -> (r: Vec2<S>)
        requires
            self.width <= i64::MAX,
            self.height <= i64::MAX,
        ensures
            r == contained(self.width as int, self.height as int, p),
            self.width > 0 && p.x.finite() ==> S::of_int(0).le(r.x) && r.x.le(
                S::of_int(self.width as int),
            ),
    {
        let w = S::whole(self.width as i64);
        let h = S::whole(self.height as i64).minus(S::whole(1));
        Vec2 { x: p.x.wrapped(w), y: clamp_to(p.y, S::whole(0), h) }
    }

    /// Latitude of a row in degrees: +90 at the north wall, -90 at the south.
    pub fn latitude(&self, y: usize) -> (r: S)
        requires
            y <= i64::MAX,
            self.height <= i64::MAX,
        ensures
            r == latitude_of::<S>(self.height as int, y as int),
    {
        let rows: i64 = if self.height > 1 {
            self.height as i64 - 1
        } else {
            1
        };
        S::whole(90).minus(S::whole(180).times(S::whole(y as i64).over(S::whole(rows))))
    }
}

/// A position with x wrapped and y clamped to the rows of the world.
pub open spec fn contained<S: Scalar>(w: int, h: int, p: Vec2<S>) -> Vec2<S> {
    Vec2 {
        x: p.x.rem(S::of_int(w)),
        y: clamped(p.y, S::of_int(0), S::of_int(h).sub(S::of_int(1))),
    }
}

pub open spec fn latitude_of<S: Scalar>(h: int, y: int) -> S {
    let rows = if h > 1 {
        h - 1
    } else {
        1
    };
    S::of_int(90).sub(S::of_int(180).mul(S::of_int(y).div(S::of_int(rows))))
}

/// Numbering the cells loses nothing: the coordinates of a cell's index are
/// the coordinates it was made from, and the other way round.
pub proof fn indexing_round_trips(w: int, h: int, x: int, y: int, c: int)
    requires
        0 <= x < w,
        0 <= y < h,
        0 <= c < w * h,
    ensures
        cell_index(w, x, y) % w == x,
        cell_index(w, x, y) / w == y,
        cell_index(w, c % w, c / w) == c,
{
    lemma_coords_of_cell(w, x, y);
    lemma_cell_of_coords(w, c);
}

/// Walking once around the world leads back to the start.
pub proof fn east_west_wraps(w: int, h: int, x: int, y: int, turns: int, dx: int, dy: int)
    requires
        w > 0,
    ensures
        neighbor_of(w, h, x, y, dx + turns * w, dy) == neighbor_of(w, h, x, y, dx, dy),
{
    lemma_mod_multiples_vanish(turns, x + dx, w);
    assert(w * turns + (x + dx) == x + (dx + turns * w)) by (nonlinear_arith);
}

/// Every step on the grid can be taken back.
pub proof fn steps_are_reversible(w: int, h: int, x: int, y: int, dx: int, dy: int)
    requires
        0 <= x < w,
        0 <= y < h,
        0 <= y + dy < h,
    ensures
        ({
            let n = neighbor_of(w, h, x, y, dx, dy)->0;
            neighbor_of(w, h, n % w, n / w, -dx, -dy) == Some(cell_index(w, x, y))
        }),
{
    let nx = (x + dx) % w;
    lemma_coords_of_cell(w, nx, y + dy);
    lemma_add_mod_noop(x + dx, -dx, w);
    lemma_add_mod_noop(nx, -dx, w);
    lemma_small_mod(nx as nat, w as nat);
    lemma_small_mod(x as nat, w as nat);
}

/// A neighbour by one of the first `k` offsets is among the neighbours.
pub proof fn lemma_neighbor_is_listed(w: int, h: int, c: int, d: int, k: nat)
    requires
        0 <= d < k <= 8,
        is_grid(w, h),
        neighbor_of(w, h, c % w, c / w, OFFSETS8[d].0 as int, OFFSETS8[d].1 as int) is Some,
    ensures
        exists|j: int|
            0 <= j < neighbors_by(w, h, c, k).len() && #[trigger] neighbors_by(w, h, c, k)[j] == (
                neighbor_of(
                    w,
                    h,
                    c % w,
                    c / w,
                    OFFSETS8[d].0 as int,
                    OFFSETS8[d].1 as int,
                )->0 as usize,
                OFFSETS8[d].0,
                OFFSETS8[d].1,
            ),
    decreases k,
{
    let now = neighbors_by(w, h, c, k);
    let earlier = neighbors_by(w, h, c, (k - 1) as nat);
    if d < k - 1 {
        lemma_neighbor_is_listed(w, h, c, d, (k - 1) as nat);
        let j = choose|j: int|
            0 <= j < earlier.len() && #[trigger] earlier[j] == (
                neighbor_of(
                    w,
                    h,
                    c % w,
                    c / w,
                    OFFSETS8[d].0 as int,
                    OFFSETS8[d].1 as int,
                )->0 as usize,
                OFFSETS8[d].0,
                OFFSETS8[d].1,
            );
        assert(now[j] == earlier[j]);
    } else {
        assert(now[earlier.len() as int] == now.last());
    }
}

/// A listed neighbour lies one of the eight steps away.
pub proof fn lemma_listed_neighbor(w: int, h: int, c: int, k: nat, j: int) -> (q: int)
    requires
        is_grid(w, h),
        0 <= c < w * h,
        k <= 8,
        0 <= j < neighbors_by(w, h, c, k).len(),
    ensures
        0 <= q < k,
        ({
            let (n, dx, dy) = neighbors_by(w, h, c, k)[j];
            &&& OFFSETS8[q] == (dx, dy)
            &&& neighbor_of(w, h, c % w, c / w, dx as int, dy as int) == Some(n as int)
        }),
    decreases k,
{
    let before = neighbors_by(w, h, c, (k - 1) as nat);
    if j < before.len() {
        lemma_listed_neighbor(w, h, c, (k - 1) as nat, j)
    } else {
        lemma_row_in_grid(w, h, c);
        let (dx, dy) = OFFSETS8[k - 1];
        lemma_cell_in_grid(w, h, (c % w + dx) % w, c / w + dy);
        k - 1
    }
}

/// Neighbours are neighbours of each other, and as far apart both ways.
pub proof fn neighbors_are_mutual(w: int, h: int, c: int, j: int)
    requires
        is_grid(w, h),
        0 <= c < w * h,
        0 <= j < neighbors_of(w, h, c).len(),
    ensures
        ({
            let (n, dx, dy) = neighbors_of(w, h, c)[j];
            exists|i: int|
                0 <= i < neighbors_of(w, h, n as int).len() && #[trigger] neighbors_of(
                    w,
                    h,
                    n as int,
                )[i] == (c as usize, (-dx) as i64, (-dy) as i64)
        }),
{
    let (n, dx, dy) = neighbors_of(w, h, c)[j];
    let q = lemma_listed_neighbor(w, h, c, 8, j);
    lemma_row_in_grid(w, h, c);
    lemma_cell_of_coords(w, c);
    steps_are_reversible(w, h, c % w, c / w, dx as int, dy as int);
    let back: int = if q < 4 {
        q + 4
    } else {
        q - 4
    };
    assert(OFFSETS8[back].0 == -dx && OFFSETS8[back].1 == -dy);
    lemma_neighbor_is_listed(w, h, n as int, back, 8);
    let ns = neighbors_by(w, h, n as int, 8);
    let i = choose|i: int|
        0 <= i < ns.len() && #[trigger] ns[i] == (c as usize, OFFSETS8[back].0, OFFSETS8[back].1);
    assert(neighbors_of(w, h, n as int)[i] == (c as usize, (-dx) as i64, (-dy) as i64));
}

/// A cell lies one step away: at most one row up or down and at most one column
/// to either side, the short way around.
pub open spec fn one_step_away(w: int, h: int, c: int, d: int) -> bool {
    &&& 0 <= d < w * h
    &&& d != c
    &&& -1 <= d / w - c / w <= 1
    &&& exists|dx: int| -1 <= dx <= 1 && d % w == #[trigger] ((c % w + dx) % w)
}

/// Steps that differ lead to different columns, where there are three of them.
proof fn lemma_columns_differ(w: int, x: int, a: int, b: int)
    requires
        w >= 3,
        0 <= x < w,
        -1 <= a <= 1,
        -1 <= b <= 1,
        (x + a) % w == (x + b) % w,
    ensures
        a == b,
{
    let p = if x + a < 0 {
        x + a + w
    } else if x + a >= w {
        x + a - w
    } else {
        x + a
    };
    let q = if x + b < 0 {
        x + b + w
    } else if x + b >= w {
        x + b - w
    } else {
        x + b
    };
    lemma_small_mod(p as nat, w as nat);
    lemma_small_mod(q as nat, w as nat);
    lemma_mod_add_multiples_vanish(x + a, w);
    lemma_mod_sub_multiples_vanish(x + a, w);
    lemma_mod_add_multiples_vanish(x + b, w);
    lemma_mod_sub_multiples_vanish(x + b, w);
}

/// A step of at most one row and one column is one of the eight offsets, or
/// none at all.
proof fn lemma_offset_of(dx: int, dy: int) -> (q: int)
    requires
        -1 <= dx <= 1,
        -1 <= dy <= 1,
        dx != 0 || dy != 0,
    ensures
        0 <= q < 8,
        OFFSETS8[q].0 == dx && OFFSETS8[q].1 == dy,
{
    if dy == 0 {
        if dx == 1 {
            0
        } else {
            4
        }
    } else if dy == 1 {
        if dx == 1 {
            1
        } else if dx == 0 {
            2
        } else {
            3
        }
    } else {
        if dx == -1 {
            5
        } else if dx == 0 {
            6
        } else {
            7
        }
    }
}

/// No offset leads to where another one leads.
proof fn lemma_neighbors_distinct(w: int, h: int, c: int, k: nat)
    requires
        is_grid(w, h),
        w >= 3,
        0 <= c < w * h,
        k <= 8,
    ensures
        forall|i: int, j: int|
            #![trigger neighbors_by(w, h, c, k)[i], neighbors_by(w, h, c, k)[j]]
            0 <= i < j < neighbors_by(w, h, c, k).len() ==> neighbors_by(w, h, c, k)[i].0
                != neighbors_by(w, h, c, k)[j].0,
    decreases k,
{
    if k > 0 {
        lemma_neighbors_distinct(w, h, c, (k - 1) as nat);
        lemma_row_in_grid(w, h, c);
        let before = neighbors_by(w, h, c, (k - 1) as nat);
        let now = neighbors_by(w, h, c, k);
        assert forall|i: int, j: int|
            #![trigger now[i], now[j]]
            0 <= i < j < now.len() implies now[i].0 != now[j].0 by {
            assert(now[i] == before[i]);
            if j < before.len() {
                assert(now[j] == before[j]);
            } else {
                let q = lemma_listed_neighbor(w, h, c, (k - 1) as nat, i);
                let p = lemma_listed_neighbor(w, h, c, k, j);
                let (n, dx, dy) = now[i];
                let (m, ex, ey) = now[j];
                assert(OFFSETS8[k - 1] == (ex, ey));
                if n == m {
                    lemma_coords_of_cell(w, (c % w + dx) % w, c / w + dy);
                    lemma_coords_of_cell(w, (c % w + ex) % w, c / w + ey);
                    lemma_columns_differ(w, c % w, dx as int, ex as int);
                    assert(dx == ex && dy == ey);
                    assert(OFFSETS8[q] == OFFSETS8[k - 1]);
                }
            }
        }
    }
}

/// The neighbours of a cell are the cells one step away, each of them once, and
/// each with the step that leads there; being neighbours is mutual.
pub proof fn neighbors_are_the_cells_one_step_away(w: int, h: int, c: int, d: int)
    requires
        is_grid(w, h),
        w >= 3,
        0 <= c < w * h,
    ensures
        forall|i: int, j: int|
            #![trigger neighbors_of(w, h, c)[i], neighbors_of(w, h, c)[j]]
            0 <= i < j < neighbors_of(w, h, c).len() ==> neighbors_of(w, h, c)[i].0
                != neighbors_of(w, h, c)[j].0,
        forall|i: int|
            0 <= i < neighbors_of(w, h, c).len() ==> ({
                let (n, dx, dy) = #[trigger] neighbors_of(w, h, c)[i];
                &&& n != c
                &&& neighbor_of(w, h, c % w, c / w, dx as int, dy as int) == Some(n as int)
            }),
        one_step_away(w, h, c, d) <==> exists|i: int|
            0 <= i < neighbors_of(w, h, c).len() && (#[trigger] neighbors_of(w, h, c)[i]).0 == d,
        0 <= d < w * h ==> (one_step_away(w, h, c, d) <==> one_step_away(w, h, d, c)),
{
    lemma_steps_listed(w, h, c, d);
    if 0 <= d < w * h {
        lemma_steps_listed(w, h, d, c);
        if one_step_away(w, h, c, d) {
            let around = neighbors_of(w, h, c);
            let i = choose|i: int| 0 <= i < around.len() && (#[trigger] around[i]).0 == d;
            neighbors_are_mutual(w, h, c, i);
        }
        if one_step_away(w, h, d, c) {
            let around = neighbors_of(w, h, d);
            let i = choose|i: int| 0 <= i < around.len() && (#[trigger] around[i]).0 == c;
            neighbors_are_mutual(w, h, d, i);
        }
    }
    lemma_neighbors_distinct(w, h, c, 8);
}

proof fn lemma_steps_listed(w: int, h: int, c: int, d: int)
    requires
        is_grid(w, h),
        w >= 3,
        0 <= c < w * h,
    ensures
        forall|i: int|
            0 <= i < neighbors_of(w, h, c).len() ==> ({
                let (n, dx, dy) = #[trigger] neighbors_of(w, h, c)[i];
                &&& n != c
                &&& neighbor_of(w, h, c % w, c / w, dx as int, dy as int) == Some(n as int)
            }),
        one_step_away(w, h, c, d) <==> exists|i: int|
            0 <= i < neighbors_of(w, h, c).len() && (#[trigger] neighbors_of(w, h, c)[i]).0 == d,
{
    lemma_row_in_grid(w, h, c);
    lemma_cell_of_coords(w, c);
    let ns = neighbors_of(w, h, c);
    assert(ns == neighbors_by(w, h, c, 8));
    assert forall|i: int| 0 <= i < ns.len() implies ({
        let (n, dx, dy) = #[trigger] ns[i];
        &&& n != c
        &&& neighbor_of(w, h, c % w, c / w, dx as int, dy as int) == Some(n as int)
        &&& one_step_away(w, h, c, n as int)
    }) by {
        let q = lemma_listed_neighbor(w, h, c, 8, i);
        let (n, dx, dy) = ns[i];
        lemma_coords_of_cell(w, (c % w + dx) % w, c / w + dy);
        lemma_cell_in_grid(w, h, (c % w + dx) % w, c / w + dy);
        assert(n as int % w == (c % w + dx as int) % w);
        if n == c {
            lemma_small_mod((c % w) as nat, w as nat);
            lemma_columns_differ(w, c % w, dx as int, 0);
            assert(dx == 0 && dy == 0);
        }
    }
    if one_step_away(w, h, c, d) {
        let dx = choose|dx: int| -1 <= dx <= 1 && d % w == #[trigger] ((c % w + dx) % w);
        let dy = d / w - c / w;
        lemma_row_in_grid(w, h, d);
        lemma_cell_of_coords(w, d);
        if dx == 0 && dy == 0 {
            lemma_small_mod((c % w) as nat, w as nat);
        }
        let q = lemma_offset_of(dx, dy);
        lemma_neighbor_is_listed(w, h, c, q, 8);
        let i = choose|i: int|
            0 <= i < ns.len() && #[trigger] ns[i] == (
                neighbor_of(w, h, c % w, c / w, dx, dy)->0 as usize,
                OFFSETS8[q].0,
                OFFSETS8[q].1,
            );
        assert(ns[i].0 == d);
    }
}

/// A cell away from both walls has all eight neighbours; one on a wall of a
/// world with more than one row has five.
pub proof fn neighbor_counts(w: int, h: int, c: int)
    requires
        is_grid(w, h),
        0 <= c < w * h,
    ensures
        0 < c / w < h - 1 ==> neighbors_of(w, h, c).len() == 8,
        h > 1 && (c / w == 0 || c / w == h - 1) ==> neighbors_of(w, h, c).len() == 5,
{
    lemma_row_in_grid(w, h, c);
    reveal_with_fuel(neighbors_by, 9);
}

/// Whatever point is contained lies inside the world, and a point inside is
/// left where it is.
pub proof fn contained_points_lie_inside(w: int, h: int, p: Vec2<Fixed>)
    requires
        0 < w <= 0x7FFF_FFFF_FFFF,
        0 < h <= 0x7FFF_FFFF_FFFF,
    ensures
        ({
            let q = contained(w, h, p);
            let south = Fixed::of_int(h).sub(Fixed::of_int(1));
            &&& Fixed::of_int(0).le(q.x) && q.x.lt(Fixed::of_int(w))
            &&& Fixed::of_int(0).le(q.y) && q.y.le(south)
            &&& contained(w, h, q) == q
            &&& (q.x.raw - p.x.raw) % (Fixed::of_int(w).raw as int) == 0
            &&& Fixed::of_int(0).le(p.y) && p.y.le(south) ==> q.y == p.y
        }),
{
    let n = w * 65536;
    let x = p.x.raw as int;
    assert(Fixed::of_int(w).raw == n);
    let q = contained(w, h, p);
    lemma_fundamental_div_mod(x, n);
    assert(0 <= x % n < n);
    assert(q.x.raw == x % n);
    lemma_small_mod((x % n) as nat, n as nat);
    let turns = -(x / n);
    assert(q.x.raw - x == turns * n) by (nonlinear_arith)
        requires
            q.x.raw == x % n,
            x == n * (x / n) + x % n,
            turns == -(x / n),
    ;
    vstd::arithmetic::div_mod::lemma_mod_multiples_basic(turns, n);
}

/// Latitude runs from pole to pole: 90 degrees at the north wall, -90 at the
/// south, and never up on the way.
pub proof fn latitude_falls_from_pole_to_pole(h: int, y: int, further: int)
    requires
        1 < h <= 0x7FFF_FFFF,
        0 <= y <= further < h,
    ensures
        latitude_of::<Fixed>(h, 0) == Fixed::of_int(90),
        latitude_of::<Fixed>(h, h - 1) == Fixed::of_int(-90),
        latitude_of::<Fixed>(h, further).le(latitude_of::<Fixed>(h, y)),
{
    let rows = (h - 1) * 65536;
    let a = (y * 65536 * 65536) / rows;
    let b = (further * 65536 * 65536) / rows;
    assert(Fixed::of_int(h - 1).raw == rows);
    assert(0 <= a <= b <= 65536) by (nonlinear_arith)
        requires
            rows > 0,
            a == (y * 65536 * 65536) / rows,
            b == (further * 65536 * 65536) / rows,
            0 <= y <= further,
            further * 65536 <= rows,
    ;
    assert(Fixed::of_int(y).div(Fixed::of_int(h - 1)).raw == a);
    assert(Fixed::of_int(further).div(Fixed::of_int(h - 1)).raw == b);
    assert(Fixed::of_int(180).raw == 180 * 65536 && Fixed::of_int(90).raw == 90 * 65536);
    assert((180 * 65536 * a) / 65536 == 180 * a && (180 * 65536 * b) / 65536 == 180 * b);
    assert(Fixed::of_int(0).div(Fixed::of_int(h - 1)).raw == 0) by {
        assert(0int / rows == 0) by (nonlinear_arith)
            requires
                rows > 0,
        ;
    }
    assert(Fixed::of_int(h - 1).div(Fixed::of_int(h - 1)).raw == 65536) by {
        assert((rows * 65536) / rows == 65536) by (nonlinear_arith)
            requires
                rows > 0,
        ;
    }
}

/// Distance on the cylinder is the same both ways.
pub proof fn distances_are_mutual(w: int, ax: Fixed, ay: Fixed, bx: Fixed, by: Fixed)
    requires
        0 < w <= 0x3FFF_FFFF_FFFF,
        -i64::MAX <= ax.raw - bx.raw <= i64::MAX,
        -i64::MAX <= ay.raw - by.raw <= i64::MAX,
    ensures
        delta_between(w, ax, ay, bx, by).squared() == delta_between(w, bx, by, ax, ay).squared(),
{
    let n = w * 65536;
    let period = Fixed::of_int(w);
    assert(period.raw == n);
    let x = ax.raw - bx.raw;
    assert(0 <= x % n < n && 0 <= (-x) % n < n);
    assert((-x) % n == if x % n == 0 {
        0
    } else {
        n - x % n
    }) by {
        lemma_fundamental_div_mod(x, n);
        let q = x / n;
        let r = x % n;
        if r == 0 {
            assert(-x == n * (-q) + 0) by (nonlinear_arith)
                requires
                    x == n * q + r,
                    r == 0,
            ;
            lemma_fundamental_div_mod_converse(-x, n, -q, 0);
        } else {
            assert(-x == n * (-q - 1) + (n - r)) by (nonlinear_arith)
                requires
                    x == n * q + r,
            ;
            lemma_fundamental_div_mod_converse(-x, n, -q - 1, n - r);
        }
    }
    assert(period.mul(Fixed::ratio(1, 2)).raw == n / 2) by {
        assert(Fixed::ratio(1, 2).raw == 32768);
        assert((n * 32768) / 65536 == n / 2);
    }
    let forth = delta_between(w, ax, ay, bx, by);
    let back = delta_between(w, bx, by, ax, ay);
    assert(forth.x.raw == back.x.raw || forth.x.raw == -back.x.raw);
    assert(forth.y.raw == -back.y.raw);
    assert(forth.x.raw * forth.x.raw == back.x.raw * back.x.raw) by (nonlinear_arith)
        requires
            forth.x.raw == back.x.raw || forth.x.raw == -back.x.raw,
    ;
    assert(forth.y.raw * forth.y.raw == back.y.raw * back.y.raw) by (nonlinear_arith)
        requires
            forth.y.raw == -back.y.raw,
    ;
}

} // verus!
