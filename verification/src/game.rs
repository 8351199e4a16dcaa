//! A drawing grid driven by queries, and the frames a terminal shows of it.
use vstd::prelude::*;

verus! {

/// Rust's integer division, which truncates towards zero (for `b > 0`).
pub open spec fn trunc_div(a: int, b: int) -> int {
    if a >= 0 {
        a / b
    } else {
        -((-a) / b)
    }
}

/// `x` fits in an `i32`.
pub open spec fn fits_i32(x: int) -> bool {
    i32::MIN <= x <= i32::MAX
}

/// A point (row, column) of the plane.
#[derive(Clone, Copy, Debug, PartialEq, Eq, Structural)]
pub struct Coord2D(pub i32, pub i32);

impl Default for Coord2D {
    fn default() -> (r: Self)
        ensures
            r == Coord2D(0, 0),
    {
        Coord2D(0, 0)
    }
}

/// Largest `r` with `r * r <= v`.
fn isqrt(v: u32) -> (r: u32)
    requires
        v <= i32::MAX,
    ensures
        r * r <= v,
        v < (r + 1) * (r + 1),
{
    let mut lo: u64 = 0;
    let mut hi: u64 = 46341;
    assert(46341 * 46341 > i32::MAX) by (nonlinear_arith);
    while hi - lo > 1
        invariant
            lo < hi <= 46341,
            lo * lo <= v,
            v < hi * hi,
        decreases hi - lo,
    {
        let mid = lo + (hi - lo) / 2;
        assert(mid * mid <= 46341 * 46341) by (nonlinear_arith)
            requires
                mid < 46341,
        ;
        if mid * mid <= v as u64 {
            lo = mid;
        } else {
            hi = mid;
        }
    }
    assert(hi == lo + 1);
    lo as u32
}

impl Coord2D {
    /// Euclidean length of the vector, rounded down.
    pub fn pythagorean_len(&self) -> (r: u32)
        requires
            self.0 * self.0 + self.1 * self.1 <= i32::MAX,
        ensures
            r * r <= self.0 * self.0 + self.1 * self.1 < (r + 1) * (r + 1),
    {
        let x = self.0;
        let y = self.1;
        assert(-46341 < x < 46341 && -46341 < y < 46341) by (nonlinear_arith)
            requires
                x * x + y * y <= i32::MAX,
        ;
        let ax = if x < 0 { -x } else { x };
        let ay = if y < 0 { -y } else { y };
        assert(ax * ax == x * x && ay * ay == y * y) by (nonlinear_arith)
            requires
                ax == x || ax == -x,
                ay == y || ay == -y,
        ;
        let s = ax * ax + ay * ay;
        isqrt(s as u32)
    }

    /// The larger of the two coordinates, as an unsigned number.
    pub fn len(&self) -> (r: u32)
        ensures
            r == (if self.0 >= self.1 { self.0 } else { self.1 }) as u32,
    {
        let m = if self.0 >= self.1 { self.0 } else { self.1 };
        m as u32
    }

    /// Componentwise sum.
    pub fn add(self, other: Coord2D) -> (r: Coord2D)
        requires
            fits_i32(self.0 + other.0),
            fits_i32(self.1 + other.1),
        ensures
            r.0 == self.0 + other.0,
            r.1 == self.1 + other.1,
    {
        Coord2D(self.0 + other.0, self.1 + other.1)
    }

    /// Componentwise difference.
    pub fn sub(self, other: Coord2D) -> (r: Coord2D)
        requires
            fits_i32(self.0 - other.0),
            fits_i32(self.1 - other.1),
        ensures
            r.0 == self.0 - other.0,
            r.1 == self.1 - other.1,
    {
        Coord2D(self.0 - other.0, self.1 - other.1)
    }

    /// Product with a scalar.
    pub fn mul(self, scalar: i32) -> (r: Coord2D)
        requires
            fits_i32(self.0 * scalar),
            fits_i32(self.1 * scalar),
        ensures
            r.0 == self.0 * scalar,
            r.1 == self.1 * scalar,
    {
        Coord2D(self.0 * scalar, self.1 * scalar)
    }

    /// Quotient by a positive scalar, each coordinate truncated towards zero.
    pub fn div(self, scalar: i32) -> (r: Coord2D)
        requires
            scalar > 0,
        ensures
            r.0 == trunc_div(self.0 as int, scalar as int),
            r.1 == trunc_div(self.1 as int, scalar as int),
    {
        Coord2D(self.0 / scalar, self.1 / scalar)
    }
}

/// A drawing request.
pub enum Query {
    /// Paint the cells of the segment from `start` (included) towards `end`.
    DrawLine { start: Coord2D, end: Coord2D },
    /// Select the material the cursor paints with.
    Material(u32),
}

/// The painting cursor: where it stands and what it paints.
pub struct Cursor {
    pos: Coord2D,
    material: u32,
}

impl Default for Cursor {
    fn default() -> (r: Self)
        ensures
            r.pos_view() == Coord2D(0, 0),
            r.material_view() == 0,
    {
        Cursor { pos: Coord2D(0, 0), material: 0 }
    }
}

impl Cursor {
    pub closed spec fn pos_view(&self) -> Coord2D {
        self.pos
    }

    pub closed spec fn material_view(&self) -> u32 {
        self.material
    }
}

/// One character to print at column `x`, row `y` of the terminal.
#[derive(Clone, Copy, Debug, PartialEq, Eq, Structural)]
pub struct Paint {
    pub x: u16,
    pub y: u16,
    pub ch: char,
}

/// The number of steps of a line from `start` to `end`: the larger
/// coordinate of `end - start`.
pub open spec fn line_len(start: Coord2D, end: Coord2D) -> int {
    let vx = end.0 - start.0;
    let vy = end.1 - start.1;
    if vx >= vy {
        vx
    } else {
        vy
    }
}

/// The `k`-th point of the line from `start` to `end`:
/// `start + (end - start) * k / line_len`, each coordinate truncated.
pub open spec fn line_point(start: Coord2D, end: Coord2D, k: int) -> (int, int) {
    let l = line_len(start, end);
    (
        start.0 + trunc_div((end.0 - start.0) * k, l),
        start.1 + trunc_div((end.1 - start.1) * k, l),
    )
}

/// `(i, j)` is a cell of `grid`.
pub open spec fn in_grid(grid: Seq<Seq<u32>>, p: (int, int)) -> bool {
    0 <= p.0 < grid.len() && 0 <= p.1 < grid[p.0].len()
}

/// The line from `start` to `end` can be drawn on `grid` without overflow and
/// without leaving the grid.
pub open spec fn line_fits(grid: Seq<Seq<u32>>, start: Coord2D, end: Coord2D) -> bool {
    &&& fits_i32(end.0 - start.0)
    &&& fits_i32(end.1 - start.1)
    &&& forall|k: int|
        0 <= k < line_len(start, end) ==> {
            &&& fits_i32((end.0 - start.0) * k)
            &&& fits_i32((end.1 - start.1) * k)
            &&& #[trigger] in_grid(grid, line_point(start, end, k))
        }
}

/// `grid` with cell `p` set to `v`.
pub open spec fn set_cell(grid: Seq<Seq<u32>>, p: (int, int), v: u32) -> Seq<Seq<u32>> {
    grid.update(p.0, grid[p.0].update(p.1, v))
}

/// `grid` after painting the first `k` points of the line with `mat`.
pub open spec fn paint_line(grid: Seq<Seq<u32>>, start: Coord2D, end: Coord2D, mat: u32, k: int) -> Seq<
    Seq<u32>,
>
    decreases k,
{
    if k <= 0 {
        grid
    } else {
        set_cell(paint_line(grid, start, end, mat, k - 1), line_point(start, end, k - 1), mat)
    }
}

/// The character that shows a cell: blank for material 0, `o` otherwise.
pub open spec fn cell_char(cell: u32) -> char {
    if cell == 0 {
        ' '
    } else {
        'o'
    }
}

/// The paints of the first `k` cells of row `y` that differ from the
/// previous frame, from left to right.
pub open spec fn row_paints(y: int, row: Seq<u32>, prev: Seq<u32>, k: int) -> Seq<Paint>
    decreases k,
{
    if k <= 0 {
        seq![]
    } else {
        let x = k - 1;
        row_paints(y, row, prev, k - 1) + if prev[x] != row[x] {
            seq![Paint { x: x as u16, y: y as u16, ch: cell_char(row[x]) }]
        } else {
            seq![]
        }
    }
}

/// The paints of the first `k` rows of `grid`, row after row.
pub open spec fn frame_paints(grid: Seq<Seq<u32>>, prev: Seq<Seq<u32>>, k: int) -> Seq<Paint>
    decreases k,
{
    if k <= 0 {
        seq![]
    } else {
        frame_paints(grid, prev, k - 1) + row_paints(
            k - 1,
            grid[k - 1],
            prev[k - 1],
            grid[k - 1].len() as int,
        )
    }
}

/// A grid of materials, the frame last compared against, and a cursor.
pub struct Graphic2D {
    grid: Vec<Vec<u32>>,
    prev_grid: Vec<Vec<u32>>,
    curs: Cursor,
}

impl Graphic2D {
    /// The cells, row by row.
    pub closed spec fn cells(&self) -> Seq<Seq<u32>> {
        self.grid@.map_values(|row: Vec<u32>| row@)
    }

    /// The frame the cells are compared against when rendering.
    pub closed spec fn prev_cells(&self) -> Seq<Seq<u32>> {
        self.prev_grid@.map_values(|row: Vec<u32>| row@)
    }

    pub closed spec fn cursor_pos(&self) -> Coord2D {
        self.curs.pos
    }

    pub closed spec fn cursor_material(&self) -> u32 {
        self.curs.material
    }

    /// The previous frame has the shape of the grid.
    pub open spec fn wf(&self) -> bool {
        &&& self.prev_cells().len() == self.cells().len()
        &&& forall|i: int|
            0 <= i < self.cells().len() ==> #[trigger] self.prev_cells()[i].len()
                == self.cells()[i].len()
    }

    /// A blank `m` by `n` grid; every cell differs from the previous frame.
    pub fn new(m: usize, n: usize) -> (r: Self)
        ensures
            r.wf(),
            r.cells() == Seq::new(m as nat, |i: int| Seq::new(n as nat, |j: int| 0u32)),
            r.prev_cells() == Seq::new(m as nat, |i: int| Seq::new(n as nat, |j: int| u32::MAX)),
            r.cursor_pos() == Coord2D(0, 0),
            r.cursor_material() == 0,
    {
        let mut grid: Vec<Vec<u32>> = Vec::new();
        let mut prev_grid: Vec<Vec<u32>> = Vec::new();
        let mut i: usize = 0;
        while i < m
            invariant
                i <= m,
                grid.len() == i,
                prev_grid.len() == i,
                forall|k: int| 0 <= k < i ==> #[trigger] grid@[k]@ == Seq::new(n as nat, |j: int| 0u32),
                forall|k: int|
                    0 <= k < i ==> #[trigger] prev_grid@[k]@ == Seq::new(n as nat, |j: int| u32::MAX),
            decreases m - i,
        {
            let row = vec![0u32; n];
            let prev_row = vec![u32::MAX; n];
            assert(row@ =~= Seq::new(n as nat, |j: int| 0u32));
            assert(prev_row@ =~= Seq::new(n as nat, |j: int| u32::MAX));
            grid.push(row);
            prev_grid.push(prev_row);
            i = i + 1;
        }
        assert(grid@.map_values(|row: Vec<u32>| row@) =~= Seq::new(
            m as nat,
            |i: int| Seq::new(n as nat, |j: int| 0u32),
        ));
        assert(prev_grid@.map_values(|row: Vec<u32>| row@) =~= Seq::new(
            m as nat,
            |i: int| Seq::new(n as nat, |j: int| u32::MAX),
        ));
        let r = Graphic2D { grid, prev_grid, curs: Cursor::default() };
        r
    }

    /// Paint the cell under the cursor with the cursor's material.
    pub fn cursor_paint(&mut self)
        requires
            in_grid(old(self).cells(), (old(self).cursor_pos().0 as int, old(self).cursor_pos().1 as int)),
        ensures
            final(self).cells() == set_cell(
                old(self).cells(),
                (old(self).cursor_pos().0 as int, old(self).cursor_pos().1 as int),
                old(self).cursor_material(),
            ),
            final(self).prev_cells() == old(self).prev_cells(),
            final(self).cursor_pos() == old(self).cursor_pos(),
            final(self).cursor_material() == old(self).cursor_material(),
    {
        let Coord2D(i, j) = self.curs.pos;
        let mat = self.curs.material;
        let iu = i as usize;
        let ju = j as usize;
        self.grid[iu][ju] = mat;
        proof {
            assert(self.cells() =~= set_cell(
                old(self).cells(),
                (i as int, j as int),
                mat,
            ));
        }
    }
}


/// Truncated division of `v * k` by `l` stays between `0` and `v` when
/// `0 <= k < l`.
proof fn lemma_step_between(v: int, k: int, l: int)
    requires
        0 <= k < l,
    ensures
        v >= 0 ==> 0 <= trunc_div(v * k, l) <= v,
        v < 0 ==> v <= trunc_div(v * k, l) <= 0,
{
    if v >= 0 {
        assert(0 <= v * k <= v * l) by (nonlinear_arith)
            requires
                v >= 0,
                0 <= k < l,
        ;
        assert((v * k) / l <= v) by (nonlinear_arith)
            requires
                0 <= v * k <= v * l,
                l > 0,
        ;
        assert(0 <= (v * k) / l) by (nonlinear_arith)
            requires
                0 <= v * k,
                l > 0,
        ;
    } else {
        let w = -v;
        assert(v * k == -(w * k)) by (nonlinear_arith)
            requires
                w == -v,
        ;
        assert(0 <= w * k <= w * l) by (nonlinear_arith)
            requires
                w > 0,
                0 <= k < l,
        ;
        assert((w * k) / l <= w) by (nonlinear_arith)
            requires
                0 <= w * k <= w * l,
                l > 0,
        ;
        assert(0 <= (w * k) / l) by (nonlinear_arith)
            requires
                0 <= w * k,
                l > 0,
        ;
        if v * k >= 0 {
            assert(w * k == 0);
            assert(v * k == 0);
        }
    }
}

/// Truncated division of consecutive multiples `v * k` and `v * (k + 1)` by
/// `l` differ by at most one when `|v| <= l`.
proof fn lemma_trunc_step(v: int, k: int, l: int)
    requires
        0 <= k,
        l > 0,
        -l <= v <= l,
    ensures
        -1 <= trunc_div(v * (k + 1), l) - trunc_div(v * k, l) <= 1,
{
    let w = if v >= 0 { v } else { -v };
    let a = w * k;
    assert(w * (k + 1) == a + w) by (nonlinear_arith)
        requires
            a == w * k,
    ;
    assert(0 <= a) by (nonlinear_arith)
        requires
            a == w * k,
            w >= 0,
            k >= 0,
    ;
    vstd::arithmetic::div_mod::lemma_div_is_ordered(a, a + w, l);
    vstd::arithmetic::div_mod::lemma_div_is_ordered(a + w, a + l, l);
    vstd::arithmetic::div_mod::lemma_hoist_over_denominator(a, 1, l as nat);
    assert((a + w) / l <= a / l + 1);
    if v >= 0 {
        assert(v * k == a && v * (k + 1) == a + w);
    } else {
        assert(v * k == -a && v * (k + 1) == -(a + w)) by (nonlinear_arith)
            requires
                w == -v,
                a == w * k,
                w * (k + 1) == a + w,
        ;
        if a > 0 {
            assert(a + w > 0);
        } else {
            assert(a == 0);
        }
    }
}

/// A line takes as many steps as the larger coordinate of `end - start`.
pub proof fn lemma_line_len_is_larger(start: Coord2D, end: Coord2D)
    ensures
        line_len(start, end) >= end.0 - start.0,
        line_len(start, end) >= end.1 - start.1,
        line_len(start, end) == end.0 - start.0 || line_len(start, end) == end.1 - start.1,
{
}

/// A line leaves no gap: it starts at `start`, and two consecutive points of
/// it are at most one cell apart in each coordinate (where `end - start`
/// goes back by no more than the length of the line).
pub proof fn lemma_line_has_no_gap(start: Coord2D, end: Coord2D, k: int)
    requires
        0 <= k,
        k + 1 < line_len(start, end),
        end.0 - start.0 >= -line_len(start, end),
        end.1 - start.1 >= -line_len(start, end),
    ensures
        line_point(start, end, 0) == (start.0 as int, start.1 as int),
        -1 <= line_point(start, end, k + 1).0 - line_point(start, end, k).0 <= 1,
        -1 <= line_point(start, end, k + 1).1 - line_point(start, end, k).1 <= 1,
{
    let l = line_len(start, end);
    lemma_line_len_is_larger(start, end);
    lemma_trunc_step(end.0 - start.0, k, l);
    lemma_trunc_step(end.1 - start.1, k, l);
    assert((end.0 - start.0) * 0 == 0 && (end.1 - start.1) * 0 == 0);
}

/// Painting cells of the grid keeps its shape.
proof fn lemma_paint_line_shape(g: Seq<Seq<u32>>, start: Coord2D, end: Coord2D, mat: u32, k: int)
    requires
        forall|k2: int| 0 <= k2 < k ==> #[trigger] in_grid(g, line_point(start, end, k2)),
    ensures
        paint_line(g, start, end, mat, k).len() == g.len(),
        forall|i: int|
            0 <= i < g.len() ==> #[trigger] paint_line(g, start, end, mat, k)[i].len() == g[i].len(),
    decreases k,
{
    if k > 0 {
        lemma_paint_line_shape(g, start, end, mat, k - 1);
        assert(in_grid(g, line_point(start, end, k - 1)));
    }
}

impl Graphic2D {
    /// Carry out a query: draw a line with the cursor, or change the material.
    ///
    /// A line from `start` to `end` paints the points
    /// `start + (end - start) * k / len` for `k` in `0..len`, where `len` is
    /// the larger coordinate of `end - start`; the cursor ends on the last
    /// painted point.
    pub fn update(&mut self, query: Query)
        requires
            old(self).wf(),
            query matches Query::DrawLine { start, end } ==> line_fits(old(self).cells(), start, end),
        ensures
            final(self).wf(),
            final(self).prev_cells() == old(self).prev_cells(),
            match query {
                Query::DrawLine { start, end } => {
                    let l = line_len(start, end);
                    &&& final(self).cells() == paint_line(
                        old(self).cells(),
                        start,
                        end,
                        old(self).cursor_material(),
                        l,
                    )
                    &&& final(self).cursor_pos() == if l > 0 {
                        Coord2D(
                            line_point(start, end, l - 1).0 as i32,
                            line_point(start, end, l - 1).1 as i32,
                        )
                    } else {
                        start
                    }
                    &&& final(self).cursor_material() == old(self).cursor_material()
                },
                Query::Material(mat) => {
                    &&& final(self).cells() == old(self).cells()
                    &&& final(self).cursor_pos() == old(self).cursor_pos()
                    &&& final(self).cursor_material() == mat
                },
            },
    {
        match query {
            Query::DrawLine { start, end } => {
                let vector = end.sub(start);
                let len_u = vector.len();
                let len = len_u as i32;
                let ghost l = line_len(start, end);
                assert(len == l) by {
                    let m: i32 = if vector.0 >= vector.1 {
                        vector.0
                    } else {
                        vector.1
                    };
                    assert(len_u == m as u32);
                    assert(((m as u32) as i32) == m) by (bit_vector);
                }
                let ghost g0 = old(self).cells();
                let ghost mat = old(self).cursor_material();
                self.curs.pos = start;
                let mut k: i32 = 0;
                while k < len
                    invariant
                        0 <= k,
                        len == l,
                        l == line_len(start, end),
                        vector.0 == end.0 - start.0,
                        vector.1 == end.1 - start.1,
                        line_fits(g0, start, end),
                        k <= len || k == 0,
                        self.wf(),
                        self.prev_cells() == old(self).prev_cells(),
                        g0 == old(self).cells(),
                        self.cursor_material() == mat,
                        self.cells() == paint_line(g0, start, end, mat, k as int),
                        k == 0 ==> self.cursor_pos() == start,
                        k > 0 ==> self.cursor_pos() == Coord2D(
                            line_point(start, end, k - 1).0 as i32,
                            line_point(start, end, k - 1).1 as i32,
                        ),
                    decreases len - k,
                {
                    let ghost kk = k as int;
                    assert(in_grid(g0, line_point(start, end, kk)));
                    assert(fits_i32((end.0 - start.0) * kk));
                    assert(fits_i32(vector.0 * k));
                    assert(fits_i32(vector.1 * k));
                    let step = vector.mul(k).div(len);
                    proof {
                        lemma_step_between(vector.0 as int, kk, l);
                        lemma_step_between(vector.1 as int, kk, l);
                        lemma_paint_line_shape(g0, start, end, mat, kk);
                    }
                    self.curs.pos = start.add(step);
                    self.cursor_paint();
                    k = k + 1;
                    proof {
                        lemma_paint_line_shape(g0, start, end, mat, k as int);
                        assert forall|i: int| 0 <= i < self.cells().len() implies #[trigger] self.prev_cells()[i].len()
                            == self.cells()[i].len() by {
                            assert(self.cells()[i].len() == g0[i].len());
                        }
                    }
                }
            },
            Query::Material(mat) => self.curs.material = mat,
        }
    }

    /// The characters to print for this frame: every cell that differs from
    /// the previous frame, row after row, as a blank (material 0) or an `o`.
    pub fn render(&mut self) -> (paints: Vec<Paint>)
        requires
            old(self).wf(),
        ensures
            *final(self) == *old(self),
            paints@ == frame_paints(old(self).cells(), old(self).prev_cells(), old(self).cells().len() as int),
    {
        let mut paints: Vec<Paint> = Vec::new();
        let mut y: usize = 0;
        while y < self.grid.len()
            invariant
                self.wf(),
                y <= self.grid.len(),
                paints@ == frame_paints(self.cells(), self.prev_cells(), y as int),
            decreases self.grid.len() - y,
        {
            let ghost before = paints@;
            let mut x: usize = 0;
            let ghost row = self.cells()[y as int];
            let ghost prev = self.prev_cells()[y as int];
            assert(self.grid[y as int]@ == row);
            assert(self.prev_grid[y as int]@ == prev);
            while x < self.grid[y].len()
                invariant
                    self.wf(),
                    y < self.grid.len(),
                    x <= self.grid[y as int].len(),
                    row == self.cells()[y as int],
                    prev == self.prev_cells()[y as int],
                    row == self.grid[y as int]@,
                    prev == self.prev_grid[y as int]@,
                    prev.len() == row.len(),
                    paints@ == before + row_paints(y as int, row, prev, x as int),
                decreases self.grid[y as int].len() - x,
            {
                let cell = self.grid[y][x];
                if self.prev_grid[y][x] != cell {
                    let ch = if cell == 0 {
                        ' '
                    } else {
                        'o'
                    };
                    paints.push(Paint { x: x as u16, y: y as u16, ch });
                }
                x = x + 1;
                assert(paints@ =~= before + row_paints(y as int, row, prev, x as int));
            }
            y = y + 1;
            assert(paints@ =~= frame_paints(self.cells(), self.prev_cells(), y as int));
        }
        paints
    }
}

/// A game: a 30 by 30 drawing grid shown on a terminal.
pub struct Game {
    graphic: Graphic2D,
}

/// The blank `m` by `n` grid.
pub open spec fn blank(m: nat, n: nat, v: u32) -> Seq<Seq<u32>> {
    Seq::new(m, |i: int| Seq::new(n, |j: int| v))
}

impl Game {
    pub closed spec fn graphic(&self) -> Graphic2D {
        self.graphic
    }

    /// A game on a blank 30 by 30 grid.
    pub fn new() -> (r: Self)
        ensures
            r.graphic().wf(),
            r.graphic().cells() == blank(30, 30, 0),
            r.graphic().prev_cells() == blank(30, 30, u32::MAX),
            r.graphic().cursor_pos() == Coord2D(0, 0),
            r.graphic().cursor_material() == 0,
    {
        Game { graphic: Graphic2D::new(30, 30) }
    }

    /// Start a game: the first frame is rendered from the blank grid, then
    /// material 1 is selected and the line from (29, 0) to (29, 29) is drawn.
    ///
    /// Returns the game and the characters of the first frame.
    pub fn run() -> (r: (Self, Vec<Paint>))
        ensures
            r.0.graphic().wf(),
            r.1@ == frame_paints(blank(30, 30, 0), blank(30, 30, u32::MAX), 30),
            r.0.graphic().cells() == paint_line(blank(30, 30, 0), Coord2D(29, 0), Coord2D(29, 29), 1, 29),
            r.0.graphic().prev_cells() == blank(30, 30, u32::MAX),
            r.0.graphic().cursor_material() == 1,
            r.0.graphic().cursor_pos() == Coord2D(29, 28),
    {
        let mut game = Self::new();
        let first = game.graphic.render();
        let q1 = Query::Material(1);
        let q2 = Query::DrawLine { start: Coord2D(29, 0), end: Coord2D(29, 29) };
        game.graphic.update(q1);
        proof {
            let start = Coord2D(29, 0);
            let end = Coord2D(29, 29);
            assert(line_len(start, end) == 29);
            assert forall|k: int| 0 <= k < line_len(start, end) implies {
                &&& fits_i32((end.0 - start.0) * k)
                &&& fits_i32((end.1 - start.1) * k)
                &&& #[trigger] in_grid(game.graphic.cells(), line_point(start, end, k))
            } by {
                assert(29 * k / 29 == k) by (nonlinear_arith)
                    requires
                        0 <= k,
                ;
                assert(0 * k == 0);
                assert(line_point(start, end, k) == (29int, k));
            }
        }
        game.graphic.update(q2);
        proof {
            assert(29 * 28 / 29 == 28) by (nonlinear_arith);
        }
        (game, first)
    }

    /// One pass of the game loop: the characters to print for this frame.
    pub fn game_loop(&mut self) -> (paints: Vec<Paint>)
        requires
            old(self).graphic().wf(),
        ensures
            *final(self) == *old(self),
            paints@ == frame_paints(
                old(self).graphic().cells(),
                old(self).graphic().prev_cells(),
                old(self).graphic().cells().len() as int,
            ),
    {
        self.graphic.render()
    }
}

} // verus!
