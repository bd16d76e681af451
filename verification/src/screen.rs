//! The sub-cell pixel buffer: a grid of booleans addressed by integer points.

use vstd::prelude::*;
pub use crate::glyph::{BlockPixel, BrailePixel, Dim, Pixel};

verus! {

/// Size of the display grid assumed when the terminal cannot report its own.
pub const DEFAULT_TERMINAL_DIMENSIONS: (u16, u16) = (80, 24);

/// A position on the pixel grid; `y` grows downwards.
#[derive(Copy, Clone, Debug, PartialEq, Eq, Structural)]
pub struct Point {
    pub x: i32,
    pub y: i32,
}

impl Point {
    pub fn new(x: i32, y: i32) -> (p: Point)
        ensures
            p.x == x,
            p.y == y,
    {
        Point { x, y }
    }
}

/// A grid of `h` rows and `w` columns with every cell unlit.
pub open spec fn blank_grid(w: nat, h: nat) -> Seq<Seq<bool>> {
    Seq::new(h, |y: int| Seq::new(w, |x: int| false))
}

/// The cell in column `x` of row `y`; a position outside the grid reads as unlit.
pub open spec fn cell(grid: Seq<Seq<bool>>, x: int, y: int) -> bool {
    0 <= y < grid.len() && 0 <= x < grid[y].len() && grid[y][x]
}

/// Whether the grid has a cell in column `x` of row `y`.
pub open spec fn in_grid(grid: Seq<Seq<bool>>, x: int, y: int) -> bool {
    0 <= y < grid.len() && 0 <= x < grid[y].len()
}

/// Every row of `grid` has `w` cells and there are `h` rows.
pub open spec fn has_shape(grid: Seq<Seq<bool>>, w: nat, h: nat) -> bool {
    &&& grid.len() == h
    &&& forall|y: int| 0 <= y < grid.len() ==> (#[trigger] grid[y]).len() == w
}

/// The grid cut or grown to `w` columns and `h` rows: cells that both grids
/// have keep their value, new cells are unlit.
pub open spec fn resized(grid: Seq<Seq<bool>>, w: nat, h: nat) -> Seq<Seq<bool>> {
    Seq::new(h, |y: int| Seq::new(w, |x: int| cell(grid, x, y)))
}

/// The grid after storing `val` at `p`; a point outside the grid changes nothing.
pub open spec fn plotted(grid: Seq<Seq<bool>>, p: Point, val: bool) -> Seq<Seq<bool>> {
    if in_grid(grid, p.x as int, p.y as int) {
        grid.update(p.y as int, grid[p.y as int].update(p.x as int, val))
    } else {
        grid
    }
}

/// The pixel buffer. Its view is the sequence of its rows.
pub struct Screen {
    pub width: u16,
    pub height: u16,
    pub content: Vec<Vec<bool>>,
}

impl View for Screen {
    type V = Seq<Seq<bool>>;

    open spec fn view(&self) -> Seq<Seq<bool>> {
        Seq::new(self.content@.len(), |y: int| self.content@[y]@)
    }
}

impl Screen {
    /// The recorded dimensions agree with the shape of the grid.
    pub open spec fn wf(&self) -> bool {
        has_shape(self@, self.width as nat, self.height as nat)
    }

    /// An empty buffer; give it a size with [`Screen::resize`].
    pub fn new() -> (s: Screen)
        ensures
            s.width == 0,
            s.height == 0,
            s@ == Seq::<Seq<bool>>::empty(),
            s.wf(),
    {
        let s = Screen { content: Vec::new(), width: 0, height: 0 };
        assert(s@ =~= Seq::<Seq<bool>>::empty());
        s
    }

    /// Whether the recorded dimensions agree with the shape of the grid:
    /// computes [`Screen::wf`].
    pub fn is_consistent(&self) -> (consistent: bool)
        ensures
            consistent == self.wf(),
    {
        if self.content.len() != self.height as usize {
            return false;
        }
        let mut y: usize = 0;
        while y < self.content.len()
            invariant
                y <= self.content@.len(),
                self.content@.len() == self.height,
                forall|j: int| 0 <= j < y ==> (#[trigger] self@[j]).len() == self.width,
            decreases self.content@.len() - y,
        {
            assert(self@[y as int] == self.content@[y as int]@);
            if self.content[y].len() != self.width as usize {
                return false;
            }
            y += 1;
        }
        true
    }

    /// Reads the cell at `point`; a point outside the buffer reads as unlit.
    pub fn read(&self, point: &Point) -> (lit: bool)
        requires
            self.wf(),
        ensures
            lit == cell(self@, point.x as int, point.y as int),
    {
        let x_in_bounds = 0 <= point.x && point.x < self.width as i32;
        let y_in_bounds = 0 <= point.y && point.y < self.height as i32;
        if x_in_bounds && y_in_bounds {
            assert(self@[point.y as int] == self.content@[point.y as int]@);
            self.content[point.y as usize][point.x as usize]
        } else {
            false
        }
    }

    /// Stores `val` at `point`. A point outside the buffer is ignored.
    pub fn write(&mut self, val: bool, point: &Point)
        requires
            old(self).wf(),
        ensures
            final(self).width == old(self).width,
            final(self).height == old(self).height,
            final(self)@ == plotted(old(self)@, *point, val),
            !(0 <= point.x < old(self).width && 0 <= point.y < old(self).height) ==> final(self)@
                == old(self)@,
            final(self).wf(),
    {
        let x_in_bounds = 0 <= point.x && point.x < self.width as i32;
        let y_in_bounds = 0 <= point.y && point.y < self.height as i32;
        if x_in_bounds && y_in_bounds {
            assert(old(self)@[point.y as int] == old(self).content@[point.y as int]@);
            self.content[point.y as usize][point.x as usize] = val;
            assert(self@ =~= plotted(old(self)@, *point, val));
        } else {
            assert(!in_grid(self@, point.x as int, point.y as int)) by {
                if 0 <= point.y < self@.len() {
                    assert(self@[point.y as int].len() == self.width);
                }
            }
        }
    }

    /// Unlights every cell, keeping the recorded dimensions.
    pub fn clear(&mut self)
        ensures
            final(self).width == old(self).width,
            final(self).height == old(self).height,
            final(self)@ == blank_grid(old(self).width as nat, old(self).height as nat),
            final(self).wf(),
    {
        let mut content: Vec<Vec<bool>> = Vec::new();
        let mut y: u16 = 0;
        while y < self.height
            invariant
                y <= self.height,
                content@.len() == y,
                forall|j: int| 0 <= j < y ==> (#[trigger] content@[j])@ == Seq::new(self.width as nat, |x: int| false),
            decreases self.height - y,
        {
            content.push(blank_row(self.width));
            y += 1;
        }
        self.content = content;
        assert(self@ =~= blank_grid(self.width as nat, self.height as nat));
    }

    /// Gives the buffer `width` columns and `height` rows. Cells inside both
    /// the old and the new bounds keep their value; new cells are unlit.
    pub fn resize(&mut self, width: u16, height: u16)
        ensures
            final(self).width == width,
            final(self).height == height,
            final(self)@ == resized(old(self)@, width as nat, height as nat),
            final(self).wf(),
    {
        let mut content: Vec<Vec<bool>> = Vec::new();
        let mut y: u16 = 0;
        while y < height
            invariant
                y <= height,
                content@.len() == y,
                forall|j: int| 0 <= j < y ==> (#[trigger] content@[j])@ == Seq::new(width as nat, |x: int| cell(self@, x, j)),
            decreases height - y,
        {
            let mut row: Vec<bool> = Vec::new();
            let mut x: u16 = 0;
            while x < width
                invariant
                    x <= width,
                    row@.len() == x,
                    forall|i: int| 0 <= i < x ==> row@[i] == cell(self@, i, y as int),
                decreases width - x,
            {
                let kept = (y as usize) < self.content.len() && (x as usize) < self.content[y as usize].len();
                let lit = kept && self.content[y as usize][x as usize];
                assert(lit == cell(self@, x as int, y as int));
                row.push(lit);
                x += 1;
            }
            assert(row@ =~= Seq::new(width as nat, |x: int| cell(self@, x, y as int)));
            content.push(row);
            y += 1;
        }
        let ghost before = self@;
        self.content = content;
        self.width = width;
        self.height = height;
        assert(self@ =~= resized(before, width as nat, height as nat));
    }

    /// Lights the pixels of the straight line from `start` to `end`, both
    /// ends included. Pixels outside the buffer are skipped.
    pub fn line(&mut self, start: &Point, end: &Point)
        requires
            old(self).wf(),
        ensures
            final(self).width == old(self).width,
            final(self).height == old(self).height,
            final(self)@ == traced(old(self)@, *start, *end),
            final(self).wf(),
    {
        let delta_x: i64 = if start.x <= end.x {
            end.x as i64 - start.x as i64
        } else {
            start.x as i64 - end.x as i64
        };
        let step_x: i32 = if start.x < end.x { 1 } else { -1 };
        let delta_y: i64 = if start.y <= end.y {
            start.y as i64 - end.y as i64
        } else {
            end.y as i64 - start.y as i64
        };
        let step_y: i32 = if start.y < end.y { 1 } else { -1 };
        let mut err: i64 = delta_x + delta_y;

        let mut x: i32 = start.x;
        let mut y: i32 = start.y;

        let ghost a: int = delta_x as int;
        let ghost b: int = -(delta_y as int);
        // Steps taken so far along each axis, and the products that tie them
        // to the error term.
        let ghost mut i: int = 0;
        let ghost mut j: int = 0;
        let ghost mut p: int = 0;
        let ghost mut q: int = 0;

        proof {
            lemma_trace_nothing(self@, *start, *end);
            lemma_line_starts_at_start(*start, *end);
            lemma_trace_extend(self@, *start, *end, 0, *start);
            assert(a * 0 == 0 && b * 0 == 0) by (nonlinear_arith);
        }
        self.write(true, &Point::new(x, y));

        while !(x == end.x && y == end.y)
            invariant
                self.wf(),
                self.width == old(self).width,
                self.height == old(self).height,
                a == span(start.x as int, end.x as int),
                b == span(start.y as int, end.y as int),
                delta_x == a,
                delta_y == -b,
                step_x == (if start.x < end.x { 1i32 } else { -1i32 }),
                step_y == (if start.y < end.y { 1i32 } else { -1i32 }),
                0 <= i <= a,
                0 <= j <= b,
                x == advance(start.x as int, end.x as int, i),
                y == advance(start.y as int, end.y as int, j),
                p == a * j,
                q == b * i,
                err == a - b + p - q,
                a >= b && a > 0 ==> 2 * p <= 2 * q + a < 2 * p + 2 * a,
                a < b ==> 2 * q <= 2 * p + b < 2 * q + 2 * b,
                self@ == traced_prefix(old(self)@, *start, *end, (if a >= b { i } else { j }) + 1),
            decreases (a - i) + (b - j),
        {
            let curr_err: i64 = err;
            proof {
                assert(a * (j + 1) == a * j + a) by (nonlinear_arith);
                assert(b * (i + 1) == b * i + b) by (nonlinear_arith);
                assert(a * b == b * a) by (nonlinear_arith);
                if j < b {
                    assert(a * (j + 1) <= a * b) by (nonlinear_arith)
                        requires
                            j + 1 <= b,
                            0 <= a,
                    ;
                }
                if i < a {
                    assert(b * (i + 1) <= b * a) by (nonlinear_arith)
                        requires
                            i + 1 <= a,
                            0 <= b,
                    ;
                }
            }

            if 2 * curr_err >= delta_y {
                assert(i < a);
                err += delta_y;
                x += step_x;
                proof {
                    i = i + 1;
                    q = q + b;
                }
            }
            if 2 * curr_err <= delta_x {
                assert(j < b);
                err += delta_x;
                y += step_y;
                proof {
                    j = j + 1;
                    p = p + a;
                }
            }

            proof {
                let n = if a >= b { i } else { j };
                if a >= b {
                    assert(j * (2 * a) == 2 * p) by (nonlinear_arith)
                        requires
                            p == a * j,
                    ;
                    assert(2 * b * i == 2 * q) by (nonlinear_arith)
                        requires
                            q == b * i,
                    ;
                    lemma_quotient_between(2 * b * i + a, 2 * a, j);
                } else {
                    assert(i * (2 * b) == 2 * q) by (nonlinear_arith)
                        requires
                            q == b * i,
                    ;
                    assert(2 * a * j == 2 * p) by (nonlinear_arith)
                        requires
                            p == a * j,
                    ;
                    lemma_quotient_between(2 * a * j + b, 2 * b, i);
                }
                assert(x == line_x(*start, *end, n));
                assert(y == line_y(*start, *end, n));
                lemma_trace_extend(old(self)@, *start, *end, n, Point { x, y });
            }
            self.write(true, &Point::new(x, y));
        }
    }

    /// Gives the buffer the size of a terminal of `size` character cells
    /// (columns, rows) whose cells each show one block of `T`, keeping the
    /// last terminal row free. Without a size the terminal is taken to have
    /// [`DEFAULT_TERMINAL_DIMENSIONS`].
    pub fn fit_to_terminal<T: Pixel>(&mut self, size: Option<(u16, u16)>)
        ensures
            final(self).width == fitted_width::<T>(size),
            final(self).height == fitted_height::<T>(size),
            final(self)@ == resized(
                old(self)@,
                fitted_width::<T>(size) as nat,
                fitted_height::<T>(size) as nat,
            ),
            final(self).wf(),
    {
        let (terminal_width, terminal_height) = match size {
            Some(dim) => dim,
            None => DEFAULT_TERMINAL_DIMENSIONS,
        };
        let rows: u16 = if terminal_height > 0 { terminal_height - 1 } else { 0 };
        proof {
            T::lemma_extent();
        }
        let width = scale_extent(terminal_width, T::WIDTH);
        let height = scale_extent(rows, T::HEIGHT);
        self.resize(width, height);
    }

    /// The block of `P` that is shown in column `col` of row `row` of the
    /// character grid.
    fn block<P: Pixel>(&self, col: usize, row: usize) -> (pixel: P)
        requires
            self.wf(),
            col <= u16::MAX,
            row <= u16::MAX,
        ensures
            pixel.cells() == block_at(self@, P::WIDTH as int, P::HEIGHT as int, col as int, row as int),
    {
        proof {
            P::lemma_extent();
        }
        let ghost w = P::WIDTH as int;
        let ghost h = P::HEIGHT as int;
        let mut pixel = P::new();
        assert(pixel.cells() =~~= partial_block(self@, w, h, col as int, row as int, 0, 0));
        assert(col * P::WIDTH <= 0xFFFF * 0xFFFF && row * P::HEIGHT <= 0xFFFF * 0xFFFF)
            by (nonlinear_arith)
            requires
                col <= 0xFFFF,
                row <= 0xFFFF,
                P::WIDTH <= 0xFFFF,
                P::HEIGHT <= 0xFFFF,
        ;
        let left: usize = col * P::WIDTH;
        let top: usize = row * P::HEIGHT;
        let mut i: usize = 0;
        while i < P::HEIGHT
            invariant
                self.wf(),
                i <= P::HEIGHT,
                w == P::WIDTH,
                h == P::HEIGHT,
                0 < w <= u16::MAX,
                0 < h <= u16::MAX,
                left == col * P::WIDTH,
                top == row * P::HEIGHT,
                left <= 0xFFFF * 0xFFFF,
                top <= 0xFFFF * 0xFFFF,
                pixel.cells() == partial_block(self@, w, h, col as int, row as int, i as int, 0),
            decreases P::HEIGHT - i,
        {
            let mut j: usize = 0;
            while j < P::WIDTH
                invariant
                    self.wf(),
                    i < P::HEIGHT,
                    j <= P::WIDTH,
                    w == P::WIDTH,
                    h == P::HEIGHT,
                    0 < w <= u16::MAX,
                    0 < h <= u16::MAX,
                    left == col * P::WIDTH,
                    top == row * P::HEIGHT,
                    left <= 0xFFFF * 0xFFFF,
                    top <= 0xFFFF * 0xFFFF,
                    pixel.cells() == partial_block(self@, w, h, col as int, row as int, i as int, j as int),
                decreases P::WIDTH - j,
            {
                let x: usize = left + j;
                let y: usize = top + i;
                if y < self.height as usize && x < self.width as usize {
                    assert(self@[y as int] == self.content@[y as int]@);
                    if self.content[y][x] {
                        pixel.set(i, j, true);
                    }
                }
                assert(pixel.cells() =~~= partial_block(
                    self@,
                    w,
                    h,
                    col as int,
                    row as int,
                    i as int,
                    j as int + 1,
                ));
                j += 1;
            }
            assert(pixel.cells() =~~= partial_block(
                self@,
                w,
                h,
                col as int,
                row as int,
                i as int + 1,
                0,
            ));
            i += 1;
        }
        assert(pixel.cells() =~~= block_at(self@, w, h, col as int, row as int));
        pixel
    }

    /// Packs the buffer into rows of characters, one character for each
    /// block of `P`. Where the buffer ends inside a block, the cells beyond
    /// its edge count as unlit.
    pub fn render<P: Pixel>(&self) -> (rows: Vec<Vec<char>>)
        requires
            self.wf(),
        ensures
            rows@.len() == blocks_to_cover(self.height as int, P::HEIGHT as int),
            forall|r: int| 0 <= r < rows@.len() ==> (#[trigger] rows@[r])@ == glyph_row::<P>(self@, self.width as int, r),
    {
        proof {
            P::lemma_extent();
        }
        let columns: usize = (self.width as usize + P::WIDTH - 1) / P::WIDTH;
        let lines: usize = (self.height as usize + P::HEIGHT - 1) / P::HEIGHT;
        assert(columns <= u16::MAX && lines <= u16::MAX) by (nonlinear_arith)
            requires
                columns == (self.width + P::WIDTH - 1) / (P::WIDTH as int),
                lines == (self.height + P::HEIGHT - 1) / (P::HEIGHT as int),
                0 < P::WIDTH,
                0 < P::HEIGHT,
                self.width <= u16::MAX,
                self.height <= u16::MAX,
        ;
        let mut rows: Vec<Vec<char>> = Vec::new();
        let mut r: usize = 0;
        while r < lines
            invariant
                self.wf(),
                r <= lines,
                lines <= u16::MAX,
                columns <= u16::MAX,
                columns == blocks_to_cover(self.width as int, P::WIDTH as int),
                rows@.len() == r,
                forall|k: int| 0 <= k < r ==> (#[trigger] rows@[k])@ == glyph_row::<P>(self@, self.width as int, k),
            decreases lines - r,
        {
            let mut row: Vec<char> = Vec::new();
            let mut c: usize = 0;
            while c < columns
                invariant
                    self.wf(),
                    r < lines,
                    lines <= u16::MAX,
                    c <= columns,
                    columns <= u16::MAX,
                    row@.len() == c,
                    forall|k: int| 0 <= k < c ==> row@[k] == P::glyph(
                        block_at(self@, P::WIDTH as int, P::HEIGHT as int, k, r as int),
                    ),
                decreases columns - c,
            {
                let pixel: P = self.block::<P>(c, r);
                row.push(pixel.to_char());
                c += 1;
            }
            assert(row@ =~= glyph_row::<P>(self@, self.width as int, r as int));
            rows.push(row);
            r += 1;
        }
        rows
    }
}

/// A cell that lies inside the new bounds reads after a resize as it did
/// before.
pub proof fn lemma_resize_keeps_cell(grid: Seq<Seq<bool>>, w: nat, h: nat, x: int, y: int)
    requires
        0 <= x < w,
        0 <= y < h,
    ensures
        cell(resized(grid, w, h), x, y) == cell(grid, x, y),
{
}

/// What was stored at a point of the buffer is read there again after the
/// buffer has grown.
pub proof fn lemma_write_survives_growth(grid: Seq<Seq<bool>>, p: Point, val: bool, w: nat, h: nat)
    requires
        in_grid(grid, p.x as int, p.y as int),
        p.x < w,
        p.y < h,
    ensures
        cell(resized(plotted(grid, p, val), w, h), p.x as int, p.y as int) == val,
{
}

/// A cell that a resize cut off is unlit when the buffer grows again.
pub proof fn lemma_shrink_forgets_cell(
    grid: Seq<Seq<bool>>,
    w: nat,
    h: nat,
    grown_w: nat,
    grown_h: nat,
    x: int,
    y: int,
)
    requires
        x >= w || y >= h,
    ensures
        !cell(resized(resized(grid, w, h), grown_w, grown_h), x, y),
{
}

/// A resize gives the grid the shape that was asked for.
pub proof fn lemma_resized_shape(grid: Seq<Seq<bool>>, w: nat, h: nat)
    ensures
        has_shape(resized(grid, w, h), w, h),
{
}

/// The distance between two coordinates.
pub open spec fn span(from: int, to: int) -> int {
    if from <= to {
        to - from
    } else {
        from - to
    }
}

/// The coordinate `k` cells away from `from`, on the side where `to` lies.
pub open spec fn advance(from: int, to: int, k: int) -> int {
    if from < to {
        from + k
    } else {
        from - k
    }
}

/// How far a line has moved along its shorter axis after `k` steps along its
/// longer one: `k * minor / major` rounded to the nearest integer, halves up.
pub open spec fn minor_offset(k: int, minor: int, major: int) -> int {
    if major > 0 {
        (2 * minor * k + major) / (2 * major)
    } else {
        0
    }
}

/// The number of steps a line takes: the longer of its two extents.
pub open spec fn line_steps(start: Point, end: Point) -> int {
    let a = span(start.x as int, end.x as int);
    let b = span(start.y as int, end.y as int);
    if a >= b {
        a
    } else {
        b
    }
}

/// Column of the `k`-th pixel of the line from `start` to `end`.
pub open spec fn line_x(start: Point, end: Point, k: int) -> int {
    let a = span(start.x as int, end.x as int);
    let b = span(start.y as int, end.y as int);
    if a >= b {
        advance(start.x as int, end.x as int, k)
    } else {
        advance(start.x as int, end.x as int, minor_offset(k, a, b))
    }
}

/// Row of the `k`-th pixel of the line from `start` to `end`.
pub open spec fn line_y(start: Point, end: Point, k: int) -> int {
    let a = span(start.x as int, end.x as int);
    let b = span(start.y as int, end.y as int);
    if a >= b {
        advance(start.y as int, end.y as int, minor_offset(k, b, a))
    } else {
        advance(start.y as int, end.y as int, k)
    }
}

/// Whether `(x, y)` is among the first `n` pixels of the line.
pub open spec fn on_line_prefix(start: Point, end: Point, n: int, x: int, y: int) -> bool {
    exists|k: int| 0 <= k < n && #[trigger] line_x(start, end, k) == x && line_y(start, end, k) == y
}

/// Whether `(x, y)` is a pixel of the line from `start` to `end`.
pub open spec fn on_line(start: Point, end: Point, x: int, y: int) -> bool {
    on_line_prefix(start, end, line_steps(start, end) + 1, x, y)
}

/// The grid with the first `n` pixels of the line lit.
pub open spec fn traced_prefix(grid: Seq<Seq<bool>>, start: Point, end: Point, n: int) -> Seq<
    Seq<bool>,
> {
    Seq::new(
        grid.len(),
        |y: int| Seq::new(grid[y].len(), |x: int| grid[y][x] || on_line_prefix(start, end, n, x, y)),
    )
}

/// The grid with every pixel of the line lit that falls inside it.
pub open spec fn traced(grid: Seq<Seq<bool>>, start: Point, end: Point) -> Seq<Seq<bool>> {
    traced_prefix(grid, start, end, line_steps(start, end) + 1)
}

/// A quotient is fixed by the two multiples of the divisor that enclose the
/// dividend.
proof fn lemma_quotient_between(n: int, d: int, q: int)
    requires
        d > 0,
        q * d <= n < q * d + d,
    ensures
        n / d == q,
{
    assert(n / d == q) by (nonlinear_arith)
        requires
            d > 0,
            q * d <= n < q * d + d,
    ;
}

/// The first pixel of a line is its start.
pub proof fn lemma_line_starts_at_start(start: Point, end: Point)
    ensures
        line_x(start, end, 0) == start.x,
        line_y(start, end, 0) == start.y,
        on_line(start, end, start.x as int, start.y as int),
{
    let a = span(start.x as int, end.x as int);
    let b = span(start.y as int, end.y as int);
    if a >= b {
        if a > 0 {
            lemma_quotient_between(2 * b * 0 + a, 2 * a, 0);
        }
    } else {
        lemma_quotient_between(2 * a * 0 + b, 2 * b, 0);
    }
    assert(line_x(start, end, 0) == start.x);
}

/// The last pixel of a line is its end.
pub proof fn lemma_line_ends_at_end(start: Point, end: Point)
    ensures
        line_x(start, end, line_steps(start, end)) == end.x,
        line_y(start, end, line_steps(start, end)) == end.y,
        on_line(start, end, end.x as int, end.y as int),
{
    let a = span(start.x as int, end.x as int);
    let b = span(start.y as int, end.y as int);
    if a >= b {
        if a > 0 {
            assert(b * (2 * a) <= 2 * b * a + a < b * (2 * a) + 2 * a) by (nonlinear_arith)
                requires
                    a > 0,
            ;
            lemma_quotient_between(2 * b * a + a, 2 * a, b);
        }
    } else {
        assert(a * (2 * b) <= 2 * a * b + b < a * (2 * b) + 2 * b) by (nonlinear_arith)
            requires
                b > 0,
        ;
        lemma_quotient_between(2 * a * b + b, 2 * b, a);
    }
    assert(line_x(start, end, line_steps(start, end)) == end.x);
}

/// Consecutive pixels of a line differ by at most one column and one row.
pub proof fn lemma_line_is_connected(start: Point, end: Point, k: int)
    requires
        0 <= k < line_steps(start, end),
    ensures
        -1 <= line_x(start, end, k + 1) - line_x(start, end, k) <= 1,
        -1 <= line_y(start, end, k + 1) - line_y(start, end, k) <= 1,
{
    let a = span(start.x as int, end.x as int);
    let b = span(start.y as int, end.y as int);
    if a >= b {
        lemma_minor_offset_step(k, b, a);
    } else {
        lemma_minor_offset_step(k, a, b);
    }
}

/// One more step along the longer axis moves at most one cell along the
/// shorter one, and never backwards.
proof fn lemma_minor_offset_step(k: int, minor: int, major: int)
    requires
        0 <= minor <= major,
        0 < major,
        0 <= k,
    ensures
        0 <= minor_offset(k + 1, minor, major) - minor_offset(k, minor, major) <= 1,
{
    let n1 = 2 * minor * k + major;
    let n2 = 2 * minor * (k + 1) + major;
    let d = 2 * major;
    assert(n1 <= n2 <= n1 + d) by (nonlinear_arith)
        requires
            n1 == 2 * minor * k + major,
            n2 == 2 * minor * (k + 1) + major,
            d == 2 * major,
            0 <= minor <= major,
    ;
    assert(n1 / d <= n2 / d <= n1 / d + 1) by (nonlinear_arith)
        requires
            n1 <= n2 <= n1 + d,
            d > 0,
    ;
}

/// Every pixel of a line lies within half a cell of the true line,
/// measured along the line's shorter axis: after `k` of `major` steps the
/// true line has moved `k * minor / major` cells along that axis.
pub proof fn lemma_minor_offset_is_nearest(k: int, minor: int, major: int)
    requires
        0 <= minor <= major,
        0 < major,
        0 <= k <= major,
    ensures
        -major < 2 * (major * minor_offset(k, minor, major) - minor * k) <= major,
        0 <= minor_offset(k, minor, major) <= minor,
{
    let n = 2 * minor * k + major;
    let d = 2 * major;
    let q = minor_offset(k, minor, major);
    assert(q * d <= n < q * d + d && 0 <= n) by (nonlinear_arith)
        requires
            q == n / d,
            d > 0,
            n == 2 * minor * k + major,
            0 <= minor,
            0 <= k,
            0 < major,
    ;
    assert(q * d == 2 * (major * q) && 2 * minor * k == 2 * (minor * k)) by (nonlinear_arith)
        requires
            d == 2 * major,
    ;
    assert(0 <= q <= minor) by (nonlinear_arith)
        requires
            q * d <= n < q * d + d,
            d == 2 * major,
            n == 2 * minor * k + major,
            0 <= minor <= major,
            0 < major,
            0 <= k <= major,
    ;
}

/// Lighting the `n`-th pixel of a line extends the first `n` pixels to the
/// first `n + 1`.
proof fn lemma_trace_extend(grid: Seq<Seq<bool>>, start: Point, end: Point, n: int, p: Point)
    requires
        0 <= n,
        p.x == line_x(start, end, n),
        p.y == line_y(start, end, n),
    ensures
        plotted(traced_prefix(grid, start, end, n), p, true) == traced_prefix(grid, start, end, n + 1),
{
    let before = traced_prefix(grid, start, end, n);
    let after = traced_prefix(grid, start, end, n + 1);
    assert forall|x: int, y: int| on_line_prefix(start, end, n + 1, x, y) == (on_line_prefix(start, end, n, x, y) || (x == p.x && y == p.y)) by {
        if on_line_prefix(start, end, n + 1, x, y) {
            let k = choose|k: int| 0 <= k < n + 1 && #[trigger] line_x(start, end, k) == x && line_y(start, end, k) == y;
            if k < n {
                assert(on_line_prefix(start, end, n, x, y));
            }
        }
        if on_line_prefix(start, end, n, x, y) {
            let k = choose|k: int| 0 <= k < n && #[trigger] line_x(start, end, k) == x && line_y(start, end, k) == y;
            assert(0 <= k < n + 1 && line_x(start, end, k) == x && line_y(start, end, k) == y);
        }
        if x == p.x && y == p.y {
            assert(0 <= n < n + 1 && line_x(start, end, n) == x && line_y(start, end, n) == y);
        }
    }
    assert(plotted(before, p, true) =~~= after);
}

/// With no pixel lit yet the grid is as it was.
proof fn lemma_trace_nothing(grid: Seq<Seq<bool>>, start: Point, end: Point)
    ensures
        traced_prefix(grid, start, end, 0) == grid,
{
    assert(traced_prefix(grid, start, end, 0) =~~= grid);
}

/// How many blocks of `per` cells it takes to cover `extent` cells.
pub open spec fn blocks_to_cover(extent: int, per: int) -> int
    recommends
        per > 0,
{
    (extent + per - 1) / per
}

/// The block of `w` by `h` cells in column `col` of row `row` of the
/// character grid; cells beyond the edge of the grid are unlit.
pub open spec fn block_at(grid: Seq<Seq<bool>>, w: int, h: int, col: int, row: int) -> Seq<
    Seq<bool>,
> {
    Seq::new(h as nat, |i: int| Seq::new(w as nat, |j: int| cell(grid, col * w + j, row * h + i)))
}

/// [`block_at`] with only the cells copied that lie before column `j` of
/// row `i`, in reading order.
pub open spec fn partial_block(
    grid: Seq<Seq<bool>>,
    w: int,
    h: int,
    col: int,
    row: int,
    i: int,
    j: int,
) -> Seq<Seq<bool>> {
    Seq::new(
        h as nat,
        |a: int|
            Seq::new(
                w as nat,
                |b: int| (a < i || (a == i && b < j)) && cell(grid, col * w + b, row * h + a),
            ),
    )
}

/// Row `row` of the character grid that shows a buffer `width` cells wide.
pub open spec fn glyph_row<P: Pixel>(grid: Seq<Seq<bool>>, width: int, row: int) -> Seq<char> {
    Seq::new(
        blocks_to_cover(width, P::WIDTH as int) as nat,
        |col: int| P::glyph(block_at(grid, P::WIDTH as int, P::HEIGHT as int, col, row)),
    )
}

/// The extent in cells of `count` blocks of `per` cells, at most `u16::MAX`.
pub open spec fn scaled_extent(count: int, per: int) -> int {
    if count * per > u16::MAX {
        u16::MAX as int
    } else {
        count * per
    }
}

/// Width of the buffer that fills a terminal of the given size.
pub open spec fn fitted_width<T: Pixel>(size: Option<(u16, u16)>) -> int {
    let columns = match size {
        Some(dim) => dim.0,
        None => DEFAULT_TERMINAL_DIMENSIONS.0,
    };
    scaled_extent(columns as int, T::WIDTH as int)
}

/// Height of the buffer that fills a terminal of the given size but for its
/// last row.
pub open spec fn fitted_height<T: Pixel>(size: Option<(u16, u16)>) -> int {
    let rows = match size {
        Some(dim) => dim.1,
        None => DEFAULT_TERMINAL_DIMENSIONS.1,
    };
    scaled_extent(if rows > 0 { rows - 1 } else { 0 }, T::HEIGHT as int)
}

/// Computes [`scaled_extent`].
fn scale_extent(count: u16, per: usize) -> (extent: u16)
    requires
        per <= u16::MAX,
    ensures
        extent == scaled_extent(count as int, per as int),
{
    assert(count * per <= 0xFFFF * 0xFFFF) by (nonlinear_arith)
        requires
            count <= 0xFFFF,
            per <= 0xFFFF,
    ;
    let product: u64 = count as u64 * per as u64;
    if product > u16::MAX as u64 {
        u16::MAX
    } else {
        product as u16
    }
}

/// A row of `width` unlit cells.
fn blank_row(width: u16) -> (row: Vec<bool>)
    ensures
        row@ == Seq::new(width as nat, |x: int| false),
{
    let mut row: Vec<bool> = Vec::new();
    let mut x: u16 = 0;
    while x < width
        invariant
            x <= width,
            row@.len() == x,
            forall|i: int| 0 <= i < x ==> !row@[i],
        decreases width - x,
    {
        row.push(false);
        x += 1;
    }
    assert(row@ =~= Seq::new(width as nat, |x: int| false));
    row
}

} // verus!
