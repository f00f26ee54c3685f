//! The grid of cells laid over the canvas, and a frame's walk over it.

use crate::arith::{lemma_quotient_between, lemma_quotient_encloses};
use crate::point::Point;
use crate::raster::CONTOUR;
use crate::square::{is_uniform, lemma_painted_writes_contour, RenderMode, Sample, Square};
use vstd::arithmetic::div_mod::{
    lemma_fundamental_div_mod_converse_div, lemma_fundamental_div_mod_converse_mod,
};
use vstd::math::{max, min};
use vstd::prelude::*;

verus! {

/// Why a grid cannot be laid out.
#[derive(Clone, Copy, Debug, PartialEq, Eq, Structural)]
pub enum ConfigError {
    /// The grid resolution is zero.
    ZeroResolution,
}

/// The cells laid over a canvas of `width` by `height` pixels. Each cell is
/// a square of `dimension` pixels; the cells start at the top left corner of
/// the canvas and cover it row by row, the last cell of a row and the last
/// row reaching beyond the canvas where `dimension` does not divide its size.
#[derive(Clone, Copy, Debug, PartialEq, Eq, Structural)]
pub struct Grid {
    pub width: u32,
    pub height: u32,
    pub dimension: u32,
}

/// How many steps of `step` it takes to cover `extent`: none where `step`
/// is 0.
pub open spec fn steps_to_cover(extent: int, step: int) -> int {
    if step <= 0 {
        0
    } else {
        (extent + step - 1) / step
    }
}

/// Step `i` still starts inside the extent exactly when it is one of the
/// steps that it takes to cover the extent.
proof fn lemma_steps_to_cover(extent: int, step: int, i: int)
    requires
        0 <= extent,
        0 < step,
        0 <= i,
    ensures
        (i * step < extent) == (i < steps_to_cover(extent, step)),
{
    let c = (extent + step - 1) / step;
    lemma_quotient_encloses(extent + step - 1, step);
    if i < c {
        assert((i + 1) * step <= c * step) by (nonlinear_arith)
            requires
                i + 1 <= c,
                0 < step,
        ;
        assert((i + 1) * step == i * step + step) by (nonlinear_arith);
    } else {
        assert(i * step >= c * step) by (nonlinear_arith)
            requires
                i >= c,
                0 < step,
        ;
    }
}

/// The cell in column `col` of row `row` is found again from its number.
proof fn lemma_cell_index(row: int, col: int, cols: int)
    requires
        0 <= col < cols,
    ensures
        (row * cols + col) / cols == row,
        (row * cols + col) % cols == col,
{
    lemma_fundamental_div_mod_converse_div(row * cols + col, cols, row, col);
    lemma_fundamental_div_mod_converse_mod(row * cols + col, cols, row, col);
}

/// The resolution one step finer. The highest resolution stays as it is.
pub fn finer(grid_res: u32) -> (res: u32)
    ensures
        res == min(grid_res + 1, u32::MAX as int),
{
    if grid_res == u32::MAX {
        grid_res
    } else {
        grid_res + 1
    }
}

/// The resolution one step coarser, but never under one cell.
pub fn coarser(grid_res: u32) -> (res: u32)
    ensures
        res == max(grid_res - 1, 1),
{
    if grid_res <= 2 {
        1
    } else {
        grid_res - 1
    }
}

/// How many workgroups of the given size it takes to cover a canvas, across
/// and down.
pub fn compute_work_group_count(size: (u32, u32), workgroup_size: (u32, u32)) -> (count: (u32, u32))
    requires
        workgroup_size.0 > 0,
        workgroup_size.1 > 0,
    ensures
        count.0 == steps_to_cover(size.0 as int, workgroup_size.0 as int),
        count.1 == steps_to_cover(size.1 as int, workgroup_size.1 as int),
{
    let x = (size.0 as u64 + workgroup_size.0 as u64 - 1) / (workgroup_size.0 as u64);
    let y = (size.1 as u64 + workgroup_size.1 as u64 - 1) / (workgroup_size.1 as u64);
    proof {
        lemma_steps_to_cover(size.0 as int, workgroup_size.0 as int, size.0 as int);
        lemma_steps_to_cover(size.1 as int, workgroup_size.1 as int, size.1 as int);
        assert(size.0 * workgroup_size.0 >= size.0) by (nonlinear_arith)
            requires
                workgroup_size.0 >= 1,
        ;
        assert(size.1 * workgroup_size.1 >= size.1) by (nonlinear_arith)
            requires
                workgroup_size.1 >= 1,
        ;
    }
    (x as u32, y as u32)
}

impl Grid {
    /// The number of cells in a row.
    pub open spec fn columns(self) -> int {
        steps_to_cover(self.width as int, self.dimension as int)
    }

    /// The number of rows.
    pub open spec fn rows(self) -> int {
        steps_to_cover(self.height as int, self.dimension as int)
    }

    /// The number of cells.
    pub open spec fn cell_count(self) -> int {
        self.rows() * self.columns()
    }

    /// Where the `k`-th cell has its top left corner, the cells counted row
    /// by row from the top left one.
    pub open spec fn cell_origin(self, k: int) -> Point {
        Point::at((k % self.columns()) * self.dimension, (k / self.columns()) * self.dimension)
    }

    /// The `k`-th cell, not sampled yet.
    pub open spec fn cell(self, k: int) -> Square {
        Square { origin: self.cell_origin(k), dimension: self.dimension, sample: Sample::blank() }
    }

    /// The grid over a canvas of `width` by `height` pixels with `grid_res`
    /// cells along the shorter side of the canvas. A resolution of 0 is
    /// refused. Where the resolution is higher than the shorter side has
    /// pixels, the cells have no extent and the grid holds none.
    pub fn new(width: u32, height: u32, grid_res: u32) -> (grid: Result<Grid, ConfigError>)
        ensures
            grid_res == 0 <==> grid is Err,
            grid is Err ==> grid == Err::<Grid, ConfigError>(ConfigError::ZeroResolution),
            grid matches Ok(g) ==> g.width == width && g.height == height && g.dimension == min(
                width as int,
                height as int,
            ) / (grid_res as int),
    {
        if grid_res == 0 {
            return Err(ConfigError::ZeroResolution);
        }
        let shorter = if width <= height {
            width
        } else {
            height
        };
        Ok(Grid { width, height, dimension: shorter / grid_res })
    }

    /// The buffer after the first `n` cells, each with its sample, are
    /// painted into `buf` one after the other.
    pub open spec fn rendered(
        self,
        buf: Seq<u32>,
        samples: Seq<Sample>,
        mode: RenderMode,
        n: int,
    ) -> Seq<u32>
        decreases n,
    {
        if n <= 0 {
            buf
        } else {
            (Square {
                origin: self.cell_origin(n - 1),
                dimension: self.dimension,
                sample: samples[n - 1],
            }).painted(self.rendered(buf, samples, mode, n - 1), mode, self.width as int)
        }
    }

    /// The number of cells for which `samples` holds a sample.
    pub open spec fn sampled(self, samples: Seq<Sample>) -> int {
        if samples.len() <= self.cell_count() {
            samples.len() as int
        } else {
            self.cell_count()
        }
    }

    /// A frame in which nothing is drawn yet: one cell for each pixel of
    /// the canvas, all of them 0.
    pub open spec fn blank_frame(self) -> Seq<u32> {
        Seq::new((self.width * self.height) as nat, |j: int| 0u32)
    }

    /// The cells of the grid, row by row from the top left one, none of
    /// them sampled yet.
    pub fn squares(&self) -> (cells: Vec<Square>)
        ensures
            cells@.len() == self.cell_count(),
            forall|k: int| 0 <= k < cells@.len() ==> cells@[k] == self.cell(k),
    {
        let mut cells: Vec<Square> = Vec::new();
        let step = self.dimension as u64;
        if step == 0 {
            assert(self.cell_count() == 0) by (nonlinear_arith)
                requires
                    self.cell_count() == self.rows() * self.columns(),
                    self.rows() == 0,
            ;
            return cells;
        }
        let ghost cols = self.columns();
        let ghost mut row: int = 0;
        let mut y: u64 = 0;
        assert(0 * cols == 0 && 0 * step == 0) by (nonlinear_arith);
        while y < self.height as u64
            invariant
                step == self.dimension,
                step > 0,
                cols == self.columns(),
                0 <= row,
                y == row * step,
                y < self.height + step,
                cells@.len() == row * cols,
                forall|k: int| 0 <= k < cells@.len() ==> cells@[k] == self.cell(k),
            decreases self.height + step - y,
        {
            let ghost mut col: int = 0;
            let mut x: u64 = 0;
            assert(0 * step == 0) by (nonlinear_arith);
            while x < self.width as u64
                invariant
                    step == self.dimension,
                    step > 0,
                    cols == self.columns(),
                    0 <= row,
                    y == row * step,
                    y < self.height,
                    0 <= col <= cols,
                    x == col * step,
                    x < self.width + step,
                    cells@.len() == row * cols + col,
                    forall|k: int| 0 <= k < cells@.len() ==> cells@[k] == self.cell(k),
                decreases self.width + step - x,
            {
                proof {
                    lemma_steps_to_cover(self.width as int, step as int, col);
                    lemma_cell_index(row, col, cols);
                }
                cells.push(Square::new(Point::new(x as u32, y as u32), self.dimension));
                x = x + step;
                proof {
                    assert((col + 1) * step == col * step + step) by (nonlinear_arith);
                    col = col + 1;
                }
            }
            proof {
                lemma_steps_to_cover(self.width as int, step as int, col);
                assert((row + 1) * cols == row * cols + cols) by (nonlinear_arith);
                assert((row + 1) * step == row * step + step) by (nonlinear_arith);
                row = row + 1;
            }
            y = y + step;
        }
        proof {
            if row > 0 {
                lemma_steps_to_cover(self.height as int, step as int, row - 1);
                assert((row - 1) * step == row * step - step) by (nonlinear_arith);
            }
            lemma_steps_to_cover(self.height as int, step as int, row);
        }
        cells
    }

    /// Paints a frame: walks the cells row by row and paints each with its
    /// sample, `samples` holding the samples in the order of the cells.
    /// Cells beyond the last sample are not painted; samples beyond the last
    /// cell are not looked at. A grid without cells leaves the buffer as it
    /// is.
    pub fn marching_squares(&self, samples: &[Sample], mode: RenderMode, buffer: &mut [u32])
        ensures
            final(buffer)@ == self.rendered(
                old(buffer)@,
                samples@,
                mode,
                self.sampled(samples@),
            ),
            final(buffer)@.len() == old(buffer)@.len(),
    {
        let cells = self.squares();
        let ghost start = buffer@;
        proof {
            lemma_rendered_writes_contour(*self, start, samples@, mode, self.sampled(samples@));
        }
        let mut k: usize = 0;
        while k < cells.len() && k < samples.len()
            invariant
                cells@.len() == self.cell_count(),
                forall|j: int| 0 <= j < cells@.len() ==> cells@[j] == self.cell(j),
                k <= cells@.len(),
                k <= samples@.len(),
                buffer@ == self.rendered(start, samples@, mode, k as int),
            decreases cells@.len() - k,
        {
            let mut cell = cells[k];
            assert(cell == self.cell(k as int));
            cell.paint(samples[k], mode, buffer, self.width, self.height);
            k = k + 1;
        }
    }

    /// A frame in which nothing is drawn yet.
    pub fn blank(&self) -> (frame: Vec<u32>)
        requires
            self.width * self.height <= usize::MAX,
        ensures
            frame@ == self.blank_frame(),
    {
        let size = self.width as usize * self.height as usize;
        let frame = vec![0u32; size];
        assert(frame@ =~= self.blank_frame());
        frame
    }

    /// A whole frame: a blank buffer into which the cells are painted with
    /// their samples.
    pub fn render(&self, samples: &[Sample], mode: RenderMode) -> (frame: Vec<u32>)
        requires
            self.width * self.height <= usize::MAX,
        ensures
            frame@ == self.rendered(self.blank_frame(), samples@, mode, self.sampled(samples@)),
            frame@.len() == self.width * self.height,
    {
        let mut frame = self.blank();
        self.marching_squares(samples, mode, frame.as_mut_slice());
        frame
    }
}

/// A canvas without extent, like cells without extent, makes a grid
/// without cells, and painting it leaves the buffer as it is.
pub proof fn lemma_empty_grid_paints_nothing(
    grid: Grid,
    buf: Seq<u32>,
    samples: Seq<Sample>,
    mode: RenderMode,
)
    requires
        grid.width == 0 || grid.height == 0 || grid.dimension == 0,
    ensures
        grid.cell_count() == 0,
        grid.rendered(buf, samples, mode, grid.sampled(samples)) == buf,
{
    let d = grid.dimension as int;
    if d > 0 {
        lemma_quotient_between(d - 1, d, 0);
    }
    assert(grid.rows() * grid.columns() == 0) by (nonlinear_arith)
        requires
            grid.rows() == 0 || grid.columns() == 0,
    ;
}

/// Painting cells keeps the length of the buffer and writes nothing but the
/// colour of the contour.
pub proof fn lemma_rendered_writes_contour(
    grid: Grid,
    buf: Seq<u32>,
    samples: Seq<Sample>,
    mode: RenderMode,
    n: int,
)
    ensures
        grid.rendered(buf, samples, mode, n).len() == buf.len(),
        forall|j: int|
            0 <= j < buf.len() ==> {
                let after = #[trigger] grid.rendered(buf, samples, mode, n)[j];
                after == buf[j] || after == CONTOUR
            },
    decreases n,
{
    if n > 0 {
        lemma_rendered_writes_contour(grid, buf, samples, mode, n - 1);
        let cell = Square {
            origin: grid.cell_origin(n - 1),
            dimension: grid.dimension,
            sample: samples[n - 1],
        };
        lemma_painted_writes_contour(
            cell,
            grid.rendered(buf, samples, mode, n - 1),
            mode,
            grid.width as int,
        );
    }
}

/// Where every cell has its four corners on one side of the threshold, be
/// it all outside or all inside, drawing the contours leaves the buffer as
/// it is.
pub proof fn lemma_uniform_cells_draw_nothing(
    grid: Grid,
    buf: Seq<u32>,
    samples: Seq<Sample>,
    n: int,
)
    requires
        n <= samples.len(),
        forall|k: int| 0 <= k < n ==> is_uniform(#[trigger] samples[k].inside),
    ensures
        grid.rendered(buf, samples, RenderMode::MarchingSquares, n) == buf,
    decreases n,
{
    if n > 0 {
        lemma_uniform_cells_draw_nothing(grid, buf, samples, n - 1);
        assert(is_uniform(samples[n - 1].inside));
    }
}

/// The cells cover the canvas: the pixel in column `x` and row `y` lies in
/// the cell that is `x / dimension` cells from the left and `y / dimension`
/// cells from the top. Stated for canvases whose pixels all lie within the
/// coordinate range.
pub proof fn lemma_cells_cover_canvas(grid: Grid, x: int, y: int)
    requires
        grid.dimension > 0,
        0 <= x < grid.width <= i32::MAX,
        0 <= y < grid.height <= i32::MAX,
    ensures
        ({
            let k = (y / (grid.dimension as int)) * grid.columns() + x / (grid.dimension as int);
            let corner = grid.cell_origin(k);
            &&& 0 <= k < grid.cell_count()
            &&& corner.x <= x < corner.x + grid.dimension
            &&& corner.y <= y < corner.y + grid.dimension
        }),
{
    let d = grid.dimension as int;
    let cols = grid.columns();
    let rows = grid.rows();
    let col = x / d;
    let row = y / d;
    lemma_quotient_encloses(x, d);
    lemma_quotient_encloses(y, d);
    assert(0 <= col && 0 <= row) by (nonlinear_arith)
        requires
            col * d + d > 0,
            row * d + d > 0,
            d > 0,
    ;
    lemma_steps_to_cover(grid.width as int, d, col);
    lemma_steps_to_cover(grid.height as int, d, row);
    lemma_cell_index(row, col, cols);
    assert(0 <= row * cols && row * cols + cols <= rows * cols) by (nonlinear_arith)
        requires
            0 <= row < rows,
            0 < cols,
    ;
}

} // verus!
