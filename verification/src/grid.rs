//! The rectangular grids the run works over: the resized source pixels, the
//! error accumulator, and the output grid of chosen variant indices. All
//! three are stored row-major: the entry for cell `(x, y)` sits at
//! `y * width + x`.

use vstd::prelude::*;
use vstd::arithmetic::mul::lemma_mul_inequality;
use vstd::pervasive::VecAdditionalExecFns;
use crate::color::ColorDelta;
use crate::color::Rgba8;

verus! {

/// The cell `(x, y)` of a `width`-wide row-major grid lies inside a buffer
/// of `width * height` entries.
pub proof fn lemma_grid_index(width: int, height: int, x: int, y: int)
    requires
        0 <= x < width,
        0 <= y < height,
    ensures
        0 <= y * width + x < width * height,
        y * width + x == x + y * width,
{
    lemma_mul_inequality(y + 1, height, width);
    assert((y + 1) * width == y * width + width) by (nonlinear_arith);
    assert(y * width >= 0) by (nonlinear_arith)
        requires
            y >= 0,
            width >= 0,
    ;
    assert(height * width == width * height) by (nonlinear_arith);
}

/// An immutable grid of RGBA pixels: the resized source image, or one
/// variant's chunk-resolution average-color grid.
#[derive(Clone)]
pub struct PixelGrid {
    pub width: usize,
    pub height: usize,
    pub pixels: Vec<Rgba8>,
}

impl PixelGrid {
    pub open spec fn wf(self) -> bool {
        self.pixels.len() == self.width * self.height
    }

    /// The pixel at `(x, y)`.
    pub open spec fn px(self, x: int, y: int) -> Rgba8 {
        self.pixels[y * self.width + x]
    }

    /// Builds a grid from a row-major pixel buffer of the exact size.
    pub fn from_pixels(width: usize, height: usize, pixels: Vec<Rgba8>) -> (g: PixelGrid)
        requires
            pixels.len() == width * height,
        ensures
            g.wf(),
            g.width == width,
            g.height == height,
            g.pixels == pixels,
    {
        PixelGrid { width, height, pixels }
    }

    /// A grid of one repeated color, e.g. the fully transparent grid of the
    /// built-in air variant.
    pub fn uniform(width: usize, height: usize, color: Rgba8) -> (g: PixelGrid)
        requires
            width * height <= usize::MAX,
        ensures
            g.wf(),
            g.width == width,
            g.height == height,
            forall|x: int, y: int|
                0 <= x < width && 0 <= y < height ==> #[trigger] g.px(x, y) == color,
    {
        let n: usize = width * height;
        let mut pixels: Vec<Rgba8> = Vec::new();
        let mut i: usize = 0;
        while i < n
            invariant
                i <= n,
                pixels.len() == i,
                forall|j: int| 0 <= j < i ==> pixels[j] == color,
            decreases n - i,
        {
            pixels.push(color);
            i += 1;
        }
        let g = PixelGrid { width, height, pixels };
        proof {
            assert forall|x: int, y: int|
                0 <= x < width && 0 <= y < height implies #[trigger] g.px(x, y) == color by {
                lemma_grid_index(width as int, height as int, x, y);
            }
        }
        g
    }

    /// Reads the pixel at `(x, y)`.
    pub fn pixel(&self, x: usize, y: usize) -> (c: Rgba8)
        requires
            self.wf(),
            x < self.width,
            y < self.height,
        ensures
            c == self.px(x as int, y as int),
    {
        proof {
            lemma_grid_index(self.width as int, self.height as int, x as int, y as int);
        }
        self.pixels[y * self.width + x]
    }
}

/// The mutable error accumulator: one signed per-channel delta per output
/// cell, written only by the engine's sequential scan.
pub struct ErrorGrid {
    pub width: usize,
    pub height: usize,
    pub cells: Vec<ColorDelta>,
}

impl ErrorGrid {
    pub open spec fn wf(self) -> bool {
        self.cells.len() == self.width * self.height
    }

    /// The accumulated delta for cell `(x, y)`.
    pub open spec fn at(self, x: int, y: int) -> ColorDelta {
        self.cells[y * self.width + x]
    }

    /// A zero-initialized accumulator.
    pub fn new_zero(width: usize, height: usize) -> (g: ErrorGrid)
        requires
            width * height <= usize::MAX,
        ensures
            g.wf(),
            g.width == width,
            g.height == height,
            forall|x: int, y: int|
                0 <= x < width && 0 <= y < height ==> #[trigger] g.at(x, y) == (ColorDelta {
                    r: 0i64,
                    g: 0i64,
                    b: 0i64,
                    a: 0i64,
                }),
            forall|j: int|
                0 <= j < g.cells@.len() ==> #[trigger] g.cells@[j] == (ColorDelta {
                    r: 0i64,
                    g: 0i64,
                    b: 0i64,
                    a: 0i64,
                }),
    {
        let n: usize = width * height;
        let mut cells: Vec<ColorDelta> = Vec::new();
        let mut i: usize = 0;
        while i < n
            invariant
                i <= n,
                cells.len() == i,
                forall|j: int|
                    0 <= j < i ==> cells[j] == (ColorDelta { r: 0i64, g: 0i64, b: 0i64, a: 0i64 }),
            decreases n - i,
        {
            cells.push(ColorDelta { r: 0, g: 0, b: 0, a: 0 });
            i += 1;
        }
        let g = ErrorGrid { width, height, cells };
        proof {
            assert forall|x: int, y: int|
                0 <= x < width && 0 <= y < height implies #[trigger] g.at(x, y) == (ColorDelta {
                r: 0i64,
                g: 0i64,
                b: 0i64,
                a: 0i64,
            }) by {
                lemma_grid_index(width as int, height as int, x, y);
            }
        }
        g
    }

    /// Reads the delta for cell `(x, y)`.
    pub fn get(&self, x: usize, y: usize) -> (d: ColorDelta)
        requires
            self.wf(),
            x < self.width,
            y < self.height,
        ensures
            d == self.at(x as int, y as int),
    {
        proof {
            lemma_grid_index(self.width as int, self.height as int, x as int, y as int);
        }
        self.cells[y * self.width + x]
    }

    /// Overwrites the delta for cell `(x, y)`.
    pub fn set(&mut self, x: usize, y: usize, d: ColorDelta)
        requires
            old(self).wf(),
            x < old(self).width,
            y < old(self).height,
        ensures
            final(self).wf(),
            final(self).width == old(self).width,
            final(self).height == old(self).height,
            final(self).at(x as int, y as int) == d,
            forall|x2: int, y2: int|
                0 <= x2 < old(self).width && 0 <= y2 < old(self).height && !(x2 == x && y2 == y)
                    ==> final(self).at(x2, y2) == old(self).at(x2, y2),
    {
        proof {
            lemma_grid_index(self.width as int, self.height as int, x as int, y as int);
        }
        let i: usize = y * self.width + x;
        self.cells.set(i, d);
        proof {
            assert forall|x2: int, y2: int|
                0 <= x2 < self.width && 0 <= y2 < self.height && !(x2 == x && y2 == y) implies self
                .at(x2, y2) == old(self).at(x2, y2) by {
                lemma_grid_index(self.width as int, self.height as int, x2, y2);
                lemma_distinct_cells(self.width as int, x as int, y as int, x2, y2);
            }
        }
    }
}

/// Distinct cells of one grid occupy distinct buffer positions.
pub proof fn lemma_distinct_cells(width: int, x1: int, y1: int, x2: int, y2: int)
    requires
        0 <= x1 < width,
        0 <= x2 < width,
        0 <= y1,
        0 <= y2,
        !(x1 == x2 && y1 == y2),
    ensures
        y1 * width + x1 != y2 * width + x2,
{
    if y1 == y2 {
    } else {
        assert(y1 * width + x1 != y2 * width + x2) by (nonlinear_arith)
            requires
                0 <= x1 < width,
                0 <= x2 < width,
                0 <= y1,
                0 <= y2,
                y1 != y2,
        ;
    }
}

/// The output grid: one chosen catalog variant index per cell, filled in
/// scan order by the engine.
pub struct OutputGrid {
    pub width: usize,
    pub height: usize,
    pub cells: Vec<usize>,
}

impl OutputGrid {
    pub open spec fn wf(self) -> bool {
        self.cells.len() == self.width * self.height
    }

    /// The chosen variant index for cell `(x, y)`.
    pub open spec fn at(self, x: int, y: int) -> usize {
        self.cells[y * self.width + x]
    }

    /// Every cell references a variant below `n`.
    pub open spec fn in_catalog(self, n: int) -> bool {
        forall|i: int| 0 <= i < self.cells.len() ==> self.cells[i] < n
    }

    /// Builds a grid from a row-major buffer of variant indices of the exact
    /// size.
    pub fn from_cells(width: usize, height: usize, cells: Vec<usize>) -> (g: OutputGrid)
        requires
            cells.len() == width * height,
        ensures
            g.wf(),
            g.width == width,
            g.height == height,
            g.cells == cells,
    {
        OutputGrid { width, height, cells }
    }

    /// Reads the chosen variant index for cell `(x, y)`.
    pub fn value_at(&self, x: usize, y: usize) -> (v: usize)
        requires
            self.wf(),
            x < self.width,
            y < self.height,
        ensures
            v == self.at(x as int, y as int),
    {
        proof {
            lemma_grid_index(self.width as int, self.height as int, x as int, y as int);
        }
        self.cells[y * self.width + x]
    }
}

} // verus!
