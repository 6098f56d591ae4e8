//! The pixel grid: image bounds, the flat row-major pixel buffer, and the
//! partition of that buffer into per-row bands.

use vstd::prelude::*;

verus! {

/// Width and height of the output image, in pixels.
#[derive(Clone, Copy, PartialEq, Eq, Structural)]
pub struct Bounds {
    pub width: usize,
    pub height: usize,
}

impl Bounds {
    /// A usable image: both sides positive and the pixel count representable.
    pub open spec fn wf(self) -> bool {
        &&& self.width >= 1
        &&& self.height >= 1
        &&& self.width * self.height <= usize::MAX
    }

    /// Number of pixels in the image.
    pub open spec fn area(self) -> int {
        self.width * self.height
    }

    /// Builds well-formed bounds, rejecting empty or oversized images.
    pub fn new(width: usize, height: usize) -> (b: Option<Bounds>)
        ensures
            match b {
                Some(v) => v.wf() && v.width == width && v.height == height,
                None => width == 0 || height == 0 || width * height > usize::MAX,
            },
    {
        if width >= 1 && height >= 1 {
            match width.checked_mul(height) {
                Some(_) => Some(Bounds { width, height }),
                None => None,
            }
        } else {
            None
        }
    }

    /// Length of the flat pixel buffer.
    pub fn buffer_len(&self) -> (n: usize)
        requires
            self.wf(),
        ensures
            n == self.area(),
    {
        self.width * self.height
    }

    /// Index of pixel (column, row) in the row-major buffer.
    pub fn pixel_index(&self, column: usize, row: usize) -> (p: usize)
        requires
            self.wf(),
            column < self.width,
            row < self.height,
        ensures
            p == row * self.width + column,
            p < self.area(),
    {
        proof {
            lemma_pixel_index_in_range(*self, column as int, row as int);
        }
        row * self.width + column
    }

    /// Row of the pixel at buffer index `p`.
    pub fn row_of(&self, p: usize) -> (row: usize)
        requires
            self.wf(),
            p < self.area(),
        ensures
            row == p as int / (self.width as int),
            row < self.height,
    {
        proof {
            lemma_row_col_of_index(*self, p as int);
        }
        p / self.width
    }

    /// Column of the pixel at buffer index `p`.
    pub fn column_of(&self, p: usize) -> (column: usize)
        requires
            self.wf(),
            p < self.area(),
        ensures
            column == p as int % (self.width as int),
            column < self.width,
    {
        proof {
            lemma_row_col_of_index(*self, p as int);
        }
        p % self.width
    }
}

/// Buffer index `p` falls inside the band of row `row`: the half-open range
/// of `width` indices starting at `row * width`.
pub open spec fn in_band(b: Bounds, row: int, p: int) -> bool {
    &&& 0 <= row < b.height
    &&& row * b.width <= p < row * b.width + b.width
}

/// A pixel index within the image lies within the image's area, so the
/// row-major layout never leaves the buffer.
pub proof fn lemma_pixel_index_in_range(b: Bounds, column: int, row: int)
    requires
        b.wf(),
        0 <= column < b.width,
        0 <= row < b.height,
    ensures
        0 <= row * b.width + column < b.area(),
        in_band(b, row, row * b.width + column),
{
    assert(0 <= row * b.width + column < b.width * b.height) by (nonlinear_arith)
        requires
            0 <= column < b.width,
            0 <= row < b.height,
    ;
}

/// Decomposing a buffer index by division recovers its row and column.
pub proof fn lemma_row_col_of_index(b: Bounds, p: int)
    requires
        b.wf(),
        0 <= p < b.area(),
    ensures
        0 <= p / (b.width as int) < b.height,
        0 <= p % (b.width as int) < b.width,
        p == (p / (b.width as int)) * b.width + p % (b.width as int),
        in_band(b, p / (b.width as int), p),
{
    vstd::arithmetic::div_mod::lemma_fundamental_div_mod(p, b.width as int);
    vstd::arithmetic::div_mod::lemma_mod_bound(p, b.width as int);
    assert(0 <= p / (b.width as int) < b.height) by (nonlinear_arith)
        requires
            b.width >= 1,
            0 <= p < b.width * b.height,
            p == (p / (b.width as int)) * b.width + p % (b.width as int),
            0 <= p % (b.width as int) < b.width,
    ;
    assert(in_band(b, p / (b.width as int), p));
}

/// Every buffer index is covered by the band of its own row: the row bands
/// leave no gap.
pub proof fn lemma_bands_cover(b: Bounds, p: int)
    requires
        b.wf(),
        0 <= p < b.area(),
    ensures
        in_band(b, p / (b.width as int), p),
{
    lemma_row_col_of_index(b, p);
}

/// No buffer index lies in two distinct bands: the row bands do not overlap.
pub proof fn lemma_bands_disjoint(b: Bounds, row1: int, row2: int, p: int)
    requires
        b.wf(),
        in_band(b, row1, p),
        in_band(b, row2, p),
    ensures
        row1 == row2,
{
    assert(row1 == row2) by (nonlinear_arith)
        requires
            b.width >= 1,
            row1 * b.width <= p < row1 * b.width + b.width,
            row2 * b.width <= p < row2 * b.width + b.width,
    ;
}

} // verus!
