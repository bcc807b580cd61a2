//! Rectangular grids of pixels.
//!
//! A raster is a `width x height` grid of RGB pixels, addressed by
//! coordinates `(x, y)` with `0 <= x < width` and `0 <= y < height`, stored
//! row-major: the pixel at `(x, y)` sits at index `y * width + x`.  The
//! dimensions are fixed at construction and never change.

use vstd::prelude::*;

use crate::color::Pixel;

verus! {

/// A coordinate in range maps to a row-major index in range.
pub proof fn lemma_grid_index(x: int, y: int, w: int, h: int)
    by (nonlinear_arith)
    requires
        0 <= x < w,
        0 <= y < h,
    ensures
        0 <= y * w + x < w * h,
{
}

/// Row-major indexing is injective on in-range coordinates.
pub proof fn lemma_grid_index_injective(x1: int, y1: int, x2: int, y2: int, w: int)
    by (nonlinear_arith)
    requires
        0 <= x1 < w,
        0 <= x2 < w,
        0 <= y1,
        0 <= y2,
        y1 * w + x1 == y2 * w + x2,
    ensures
        x1 == x2,
        y1 == y2,
{
}

/// A row-major index in range comes from a coordinate in range.
pub proof fn lemma_grid_index_inverse(i: int, w: int, h: int)
    requires
        w > 0,
        0 <= i < w * h,
    ensures
        0 <= i % w < w,
        0 <= i / w < h,
        (i / w) * w + (i % w) == i,
{
    vstd::arithmetic::div_mod::lemma_fundamental_div_mod(i, w);
    vstd::arithmetic::div_mod::lemma_mod_bound(i, w);
    assert(i / w < h) by (nonlinear_arith)
        requires
            w > 0,
            i < w * h,
            i == w * (i / w) + i % w,
            0 <= i % w < w,
    ;
    assert((i / w) * w + (i % w) == i) by (nonlinear_arith)
        requires
            i == w * (i / w) + i % w,
    ;
}

/// A 2-D grid of pixels with fixed dimensions.  Every coordinate in range
/// holds exactly one pixel value.
pub struct Raster {
    width: usize,
    height: usize,
    data: Vec<Pixel>,
}

impl Raster {
    /// The grid is well formed: it stores one pixel per coordinate of a
    /// `width x height` grid (which also keeps `width * height` within
    /// `usize`, since a `Vec` cannot be longer than that).
    pub closed spec fn wf(self) -> bool {
        self.data@.len() == self.width * self.height
    }

    pub closed spec fn spec_width(self) -> int {
        self.width as int
    }

    pub closed spec fn spec_height(self) -> int {
        self.height as int
    }

    /// The pixel stored for the coordinate `(x, y)`.
    pub closed spec fn spec_at(self, x: int, y: int) -> Pixel {
        self.data@[y * self.spec_width() + x]
    }

    /// Dimensions are machine sizes, hence never negative.
    pub proof fn lemma_dims_nonneg(self)
        ensures
            self.spec_width() >= 0,
            self.spec_height() >= 0,
    {
    }

    /// Build a raster of the given dimensions from its row-major pixel data.
    pub fn from_pixels(width: usize, height: usize, data: Vec<Pixel>) -> (r: Raster)
        requires
            data@.len() == width * height,
        ensures
            r.wf(),
            r.spec_width() == width,
            r.spec_height() == height,
            forall|x: int, y: int|
                0 <= x < width && 0 <= y < height ==> r.spec_at(x, y) == data@[y * width + x],
    {
        Raster { width, height, data }
    }

    pub fn width(&self) -> (w: usize)
        ensures
            w as int == self.spec_width(),
    {
        self.width
    }

    pub fn height(&self) -> (h: usize)
        ensures
            h as int == self.spec_height(),
    {
        self.height
    }

    /// Read the pixel at an in-range coordinate.
    pub fn get(&self, x: usize, y: usize) -> (p: Pixel)
        requires
            self.wf(),
            x < self.spec_width(),
            y < self.spec_height(),
        ensures
            p == self.spec_at(x as int, y as int),
    {
        proof {
            lemma_grid_index(x as int, y as int, self.spec_width(), self.spec_height());
            assert(self.data@.len() == self.data.len());
        }
        let idx: usize = y * self.width + x;
        self.data[idx]
    }
}

/// Two rasters are equal as images: same dimensions and the same pixel at
/// every coordinate in range.
pub open spec fn rasters_equal(a: Raster, b: Raster) -> bool {
    &&& a.spec_width() == b.spec_width()
    &&& a.spec_height() == b.spec_height()
    &&& forall|x: int, y: int|
        0 <= x < a.spec_width() && 0 <= y < a.spec_height() ==> a.spec_at(x, y) == b.spec_at(x, y)
}

} // verus!
