//! A rectangular grid of pixels stored row by row.

use vstd::prelude::*;

verus! {

/// A `width` x `height` image; the pixel at column `x` and row `y` is
/// `pixels[y * width + x]`.
#[derive(Clone, Debug)]
pub struct Canvas<T> {
    pub width: usize,
    pub height: usize,
    pub pixels: Vec<T>,
}

/// The column and row of the pixel that a row-major walk over an image
/// `width` pixels wide reaches at step `index`.
pub fn pixel_position(width: usize, index: usize) -> (r: (usize, usize))
    requires
        width > 0,
    ensures
        r.0 == index % width,
        r.1 == index / width,
        r.0 < width,
        r.1 * width + r.0 == index,
{
    proof {
        vstd::arithmetic::div_mod::lemma_fundamental_div_mod(index as int, width as int);
        vstd::arithmetic::mul::lemma_mul_is_commutative(width as int, index as int / width as int);
    }
    (index % width, index / width)
}

impl<T: Copy> Canvas<T> {
    /// The pixel buffer holds one pixel per position.
    pub open spec fn wf(&self) -> bool {
        self.pixels@.len() == self.width * self.height
    }

    /// The pixel at column `x` and row `y`.
    pub open spec fn pixel(&self, x: int, y: int) -> T {
        self.pixels@[y * self.width + x]
    }

    /// A canvas with every pixel set to `fill`.
    pub fn new(width: usize, height: usize, fill: T) -> (r: Canvas<T>)
        requires
            width * height <= usize::MAX,
        ensures
            r.wf(),
            r.width == width,
            r.height == height,
            forall|i: int| 0 <= i < r.pixels@.len() ==> #[trigger] r.pixels@[i] == fill,
    {
        let n: usize = width * height;
        let mut pixels: Vec<T> = Vec::new();
        let mut i: usize = 0;
        while i < n
            invariant
                i <= n,
                pixels@.len() == i,
                forall|k: int| 0 <= k < i ==> #[trigger] pixels@[k] == fill,
            decreases n - i,
        {
            pixels.push(fill);
            i += 1;
        }
        Canvas { width, height, pixels }
    }

    /// A canvas whose pixels, in row-major order, are `pixels`.
    pub fn from_pixels(width: usize, height: usize, pixels: Vec<T>) -> (r: Canvas<T>)
        requires
            pixels@.len() == width * height,
        ensures
            r.wf(),
            r.width == width,
            r.height == height,
            r.pixels@ == pixels@,
    {
        Canvas { width, height, pixels }
    }

    fn index(&self, x: usize, y: usize) -> (r: usize)
        requires
            self.wf(),
            x < self.width,
            y < self.height,
        ensures
            r == y * self.width + x,
            r < self.pixels@.len(),
    {
        let _count = self.pixels.len();
        proof {
            lemma_index_in_bounds(x as int, y as int, self.width as int, self.height as int);
        }
        y * self.width + x
    }

    pub fn pixel_at(&self, x: usize, y: usize) -> (r: &T)
        requires
            self.wf(),
            x < self.width,
            y < self.height,
        ensures
            *r == self.pixel(x as int, y as int),
    {
        let index = self.index(x, y);
        &self.pixels[index]
    }

    /// Sets the pixel at column `x` and row `y`; a position outside the
    /// canvas leaves it unchanged.
    pub fn write_pixel(&mut self, x: usize, y: usize, color: &T)
        requires
            old(self).wf(),
        ensures
            final(self).wf(),
            final(self).width == old(self).width,
            final(self).height == old(self).height,
            x < old(self).width && y < old(self).height ==> final(self).pixels@ == old(
                self,
            ).pixels@.update(y * old(self).width + x, *color),
            !(x < old(self).width && y < old(self).height) ==> final(self).pixels@ == old(
                self,
            ).pixels@,
    {
        if x < self.width && y < self.height {
            let index = self.index(x, y);
            self.pixels.set(index, *color);
        }
    }
}

proof fn lemma_index_in_bounds(x: int, y: int, width: int, height: int)
    requires
        0 <= x < width,
        0 <= y < height,
    ensures
        0 <= y * width + x < width * height,
{
    assert(y * width + x < width * height) by (nonlinear_arith)
        requires
            0 <= x < width,
            0 <= y < height,
    ;
    assert(0 <= y * width) by (nonlinear_arith)
        requires
            0 <= y,
            0 <= width,
    ;
}

} // verus!
