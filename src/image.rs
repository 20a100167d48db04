use vstd::prelude::*;
use crate::color::Color;

verus! {

/// A raster image stored row by row.
pub struct ColorImage {
    pub width: usize,
    pub height: usize,
    pub pixels: Vec<Color>,
}

impl ColorImage {
    /// The pixel buffer holds one color per position, and is small enough
    /// that four counts per pixel fit in a `usize`.
    pub open spec fn wf(&self) -> bool {
        &&& self.pixels@.len() == self.width * self.height
        &&& self.pixels@.len() < usize::MAX / 4
    }

    /// The empty image.
    pub fn new() -> (img: ColorImage)
        ensures
            img.wf(),
            img.width == 0,
            img.height == 0,
    {
        ColorImage { width: 0, height: 0, pixels: Vec::new() }
    }

    /// An image of the given size, every pixel `fill`.
    pub fn new_w_h(width: usize, height: usize, fill: Color) -> (img: ColorImage)
        requires
            width * height < usize::MAX / 4,
        ensures
            img.wf(),
            img.width == width,
            img.height == height,
            forall|p: int| 0 <= p < img.pixels@.len() ==> img.pixels@[p] == fill,
    {
        let n = width * height;
        let mut pixels: Vec<Color> = Vec::new();
        let mut k: usize = 0;
        while k < n
            invariant
                k <= n,
                pixels@.len() == k,
                forall|p: int| 0 <= p < k ==> pixels@[p] == fill,
            decreases n - k,
        {
            pixels.push(fill);
            k = k + 1;
        }
        ColorImage { width, height, pixels }
    }

    pub open spec fn spec_pixel(&self, x: int, y: int) -> Color {
        self.pixels@[y * self.width + x]
    }

    /// The color at `(x, y)`.
    pub fn get_pixel(&self, x: usize, y: usize) -> (c: Color)
        requires
            self.wf(),
            x < self.width,
            y < self.height,
        ensures
            c == self.spec_pixel(x as int, y as int),
    {
        proof {
            lemma_index_in_bounds(self.width as int, self.height as int, x as int, y as int);
        }
        self.pixels[y * self.width + x]
    }

    /// Paints `(x, y)` with `c`.
    pub fn set_pixel(&mut self, x: usize, y: usize, c: Color)
        requires
            old(self).wf(),
            x < old(self).width,
            y < old(self).height,
        ensures
            final(self).wf(),
            final(self).width == old(self).width,
            final(self).height == old(self).height,
            final(self).pixels@ == old(self).pixels@.update(y * old(self).width + x, c),
    {
        proof {
            lemma_index_in_bounds(self.width as int, self.height as int, x as int, y as int);
        }
        let p = y * self.width + x;
        self.pixels.set(p, c);
    }
}

pub proof fn lemma_index_in_bounds(w: int, h: int, x: int, y: int)
    requires
        0 <= x < w,
        0 <= y < h,
    ensures
        0 <= y * w,
        y * w + x < w * h,
{
    assert(0 <= y * w) by (nonlinear_arith)
        requires
            0 <= y,
            0 <= w,
    ;
    assert(y * w + x < w * h) by (nonlinear_arith)
        requires
            0 <= x < w,
            0 <= y < h,
    ;
}

} // verus!
