use crate::quirc::{Pixel, Point};
use vstd::prelude::*;

verus! {

/// The largest width and height of a frame: with them every coordinate,
/// and every product of two differences of coordinates, fits the integers
/// the identifier computes with.
pub const MAX_DIMENSION: usize = 32767;

/// A binarized frame: its pixels in rows from the top, and its extent.
#[derive(Debug, Clone)]
pub struct Image {
    pub pixels: Vec<Pixel>,
    pub width: usize,
    pub height: usize,
}

impl Image {
    /// Do the pixels fill the extent, and is the extent within limits?
    pub open spec fn wf(&self) -> bool {
        &&& self.width <= MAX_DIMENSION
        &&& self.height <= MAX_DIMENSION
        &&& self.pixels@.len() == self.width * self.height
    }

    /// Does the frame hold the pixel at `(x, y)`?
    pub open spec fn holds(&self, x: int, y: int) -> bool {
        0 <= x < self.width && 0 <= y < self.height
    }

    /// The place of the pixel at `(x, y)` among the pixels.
    pub open spec fn at(&self, x: int, y: int) -> int {
        y * self.width + x
    }

    /// The pixel at `(x, y)`.
    pub open spec fn pixel(&self, x: int, y: int) -> Pixel {
        self.pixels@[self.at(x, y)]
    }

    /// The place of a pixel of the frame lies among its pixels.
    pub proof fn lemma_at(&self, x: int, y: int)
        requires
            self.wf(),
            self.holds(x, y),
        ensures
            0 <= self.at(x, y) < self.pixels@.len(),
            self.at(x, y) < 0x4000_0000,
    {
        lemma_place(self.width as int, self.height as int, x, y);
    }

    /// A frame of the given extent with every pixel background.
    pub fn new(width: usize, height: usize) -> (image: Image)
        requires
            width <= MAX_DIMENSION,
            height <= MAX_DIMENSION,
        ensures
            image.wf(),
            image.width == width,
            image.height == height,
            forall|k: int| 0 <= k < image.pixels@.len() ==> image.pixels@[k] == 0,
    {
        assert(width * height <= MAX_DIMENSION * MAX_DIMENSION) by (nonlinear_arith)
            requires
                width <= MAX_DIMENSION,
                height <= MAX_DIMENSION,
        ;
        let n: usize = width * height;
        let mut pixels: Vec<Pixel> = Vec::new();
        let mut i: usize = 0;
        while i < n
            invariant
                i <= n,
                pixels@.len() == i,
                forall|k: int| 0 <= k < i ==> pixels@[k] == 0,
            decreases n - i,
        {
            pixels.push(0);
            i += 1;
        }
        Image { pixels, width, height }
    }

    /// Reads the pixel at `(x, y)`.
    pub fn get(&self, x: usize, y: usize) -> (p: Pixel)
        requires
            self.wf(),
            self.holds(x as int, y as int),
        ensures
            p == self.pixel(x as int, y as int),
    {
        proof {
            self.lemma_at(x as int, y as int);
        }
        self.pixels[y * self.width + x]
    }
}

/// In a frame of `w` by `h` pixels the place of the pixel at `(x, y)`
/// lies below `w * h`.
pub proof fn lemma_place(w: int, h: int, x: int, y: int)
    requires
        0 <= x < w <= MAX_DIMENSION,
        0 <= y < h <= MAX_DIMENSION,
    ensures
        0 <= y * w + x < w * h,
        0 <= y * w <= y * w + x,
        w * h <= 0x4000_0000,
{
    assert(0 <= y * w && y * w + w <= w * h) by (nonlinear_arith)
        requires
            0 <= y,
            y + 1 <= h,
            0 <= w,
    ;
    assert(w * h <= 32767 * 32767) by (nonlinear_arith)
        requires
            0 <= w <= 32767,
            0 <= h <= 32767,
    ;
}

/// Is the point a pixel of the frame?
pub open spec fn in_frame(image: &Image, p: Point) -> bool {
    image.holds(p.x as int, p.y as int)
}

} // verus!
