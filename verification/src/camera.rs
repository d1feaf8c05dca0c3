//! The raster side of a camera: the resolution of the picture and the walk
//! over its pixels.
//!
//! The optics of a camera (its field of view, its place in the scene, the
//! ray that it sends through a pixel) are the caller's. They reach the walk
//! as one closure that answers a pixel's colour.
use vstd::prelude::*;
use crate::canvas::Canvas;

verus! {

/// The resolution of the picture that a camera takes.
#[derive(Clone, Copy, Debug, PartialEq, Eq, Structural)]
pub struct Camera {
    pub hsize: u32,
    pub vsize: u32,
}

impl Camera {
    /// A camera that takes pictures `hsize` pixels wide and `vsize` pixels
    /// high.
    pub fn new(hsize: u32, vsize: u32) -> (c: Camera)
        ensures
            c.hsize == hsize,
            c.vsize == vsize,
    {
        Camera { hsize, vsize }
    }

    /// The width of the picture in pixels.
    pub fn hsize(&self) -> (n: u32)
        ensures
            n == self.hsize,
    {
        self.hsize
    }

    /// The height of the picture in pixels.
    pub fn vsize(&self) -> (n: u32)
        ensures
            n == self.vsize,
    {
        self.vsize
    }

    /// Takes the picture: asks `color_at` once for every pixel `(x, y)` with
    /// `x < hsize` and `y < vsize`, and for no other, and puts each answer in
    /// its place.
    pub fn render<C: Copy, F: Fn(u32, u32) -> C>(&self, color_at: F) -> (image: Canvas<C>)
        requires
            forall|x: u32, y: u32| x < self.hsize && y < self.vsize ==> call_requires(color_at, (x, y)),
        ensures
            image.well_formed(),
            image.width == self.hsize,
            image.height == self.vsize,
            forall|x: u32, y: u32|
                x < self.hsize && y < self.vsize ==> call_ensures(
                    color_at,
                    (x, y),
                    #[trigger] image.pixel(x as int, y as int),
                ),
    {
        let mut grid: Vec<Vec<C>> = Vec::new();
        let mut y: u32 = 0;
        while y < self.vsize
            invariant
                y <= self.vsize,
                grid@.len() == y,
                forall|i: u32, j: u32|
                    i < self.hsize && j < self.vsize ==> call_requires(color_at, (i, j)),
                forall|j: int| 0 <= j < y ==> (#[trigger] grid@[j])@.len() == self.hsize,
                forall|i: u32, j: u32|
                    i < self.hsize && j < y ==> call_ensures(
                        color_at,
                        (i, j),
                        #[trigger] grid@[j as int]@[i as int],
                    ),
            decreases self.vsize - y,
        {
            let mut line: Vec<C> = Vec::new();
            let mut x: u32 = 0;
            while x < self.hsize
                invariant
                    x <= self.hsize,
                    y < self.vsize,
                    line@.len() == x,
                    forall|i: u32, j: u32|
                        i < self.hsize && j < self.vsize ==> call_requires(color_at, (i, j)),
                    forall|i: u32| i < x ==> call_ensures(color_at, (i, y), #[trigger] line@[i as int]),
                decreases self.hsize - x,
            {
                let color: C = color_at(x, y);
                line.push(color);
                x += 1;
            }
            grid.push(line);
            y += 1;
        }
        Canvas { width: self.hsize, height: self.vsize, grid }
    }
}

} // verus!
