//! The pixel grid that a render fills.
use vstd::prelude::*;

verus! {

/// A grid of `width * height` pixels, stored as `height` rows of `width`
/// pixels each. What a pixel is (a colour in whatever encoding) is left to
/// the user of the grid.
pub struct Canvas<T> {
    pub width: u32,
    pub height: u32,
    pub grid: Vec<Vec<T>>,
}

impl<T: Copy> Canvas<T> {
    /// The grid has `height` rows, and each row has `width` pixels.
    pub open spec fn well_formed(&self) -> bool {
        &&& self.grid@.len() == self.height
        &&& forall|y: int| 0 <= y < self.height ==> (#[trigger] self.grid@[y])@.len() == self.width
    }

    /// The pixel in column `x` of row `y`.
    pub open spec fn pixel(&self, x: int, y: int) -> T {
        self.grid@[y]@[x]
    }

    /// A canvas of the given size with `fill` in every pixel.
    pub fn new(width: u32, height: u32, fill: T) -> (c: Canvas<T>)
        ensures
            c.well_formed(),
            c.width == width,
            c.height == height,
            forall|x: int, y: int| 0 <= x < width && 0 <= y < height ==> c.pixel(x, y) == fill,
    {
        let mut grid: Vec<Vec<T>> = Vec::new();
        let mut y: u32 = 0;
        while y < height
            invariant
                y <= height,
                grid@.len() == y,
                forall|j: int| 0 <= j < y ==> (#[trigger] grid@[j])@.len() == width,
                forall|i: int, j: int| 0 <= i < width && 0 <= j < y ==> grid@[j]@[i] == fill,
            decreases height - y,
        {
            let mut line: Vec<T> = Vec::new();
            let mut x: u32 = 0;
            while x < width
                invariant
                    x <= width,
                    line@.len() == x,
                    forall|i: int| 0 <= i < x ==> line@[i] == fill,
                decreases width - x,
            {
                line.push(fill);
                x += 1;
            }
            grid.push(line);
            y += 1;
        }
        Canvas { width, height, grid }
    }

    /// The pixel in column `x` of row `y`.
    pub fn pixel_at(&self, x: usize, y: usize) -> (color: T)
        requires
            self.well_formed(),
            x < self.width,
            y < self.height,
        ensures
            color == self.pixel(x as int, y as int),
    {
        self.grid[y][x]
    }

    /// Sets the pixel in column `x` of row `y`. Every other pixel stays.
    pub fn write_pixel(&mut self, x: usize, y: usize, color: T)
        requires
            old(self).well_formed(),
            x < old(self).width,
            y < old(self).height,
        ensures
            final(self).well_formed(),
            final(self).width == old(self).width,
            final(self).height == old(self).height,
            final(self).pixel(x as int, y as int) == color,
            forall|i: int, j: int|
                0 <= i < old(self).width && 0 <= j < old(self).height && (i != x || j != y)
                    ==> final(self).pixel(i, j) == old(self).pixel(i, j),
    {
        self.grid[y][x] = color;
    }
}

} // verus!
