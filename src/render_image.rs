use vstd::prelude::*;

verus! {

/// A `x_size` by `y_size` picture of packed RGBA pixels, stored row by row.
pub struct RenderImage {
    pub x_size: usize,
    pub y_size: usize,
    pub pixels: Vec<u32>,
}

impl RenderImage {
    /// A picture of the given size with every pixel transparent black.
    pub fn new(x_dimension: usize, y_dimension: usize) -> (r: RenderImage)
        requires
            x_dimension * y_dimension <= usize::MAX,
        ensures
            r.x_size == x_dimension,
            r.y_size == y_dimension,
            r.pixels@.len() == x_dimension * y_dimension,
            forall|i: int| 0 <= i < r.pixels@.len() ==> #[trigger] r.pixels@[i] == 0,
    {
        let total = x_dimension * y_dimension;
        let mut pixels: Vec<u32> = Vec::new();
        let mut i: usize = 0;
        while i < total
            invariant
                i <= total,
                pixels@.len() == i,
                forall|j: int| 0 <= j < i ==> #[trigger] pixels@[j] == 0,
            decreases total - i,
        {
            pixels.push(0);
            i = i + 1;
        }
        RenderImage { x_size: x_dimension, y_size: y_dimension, pixels }
    }
}

} // verus!
