use vstd::prelude::*;
use crate::errors::LineError;

verus! {

/// One pixel, with red, green and blue channel intensities.
#[derive(Clone, Copy, Debug, PartialEq, Eq, Structural)]
pub struct Pixel {
    pub r: u8,
    pub g: u8,
    pub b: u8,
}

/// A rectangular grid of pixels, row by row.
///
/// The dimensions are capped at `u32::MAX`, matching the address range of the
/// raster formats the caller decodes from; the cap also keeps every row
/// brightness sum comfortably inside a machine word.
pub struct ImageGrid {
    pub width: usize,
    pub height: usize,
    pub rows: Vec<Vec<Pixel>>,
}

impl ImageGrid {
    /// The grid is rectangular and its dimensions fit in 32 bits.
    pub open spec fn wf(self) -> bool {
        &&& self.rows@.len() == self.height
        &&& forall|y: int| 0 <= y < self.height ==> (#[trigger] self.rows@[y])@.len()
            == self.width
        &&& self.width <= u32::MAX
        &&& self.height <= u32::MAX
    }
}

/// The brightness of one pixel: the sum of its three channels, in `[0, 765]`.
pub open spec fn pixel_brightness(p: Pixel) -> int {
    p.r + p.g + p.b
}

/// The brightness sum of a row of pixels.
///
/// The profile stores this total rather than the per-row mean: the mean is
/// `row_sum / (3 * width)`, and every later stage (linear smoothing, a
/// percentile pick, comparisons against that percentile) is invariant under
/// that fixed positive factor, so keeping the total keeps the arithmetic
/// exact. Callers that want the mean for display divide themselves.
pub open spec fn row_sum(row: Seq<Pixel>) -> int
    decreases row.len(),
{
    if row.len() == 0 {
        0
    } else {
        row_sum(row.drop_last()) + pixel_brightness(row.last())
    }
}

/// The brightness profile of a grid: one row sum per row, top to bottom.
pub open spec fn profile_of(img: ImageGrid) -> Seq<u64> {
    Seq::new(img.height as nat, |y: int| row_sum(img.rows@[y]@) as u64)
}

/// A row's brightness sum is between zero and 765 per pixel.
pub proof fn lemma_row_sum_bounds(row: Seq<Pixel>)
    ensures
        0 <= row_sum(row) <= 765 * row.len(),
    decreases row.len(),
{
    if row.len() > 0 {
        lemma_row_sum_bounds(row.drop_last());
    }
}

/// A row of identical pixels sums to the pixel's brightness times the width.
pub proof fn lemma_row_sum_uniform(row: Seq<Pixel>, p: Pixel)
    requires
        forall|x: int| 0 <= x < row.len() ==> row[x] == p,
    ensures
        row_sum(row) == pixel_brightness(p) * row.len(),
    decreases row.len(),
{
    if row.len() == 0 {
    } else {
        lemma_row_sum_uniform(row.drop_last(), p);
        assert(pixel_brightness(p) * row.len() == pixel_brightness(p) * (row.len() - 1)
            + pixel_brightness(p)) by (nonlinear_arith);
    }
}

/// Reduces each image row to its brightness sum.
///
/// Returns `InvalidImage` exactly when the grid has zero width or zero
/// height, where no meaningful profile exists.
pub fn row_profile(img: &ImageGrid) -> (r: Result<Vec<u64>, LineError>)
    requires
        img.wf(),
    ensures
        match r {
            Ok(p) => {
                &&& img.width >= 1
                &&& img.height >= 1
                &&& p@ == profile_of(*img)
                &&& p@.len() == img.height
                &&& forall|y: int| 0 <= y < img.height ==> p@[y] == row_sum(img.rows@[y]@)
            },
            Err(e) => e == LineError::InvalidImage && (img.width == 0 || img.height == 0),
        },
{
    if img.width == 0 || img.height == 0 {
        return Err(LineError::InvalidImage);
    }
    let mut p: Vec<u64> = Vec::new();
    let height = img.height;
    for y in 0..height
        invariant
            img.wf(),
            height == img.height,
            p@.len() == y,
            forall|i: int| 0 <= i < y ==> p@[i] == row_sum(img.rows@[i]@),
    {
        let row = &img.rows[y];
        let width = row.len();
        let mut sum: u64 = 0;
        for x in 0..width
            invariant
                width == row@.len(),
                width <= u32::MAX,
                sum == row_sum(row@.subrange(0, x as int)),
                sum <= 765 * x,
        {
            proof {
                assert(row@.subrange(0, x + 1).drop_last() =~= row@.subrange(0, x as int));
                assert(row@.subrange(0, x + 1).last() == row@[x as int]);
            }
            let px = row[x];
            sum = sum + (px.r as u64 + px.g as u64 + px.b as u64);
        }
        proof {
            assert(row@.subrange(0, width as int) =~= row@);
        }
        p.push(sum);
    }
    proof {
        assert(p@ =~= profile_of(*img));
    }
    Ok(p)
}

} // verus!
