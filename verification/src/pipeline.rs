use vstd::prelude::*;
use crate::blocks::{blocks_of, detect_blocks, is_block, lemma_no_text_no_blocks, Block};
use crate::errors::LineError;
use crate::expand::{blocks_wf, expand_boundaries, expanded, expanded_all, CropInterval};
use crate::frac::Frac;
use crate::profile::{lemma_row_sum_uniform, profile_of, row_profile, ImageGrid, Pixel};
use crate::smooth::{lemma_partial_smoothed_uniform, smooth, smooth_fits, smoothed_of};
use crate::threshold::{binarize, binary_of, lemma_le_u64_total_ordering, le_u64, sorted_of,
    threshold_of, threshold_value};

verus! {

/// The caller-supplied knobs of one pipeline invocation.
///
/// `cutoff` picks the percentile of smoothed brightness that separates text
/// from background and must be strictly below one; `above` and `below` are
/// the fractions of the neighbouring background gaps added to each block.
#[derive(Clone, Copy, Debug, PartialEq, Eq, Structural)]
pub struct PipelineConfig {
    pub cutoff: Frac,
    pub above: Frac,
    pub below: Frac,
}

impl PipelineConfig {
    pub open spec fn wf(self) -> bool {
        &&& self.cutoff.wf()
        &&& self.cutoff.below_one()
        &&& self.above.wf()
        &&& self.below.wf()
    }
}

/// What a successful pipeline invocation hands back: the padded crop
/// intervals, one per detected text block, and the smoothed profile for
/// diagnostic rendering.
#[derive(Debug)]
pub struct Extraction {
    pub intervals: Vec<CropInterval>,
    pub smoothed: Vec<u64>,
}

/// The binary profile the pipeline derives from an image: smooth the row
/// sums with the kernel, pick the cutoff percentile of the smoothed values,
/// and mark the rows strictly below it.
#[verifier::opaque]
pub open spec fn pipeline_binary(img: ImageGrid, kernel: Seq<u64>, cutoff: Frac) -> Seq<bool> {
    let sm = smoothed_of(profile_of(img), kernel);
    binary_of(sm, threshold_of(sm, cutoff))
}

/// The text blocks the pipeline detects in an image.
#[verifier::opaque]
pub open spec fn pipeline_blocks(img: ImageGrid, kernel: Seq<u64>, cutoff: Frac) -> Seq<Block> {
    blocks_of(pipeline_binary(img, kernel, cutoff))
}

/// Runs the front of the pipeline: row profile, smoothing, percentile
/// threshold, binarization and block detection, handing back the smoothed
/// profile and the detected blocks.
fn profile_and_blocks(img: &ImageGrid, kernel: &Vec<u64>, config: &PipelineConfig)
    -> (r: Result<(Vec<u64>, Vec<Block>), LineError>)
    requires
        img.wf(),
        config.wf(),
        kernel@.len() >= 1,
    ensures
        match r {
            Ok(out) => {
                &&& img.width >= 1 && img.height >= 1
                &&& smooth_fits(profile_of(*img), kernel@)
                &&& out.0@ == smoothed_of(profile_of(*img), kernel@)
                &&& out.1@ == pipeline_blocks(*img, kernel@, config.cutoff)
                &&& out.1@.len() >= 1
                &&& blocks_wf(out.1@, img.height as int)
            },
            Err(LineError::InvalidImage) => img.width == 0 || img.height == 0,
            Err(LineError::ArithmeticOverflow) => {
                &&& img.width >= 1 && img.height >= 1
                &&& !smooth_fits(profile_of(*img), kernel@)
            },
            Err(LineError::NoBlocksFound) => {
                &&& img.width >= 1 && img.height >= 1
                &&& smooth_fits(profile_of(*img), kernel@)
                &&& pipeline_blocks(*img, kernel@, config.cutoff).len() == 0
            },
            Err(LineError::OutOfBoundsCrop) => false,
            Err(LineError::EmptyProfile) => false,
        },
{
    let p = match row_profile(img) {
        Ok(p) => p,
        Err(e) => {
            return Err(e);
        },
    };
    let sm = match smooth(&p, kernel) {
        Some(sm) => sm,
        None => {
            return Err(LineError::ArithmeticOverflow);
        },
    };
    let cut = match threshold_value(&sm, &config.cutoff) {
        Ok(cut) => cut,
        Err(e) => {
            return Err(e);
        },
    };
    let bin = binarize(&sm, cut);
    let ghost bs = pipeline_binary(*img, kernel@, config.cutoff);
    proof {
        reveal(pipeline_binary);
        reveal(pipeline_blocks);
        assert(bin@ == bs);
    }
    let blocks = detect_blocks(&bin);
    if blocks.len() == 0 {
        return Err(LineError::NoBlocksFound);
    }
    proof {
        assert forall|i: int| 0 <= i < blocks@.len() implies (#[trigger] blocks@[i]).start
            <= blocks@[i].end && blocks@[i].end < img.height by {
            assert(is_block(bs, blocks@[i].start as int, blocks@[i].end as int));
        }
        assert forall|i: int| 0 < i < blocks@.len() implies (#[trigger] blocks@[i]).start
            > blocks@[i - 1].end by {}
        assert(blocks_wf(blocks@, img.height as int));
    }
    Ok((sm, blocks))
}

/// Runs the whole pipeline: row profile, smoothing, percentile threshold,
/// binarization, block detection, boundary expansion, bounds check.
///
/// Each error names the exact condition that produced it; on success the
/// intervals are exactly the padded blocks of `pipeline_blocks` and the
/// smoothed profile is returned alongside for diagnostics.
pub fn extract_lines(img: &ImageGrid, kernel: &Vec<u64>, config: &PipelineConfig)
    -> (r: Result<Extraction, LineError>)
    requires
        img.wf(),
        config.wf(),
        kernel@.len() >= 1,
    ensures
        match r {
            Ok(ex) => {
                &&& img.width >= 1 && img.height >= 1
                &&& smooth_fits(profile_of(*img), kernel@)
                &&& ex.smoothed@ == smoothed_of(profile_of(*img), kernel@)
                &&& pipeline_blocks(*img, kernel@, config.cutoff).len() >= 1
                &&& ex.intervals@ == expanded_all(
                    pipeline_blocks(*img, kernel@, config.cutoff),
                    config.above,
                    config.below,
                    img.height as int,
                )
                &&& forall|i: int|
                    0 <= i < ex.intervals@.len() ==> (#[trigger] ex.intervals@[i]).end
                        < img.height
            },
            Err(LineError::InvalidImage) => img.width == 0 || img.height == 0,
            Err(LineError::ArithmeticOverflow) => {
                &&& img.width >= 1 && img.height >= 1
                &&& !smooth_fits(profile_of(*img), kernel@)
            },
            Err(LineError::NoBlocksFound) => {
                &&& img.width >= 1 && img.height >= 1
                &&& smooth_fits(profile_of(*img), kernel@)
                &&& pipeline_blocks(*img, kernel@, config.cutoff).len() == 0
            },
            Err(LineError::OutOfBoundsCrop) => {
                &&& img.width >= 1 && img.height >= 1
                &&& smooth_fits(profile_of(*img), kernel@)
                &&& pipeline_blocks(*img, kernel@, config.cutoff).len() >= 1
                &&& exists|i: int|
                    0 <= i < pipeline_blocks(*img, kernel@, config.cutoff).len()
                        && (#[trigger] expanded(
                        pipeline_blocks(*img, kernel@, config.cutoff),
                        i,
                        config.above,
                        config.below,
                        img.height as int,
                    )).end >= img.height
            },
            Err(LineError::EmptyProfile) => false,
        },
{
    let (sm, blocks) = match profile_and_blocks(img, kernel, config) {
        Ok(out) => out,
        Err(e) => {
            return Err(e);
        },
    };
    let height = img.height;
    let intervals = expand_boundaries(&blocks, &config.above, &config.below, height);
    if !all_in_bounds(&intervals, height) {
        proof {
            let i = choose|i: int|
                0 <= i < intervals@.len() && (#[trigger] intervals@[i]).end >= height;
            assert(intervals@[i] == expanded(
                blocks@,
                i,
                config.above,
                config.below,
                height as int,
            ));
        }
        return Err(LineError::OutOfBoundsCrop);
    }
    Ok(Extraction { intervals, smoothed: sm })
}

/// Whether every interval ends before `height`, i.e. stays inside the image.
fn all_in_bounds(intervals: &Vec<CropInterval>, height: usize) -> (ok: bool)
    ensures
        ok <==> (forall|i: int|
            0 <= i < intervals@.len() ==> (#[trigger] intervals@[i]).end < height),
{
    let n = intervals.len();
    for i in 0..n
        invariant
            n == intervals@.len(),
            forall|k: int| 0 <= k < i ==> (#[trigger] intervals@[k]).end < height,
    {
        if intervals[i].end >= height {
            return false;
        }
    }
    true
}

/// A grid whose pixels all equal `px`.
pub open spec fn uniform_grid(img: ImageGrid, px: Pixel) -> bool {
    forall|y: int, x: int|
        0 <= y < img.height && 0 <= x < img.width ==> (#[trigger] img.rows@[y]@[x]) == px
}

/// A uniform image yields no text blocks: every row has the same brightness
/// sum, smoothing a constant profile gives a constant profile, the percentile
/// pick returns that constant, and no row is strictly below it — so
/// binarization marks nothing as text and the detector finds nothing. On
/// such an image the pipeline reports `NoBlocksFound`.
pub proof fn lemma_uniform_image_no_blocks(img: ImageGrid, kernel: Seq<u64>, cutoff: Frac, px: Pixel)
    requires
        img.wf(),
        img.width >= 1,
        img.height >= 1,
        kernel.len() >= 1,
        cutoff.wf(),
        cutoff.below_one(),
        uniform_grid(img, px),
    ensures
        pipeline_blocks(img, kernel, cutoff).len() == 0,
{
    reveal(pipeline_binary);
    reveal(pipeline_blocks);
    let p = profile_of(img);
    // every row sum is the same
    assert forall|y: int| 0 <= y < p.len() implies #[trigger] p[y] == p[0] by {
        lemma_row_sum_uniform(img.rows@[y]@, px);
        lemma_row_sum_uniform(img.rows@[0]@, px);
    }
    // so every smoothed value is the same
    let sm = smoothed_of(p, kernel);
    assert forall|y: int| 0 <= y < sm.len() implies #[trigger] sm[y] == sm[0] by {
        lemma_partial_smoothed_uniform(p, kernel, y, 0, kernel.len() - 1);
    }
    // a constant sequence is its own ascending ordering
    lemma_le_u64_total_ordering();
    sm.lemma_sort_by_ensures(le_u64());
    assert(vstd::relations::sorted_by(sm, le_u64()));
    vstd::seq_lib::lemma_sorted_unique(sm, sorted_of(sm), le_u64());
    assert(sorted_of(sm) == sm);
    // the percentile pick returns the constant, and nothing is below it
    let cut = threshold_of(sm, cutoff);
    cutoff.lemma_scale_below(sm.len() as int);
    assert(cut == sm[0]);
    let bs = pipeline_binary(img, kernel, cutoff);
    assert forall|k: int| 0 <= k < bs.len() implies !(#[trigger] bs[k]) by {
        assert(sm[k] == sm[0]);
    }
    lemma_no_text_no_blocks(bs);
}

/// The all-white page: an image of uniform maximum brightness yields no
/// text blocks at all.
pub proof fn lemma_all_white_image_no_blocks(img: ImageGrid, kernel: Seq<u64>, cutoff: Frac)
    requires
        img.wf(),
        img.width >= 1,
        img.height >= 1,
        kernel.len() >= 1,
        cutoff.wf(),
        cutoff.below_one(),
        uniform_grid(img, Pixel { r: 255, g: 255, b: 255 }),
    ensures
        pipeline_blocks(img, kernel, cutoff).len() == 0,
{
    lemma_uniform_image_no_blocks(img, kernel, cutoff, Pixel { r: 255, g: 255, b: 255 });
}

} // verus!
