use vstd::prelude::*;
use crate::blocks::Block;
use crate::frac::Frac;

verus! {

/// A padded row range `[start, end]` selecting one text line, produced from
/// a block by extending it into the neighbouring background gaps.
///
/// The expansion formulas do not clamp: for the last block a `below`
/// fraction of one can push `end` to `image_height` itself, one past the
/// last row. The pipeline detects that and reports it as an error instead of
/// cropping out of bounds.
#[derive(Clone, Copy, Debug, PartialEq, Eq, Structural)]
pub struct CropInterval {
    pub start: usize,
    pub end: usize,
}

/// A block list an expander accepts: at least one block, each block's rows
/// in bounds, and strictly increasing row order. The detector's output for
/// a profile of `height` rows satisfies this whenever it is non-empty.
pub open spec fn blocks_wf(blocks: Seq<Block>, height: int) -> bool {
    &&& blocks.len() >= 1
    &&& forall|i: int|
        0 <= i < blocks.len() ==> (#[trigger] blocks[i]).start <= blocks[i].end
            && blocks[i].end < height
    &&& forall|i: int|
        0 < i < blocks.len() ==> (#[trigger] blocks[i]).start > blocks[i - 1].end
}

/// The background gap above block `i`: the distance from the previous
/// block's end (or from the image top, row zero, for the first block) to
/// this block's start.
pub open spec fn gap_before(blocks: Seq<Block>, i: int) -> int {
    blocks[i].start - (if i == 0 {
        0int
    } else {
        blocks[i - 1].end as int
    })
}

/// The background gap below block `i`: the distance from this block's end
/// to the next block's start (or to the image bottom, `height`, for the
/// last block).
pub open spec fn gap_after(blocks: Seq<Block>, i: int, height: int) -> int {
    (if i == blocks.len() - 1 {
        height
    } else {
        blocks[i + 1].start as int
    }) - blocks[i].end
}

/// The padded interval of block `i`: the start moves up by the `above`
/// fraction of the gap before, the end moves down by the `below` fraction of
/// the gap after, each product truncated toward zero.
pub open spec fn expanded(blocks: Seq<Block>, i: int, above: Frac, below: Frac, height: int)
    -> CropInterval {
    CropInterval {
        start: (blocks[i].start - above.scale(gap_before(blocks, i))) as usize,
        end: (blocks[i].end + below.scale(gap_after(blocks, i, height))) as usize,
    }
}

/// All padded intervals of a block list, in block order.
pub open spec fn expanded_all(blocks: Seq<Block>, above: Frac, below: Frac, height: int)
    -> Seq<CropInterval> {
    Seq::new(blocks.len(), |i: int| expanded(blocks, i, above, below, height))
}

/// Converts each block into a padded crop interval.
///
/// Padding never crosses a neighbouring block: the start stays at or after
/// the previous block's end (or row zero), the end stays at or before the
/// next block's start (or `height`).
pub fn expand_boundaries(blocks: &Vec<Block>, above: &Frac, below: &Frac, height: usize)
    -> (r: Vec<CropInterval>)
    requires
        above.wf(),
        below.wf(),
        blocks_wf(blocks@, height as int),
    ensures
        r@ == expanded_all(blocks@, *above, *below, height as int),
        r@.len() == blocks@.len(),
        forall|i: int|
            0 <= i < blocks@.len() ==> r@[i] == expanded(
                blocks@,
                i,
                *above,
                *below,
                height as int,
            ),
        forall|i: int|
            0 <= i < blocks@.len() ==> (#[trigger] r@[i]).start <= blocks@[i].start
                && blocks@[i].end <= r@[i].end <= height,
{
    let n = blocks.len();
    let mut r: Vec<CropInterval> = Vec::new();
    for i in 0..n
        invariant
            n == blocks@.len(),
            above.wf(),
            below.wf(),
            blocks_wf(blocks@, height as int),
            height <= usize::MAX,
            r@.len() == i,
            forall|k: int|
                0 <= k < i ==> r@[k] == expanded(blocks@, k, *above, *below, height as int),
            forall|k: int|
                0 <= k < i ==> (#[trigger] r@[k]).start <= blocks@[k].start && blocks@[k].end
                    <= r@[k].end <= height,
    {
        let blk = blocks[i];
        let prev_end: usize = if i == 0 {
            0
        } else {
            blocks[i - 1].end
        };
        let next_start: usize = if i == n - 1 {
            height
        } else {
            blocks[i + 1].start
        };
        let gap_b: usize = blk.start - prev_end;
        let gap_a: usize = next_start - blk.end;
        let pad_above = above.apply(gap_b as u64);
        let pad_below = below.apply(gap_a as u64);
        let start = blk.start - (pad_above as usize);
        let end = blk.end + (pad_below as usize);
        proof {
            assert(gap_b as int == gap_before(blocks@, i as int));
            assert(gap_a as int == gap_after(blocks@, i as int, height as int));
        }
        r.push(CropInterval { start, end });
    }
    proof {
        assert(r@ =~= expanded_all(blocks@, *above, *below, height as int));
    }
    r
}

/// With zero padding fractions each interval is exactly its block.
pub proof fn lemma_zero_padding(blocks: Seq<Block>, i: int, above: Frac, below: Frac, height: int)
    requires
        above.wf(),
        below.wf(),
        above.num == 0,
        below.num == 0,
        blocks_wf(blocks, height),
        0 <= i < blocks.len(),
    ensures
        expanded(blocks, i, above, below, height) == (CropInterval {
            start: blocks[i].start,
            end: blocks[i].end,
        }),
{
    above.lemma_scale_zero(gap_before(blocks, i));
    below.lemma_scale_zero(gap_after(blocks, i, height));
}

/// Padding is monotone: fractions at least as large yield an interval that
/// contains the smaller one — the start moves at most as far up, the end at
/// least as far down.
pub proof fn lemma_padding_monotone(
    blocks: Seq<Block>,
    i: int,
    above1: Frac,
    above2: Frac,
    below1: Frac,
    below2: Frac,
    height: int,
)
    requires
        above1.wf(),
        above2.wf(),
        below1.wf(),
        below2.wf(),
        above1.le(above2),
        below1.le(below2),
        blocks_wf(blocks, height),
        height <= usize::MAX,
        0 <= i < blocks.len(),
    ensures
        expanded(blocks, i, above2, below2, height).start <= expanded(
            blocks,
            i,
            above1,
            below1,
            height,
        ).start,
        expanded(blocks, i, above1, below1, height).end <= expanded(
            blocks,
            i,
            above2,
            below2,
            height,
        ).end,
{
    let gb = gap_before(blocks, i);
    let ga = gap_after(blocks, i, height);
    above1.lemma_scale_monotone(above2, gb);
    below1.lemma_scale_monotone(below2, ga);
    above1.lemma_scale_le(gb);
    above2.lemma_scale_le(gb);
    below1.lemma_scale_le(ga);
    below2.lemma_scale_le(ga);
}

} // verus!
