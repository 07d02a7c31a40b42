use vstd::prelude::*;
use vstd::arithmetic::overflow::CheckedU64;

verus! {

/// The profile value a positive kernel offset `j` reads at row `y`: past the
/// last row the profile's *first* value is substituted.
///
/// This wrap-like edge substitution (not clamping) reproduces the reference
/// pipeline's edge policy exactly and is relied on for output compatibility.
pub open spec fn tap_after(p: Seq<u64>, y: int, j: int) -> u64 {
    if y + j < p.len() {
        p[y + j]
    } else {
        p[0]
    }
}

/// The profile value a negative kernel offset `j` reads at row `y`: before
/// the first row the profile's *last* value is substituted.
pub open spec fn tap_before(p: Seq<u64>, y: int, j: int) -> u64 {
    if y - j >= 0 {
        p[y - j]
    } else {
        p[p.len() - 1]
    }
}

/// The convolution sum at row `y` over kernel offsets `0..=j`: the centre
/// value weighted by `k[0]`, plus, for each offset `i` in `1..=j`, the two
/// symmetric neighbours weighted by `k[i]`.
pub open spec fn partial_smoothed(p: Seq<u64>, k: Seq<u64>, y: int, j: int) -> int
    decreases j,
{
    if j <= 0 {
        p[y] * k[0]
    } else {
        partial_smoothed(p, k, y, j - 1) + (tap_after(p, y, j) + tap_before(p, y, j)) * k[j]
    }
}

/// The full convolution sum at row `y`, over all offsets of the kernel.
pub open spec fn smoothed_at(p: Seq<u64>, k: Seq<u64>, y: int) -> int {
    partial_smoothed(p, k, y, k.len() - 1)
}

/// Whether every smoothed value of the profile fits in a machine word.
pub open spec fn smooth_fits(p: Seq<u64>, k: Seq<u64>) -> bool {
    forall|y: int| 0 <= y < p.len() ==> smoothed_at(p, k, y) <= u64::MAX
}

/// The smoothed profile: same length as the input, one convolution sum per
/// row. Only meaningful when `smooth_fits` holds.
pub open spec fn smoothed_of(p: Seq<u64>, k: Seq<u64>) -> Seq<u64> {
    Seq::new(p.len(), |y: int| smoothed_at(p, k, y) as u64)
}

/// On a constant profile the convolution sum is the same at every row:
/// each tap reads the same value, wherever it falls.
pub proof fn lemma_partial_smoothed_uniform(p: Seq<u64>, k: Seq<u64>, y1: int, y2: int, j: int)
    requires
        p.len() >= 1,
        0 <= y1 < p.len(),
        0 <= y2 < p.len(),
        forall|i: int| 0 <= i < p.len() ==> #[trigger] p[i] == p[0],
        0 <= j < k.len(),
    ensures
        partial_smoothed(p, k, y1, j) == partial_smoothed(p, k, y2, j),
    decreases j,
{
    if j > 0 {
        lemma_partial_smoothed_uniform(p, k, y1, y2, j - 1);
    }
}

/// Applies a symmetric weighted moving-average filter to a profile.
///
/// `kernel[0]` weights the row itself and `kernel[i]` weights the rows `i`
/// above and `i` below, with the reference pipeline's wrap-like edge
/// substitution (see `tap_after` / `tap_before`). The kernel is used as
/// given; it is not normalised to sum to one, so the output scale follows the
/// kernel's. Returns `None` exactly when some convolution sum does not fit
/// in a machine word.
pub fn smooth(p: &Vec<u64>, kernel: &Vec<u64>) -> (r: Option<Vec<u64>>)
    requires
        kernel@.len() >= 1,
    ensures
        match r {
            Some(out) => {
                &&& smooth_fits(p@, kernel@)
                &&& out@ == smoothed_of(p@, kernel@)
                &&& out@.len() == p@.len()
                &&& forall|y: int| 0 <= y < p@.len() ==> out@[y] == smoothed_at(p@, kernel@, y)
            },
            None => !smooth_fits(p@, kernel@),
        },
{
    let n = p.len();
    let klen = kernel.len();
    let mut out: Vec<u64> = Vec::new();
    for y in 0..n
        invariant
            n == p@.len(),
            klen == kernel@.len(),
            klen >= 1,
            out@.len() == y,
            forall|i: int| 0 <= i < y ==> out@[i] == #[trigger] smoothed_at(p@, kernel@, i),
    {
        let mut acc = CheckedU64::new(p[y]).mul_value(kernel[0]);
        for j in 1..klen
            invariant
                n == p@.len(),
                klen == kernel@.len(),
                0 <= y < n,
                acc@ == partial_smoothed(p@, kernel@, y as int, j - 1),
        {
            let after: u64 = if j < n - y { p[y + j] } else { p[0] };
            let before: u64 = if y >= j { p[y - j] } else { p[n - 1] };
            assert(after == tap_after(p@, y as int, j as int));
            assert(before == tap_before(p@, y as int, j as int));
            let term = CheckedU64::new(after).add_value(before).mul_value(kernel[j]);
            acc = acc.add_checked(&term);
        }
        assert(acc@ == smoothed_at(p@, kernel@, y as int));
        match acc.to_option() {
            Some(v) => {
                out.push(v);
            },
            None => {
                assert(!smooth_fits(p@, kernel@));
                return None;
            },
        }
    }
    proof {
        assert forall|y: int| 0 <= y < p@.len() implies smoothed_at(p@, kernel@, y)
            <= u64::MAX by {
            assert(out@[y] == smoothed_at(p@, kernel@, y));
        }
        assert(out@ =~= smoothed_of(p@, kernel@));
    }
    Some(out)
}

} // verus!
