use vstd::prelude::*;

verus! {

/// A maximal contiguous run of text rows, both bounds inclusive.
#[derive(Clone, Copy, Debug, PartialEq, Eq, Structural)]
pub struct Block {
    pub start: usize,
    pub end: usize,
}

/// What it means for `[a, b]` to be a block of the binary profile `s`:
/// a maximal run of text rows that is closed by a background row below it.
///
/// `b + 1 < s.len()` and `!s[b + 1]` record that a trailing run of text rows
/// reaching the profile's last row is never closed, and so is never a block —
/// the reference pipeline's behaviour, preserved here.
pub open spec fn is_block(s: Seq<bool>, a: int, b: int) -> bool {
    &&& 0 <= a <= b
    &&& b + 1 < s.len()
    &&& !s[b + 1]
    &&& (a == 0 || !s[a - 1])
    &&& forall|k: int| a <= k <= b ==> s[k]
}

/// The blocks that a left-to-right scan starting at row `y` emits, given the
/// scan state: `in_text` says whether a text run is open, `run_start` where
/// it began.
pub open spec fn scan_blocks(s: Seq<bool>, y: int, in_text: bool, run_start: int) -> Seq<Block>
    decreases s.len() - y,
{
    if y < 0 || y >= s.len() {
        Seq::empty()
    } else if s[y] {
        if in_text {
            scan_blocks(s, y + 1, true, run_start)
        } else {
            scan_blocks(s, y + 1, true, y)
        }
    } else {
        if in_text {
            seq![Block { start: run_start as usize, end: (y - 1) as usize }]
                + scan_blocks(s, y + 1, false, 0)
        } else {
            scan_blocks(s, y + 1, false, 0)
        }
    }
}

/// The blocks of a binary profile, in scan order.
pub open spec fn blocks_of(s: Seq<bool>) -> Seq<Block> {
    scan_blocks(s, 0, false, 0)
}

/// The scan states that actually arise: an open run is all text, starts
/// before `y` on a text/background boundary, and fits in a machine word;
/// with no open run the previous row, if any, is background.
pub open spec fn scan_state_ok(s: Seq<bool>, y: int, in_text: bool, run_start: int) -> bool {
    &&& 0 <= y <= s.len()
    &&& s.len() <= usize::MAX
    &&& if in_text {
        &&& 0 <= run_start < y
        &&& (run_start == 0 || !s[run_start - 1])
        &&& forall|k: int| run_start <= k < y ==> s[k]
    } else {
        y == 0 || !s[y - 1]
    }
}

/// An element of a one-element sequence followed by a tail is either that
/// element or an element of the tail.
proof fn lemma_cons_contains(h: Block, rest: Seq<Block>, x: Block)
    ensures
        (seq![h] + rest).contains(x) <==> (x == h || rest.contains(x)),
{
    let s = seq![h] + rest;
    assert(s[0] == h);
    if rest.contains(x) {
        let i = choose|i: int| 0 <= i < rest.len() && rest[i] == x;
        assert(s[i + 1] == x);
    }
    if s.contains(x) {
        let i = choose|i: int| 0 <= i < s.len() && s[i] == x;
        if i > 0 {
            assert(rest[i - 1] == x);
        }
    }
}

/// The scan emits exactly the blocks that lie at or after `y`, plus, when a
/// run is open, the block that run closes into (if it ever closes).
proof fn lemma_scan_membership(s: Seq<bool>, y: int, in_text: bool, run_start: int)
    requires
        scan_state_ok(s, y, in_text, run_start),
    ensures
        forall|blk: Block|
            #[trigger] scan_blocks(s, y, in_text, run_start).contains(blk) <==> {
                &&& is_block(s, blk.start as int, blk.end as int)
                &&& (blk.start as int >= y || (in_text && blk.start == run_start))
            },
    decreases s.len() - y,
{
    let res = scan_blocks(s, y, in_text, run_start);
    if y >= s.len() {
        // No rows remain: nothing is emitted, and no block remains either.
        // A block starting at or after y would need a closing row below it;
        // an open run reaching the end is never closed.
        assert forall|blk: Block| res.contains(blk) implies false by {}
        assert forall|blk: Block|
            is_block(s, blk.start as int, blk.end as int) && (blk.start as int >= y || (
            in_text
                && blk.start == run_start)) implies res.contains(blk) by {
            let a = blk.start as int;
            let b = blk.end as int;
            if a >= y {
                assert(s[a]);  // a <= b < s.len() <= y is impossible
            } else {
                // the open run covers every row from run_start on; in
                // particular s[b + 1] would have to be text
                assert(s[b + 1]);
            }
        }
    } else if s[y] {
        if in_text {
            lemma_scan_membership(s, y + 1, true, run_start);
            assert(res == scan_blocks(s, y + 1, true, run_start));
            assert forall|blk: Block| res.contains(blk) implies {
                &&& is_block(s, blk.start as int, blk.end as int)
                &&& (blk.start as int >= y || (in_text && blk.start == run_start))
            } by {}
            assert forall|blk: Block|
                is_block(s, blk.start as int, blk.end as int) && (blk.start as int >= y || (
                in_text
                    && blk.start == run_start)) implies res.contains(blk) by {
                let a = blk.start as int;
                if a == y {
                    // the row above y is text (it is inside the open run),
                    // so no block can start at y
                    assert(s[y - 1]);
                    assert(false);
                }
            }
        } else {
            lemma_scan_membership(s, y + 1, true, y);
            assert(res == scan_blocks(s, y + 1, true, y));
            assert forall|blk: Block| res.contains(blk) implies {
                &&& is_block(s, blk.start as int, blk.end as int)
                &&& (blk.start as int >= y || (in_text && blk.start == run_start))
            } by {}
            assert forall|blk: Block|
                is_block(s, blk.start as int, blk.end as int) && (blk.start as int >= y || (
                in_text
                    && blk.start == run_start)) implies res.contains(blk) by {}
        }
    } else {
        if in_text {
            let rest = scan_blocks(s, y + 1, false, 0);
            let closed = Block { start: run_start as usize, end: (y - 1) as usize };
            lemma_scan_membership(s, y + 1, false, 0);
            assert(res == seq![closed] + rest);
            assert(is_block(s, closed.start as int, closed.end as int));
            assert forall|blk: Block| res.contains(blk) implies {
                &&& is_block(s, blk.start as int, blk.end as int)
                &&& (blk.start as int >= y || (in_text && blk.start == run_start))
            } by {
                lemma_cons_contains(closed, rest, blk);
            }
            assert forall|blk: Block|
                is_block(s, blk.start as int, blk.end as int) && (blk.start as int >= y || (
                in_text
                    && blk.start == run_start)) implies res.contains(blk) by {
                lemma_cons_contains(closed, rest, blk);
                let a = blk.start as int;
                let b = blk.end as int;
                if a >= y {
                    assert(s[a]);  // a block starts on a text row, but !s[y]
                    assert(a >= y + 1);
                } else {
                    // a == run_start: the run closes exactly at y - 1
                    assert(a == run_start);
                    if b < y - 1 {
                        assert(s[b + 1]);  // still inside the run
                        assert(false);
                    }
                    if b > y - 1 {
                        assert(s[y]);  // y lies inside [a, b]
                        assert(false);
                    }
                    assert(blk == closed);
                }
            }
        } else {
            lemma_scan_membership(s, y + 1, false, 0);
            assert(res == scan_blocks(s, y + 1, false, 0));
            assert forall|blk: Block| res.contains(blk) implies {
                &&& is_block(s, blk.start as int, blk.end as int)
                &&& (blk.start as int >= y || (in_text && blk.start == run_start))
            } by {}
            assert forall|blk: Block|
                is_block(s, blk.start as int, blk.end as int) && (blk.start as int >= y || (
                in_text
                    && blk.start == run_start)) implies res.contains(blk) by {
                let a = blk.start as int;
                if a == y {
                    assert(s[a]);
                    assert(false);
                }
            }
        }
    }
}

/// The scan emits blocks in strictly increasing row order.
proof fn lemma_scan_ordered(s: Seq<bool>, y: int, in_text: bool, run_start: int)
    requires
        scan_state_ok(s, y, in_text, run_start),
    ensures
        forall|i: int, j: int|
            0 <= i < j < scan_blocks(s, y, in_text, run_start).len()
                ==> #[trigger] scan_blocks(s, y, in_text, run_start)[i].end
                < #[trigger] scan_blocks(s, y, in_text, run_start)[j].start,
    decreases s.len() - y,
{
    let res = scan_blocks(s, y, in_text, run_start);
    if y >= s.len() {
    } else if s[y] {
        if in_text {
            lemma_scan_ordered(s, y + 1, true, run_start);
            assert(res == scan_blocks(s, y + 1, true, run_start));
            assert forall|i: int, j: int| 0 <= i < j < res.len() implies res[i].end
                < res[j].start by {
                assert(scan_blocks(s, y + 1, true, run_start)[i].end < scan_blocks(
                    s,
                    y + 1,
                    true,
                    run_start,
                )[j].start);
            }
        } else {
            lemma_scan_ordered(s, y + 1, true, y);
            assert(res == scan_blocks(s, y + 1, true, y));
            assert forall|i: int, j: int| 0 <= i < j < res.len() implies res[i].end
                < res[j].start by {
                assert(scan_blocks(s, y + 1, true, y)[i].end < scan_blocks(s, y + 1, true, y)[
                    j].start);
            }
        }
    } else {
        if in_text {
            let rest = scan_blocks(s, y + 1, false, 0);
            let closed = Block { start: run_start as usize, end: (y - 1) as usize };
            lemma_scan_ordered(s, y + 1, false, 0);
            lemma_scan_membership(s, y + 1, false, 0);
            assert(res == seq![closed] + rest);
            assert forall|i: int, j: int| 0 <= i < j < res.len() implies res[i].end
                < res[j].start by {
                assert(res[j] == rest[j - 1]);
                assert(rest.contains(rest[j - 1]));
                if i > 0 {
                    assert(res[i] == rest[i - 1]);
                    assert(rest[i - 1].end < rest[j - 1].start);
                } else {
                    assert(res[i] == closed);
                }
            }
        } else {
            lemma_scan_ordered(s, y + 1, false, 0);
            assert(res == scan_blocks(s, y + 1, false, 0));
            assert forall|i: int, j: int| 0 <= i < j < res.len() implies res[i].end
                < res[j].start by {
                assert(scan_blocks(s, y + 1, false, 0)[i].end < scan_blocks(s, y + 1, false, 0)[
                    j].start);
            }
        }
    }
}

/// Scans the binary profile left to right and collects every maximal text
/// run that is closed by a background row.
///
/// The result is exactly `blocks_of`: each element is a block of the
/// profile, every block of the profile appears, and the blocks come in
/// strictly increasing row order. A trailing text run that reaches the last
/// row is not emitted.
pub fn detect_blocks(s: &Vec<bool>) -> (r: Vec<Block>)
    ensures
        r@ == blocks_of(s@),
        forall|i: int|
            0 <= i < r@.len() ==> is_block(s@, #[trigger] r@[i].start as int, r@[i].end as int),
        forall|i: int, j: int|
            0 <= i < j < r@.len() ==> #[trigger] r@[i].end < #[trigger] r@[j].start,
        forall|a: int, b: int|
            is_block(s@, a, b) ==> #[trigger] r@.contains(
                Block { start: a as usize, end: b as usize },
            ),
{
    let n = s.len();
    let mut r: Vec<Block> = Vec::new();
    let mut in_text = false;
    let mut run_start: usize = 0;
    for y in 0..n
        invariant
            n == s@.len(),
            in_text ==> run_start < y,
            blocks_of(s@) == r@ + scan_blocks(
                s@,
                y as int,
                in_text,
                if in_text {
                    run_start as int
                } else {
                    0
                },
            ),
    {
        if s[y] {
            if !in_text {
                run_start = y;
                in_text = true;
            }
        } else {
            if in_text {
                let blk = Block { start: run_start, end: y - 1 };
                let ghost rest = scan_blocks(s@, y + 1, false, 0);
                proof {
                    assert(scan_blocks(s@, y as int, true, run_start as int) == seq![blk]
                        + rest);
                    assert(r@ + (seq![blk] + rest) =~= r@.push(blk) + rest);
                }
                r.push(blk);
                in_text = false;
            }
        }
    }
    proof {
        assert(scan_blocks(
            s@,
            n as int,
            in_text,
            if in_text {
                run_start as int
            } else {
                0
            },
        ) =~= Seq::<Block>::empty());
        assert(r@ + Seq::<Block>::empty() =~= r@);
        assert(scan_state_ok(s@, 0, false, 0));
        lemma_scan_membership(s@, 0, false, 0);
        lemma_scan_ordered(s@, 0, false, 0);
        assert forall|i: int|
            0 <= i < r@.len() implies is_block(
            s@,
            #[trigger] r@[i].start as int,
            r@[i].end as int,
        ) by {
            assert(r@.contains(r@[i]));
        }
        assert forall|a: int, b: int| is_block(s@, a, b) implies #[trigger] r@.contains(
            Block { start: a as usize, end: b as usize },
        ) by {
            let blk = Block { start: a as usize, end: b as usize };
            assert(is_block(s@, blk.start as int, blk.end as int));
        }
    }
    r
}

/// A profile with no text row has no blocks.
pub proof fn lemma_no_text_no_blocks(s: Seq<bool>)
    requires
        s.len() <= usize::MAX,
        forall|k: int| 0 <= k < s.len() ==> !(#[trigger] s[k]),
    ensures
        blocks_of(s).len() == 0,
{
    lemma_scan_membership(s, 0, false, 0);
    if blocks_of(s).len() > 0 {
        let blk = blocks_of(s)[0];
        assert(blocks_of(s).contains(blk));
        assert(s[blk.start as int]);
        assert(false);
    }
}

/// A profile whose text rows form exactly one run `[a, b]`, closed by a
/// background row below it, has exactly that one block.
pub proof fn lemma_single_band(s: Seq<bool>, a: int, b: int)
    requires
        s.len() <= usize::MAX,
        0 <= a <= b,
        b + 1 < s.len(),
        forall|k: int| 0 <= k < s.len() ==> ((#[trigger] s[k]) <==> a <= k <= b),
    ensures
        blocks_of(s).len() == 1,
        blocks_of(s)[0] == (Block { start: a as usize, end: b as usize }),
{
    lemma_scan_membership(s, 0, false, 0);
    lemma_scan_ordered(s, 0, false, 0);
    let res = blocks_of(s);
    let band = Block { start: a as usize, end: b as usize };
    assert(is_block(s, band.start as int, band.end as int));
    assert(res.contains(band));
    assert forall|blk: Block| res.contains(blk) implies blk == band by {
        let a2 = blk.start as int;
        let b2 = blk.end as int;
        assert(s[a2]);
        assert(s[b2]);
        if a2 > a {
            assert(s[a2 - 1]);
            assert(false);
        }
        if b2 < b {
            assert(s[b2 + 1]);
            assert(false);
        }
    }
    let i = choose|i: int| 0 <= i < res.len() && res[i] == band;
    if res.len() >= 2 {
        let other: int = if i == 0 {
            1
        } else {
            0
        };
        assert(res.contains(res[other]));
        assert(res[other] == band);
        if other < i {
            assert(res[other].end < res[i].start);
        } else {
            assert(res[i].end < res[other].start);
        }
        assert(false);
    }
}

} // verus!
