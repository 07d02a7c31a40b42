use vstd::prelude::*;
use vstd::pervasive::VecAdditionalExecFns;
use vstd::relations::{sorted_by, total_ordering};
use vstd::seq_lib::lemma_sorted_unique;
use crate::errors::LineError;
use crate::frac::Frac;

verus! {

/// The ordering the thresholder sorts brightness values by.
pub open spec fn le_u64() -> spec_fn(u64, u64) -> bool {
    |x: u64, y: u64| x <= y
}

/// `<=` on machine words is a total order.
pub proof fn lemma_le_u64_total_ordering()
    ensures
        total_ordering(le_u64()),
{
    assert(vstd::relations::reflexive(le_u64()));
    assert(vstd::relations::antisymmetric(le_u64()));
    assert(vstd::relations::transitive(le_u64()));
    assert(vstd::relations::strongly_connected(le_u64()));
}

/// The profile's values in ascending order.
pub open spec fn sorted_of(s: Seq<u64>) -> Seq<u64> {
    s.sort_by(le_u64())
}

/// The separating brightness value: the element at index
/// `floor(cutoff * len)` of the ascending profile (a percentile pick — the
/// reference pipeline calls it a median, but it is only one for
/// `cutoff = 0.5`).
pub open spec fn threshold_of(s: Seq<u64>, cutoff: Frac) -> u64 {
    sorted_of(s)[cutoff.scale(s.len() as int)]
}

/// A row marked text is one strictly darker than the separating value.
pub open spec fn binary_of(s: Seq<u64>, cut: u64) -> Seq<bool> {
    Seq::new(s.len(), |y: int| s[y] < cut)
}

/// Exchanging two positions of a sequence leaves its multiset of values
/// unchanged.
proof fn lemma_swap_preserves_multiset(s: Seq<u64>, i: int, j: int)
    requires
        0 <= i < s.len(),
        0 <= j < s.len(),
        i != j,
    ensures
        s.update(i, s[j]).update(j, s[i]).to_multiset() == s.to_multiset(),
{
    broadcast use vstd::seq_lib::group_to_multiset_ensures;
    broadcast use vstd::multiset::group_multiset_axioms;

    let s1 = s.update(i, s[j]);
    let s2 = s1.update(j, s[i]);
    assert(s.to_multiset().contains(s[i]));
    assert(s1[j] == s[j]);
    assert(s1.to_multiset() == s.to_multiset().insert(s[j]).remove(s[i]));
    assert(s2.to_multiset() == s1.to_multiset().insert(s[i]).remove(s1[j]));
    assert(s2.to_multiset() =~= s.to_multiset());
}

/// Sorts the values ascending (insertion sort).
fn sort_ascending(v: &mut Vec<u64>)
    ensures
        final(v)@.len() == old(v)@.len(),
        sorted_by(final(v)@, le_u64()),
        final(v)@.to_multiset() == old(v)@.to_multiset(),
{
    let n = v.len();
    if n == 0 {
        proof {
            assert(v@ =~= Seq::<u64>::empty());
        }
        return ;
    }
    for i in 1..n
        invariant
            n == v@.len(),
            1 <= n,
            v@.to_multiset() == old(v)@.to_multiset(),
            sorted_by(v@.subrange(0, i as int), le_u64()),
    {
        let mut j: usize = i;
        while j > 0 && v[j - 1] > v[j]
            invariant
                n == v@.len(),
                0 <= j <= i < n,
                v@.to_multiset() == old(v)@.to_multiset(),
                sorted_by(v@.subrange(0, j as int), le_u64()),
                sorted_by(v@.subrange(j as int, i + 1), le_u64()),
                forall|a: int, c: int| 0 <= a < j && j < c <= i ==> le_u64()(v@[a], v@[c]),
            decreases j,
        {
            let ghost before = v@;
            let x = v[j - 1];
            let y = v[j];
            v.set(j - 1, y);
            v.set(j, x);
            proof {
                lemma_swap_preserves_multiset(before, j - 1, j as int);
                assert(v@ == before.update(j - 1, before[j as int]).update(
                    j as int,
                    before[j - 1],
                ));
                assert(v@.subrange(0, j - 1) =~= before.subrange(0, j - 1));
                assert forall|a: int, c: int|
                    j - 1 <= a <= c <= i implies le_u64()(v@[a], v@[c]) by {
                    assert(before.subrange(j as int, i + 1)[0] == before[j as int]);
                    if a == j - 1 {
                        if c > j {
                            assert(le_u64()(
                                before.subrange(j as int, i + 1)[0],
                                before.subrange(j as int, i + 1)[c - j],
                            ));
                        }
                    } else if a == j as int {
                        if c > j {
                            assert(le_u64()(before[a - 1], before.subrange(j as int, i + 1)[
                                c - j]));
                        }
                    } else {
                        assert(le_u64()(
                            before.subrange(j as int, i + 1)[a - j],
                            before.subrange(j as int, i + 1)[c - j],
                        ));
                    }
                }
                assert(sorted_by(v@.subrange(j - 1, i + 1), le_u64()));
                assert forall|a: int, c: int|
                    0 <= a < j - 1 && j - 1 < c <= i implies le_u64()(v@[a], v@[c]) by {
                    assert(v@[a] == before[a]);
                    if c == j {
                        assert(before.subrange(0, j as int)[a] == before[a]);
                        assert(before.subrange(0, j as int)[j - 1] == before[j - 1]);
                        assert(le_u64()(
                            before.subrange(0, j as int)[a],
                            before.subrange(0, j as int)[j - 1],
                        ));
                    } else {
                        assert(le_u64()(before[a], before[c]));
                    }
                }
            }
            j = j - 1;
        }
        proof {
            let whole = v@.subrange(0, i + 1);
            assert forall|a: int, c: int| 0 <= a <= c <= i implies le_u64()(
                whole[a],
                whole[c],
            ) by {
                if c < j {
                    assert(le_u64()(v@.subrange(0, j as int)[a], v@.subrange(0, j as int)[c]));
                } else if a >= j {
                    assert(le_u64()(
                        v@.subrange(j as int, i + 1)[a - j],
                        v@.subrange(j as int, i + 1)[c - j],
                    ));
                } else if j > 0 && a == j - 1 && c == j {
                    assert(le_u64()(v@[a], v@[c]));
                } else if j > 0 && a < j {
                    // a .. j-1 .. j .. c, chain through the boundary
                    assert(le_u64()(v@.subrange(0, j as int)[a], v@.subrange(0, j as int)[
                        j - 1]));
                    assert(le_u64()(v@[j - 1], v@[j as int]));
                    assert(le_u64()(
                        v@.subrange(j as int, i + 1)[0],
                        v@.subrange(j as int, i + 1)[c - j],
                    ));
                }
            }
            assert(sorted_by(whole, le_u64()));
        }
    }
    proof {
        if n >= 1 {
            assert(v@.subrange(0, n as int) =~= v@);
        } else {
            assert(v@ =~= Seq::<u64>::empty());
        }
    }
}

/// Computes the percentile index `floor(cutoff * n)` for a profile of `n`
/// rows. For `n >= 1` and a cutoff strictly below one the index is always
/// in `[0, n)`.
pub fn percentile_index(n: usize, cutoff: &Frac) -> (r: usize)
    requires
        1 <= n,
        cutoff.wf(),
        cutoff.below_one(),
    ensures
        r == cutoff.scale(n as int),
        r < n,
{
    proof {
        cutoff.lemma_scale_below(n as int);
        assert((cutoff.num as int) * (n as int) <= u64::MAX as int * (usize::MAX as int))
            by (nonlinear_arith)
            requires
                0 <= cutoff.num <= u64::MAX,
                0 <= n <= usize::MAX,
        ;
    }
    let wide: u128 = (cutoff.num as u128) * (n as u128) / (cutoff.den as u128);
    wide as usize
}

/// Computes the separating brightness value of a profile: sort a copy
/// ascending and pick the element at the percentile index.
///
/// Returns `EmptyProfile` exactly when the profile has no rows.
pub fn threshold_value(p: &Vec<u64>, cutoff: &Frac) -> (r: Result<u64, LineError>)
    requires
        cutoff.wf(),
        cutoff.below_one(),
    ensures
        match r {
            Ok(m) => p@.len() >= 1 && m == threshold_of(p@, *cutoff),
            Err(e) => e == LineError::EmptyProfile && p@.len() == 0,
        },
{
    if p.len() == 0 {
        return Err(LineError::EmptyProfile);
    }
    let mut sorted: Vec<u64> = Vec::new();
    let n = p.len();
    for i in 0..n
        invariant
            n == p@.len(),
            sorted@ =~= p@.subrange(0, i as int),
    {
        sorted.push(p[i]);
        proof {
            assert(sorted@ =~= p@.subrange(0, i + 1));
        }
    }
    proof {
        assert(sorted@ =~= p@);
    }
    sort_ascending(&mut sorted);
    proof {
        lemma_le_u64_total_ordering();
        p@.lemma_sort_by_ensures(le_u64());
        assert(sorted@.to_multiset() == sorted_of(p@).to_multiset());
        lemma_sorted_unique(sorted@, sorted_of(p@), le_u64());
        assert(sorted@ == sorted_of(p@));
    }
    let idx = percentile_index(n, cutoff);
    Ok(sorted[idx])
}

/// Splits a profile into text rows (strictly below the separating value) and
/// background rows (at or above it).
pub fn binarize(p: &Vec<u64>, cut: u64) -> (r: Vec<bool>)
    ensures
        r@ == binary_of(p@, cut),
        r@.len() == p@.len(),
        forall|y: int| 0 <= y < p@.len() ==> r@[y] == (p@[y] < cut),
{
    let mut r: Vec<bool> = Vec::new();
    let n = p.len();
    for y in 0..n
        invariant
            n == p@.len(),
            r@.len() == y,
            forall|i: int| 0 <= i < y ==> r@[i] == (p@[i] < cut),
    {
        r.push(p[y] < cut);
    }
    proof {
        assert(r@ =~= binary_of(p@, cut));
    }
    r
}

} // verus!
