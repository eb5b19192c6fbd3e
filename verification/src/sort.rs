//! Verified in-place sorts for the two orderings the algorithm needs: cells
//! ascending by elevation, and peaks descending by prominence.  Both are
//! insertion sorts whose contracts pin the ordering and the multiset of
//! elements; tie order is whatever the stable insertion leaves.

use vstd::prelude::*;
use vstd::seq_lib::to_multiset_update;

use crate::grid::Cell;
use crate::peak::Peak;

verus! {

/// Swapping two positions of a sequence does not change its multiset.
proof fn lemma_swap_multiset<A>(s: Seq<A>, i: int, j: int)
    requires
        0 <= i < s.len(),
        0 <= j < s.len(),
    ensures
        s.update(i, s[j]).update(j, s[i]).to_multiset() == s.to_multiset(),
{
    broadcast use to_multiset_update;
    broadcast use vstd::multiset::group_multiset_axioms;
    broadcast use vstd::seq_lib::group_to_multiset_ensures;

    if i == j {
        assert(s.update(i, s[j]).update(j, s[i]) =~= s);
    } else {
        let s1 = s.update(i, s[j]);
        let s2 = s1.update(j, s[i]);
        assert(s.contains(s[i]) && s.contains(s[j]));
        assert(s1.to_multiset() == s.to_multiset().insert(s[j]).remove(s[i]));
        assert(s1[j] == s[j]);
        assert(s2.to_multiset() == s1.to_multiset().insert(s[i]).remove(s[j]));
        assert(s2.to_multiset() =~= s.to_multiset());
    }
}

/// Cells ordered by elevation alone, ascending.
pub open spec fn cells_sorted_by_elevation(s: Seq<Cell>) -> bool {
    forall|a: int, b: int| 0 <= a < b < s.len() ==> s[a].elevation <= s[b].elevation
}

/// Sorts cells ascending by elevation; the multiset of cells is unchanged.
pub fn sort_cells_by_elevation(v: &mut Vec<Cell>)
    ensures
        final(v)@.len() == old(v)@.len(),
        cells_sorted_by_elevation(final(v)@),
        final(v)@.to_multiset() == old(v)@.to_multiset(),
{
    let n = v.len();
    let mut i: usize = 1;
    while i < n
        invariant
            n == v@.len(),
            n == 0 || 1 <= i <= n,
            v@.to_multiset() == old(v)@.to_multiset(),
            forall|a: int, b: int| 0 <= a < b < i ==> v@[a].elevation <= v@[b].elevation,
        decreases n - i,
    {
        let mut j: usize = i;
        while j > 0 && v[j - 1].elevation > v[j].elevation
            invariant
                n == v@.len(),
                0 <= j <= i < n,
                v@.to_multiset() == old(v)@.to_multiset(),
                forall|a: int, b: int|
                    0 <= a < b <= i && b != j ==> v@[a].elevation <= v@[b].elevation,
                j < i ==> v@[j as int].elevation <= v@[j + 1].elevation,
            decreases j,
        {
            proof {
                lemma_swap_multiset(v@, j - 1, j as int);
            }
            let lo = v[j - 1];
            let hi = v[j];
            v[j - 1] = hi;
            v[j] = lo;
            j -= 1;
        }
        i += 1;
    }
}

/// Peaks ordered by prominence alone, descending.
pub open spec fn peaks_sorted_by_prominence(s: Seq<Peak>) -> bool {
    forall|a: int, b: int| 0 <= a < b < s.len() ==> s[a].prominence >= s[b].prominence
}

/// Sorts peaks descending by prominence; the multiset of peaks is unchanged.
pub fn sort_peaks_by_prominence(v: &mut Vec<Peak>)
    ensures
        final(v)@.len() == old(v)@.len(),
        peaks_sorted_by_prominence(final(v)@),
        final(v)@.to_multiset() == old(v)@.to_multiset(),
{
    let n = v.len();
    let mut i: usize = 1;
    while i < n
        invariant
            n == v@.len(),
            n == 0 || 1 <= i <= n,
            v@.to_multiset() == old(v)@.to_multiset(),
            forall|a: int, b: int| 0 <= a < b < i ==> v@[a].prominence >= v@[b].prominence,
        decreases n - i,
    {
        let mut j: usize = i;
        while j > 0 && v[j - 1].prominence < v[j].prominence
            invariant
                n == v@.len(),
                0 <= j <= i < n,
                v@.to_multiset() == old(v)@.to_multiset(),
                forall|a: int, b: int|
                    0 <= a < b <= i && b != j ==> v@[a].prominence >= v@[b].prominence,
                j < i ==> v@[j as int].prominence >= v@[j + 1].prominence,
            decreases j,
        {
            proof {
                lemma_swap_multiset(v@, j - 1, j as int);
            }
            let lo = v[j - 1];
            let hi = v[j];
            v[j - 1] = hi;
            v[j] = lo;
            j -= 1;
        }
        i += 1;
    }
}

} // verus!
