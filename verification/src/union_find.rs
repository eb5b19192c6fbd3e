//! The augmented disjoint-set forest: one element per grid cell, merged by
//! rank with path compression.  Each component carries its dominant peak, its
//! key saddle, and a boundary-drainage flag; the merge rule over those
//! aggregates is where the prominence computation actually happens.
//!
//! The abstraction is the spec function [`uf_root`], the canonical
//! representative reached by following parent links.  Every operation's
//! contract says how it moves that abstraction and the per-root aggregates;
//! path compression changes the parent array but never the abstraction.

use vstd::prelude::*;
use vstd::set_lib::lemma_len_subset;
use vstd::set_lib::lemma_int_range;
use vstd::set_lib::set_int_range;

use crate::peak::Peak;
use crate::sort::peaks_sorted_by_prominence;
use crate::sort::sort_peaks_by_prominence;

verus! {

/// Standard forest shape: every parent pointer is in range, ranks are bounded
/// by the element count, and rank strictly increases along parent links, so
/// every chain of parents reaches a self-parented root.
pub open spec fn paths_ok(parent: Seq<usize>, rank: Seq<usize>) -> bool {
    &&& rank.len() == parent.len()
    &&& forall|i: int| 0 <= i < parent.len() ==> (#[trigger] parent[i]) < parent.len()
    &&& forall|i: int| 0 <= i < rank.len() ==> (#[trigger] rank[i]) <= rank.len()
    &&& forall|i: int|
        0 <= i < parent.len() ==> ((#[trigger] parent[i]) == i || rank[parent[i] as int] > rank[i])
}

/// The canonical representative of `x`'s component: the end of `x`'s parent
/// chain.  Well defined whenever the forest shape holds.
pub open spec fn uf_root(parent: Seq<usize>, rank: Seq<usize>, x: int) -> int
    decreases parent.len() - rank[x] when paths_ok(parent, rank) && 0 <= x < parent.len()
{
    if parent[x] == x {
        x
    } else {
        uf_root(parent, rank, parent[x] as int)
    }
}

/// The self-parented elements: one per component.
pub open spec fn roots_of(parent: Seq<usize>) -> Set<int> {
    Set::new(|i: int| 0 <= i < parent.len() && parent[i] == i)
}

/// The set of roots is a subset of the index range, hence finite and at most
/// as large as the element count.
proof fn lemma_roots_finite(parent: Seq<usize>)
    ensures
        roots_of(parent).finite(),
        roots_of(parent).len() <= parent.len(),
{
    lemma_int_range(0, parent.len() as int);
    assert(roots_of(parent).subset_of(set_int_range(0, parent.len() as int)));
    lemma_len_subset(roots_of(parent), set_int_range(0, parent.len() as int));
}

/// Basic facts about the representative: it is in range, self-parented, and
/// of maximal rank along the chain.
proof fn lemma_uf_root_props(parent: Seq<usize>, rank: Seq<usize>, x: int)
    requires
        paths_ok(parent, rank),
        0 <= x < parent.len(),
    ensures
        0 <= uf_root(parent, rank, x) < parent.len(),
        parent[uf_root(parent, rank, x)] == uf_root(parent, rank, x),
        rank[uf_root(parent, rank, x)] >= rank[x],
        parent[x] != x ==> rank[uf_root(parent, rank, x)] > rank[x],
    decreases parent.len() - rank[x],
{
    if parent[x] != x {
        lemma_uf_root_props(parent, rank, parent[x] as int);
    }
}

/// The rank array only serves termination: two forests with the same parent
/// array have the same representatives.
proof fn lemma_uf_root_rank_irrelevant(parent: Seq<usize>, rank1: Seq<usize>, rank2: Seq<usize>, x: int)
    requires
        paths_ok(parent, rank1),
        paths_ok(parent, rank2),
        0 <= x < parent.len(),
    ensures
        uf_root(parent, rank1, x) == uf_root(parent, rank2, x),
    decreases parent.len() - rank1[x],
{
    if parent[x] != x {
        lemma_uf_root_rank_irrelevant(parent, rank1, rank2, parent[x] as int);
    }
}

/// Path compression step: rewriting one parent pointer to the element's own
/// representative keeps the forest shape, every representative, and the set
/// of roots.
proof fn lemma_compress_preserves(parent: Seq<usize>, rank: Seq<usize>, i: int)
    requires
        paths_ok(parent, rank),
        0 <= i < parent.len(),
    ensures
        paths_ok(parent.update(i, uf_root(parent, rank, i) as usize), rank),
        forall|y: int|
            0 <= y < parent.len() ==> uf_root(
                parent.update(i, uf_root(parent, rank, i) as usize),
                rank,
                y,
            ) == uf_root(parent, rank, y),
        roots_of(parent.update(i, uf_root(parent, rank, i) as usize)) == roots_of(parent),
{
    let r = uf_root(parent, rank, i);
    lemma_uf_root_props(parent, rank, i);
    let parent2 = parent.update(i, r as usize);
    assert(paths_ok(parent2, rank)) by {
        assert(forall|k: int|
            0 <= k < parent2.len() ==> ((#[trigger] parent2[k]) == k || rank[parent2[k] as int]
                > rank[k])) by {
            assert forall|k: int|
                0 <= k < parent2.len() && parent2[k] != k implies rank[parent2[k] as int]
                > rank[k] by {
                if k == i {
                    assert(parent[i] != i);
                } else {
                    assert(parent2[k] == parent[k]);
                }
            }
        }
    }
    assert forall|y: int| 0 <= y < parent.len() implies uf_root(parent2, rank, y) == uf_root(
        parent,
        rank,
        y,
    ) by {
        lemma_compress_step(parent, rank, i, y);
    }
    assert(roots_of(parent2) =~= roots_of(parent)) by {
        if parent[i] != i {
            lemma_uf_root_props(parent, rank, i);
            assert(parent2[i] != i);
        }
    }
}

/// Induction core of [`lemma_compress_preserves`].
proof fn lemma_compress_step(parent: Seq<usize>, rank: Seq<usize>, i: int, y: int)
    requires
        paths_ok(parent, rank),
        0 <= i < parent.len(),
        0 <= y < parent.len(),
        paths_ok(parent.update(i, uf_root(parent, rank, i) as usize), rank),
    ensures
        uf_root(parent.update(i, uf_root(parent, rank, i) as usize), rank, y) == uf_root(
            parent,
            rank,
            y,
        ),
    decreases parent.len() - rank[y],
{
    let r = uf_root(parent, rank, i);
    lemma_uf_root_props(parent, rank, i);
    let parent2 = parent.update(i, r as usize);
    if y == i {
        if parent[i] == i {
            assert(uf_root(parent2, rank, y) == y);
        } else {
            assert(parent2[i] == r && r != i);
            assert(parent2[r] == parent[r] && parent[r] == r);
            assert(uf_root(parent2, rank, r) == r);
        }
    } else {
        if parent[y] == y {
            assert(parent2[y] == y);
        } else {
            lemma_compress_step(parent, rank, i, parent[y] as int);
        }
    }
}

/// Union step: pointing a root `c` at another root `p` of strictly greater
/// rank keeps the forest shape, moves exactly `c`'s component under `p`, and
/// removes `c` from the set of roots.
proof fn lemma_link_roots(parent: Seq<usize>, rank: Seq<usize>, c: int, p: int)
    requires
        paths_ok(parent, rank),
        0 <= c < parent.len(),
        0 <= p < parent.len(),
        c != p,
        parent[c] == c,
        parent[p] == p,
        rank[p] > rank[c],
    ensures
        paths_ok(parent.update(c, p as usize), rank),
        forall|y: int|
            0 <= y < parent.len() ==> uf_root(parent.update(c, p as usize), rank, y) == (if uf_root(
                parent,
                rank,
                y,
            ) == c {
                p
            } else {
                uf_root(parent, rank, y)
            }),
        roots_of(parent.update(c, p as usize)) == roots_of(parent).remove(c),
{
    let parent2 = parent.update(c, p as usize);
    assert(paths_ok(parent2, rank)) by {
        assert forall|k: int|
            0 <= k < parent2.len() && parent2[k] != k implies rank[parent2[k] as int] > rank[k] by {
            if k != c {
                assert(parent2[k] == parent[k]);
            }
        }
    }
    assert forall|y: int| 0 <= y < parent.len() implies uf_root(parent2, rank, y) == (if uf_root(
        parent,
        rank,
        y,
    ) == c {
        p
    } else {
        uf_root(parent, rank, y)
    }) by {
        lemma_link_step(parent, rank, c, p, y);
    }
    assert(roots_of(parent2) =~= roots_of(parent).remove(c));
}

/// Induction core of [`lemma_link_roots`].
proof fn lemma_link_step(parent: Seq<usize>, rank: Seq<usize>, c: int, p: int, y: int)
    requires
        paths_ok(parent, rank),
        0 <= c < parent.len(),
        0 <= p < parent.len(),
        c != p,
        parent[c] == c,
        parent[p] == p,
        rank[p] > rank[c],
        0 <= y < parent.len(),
        paths_ok(parent.update(c, p as usize), rank),
    ensures
        uf_root(parent.update(c, p as usize), rank, y) == (if uf_root(parent, rank, y) == c {
            p
        } else {
            uf_root(parent, rank, y)
        }),
    decreases parent.len() - rank[y],
{
    let parent2 = parent.update(c, p as usize);
    if y == c {
        assert(parent2[c] == p);
        assert(parent2[p] == p);
        assert(uf_root(parent2, rank, p as int) == p);
    } else {
        if parent[y] == y {
            assert(parent2[y] == y);
        } else {
            lemma_link_step(parent, rank, c, p, parent[y] as int);
        }
    }
}

/// How a peak record changes when `elevation` is offered at a root: the offer
/// is taken when nothing is recorded yet or when it is strictly higher.
pub open spec fn updated_peak(current: Option<Mark>, index: usize, elevation: i16) -> Option<Mark> {
    match current {
        None => Some(Mark { index, elevation }),
        Some(m) => if elevation > m.elevation {
            Some(Mark { index, elevation })
        } else {
            current
        },
    }
}

/// The peak surviving a merge: the strictly higher of the two sides' peaks
/// (the surviving side wins ties), or the only recorded one.
pub open spec fn merged_peak(surviving: Option<Mark>, absorbed: Option<Mark>) -> Option<Mark> {
    match (surviving, absorbed) {
        (None, Some(_)) => absorbed,
        (Some(p), Some(c)) => if c.elevation > p.elevation {
            absorbed
        } else {
            surviving
        },
        (_, None) => surviving,
    }
}

/// The key saddle surviving a merge.  A boundary-draining component measures
/// its prominence against sea level, so its saddle slot is left alone.  An
/// interior component first considers the merge event itself as a candidate
/// saddle, then the absorbed side's recorded saddle, keeping whichever is the
/// lowest escape route; on ties the earlier record wins.
pub open spec fn merged_saddle(
    drains: bool,
    surviving: Option<Mark>,
    absorbed: Option<Mark>,
    event_index: usize,
    event_elevation: i16,
) -> Option<Mark> {
    if drains {
        surviving
    } else {
        let with_event = match surviving {
            None => Some(Mark { index: event_index, elevation: event_elevation }),
            Some(m) => if event_elevation < m.elevation {
                Some(Mark { index: event_index, elevation: event_elevation })
            } else {
                surviving
            },
        };
        match (with_event, absorbed) {
            (Some(a), Some(b)) => if b.elevation < a.elevation {
                absorbed
            } else {
                with_event
            },
            (None, Some(_)) => absorbed,
            (_, None) => with_event,
        }
    }
}

/// A recorded summit or saddle: the flat index of the cell and its elevation.
/// "Not recorded yet" is an explicit `None` rather than a sentinel elevation,
/// so genuinely extreme elevation values cannot collide with it.
#[derive(Debug, Clone, Copy, PartialEq, Eq, Structural)]
pub struct Mark {
    pub index: usize,
    pub elevation: i16,
}

/// The augmented disjoint-set over `width * height` cell indices.  Slots of
/// `peak`, `saddle` and `drains_to_boundary` are meaningful only at roots;
/// non-root slots are stale and all reads go through `find`.
pub struct UnionFind {
    pub parent: Vec<usize>,
    pub rank: Vec<usize>,
    /// Per root: the component's dominant peak, if any.
    pub peak: Vec<Option<Mark>>,
    /// Per root: the component's key saddle, if any.
    pub saddle: Vec<Option<Mark>>,
    /// Per root: whether some cell of the component lies on the grid border.
    pub drains_to_boundary: Vec<bool>,
    pub width: usize,
    pub height: usize,
}

impl UnionFind {
    /// Number of elements (one per grid cell).
    pub open spec fn len(self) -> int {
        self.parent@.len() as int
    }

    /// The representative of `x`'s component.
    pub open spec fn root_of(self, x: int) -> int {
        uf_root(self.parent@, self.rank@, x)
    }

    /// Whether `r` is the representative of its component.
    pub open spec fn is_root(self, r: int) -> bool {
        0 <= r < self.len() && self.parent@[r] == r
    }

    /// Well-formedness: the forest shape, equal array lengths, the rank bound
    /// that keeps rank increments from overflowing, and ownership of every
    /// recorded peak index by its own component (which makes peak indices of
    /// distinct components distinct).
    pub open spec fn wf(self) -> bool {
        &&& paths_ok(self.parent@, self.rank@)
        &&& self.rank@.len() == self.len()
        &&& self.peak@.len() == self.len()
        &&& self.saddle@.len() == self.len()
        &&& self.drains_to_boundary@.len() == self.len()
        &&& self.len() == self.width * self.height
        &&& forall|i: int|
            0 <= i < self.len() ==> (#[trigger] self.rank@[i]) + roots_of(self.parent@).len()
                <= self.len()
        &&& forall|r: int|
            self.is_root(r) && (#[trigger] self.peak@[r]) is Some ==> {
                &&& (self.peak@[r]->0).index < self.len()
                &&& self.root_of((self.peak@[r]->0).index as int) == r
            }
    }

    /// The two abstraction-preserving clauses shared by every operation:
    /// same dimensions, and (unless stated otherwise) the same partition.
    pub open spec fn same_shape(self, other: UnionFind) -> bool {
        &&& self.len() == other.len()
        &&& self.width == other.width
        &&& self.height == other.height
    }

    /// The prominence of the component rooted at `r`, which must carry a
    /// peak: the peak elevation itself when the component drains to the
    /// boundary (the reference level is sea level, 0), otherwise the rise
    /// above the key saddle, or 0 when no saddle was ever recorded.
    pub open spec fn prominence_of_root(self, r: int) -> int {
        let pe = (self.peak@[r]->0).elevation as int;
        if self.drains_to_boundary@[r] {
            pe
        } else if self.saddle@[r] is Some {
            pe - (self.saddle@[r]->0).elevation as int
        } else {
            0
        }
    }

    /// Whether the component rooted at `r` produces an output entry for the
    /// given threshold: it is a root with a recorded peak whose prominence is
    /// positive and at least the threshold.
    pub open spec fn emits(self, r: int, min_prominence: int) -> bool {
        &&& self.is_root(r)
        &&& self.peak@[r] is Some
        &&& self.prominence_of_root(r) >= min_prominence
        &&& self.prominence_of_root(r) > 0
    }

    /// The output record of the component rooted at `r`: summit coordinates
    /// decoded from the peak's flat index, and the saddle filled in exactly
    /// for interior components with a recorded saddle.
    pub open spec fn peak_record_of_root(self, r: int) -> Peak {
        let m = self.peak@[r]->0;
        let base = Peak {
            row: (m.index as int / self.width as int) as usize,
            col: (m.index as int % self.width as int) as usize,
            elevation: m.elevation,
            prominence: self.prominence_of_root(r) as i16,
            col_row: None,
            col_col: None,
            col_elevation: None,
        };
        if !self.drains_to_boundary@[r] && self.saddle@[r] is Some {
            let s = self.saddle@[r]->0;
            Peak {
                col_row: Some((s.index as int / self.width as int) as usize),
                col_col: Some((s.index as int % self.width as int) as usize),
                col_elevation: Some(s.elevation),
                ..base
            }
        } else {
            base
        }
    }

    /// A fresh forest: every cell is its own component, with no peak, no
    /// saddle, and no boundary drainage.
    pub fn new(width: usize, height: usize) -> (uf: UnionFind)
        requires
            width * height <= usize::MAX,
        ensures
            uf.wf(),
            uf.width == width,
            uf.height == height,
            uf.len() == width * height,
            forall|i: int| 0 <= i < uf.len() ==> (#[trigger] uf.parent@[i]) == i,
            forall|i: int| 0 <= i < uf.len() ==> (#[trigger] uf.rank@[i]) == 0,
            forall|i: int| 0 <= i < uf.len() ==> (#[trigger] uf.peak@[i]) is None,
            forall|i: int| 0 <= i < uf.len() ==> (#[trigger] uf.saddle@[i]) is None,
            forall|i: int| 0 <= i < uf.len() ==> !(#[trigger] uf.drains_to_boundary@[i]),
            forall|i: int| 0 <= i < uf.len() ==> #[trigger] uf.root_of(i) == i,
    {
        let size = width * height;
        let mut parent: Vec<usize> = Vec::with_capacity(size);
        let mut i: usize = 0;
        while i < size
            invariant
                i <= size,
                parent@.len() == i,
                forall|k: int| 0 <= k < i ==> (#[trigger] parent@[k]) == k,
            decreases size - i,
        {
            parent.push(i);
            i += 1;
        }
        let uf = UnionFind {
            parent,
            rank: vec![0; size],
            peak: vec![None; size],
            saddle: vec![None; size],
            drains_to_boundary: vec![false; size],
            width,
            height,
        };
        proof {
            assert(roots_of(uf.parent@) =~= set_int_range(0, size as int));
            lemma_int_range(0, size as int);
            assert forall|k: int| 0 <= k < uf.len() implies uf.root_of(k) == k by {
                assert(uf.parent@[k] == k);
            }
        }
        uf
    }

    /// Iterative find with full path compression: walks to the root, then
    /// points every visited element straight at it.  The partition, the
    /// ranks and all aggregates are untouched.
    pub fn find(&mut self, x: usize) -> (root: usize)
        requires
            old(self).wf(),
            x < old(self).len(),
        ensures
            final(self).wf(),
            final(self).same_shape(*old(self)),
            root == old(self).root_of(x as int),
            root < old(self).len(),
            final(self).parent@[x as int] == root,
            final(self).parent@[root as int] == root,
            forall|y: int|
                0 <= y < old(self).len() ==> final(self).root_of(y) == old(self).root_of(y),
            final(self).rank@ == old(self).rank@,
            final(self).peak@ == old(self).peak@,
            final(self).saddle@ == old(self).saddle@,
            final(self).drains_to_boundary@ == old(self).drains_to_boundary@,
            roots_of(final(self).parent@) == roots_of(old(self).parent@),
    {
        let ghost orig: UnionFind = *self;
        let mut r: usize = x;
        while self.parent[r] != r
            invariant
                *self == orig,
                orig.wf(),
                r < orig.len(),
                orig.root_of(r as int) == orig.root_of(x as int),
            decreases orig.len() - orig.rank@[r as int],
        {
            r = self.parent[r];
        }
        let root = r;
        proof {
            assert(orig.root_of(root as int) == root);
        }
        let mut cur: usize = x;
        while self.parent[cur] != cur
            invariant
                self.wf(),
                self.same_shape(orig),
                orig.wf(),
                cur < orig.len(),
                x < orig.len(),
                root < orig.len(),
                self.rank@ == orig.rank@,
                self.peak@ == orig.peak@,
                self.saddle@ == orig.saddle@,
                self.drains_to_boundary@ == orig.drains_to_boundary@,
                roots_of(self.parent@) == roots_of(orig.parent@),
                forall|y: int| 0 <= y < orig.len() ==> self.root_of(y) == orig.root_of(y),
                self.root_of(cur as int) == root as int,
                self.parent@[root as int] == root,
                orig.root_of(x as int) == root,
                cur == x || self.parent@[x as int] == root,
            decreases orig.len() - orig.rank@[cur as int],
        {
            let next = self.parent[cur];
            proof {
                assert(uf_root(self.parent@, self.rank@, cur as int) == root);
                assert(uf_root(self.parent@, self.rank@, next as int) == root);
                lemma_compress_preserves(self.parent@, self.rank@, cur as int);
            }
            self.parent[cur] = root;
            cur = next;
        }
        root
    }

    /// Records `(index, elevation)` as the dominant peak of `index`'s
    /// component, but only if it beats the peak recorded there so far.
    pub fn mark_as_peak(&mut self, index: usize, elevation: i16)
        requires
            old(self).wf(),
            index < old(self).len(),
        ensures
            final(self).wf(),
            final(self).same_shape(*old(self)),
            forall|y: int|
                0 <= y < old(self).len() ==> final(self).root_of(y) == old(self).root_of(y),
            final(self).rank@ == old(self).rank@,
            final(self).saddle@ == old(self).saddle@,
            final(self).drains_to_boundary@ == old(self).drains_to_boundary@,
            roots_of(final(self).parent@) == roots_of(old(self).parent@),
            final(self).peak@ == old(self).peak@.update(
                old(self).root_of(index as int),
                updated_peak(old(self).peak@[old(self).root_of(index as int)], index, elevation),
            ),
    {
        let root = self.find(index);
        let updated = match self.peak[root] {
            None => Some(Mark { index, elevation }),
            Some(m) => if elevation > m.elevation {
                Some(Mark { index, elevation })
            } else {
                Some(m)
            },
        };
        self.peak[root] = updated;
        proof {
            let r = root as int;
            assert forall|q: int|
                self.is_root(q) && (#[trigger] self.peak@[q]) is Some implies {
                &&& (self.peak@[q]->0).index < self.len()
                &&& self.root_of((self.peak@[q]->0).index as int) == q
            } by {
                if q != r {
                    assert(self.peak@[q] == old(self).peak@[q]);
                }
            }
        }
    }

    /// Marks `index`'s component as draining to the grid boundary.  The flag
    /// is monotonic: nothing ever resets it.
    pub fn mark_boundary(&mut self, index: usize)
        requires
            old(self).wf(),
            index < old(self).len(),
        ensures
            final(self).wf(),
            final(self).same_shape(*old(self)),
            forall|y: int|
                0 <= y < old(self).len() ==> final(self).root_of(y) == old(self).root_of(y),
            final(self).rank@ == old(self).rank@,
            final(self).peak@ == old(self).peak@,
            final(self).saddle@ == old(self).saddle@,
            roots_of(final(self).parent@) == roots_of(old(self).parent@),
            final(self).drains_to_boundary@ == old(self).drains_to_boundary@.update(
                old(self).root_of(index as int),
                true,
            ),
            forall|z: int|
                0 <= z < old(self).len() && old(self).drains_to_boundary@[old(self).root_of(z)]
                    ==> final(self).drains_to_boundary@[final(self).root_of(z)],
    {
        let root = self.find(index);
        self.drains_to_boundary[root] = true;
        proof {
            assert forall|z: int|
                0 <= z < old(self).len() && old(self).drains_to_boundary@[old(self).root_of(z)]
                    implies final(self).drains_to_boundary@[final(self).root_of(z)] by {
                lemma_uf_root_props(old(self).parent@, old(self).rank@, z);
            }
        }
    }

    /// Merges the two distinct components rooted at `root_x` and `root_y`:
    /// union by rank, then the augmented merge of drainage flag, dominant
    /// peak, and key saddle, with the merge event as a saddle candidate.
    fn merge_components(
        &mut self,
        root_x: usize,
        root_y: usize,
        merge_elevation: i16,
        merge_index: usize,
    )
        requires
            old(self).wf(),
            old(self).is_root(root_x as int),
            old(self).is_root(root_y as int),
            root_x != root_y,
        ensures
            final(self).wf(),
            final(self).same_shape(*old(self)),
            ({
                let rx = root_x as int;
                let ry = root_y as int;
                let s = if old(self).rank@[rx] >= old(self).rank@[ry] { rx } else { ry };
                let c = if old(self).rank@[rx] >= old(self).rank@[ry] { ry } else { rx };
                let d = old(self).drains_to_boundary@[rx] || old(self).drains_to_boundary@[ry];
                &&& forall|z: int|
                    0 <= z < old(self).len() ==> final(self).root_of(z) == (if old(self).root_of(z)
                        == c {
                        s
                    } else {
                        old(self).root_of(z)
                    })
                &&& final(self).rank@ == (if old(self).rank@[rx] == old(self).rank@[ry] {
                    old(self).rank@.update(s, (old(self).rank@[s] + 1) as usize)
                } else {
                    old(self).rank@
                })
                &&& final(self).peak@ == old(self).peak@.update(
                    s,
                    merged_peak(old(self).peak@[s], old(self).peak@[c]),
                )
                &&& final(self).saddle@ == old(self).saddle@.update(
                    s,
                    merged_saddle(
                        d,
                        old(self).saddle@[s],
                        old(self).saddle@[c],
                        merge_index,
                        merge_elevation,
                    ),
                )
                &&& final(self).drains_to_boundary@ == old(self).drains_to_boundary@.update(s, d)
                &&& roots_of(final(self).parent@) == roots_of(old(self).parent@).remove(c)
            }),
    {
        let ghost orig: UnionFind = *self;
        let ghost all_roots: Set<int> = roots_of(orig.parent@);
        // Always merge the smaller rank into the larger rank.
        let (parent_root, child_root) = if self.rank[root_x] >= self.rank[root_y] {
            (root_x, root_y)
        } else {
            (root_y, root_x)
        };
        proof {
            assert(all_roots.contains(parent_root as int));
            assert(all_roots.contains(child_root as int));
            lemma_roots_finite(orig.parent@);
            vstd::set::axiom_set_remove_len(all_roots, child_root as int);
            vstd::set::axiom_set_remove_finite(all_roots, child_root as int);
            vstd::set::axiom_set_contains_len(
                all_roots.remove(child_root as int),
                parent_root as int,
            );
        }

        // Update rank on a tie; the root count bounds every rank by the
        // element count, so the increment cannot overflow.
        if self.rank[root_x] == self.rank[root_y] {
            let n = self.rank.len();
            proof {
                assert(all_roots.len() >= 2);
                assert(orig.rank@[parent_root as int] + all_roots.len() <= orig.len());
                assert(n == orig.len());
            }
            let r = self.rank[parent_root];
            self.rank[parent_root] = r + 1;
            proof {
                lemma_uf_rank_bump(orig.parent@, orig.rank@, parent_root as int);
            }
        }
        let ghost bumped: UnionFind = *self;

        // Merge drainage status.
        let drains = self.drains_to_boundary[root_x] || self.drains_to_boundary[root_y];
        self.drains_to_boundary[parent_root] = drains;

        // Keep the higher peak; a component retains only its single
        // highest-known summit.
        let new_peak = match (self.peak[parent_root], self.peak[child_root]) {
            (None, Some(c)) => Some(c),
            (Some(p), Some(c)) => if c.elevation > p.elevation {
                Some(c)
            } else {
                Some(p)
            },
            (p, None) => p,
        };
        self.peak[parent_root] = new_peak;

        // Update the key saddle: for an interior component, the merge event
        // and the absorbed side's saddle are candidates; keep the lowest.
        let new_saddle = if drains {
            self.saddle[parent_root]
        } else {
            let with_event = match self.saddle[parent_root] {
                None => Some(Mark { index: merge_index, elevation: merge_elevation }),
                Some(m) => if merge_elevation < m.elevation {
                    Some(Mark { index: merge_index, elevation: merge_elevation })
                } else {
                    Some(m)
                },
            };
            match (with_event, self.saddle[child_root]) {
                (Some(a), Some(b)) => if b.elevation < a.elevation {
                    Some(b)
                } else {
                    Some(a)
                },
                (a, _) => a,
            }
        };
        self.saddle[parent_root] = new_saddle;

        // Perform the union.
        proof {
            lemma_link_roots(self.parent@, self.rank@, child_root as int, parent_root as int);
        }
        self.parent[child_root] = parent_root;

        proof {
            let s = parent_root as int;
            let c = child_root as int;
            assert forall|z: int| 0 <= z < orig.len() implies self.root_of(z) == (if orig.root_of(z)
                == c {
                s
            } else {
                orig.root_of(z)
            }) by {
                lemma_uf_root_rank_irrelevant(orig.parent@, orig.rank@, bumped.rank@, z);
            }
            assert(roots_of(self.parent@) =~= all_roots.remove(c));
            assert forall|i: int|
                0 <= i < self.len() implies (#[trigger] self.rank@[i]) + roots_of(
                self.parent@,
            ).len() <= self.len() by {
                assert(orig.rank@[i] + all_roots.len() <= orig.len());
            }
            assert forall|q: int|
                self.is_root(q) && (#[trigger] self.peak@[q]) is Some implies {
                &&& (self.peak@[q]->0).index < self.len()
                &&& self.root_of((self.peak@[q]->0).index as int) == q
            } by {
                assert(q != c);
                if q == s {
                    if orig.peak@[c] is Some {
                        let ci = (orig.peak@[c]->0).index as int;
                        assert(orig.root_of(ci) == c);
                    }
                    if orig.peak@[s] is Some {
                        let si = (orig.peak@[s]->0).index as int;
                        assert(orig.root_of(si) == s);
                    }
                } else {
                    assert(self.peak@[q] == orig.peak@[q]);
                    assert(orig.is_root(q));
                }
            }
        }
    }

    /// Union with augmented merge: a no-op on two cells already in the same
    /// component; otherwise merges by rank and combines the aggregates, with
    /// `(merge_index, merge_elevation)` as the saddle candidate for the
    /// event.  Drainage is monotonic: a component that drained to the
    /// boundary before the call still drains after it.
    pub fn union(&mut self, x: usize, y: usize, merge_elevation: i16, merge_index: usize)
        requires
            old(self).wf(),
            x < old(self).len(),
            y < old(self).len(),
        ensures
            final(self).wf(),
            final(self).same_shape(*old(self)),
            ({
                let rx = old(self).root_of(x as int);
                let ry = old(self).root_of(y as int);
                if rx == ry {
                    &&& final(self).rank@ == old(self).rank@
                    &&& final(self).peak@ == old(self).peak@
                    &&& final(self).saddle@ == old(self).saddle@
                    &&& final(self).drains_to_boundary@ == old(self).drains_to_boundary@
                    &&& forall|z: int|
                        0 <= z < old(self).len() ==> final(self).root_of(z) == old(self).root_of(z)
                    &&& roots_of(final(self).parent@) == roots_of(old(self).parent@)
                } else {
                    let s = if old(self).rank@[rx] >= old(self).rank@[ry] { rx } else { ry };
                    let c = if old(self).rank@[rx] >= old(self).rank@[ry] { ry } else { rx };
                    let d = old(self).drains_to_boundary@[rx] || old(
                        self,
                    ).drains_to_boundary@[ry];
                    &&& forall|z: int|
                        0 <= z < old(self).len() ==> final(self).root_of(z) == (if old(
                            self,
                        ).root_of(z) == c {
                            s
                        } else {
                            old(self).root_of(z)
                        })
                    &&& final(self).rank@ == (if old(self).rank@[rx] == old(self).rank@[ry] {
                        old(self).rank@.update(s, (old(self).rank@[s] + 1) as usize)
                    } else {
                        old(self).rank@
                    })
                    &&& final(self).peak@ == old(self).peak@.update(
                        s,
                        merged_peak(old(self).peak@[s], old(self).peak@[c]),
                    )
                    &&& final(self).saddle@ == old(self).saddle@.update(
                        s,
                        merged_saddle(
                            d,
                            old(self).saddle@[s],
                            old(self).saddle@[c],
                            merge_index,
                            merge_elevation,
                        ),
                    )
                    &&& final(self).drains_to_boundary@ == old(
                        self,
                    ).drains_to_boundary@.update(s, d)
                    &&& roots_of(final(self).parent@) == roots_of(old(self).parent@).remove(c)
                }
            }),
            forall|z: int|
                0 <= z < old(self).len() && old(self).drains_to_boundary@[old(self).root_of(z)]
                    ==> final(self).drains_to_boundary@[final(self).root_of(z)],
    {
        let root_x = self.find(x);
        let ghost mid: UnionFind = *self;
        let root_y = self.find(y);

        proof {
            assert(roots_of(mid.parent@).contains(root_x as int));
            assert(self.parent@[root_x as int] == root_x);
            assert forall|z: int| 0 <= z < old(self).len() implies 0 <= #[trigger] old(
                self,
            ).root_of(z) < old(self).len() by {
                lemma_uf_root_props(old(self).parent@, old(self).rank@, z);
            }
        }

        if root_x == root_y {
            return;
        }

        self.merge_components(root_x, root_y, merge_elevation, merge_index);

        proof {
            assert forall|z: int|
                0 <= z < old(self).len() && old(self).drains_to_boundary@[old(self).root_of(z)]
                    implies final(self).drains_to_boundary@[final(self).root_of(z)] by {
                lemma_uf_root_props(old(self).parent@, old(self).rank@, z);
            }
        }
    }

    /// Finds the root of every cell and emits, once per distinct component
    /// with a recorded peak, that component's record — but only when its
    /// prominence is positive and at least `min_prominence`, so no entry
    /// with prominence <= 0 is ever returned.  The result is sorted by
    /// descending prominence; ties keep an unspecified order.  Only path
    /// compression touches the state: the partition and every aggregate are
    /// unchanged.
    pub fn collect_peaks(&mut self, min_prominence: i16) -> (result: Vec<Peak>)
        requires
            old(self).wf(),
            forall|r: int|
                old(self).is_root(r) && (#[trigger] old(self).peak@[r]) is Some ==> i16::MIN <= old(
                    self,
                ).prominence_of_root(r) <= i16::MAX,
        ensures
            final(self).wf(),
            final(self).same_shape(*old(self)),
            forall|y: int|
                0 <= y < old(self).len() ==> final(self).root_of(y) == old(self).root_of(y),
            final(self).rank@ == old(self).rank@,
            final(self).peak@ == old(self).peak@,
            final(self).saddle@ == old(self).saddle@,
            final(self).drains_to_boundary@ == old(self).drains_to_boundary@,
            roots_of(final(self).parent@) == roots_of(old(self).parent@),
            peaks_sorted_by_prominence(result@),
            forall|j: int|
                #![trigger result@[j]]
                0 <= j < result@.len() ==> ({
                    let r = old(self).root_of(
                        result@[j].row * old(self).width + result@[j].col,
                    );
                    &&& old(self).emits(r, min_prominence as int)
                    &&& result@[j] == old(self).peak_record_of_root(r)
                }),
            forall|r: int|
                #[trigger] old(self).emits(r, min_prominence as int) ==> result@.contains(
                    old(self).peak_record_of_root(r),
                ),
            forall|j1: int, j2: int|
                0 <= j1 < j2 < result@.len() ==> !(result@[j1].row == result@[j2].row
                    && result@[j1].col == result@[j2].col),
            forall|j: int|
                0 <= j < result@.len() ==> (#[trigger] result@[j]).prominence > 0
                    && result@[j].prominence >= min_prominence,
    {
        let ghost orig: UnionFind = *self;
        let n = self.parent.len();
        let mut seen: Vec<bool> = vec![false; n];
        let mut peaks: Vec<Peak> = Vec::new();
        let mut i: usize = 0;
        while i < n
            invariant
                self.wf(),
                orig.wf(),
                self.same_shape(orig),
                n == orig.len(),
                i <= n,
                self.rank@ == orig.rank@,
                self.peak@ == orig.peak@,
                self.saddle@ == orig.saddle@,
                self.drains_to_boundary@ == orig.drains_to_boundary@,
                roots_of(self.parent@) == roots_of(orig.parent@),
                forall|y: int| 0 <= y < n ==> self.root_of(y) == orig.root_of(y),
                forall|r: int|
                    orig.is_root(r) && (#[trigger] orig.peak@[r]) is Some ==> i16::MIN
                        <= orig.prominence_of_root(r) <= i16::MAX,
                seen@.len() == n,
                forall|r: int|
                    0 <= r < n ==> ((#[trigger] seen@[r]) <==> (orig.is_root(r) && orig.peak@[r]
                        is Some && exists|j: int| 0 <= j < i && orig.root_of(j) == r)),
                forall|j: int|
                    #![trigger peaks@[j]]
                    0 <= j < peaks@.len() ==> exists|r: int|
                        #[trigger] orig.emits(r, min_prominence as int) && seen@[r] && peaks@[j]
                            == orig.peak_record_of_root(r),
                forall|r: int|
                    orig.emits(r, min_prominence as int) && #[trigger] seen@[r]
                        ==> peaks@.contains(orig.peak_record_of_root(r)),
                forall|j1: int, j2: int|
                    0 <= j1 < j2 < peaks@.len() ==> !(peaks@[j1].row == peaks@[j2].row
                        && peaks@[j1].col == peaks@[j2].col),
            decreases n - i,
        {
            let root = self.find(i);
            proof {
                assert(root == orig.root_of(i as int));
                lemma_uf_root_props(orig.parent@, orig.rank@, i as int);
                assert(orig.is_root(root as int));
            }
            if let Some(m) = self.peak[root] {
                if !seen[root] {
                    let ghost seen_before = seen@;
                    seen[root] = true;
                    proof {
                        assert(orig.peak@[root as int] is Some);
                    }
                    let pe = m.elevation;
                    let prominence = if self.drains_to_boundary[root] {
                        pe
                    } else {
                        match self.saddle[root] {
                            Some(s) => pe - s.elevation,
                            None => 0,
                        }
                    };
                    proof {
                        assert(prominence as int == orig.prominence_of_root(root as int));
                    }
                    if prominence >= min_prominence && prominence > 0 {
                        proof {
                            assert(self.width >= 1) by (nonlinear_arith)
                                requires
                                    self.width * self.height == n,
                                    n > 0,
                            ;
                        }
                        let row = m.index / self.width;
                        let col = m.index % self.width;
                        let mut record = Peak::new(row, col, pe).with_prominence(prominence);
                        if !self.drains_to_boundary[root] {
                            if let Some(s) = self.saddle[root] {
                                record = record.with_col(
                                    s.index / self.width,
                                    s.index % self.width,
                                    s.elevation,
                                );
                            }
                        }
                        let ghost prior = peaks@;
                        peaks.push(record);
                        proof {
                            let rt = root as int;
                            let minp = min_prominence as int;
                            assert(record == orig.peak_record_of_root(rt));
                            assert(orig.emits(rt, minp));
                            // The new record's summit differs from every one
                            // already emitted: those belong to other roots,
                            // and distinct components own distinct peak
                            // indices.
                            assert forall|j: int| 0 <= j < prior.len() implies !(prior[j].row
                                == record.row && prior[j].col == record.col) by {
                                let r2 = choose|r2: int|
                                    #[trigger] orig.emits(r2, minp) && seen_before[r2] && prior[j]
                                        == orig.peak_record_of_root(r2);
                                assert(r2 != rt);
                                let i1 = (orig.peak@[r2]->0).index as int;
                                let i2 = (orig.peak@[rt]->0).index as int;
                                assert(orig.root_of(i1) == r2 && orig.root_of(i2) == rt);
                                lemma_coords_injective(self.width as int, i1, i2);
                            }
                            assert forall|j: int|
                                #![trigger peaks@[j]]
                                0 <= j < peaks@.len() implies exists|r: int|
                                #[trigger] orig.emits(r, minp) && seen@[r] && peaks@[j]
                                    == orig.peak_record_of_root(r) by {
                                if j < prior.len() {
                                    let r2 = choose|r2: int|
                                        #[trigger] orig.emits(r2, minp) && seen_before[r2]
                                            && prior[j] == orig.peak_record_of_root(r2);
                                    assert(orig.emits(r2, minp) && seen@[r2] && peaks@[j]
                                        == orig.peak_record_of_root(r2));
                                } else {
                                    assert(orig.emits(rt, minp) && seen@[rt] && peaks@[j]
                                        == orig.peak_record_of_root(rt));
                                }
                            }
                            assert forall|r: int|
                                orig.emits(r, minp) && #[trigger] seen@[r] implies peaks@.contains(
                                orig.peak_record_of_root(r),
                            ) by {
                                let x = orig.peak_record_of_root(r);
                                if r == rt {
                                    assert(peaks@[prior.len() as int] == x);
                                } else {
                                    assert(seen_before[r]);
                                    assert(prior.contains(x));
                                    let k = choose|k: int| 0 <= k < prior.len() && prior[k] == x;
                                    assert(peaks@[k] == x);
                                }
                            }
                        }
                    } else {
                        proof {
                            let minp = min_prominence as int;
                            assert(!orig.emits(root as int, minp));
                            assert forall|j: int|
                                #![trigger peaks@[j]]
                                0 <= j < peaks@.len() implies exists|r: int|
                                #[trigger] orig.emits(r, minp) && seen@[r] && peaks@[j]
                                    == orig.peak_record_of_root(r) by {
                                let r2 = choose|r2: int|
                                    #[trigger] orig.emits(r2, minp) && seen_before[r2] && peaks@[j]
                                        == orig.peak_record_of_root(r2);
                                assert(orig.emits(r2, minp) && seen@[r2] && peaks@[j]
                                    == orig.peak_record_of_root(r2));
                            }
                        }
                    }
                }
            }
            i += 1;
        }

        let ghost pre = peaks@;
        sort_peaks_by_prominence(&mut peaks);
        proof {
            broadcast use vstd::seq_lib::group_to_multiset_ensures;

            let minp = min_prominence as int;
            // Every emitting component was reached through its own root.
            assert forall|r: int| #[trigger] orig.emits(r, minp) implies seen@[r] by {
                assert(orig.root_of(r) == r);
            }
            // Sorting permutes the records, so membership both ways, the
            // uniqueness of summits, and the prominence bounds all carry
            // over from the collection loop.
            assert forall|j: int|
                #![trigger peaks@[j]]
                0 <= j < peaks@.len() implies ({
                let r = orig.root_of(peaks@[j].row * orig.width + peaks@[j].col);
                &&& orig.emits(r, minp)
                &&& peaks@[j] == orig.peak_record_of_root(r)
            }) by {
                let x = peaks@[j];
                assert(peaks@.contains(x));
                assert(pre.to_multiset().count(x) > 0);
                assert(pre.contains(x));
                let k = choose|k: int| 0 <= k < pre.len() && pre[k] == x;
                let r2 = choose|r: int|
                    #[trigger] orig.emits(r, minp) && seen@[r] && pre[k]
                        == orig.peak_record_of_root(r);
                let w = orig.width as int;
                let i2 = (orig.peak@[r2]->0).index as int;
                assert(orig.is_root(r2));
                assert(orig.width >= 1) by (nonlinear_arith)
                    requires
                        orig.width * orig.height == orig.len(),
                        orig.len() > 0,
                ;
                vstd::arithmetic::div_mod::lemma_fundamental_div_mod(i2, w);
                vstd::arithmetic::div_mod::lemma_div_pos_is_pos(i2, w);
                vstd::arithmetic::div_mod::lemma_div_nonincreasing(i2, w);
                vstd::arithmetic::div_mod::lemma_mod_division_less_than_divisor(i2, w);
                assert(x.row == i2 / w && x.col == i2 % w);
                vstd::arithmetic::mul::lemma_mul_is_commutative(x.row as int, w);
                assert(x.row * w + x.col == i2);
                assert(orig.root_of(i2) == r2);
            }
            assert forall|r: int| #[trigger] orig.emits(r, minp) implies peaks@.contains(
                orig.peak_record_of_root(r),
            ) by {
                let x = orig.peak_record_of_root(r);
                assert(pre.contains(x));
                assert(peaks@.to_multiset().count(x) > 0);
            }
            assert(pre.no_duplicates()) by {
                assert forall|a: int, b: int| 0 <= a < b < pre.len() implies pre[a] != pre[b] by {
                    assert(!(pre[a].row == pre[b].row && pre[a].col == pre[b].col));
                }
            }
            pre.lemma_multiset_has_no_duplicates();
            assert forall|x: Peak| peaks@.to_multiset().contains(x) implies peaks@.to_multiset().count(
                x,
            ) == 1 by {
                assert(pre.to_multiset().contains(x));
            }
            peaks@.lemma_multiset_has_no_duplicates_conv();
            assert forall|j1: int, j2: int|
                0 <= j1 < j2 < peaks@.len() implies !(peaks@[j1].row == peaks@[j2].row
                && peaks@[j1].col == peaks@[j2].col) by {
                let v1 = peaks@[j1];
                let v2 = peaks@[j2];
                assert(v1 != v2);
                assert(peaks@.contains(v1) && peaks@.contains(v2));
                assert(pre.to_multiset().count(v1) > 0 && pre.to_multiset().count(v2) > 0);
                assert(pre.contains(v1) && pre.contains(v2));
                let k1 = choose|k: int| 0 <= k < pre.len() && pre[k] == v1;
                let k2 = choose|k: int| 0 <= k < pre.len() && pre[k] == v2;
                assert(k1 != k2);
            }
            assert forall|j: int| 0 <= j < peaks@.len() implies (#[trigger] peaks@[j]).prominence
                > 0 && peaks@[j].prominence >= min_prominence by {
                let r = orig.root_of(peaks@[j].row * orig.width + peaks@[j].col);
                assert(orig.emits(r, minp) && peaks@[j] == orig.peak_record_of_root(r));
                assert(orig.is_root(r) && orig.peak@[r] is Some);
                assert(0 < orig.prominence_of_root(r) <= i16::MAX);
            }
        }
        peaks
    }
}

/// Distinct flat indices decode to distinct `(row, col)` pairs.
proof fn lemma_coords_injective(w: int, i1: int, i2: int)
    requires
        w >= 1,
        i1 >= 0,
        i2 >= 0,
        i1 != i2,
    ensures
        i1 / w != i2 / w || i1 % w != i2 % w,
{
    vstd::arithmetic::div_mod::lemma_fundamental_div_mod(i1, w);
    vstd::arithmetic::div_mod::lemma_fundamental_div_mod(i2, w);
}

/// Idempotence of find: every representative is its own representative and
/// is self-parented, so repeated `find` calls on any index keep returning
/// the same root.
pub proof fn lemma_find_idempotent(uf: UnionFind, x: int)
    requires
        uf.wf(),
        0 <= x < uf.len(),
    ensures
        uf.is_root(uf.root_of(x)),
        uf.root_of(uf.root_of(x)) == uf.root_of(x),
{
    lemma_uf_root_props(uf.parent@, uf.rank@, x);
}

/// Peak retention dominance: the peak surviving a merge carries the maximum
/// of the two sides' peak elevations, or the only recorded one; a merge
/// never invents a peak and never loses the last one.
pub proof fn lemma_peak_retention(surviving: Option<Mark>, absorbed: Option<Mark>)
    ensures
        merged_peak(surviving, absorbed) is Some <==> (surviving is Some || absorbed is Some),
        surviving is Some && absorbed is Some ==> {
            let m = merged_peak(surviving, absorbed)->0;
            &&& m.elevation == (if (surviving->0).elevation >= (absorbed->0).elevation {
                (surviving->0).elevation
            } else {
                (absorbed->0).elevation
            })
            &&& (m == surviving->0 || m == absorbed->0)
        },
        surviving is Some && absorbed is None ==> merged_peak(surviving, absorbed) == surviving,
        surviving is None && absorbed is Some ==> merged_peak(surviving, absorbed) == absorbed,
{
}

/// Re-ranking a root on a tie keeps the forest shape and every
/// representative, provided the new rank still fits the bound.
proof fn lemma_uf_rank_bump(parent: Seq<usize>, rank: Seq<usize>, p: int)
    requires
        paths_ok(parent, rank),
        0 <= p < parent.len(),
        parent[p] == p,
        rank[p] + 1 <= parent.len(),
        rank[p] + 1 <= usize::MAX,
    ensures
        paths_ok(parent, rank.update(p, (rank[p] + 1) as usize)),
        forall|y: int|
            0 <= y < parent.len() ==> uf_root(parent, rank.update(p, (rank[p] + 1) as usize), y)
                == uf_root(parent, rank, y),
{
    let rank2 = rank.update(p, (rank[p] + 1) as usize);
    assert(paths_ok(parent, rank2)) by {
        assert forall|k: int|
            0 <= k < parent.len() && parent[k] != k implies rank2[parent[k] as int]
            > rank2[k] by {
            assert(k != p);
            if parent[k] as int == p {
                assert(rank[p] > rank[k]);
            }
        }
    }
    assert forall|y: int| 0 <= y < parent.len() implies uf_root(parent, rank2, y) == uf_root(
        parent,
        rank,
        y,
    ) by {
        lemma_uf_root_rank_irrelevant(parent, rank2, rank, y);
    }
}

} // verus!
