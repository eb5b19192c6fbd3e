//! The drainage-basin builder: initializes the disjoint-set with peak and
//! boundary markers, replays the eligible cells in descending elevation
//! order, merging each with its already-visited higher-or-equal neighbors,
//! and collects the surviving peaks.

use vstd::prelude::*;

use crate::grid::Cell;
use crate::grid::is_neighbor;
use crate::grid::ElevationGrid;
use crate::peak::Peak;
use crate::sort::cells_sorted_by_elevation;
use crate::sort::peaks_sorted_by_prominence;
use crate::union_find::Mark;
use crate::union_find::UnionFind;
use crate::ProminenceError;

verus! {

/// Row a mark's flat index decodes to.
pub open spec fn mark_row(m: Mark, width: int) -> int {
    m.index as int / width
}

/// Column a mark's flat index decodes to.
pub open spec fn mark_col(m: Mark, width: int) -> int {
    m.index as int % width
}

/// A recorded mark that stands for a real eligible grid cell: its index is in
/// range, it decodes to an in-bounds position, and it carries that position's
/// true elevation, which meets the elevation threshold.
pub open spec fn saddle_mark_ok(g: ElevationGrid, min_elevation: i16, m: Mark) -> bool {
    &&& m.index < g.height * g.width
    &&& g.in_bounds(mark_row(m, g.width as int), mark_col(m, g.width as int))
    &&& m.elevation == g.elev(mark_row(m, g.width as int), mark_col(m, g.width as int))
    &&& m.elevation >= min_elevation
}

/// A recorded peak mark: an eligible cell that is moreover a local maximum.
pub open spec fn peak_mark_ok(g: ElevationGrid, min_elevation: i16, m: Mark) -> bool {
    &&& saddle_mark_ok(g, min_elevation, m)
    &&& g.spec_is_peak(mark_row(m, g.width as int), mark_col(m, g.width as int))
}

/// Every peak and saddle slot of the forest — root or stale — holds a mark
/// that stands for a real grid cell as above.  All of the builder's calls
/// keep this invariant, and it is what makes the collected records
/// meaningful against the grid.
pub open spec fn uf_marks_ok(uf: UnionFind, g: ElevationGrid, min_elevation: i16) -> bool {
    &&& forall|r: int|
        0 <= r < uf.len() && (#[trigger] uf.peak@[r]) is Some ==> peak_mark_ok(
            g,
            min_elevation,
            uf.peak@[r]->0,
        )
    &&& forall|r: int|
        0 <= r < uf.len() && (#[trigger] uf.saddle@[r]) is Some ==> saddle_mark_ok(
            g,
            min_elevation,
            uf.saddle@[r]->0,
        )
}

/// The forest is shaped for this grid and its marks all stand for real cells.
pub open spec fn uf_ok(uf: UnionFind, g: ElevationGrid, min_elevation: i16) -> bool {
    &&& uf.wf()
    &&& uf.width == g.width
    &&& uf.height == g.height
    &&& uf.len() == g.width * g.height
    &&& uf_marks_ok(uf, g, min_elevation)
}

/// A cell handed around by the builder: a real in-bounds grid cell with its
/// true elevation (at least the threshold) and its flat index.
pub open spec fn cell_ok(g: ElevationGrid, min_elevation: i16, c: Cell) -> bool {
    &&& g.in_bounds(c.row as int, c.col as int)
    &&& c.elevation == g.elev(c.row as int, c.col as int)
    &&& c.elevation >= min_elevation
    &&& c.index == c.row * g.width + c.col
}

/// When every in-bounds position appears among the cells and any two
/// adjacent cells share a component, the whole grid is one component: every
/// position's component is the component of the top-left corner.
proof fn lemma_all_cells_connected(
    uf: UnionFind,
    g: ElevationGrid,
    cells: Seq<Cell>,
    r: int,
    c: int,
)
    requires
        g.wf(),
        uf.wf(),
        uf.len() == g.width * g.height,
        forall|r2: int, c2: int|
            #[trigger] g.in_bounds(r2, c2) ==> exists|j: int|
                0 <= j < cells.len() && (#[trigger] cells[j]).row == r2 && cells[j].col == c2,
        forall|j: int|
            0 <= j < cells.len() ==> ({
                let cl = #[trigger] cells[j];
                &&& cl.row < g.height
                &&& cl.col < g.width
                &&& cl.index == cl.row * g.width + cl.col
            }),
        forall|j1: int, j2: int|
            0 <= j1 < cells.len() && 0 <= j2 < cells.len() && is_neighbor(
                cells[j1].row as int,
                cells[j1].col as int,
                cells[j2].row as int,
                cells[j2].col as int,
            ) ==> uf.root_of(cells[j1].index as int) == uf.root_of(cells[j2].index as int),
        g.in_bounds(r, c),
    ensures
        uf.root_of(r * g.width + c) == uf.root_of(0),
    decreases r + c,
{
    let w = g.width as int;
    if r == 0 && c == 0 {
    } else {
        let pr = if r > 0 { r - 1 } else { r };
        let pc = if r > 0 { c } else { c - 1 };
        lemma_all_cells_connected(uf, g, cells, pr, pc);
        assert(g.in_bounds(pr, pc));
        let j1 = choose|j: int|
            0 <= j < cells.len() && (#[trigger] cells[j]).row == r && cells[j].col == c;
        let j2 = choose|j: int|
            0 <= j < cells.len() && (#[trigger] cells[j]).row == pr && cells[j].col == pc;
        assert(is_neighbor(
            cells[j1].row as int,
            cells[j1].col as int,
            cells[j2].row as int,
            cells[j2].col as int,
        ));
        assert(uf.root_of(cells[j1].index as int) == uf.root_of(cells[j2].index as int));
        assert(cells[j1].index == r * w + c);
        assert(cells[j2].index == pr * w + pc);
    }
}

/// Orchestrates one prominence calculation over a borrowed grid.
pub struct ProminenceCalculator<'a> {
    pub grid: &'a ElevationGrid,
}

impl<'a> ProminenceCalculator<'a> {
    pub fn new(grid: &'a ElevationGrid) -> (c: ProminenceCalculator<'a>)
        ensures
            c.grid == grid,
    {
        ProminenceCalculator { grid }
    }

    /// One full pass: collect the eligible cells, mark boundary cells and
    /// local maxima, replay the cells from highest to lowest elevation,
    /// union each with its already-visited neighbors at the same or higher
    /// elevation, and collect the surviving peaks.
    ///
    /// Always succeeds.  Every returned record is a real local maximum of
    /// the grid, carrying its true elevation; prominence is positive, at
    /// least `min_prominence`, and at most the summit elevation; a record
    /// without saddle fields has prominence equal to its elevation (its
    /// basin drains to the boundary), and one with saddle fields names a
    /// real eligible cell whose elevation accounts exactly for the
    /// prominence.  No two records share a summit, and the list is sorted by
    /// descending prominence.
    ///
    /// When no elevation threshold cuts the grid (`min_elevation <= 0`), the
    /// whole map is one boundary-draining basin, so for every local maximum
    /// that clears the prominence threshold the result is non-empty and led
    /// by an entry at least that high.  The same holds at any threshold for
    /// an eligible local maximum on the grid border, whose basin drains from
    /// the start.
    #[verifier::rlimit(60)]
    pub fn calculate_prominence(&self, min_elevation: i16, min_prominence: i16) -> (result: Result<
        Vec<Peak>,
        ProminenceError,
    >)
        requires
            self.grid.wf(),
            forall|r: int, c: int|
                self.grid.in_bounds(r, c) ==> 0 <= #[trigger] self.grid.elev(r, c),
        ensures
            result is Ok,
            ({
                let peaks = result->Ok_0;
                &&& peaks_sorted_by_prominence(peaks@)
                &&& forall|j: int|
                    #![trigger peaks@[j]]
                    0 <= j < peaks@.len() ==> ({
                        let p = peaks@[j];
                        &&& self.grid.in_bounds(p.row as int, p.col as int)
                        &&& self.grid.spec_is_peak(p.row as int, p.col as int)
                        &&& p.elevation == self.grid.elev(p.row as int, p.col as int)
                        &&& p.elevation >= min_elevation
                        &&& 0 < p.prominence <= p.elevation
                        &&& p.prominence >= min_prominence
                        &&& (p.col_elevation is None ==> p.col_row is None && p.col_col is None
                            && p.prominence == p.elevation)
                        &&& (p.col_elevation is Some ==> {
                            let se = p.col_elevation->0;
                            &&& p.col_row is Some
                            &&& p.col_col is Some
                            &&& self.grid.in_bounds(p.col_row->0 as int, p.col_col->0 as int)
                            &&& se == self.grid.elev(p.col_row->0 as int, p.col_col->0 as int)
                            &&& se >= min_elevation
                            &&& p.prominence == p.elevation - se
                        })
                    })
                &&& forall|j1: int, j2: int|
                    0 <= j1 < j2 < peaks@.len() ==> !(peaks@[j1].row == peaks@[j2].row
                        && peaks@[j1].col == peaks@[j2].col)
            }),
            // Completeness on a fully eligible grid: with no elevation
            // threshold the whole grid is one boundary-draining basin, so
            // the leading entry's prominence dominates the elevation of
            // every qualifying local maximum.
            forall|r: int, c: int|
                min_elevation <= 0 && #[trigger] self.grid.spec_is_peak(r, c) && self.grid.elev(
                    r,
                    c,
                ) >= min_prominence && self.grid.elev(r, c) > 0 ==> result->Ok_0@.len() > 0
                    && result->Ok_0@[0].prominence >= self.grid.elev(r, c),
            // Completeness for border summits: an eligible local maximum on
            // the grid border drains to sea level from the start, so if it
            // clears the prominence threshold the result is non-empty and
            // led by an entry at least that high.
            forall|r: int, c: int|
                #[trigger] self.grid.spec_is_peak(r, c) && self.grid.elev(r, c) >= min_elevation
                    && self.grid.elev(r, c) >= min_prominence && self.grid.elev(r, c) > 0 && (r
                    == 0 || r + 1 == self.grid.height || c == 0 || c + 1 == self.grid.width)
                    ==> result->Ok_0@.len() > 0 && result->Ok_0@[0].prominence >= self.grid.elev(
                    r,
                    c,
                ),
    {
        let grid = self.grid;
        let mut uf = UnionFind::new(grid.width, grid.height);
        let cells = grid.get_all_cells(min_elevation);
        let mut processed: Vec<bool> = vec![false; grid.width * grid.height];

        self.initialize_union_find(&mut uf, &cells, min_elevation);

        proof {
            let g = *grid;
            let w = g.width as int;
            // Distinct positions have distinct flat indices.
            assert forall|j1: int, j2: int|
                0 <= j1 < j2 < cells@.len() implies cells@[j1].index != cells@[j2].index by {
                let a = cells@[j1];
                let b = cells@[j2];
                vstd::arithmetic::div_mod::lemma_fundamental_div_mod_converse(
                    a.index as int,
                    w,
                    a.row as int,
                    a.col as int,
                );
                vstd::arithmetic::div_mod::lemma_fundamental_div_mod_converse(
                    b.index as int,
                    w,
                    b.row as int,
                    b.col as int,
                );
            }
        }
        let ghost after_init: UnionFind = uf;
        self.process_cells(&mut uf, &cells, &mut processed, min_elevation);

        proof {
            assert forall|r: int|
                uf.is_root(r) && (#[trigger] uf.peak@[r]) is Some implies i16::MIN
                <= uf.prominence_of_root(r) <= i16::MAX by {
                let pm = uf.peak@[r]->0;
                assert(peak_mark_ok(*grid, min_elevation, pm));
                assert(0 <= pm.elevation);
                if !uf.drains_to_boundary@[r] && uf.saddle@[r] is Some {
                    let sm = uf.saddle@[r]->0;
                    assert(saddle_mark_ok(*grid, min_elevation, sm));
                    assert(0 <= sm.elevation);
                }
            }
        }
        let ghost before_collect: UnionFind = uf;
        let peaks = uf.collect_peaks(min_prominence);

        proof {
            let g = *grid;
            let w = g.width as int;
            assert forall|j: int| #![trigger peaks@[j]] 0 <= j < peaks@.len() implies ({
                let p = peaks@[j];
                &&& g.in_bounds(p.row as int, p.col as int)
                &&& g.spec_is_peak(p.row as int, p.col as int)
                &&& p.elevation == g.elev(p.row as int, p.col as int)
                &&& p.elevation >= min_elevation
                &&& 0 < p.prominence <= p.elevation
                &&& p.prominence >= min_prominence
                &&& (p.col_elevation is None ==> p.col_row is None && p.col_col is None
                    && p.prominence == p.elevation)
                &&& (p.col_elevation is Some ==> {
                    let se = p.col_elevation->0;
                    &&& p.col_row is Some
                    &&& p.col_col is Some
                    &&& g.in_bounds(p.col_row->0 as int, p.col_col->0 as int)
                    &&& se == g.elev(p.col_row->0 as int, p.col_col->0 as int)
                    &&& se >= min_elevation
                    &&& p.prominence == p.elevation - se
                })
            }) by {
                let p = peaks@[j];
                let r = before_collect.root_of(p.row * before_collect.width + p.col);
                assert(before_collect.emits(r, min_prominence as int) && p
                    == before_collect.peak_record_of_root(r));
                let pm = before_collect.peak@[r]->0;
                assert(peak_mark_ok(g, min_elevation, pm));
                if !before_collect.drains_to_boundary@[r] && before_collect.saddle@[r] is Some {
                    let sm = before_collect.saddle@[r]->0;
                    assert(saddle_mark_ok(g, min_elevation, sm));
                }
            }
            assert forall|r: int, c: int|
                #[trigger] g.spec_is_peak(r, c) && g.elev(r, c) >= min_elevation && g.elev(r, c)
                    >= min_prominence && g.elev(r, c) > 0 && (r == 0 || r + 1 == g.height || c == 0
                    || c + 1 == g.width) implies peaks@.len() > 0 && peaks@[0].prominence >= g.elev(
                r,
                c,
            ) by {
                let e = g.elev(r, c);
                let j1 = choose|j: int|
                    0 <= j < cells@.len() && (#[trigger] cells@[j]).row == r && cells@[j].col == c;
                let t = cells@[j1].index as int;
                assert(t < before_collect.len()) by (nonlinear_arith)
                    requires
                        t == cells@[j1].row * g.width + cells@[j1].col,
                        cells@[j1].row < g.height,
                        cells@[j1].col < g.width,
                        before_collect.len() == g.width * g.height,
                ;
                assert(g.spec_is_peak(cells@[j1].row as int, cells@[j1].col as int));
                assert(after_init.drains_to_boundary@[after_init.root_of(t)]);
                assert(after_init.peak@[after_init.root_of(t)] is Some);
                assert((after_init.peak@[after_init.root_of(t)]->0).elevation
                    >= cells@[j1].elevation);
                assert(cells@[j1].elevation == e);
                let rt = before_collect.root_of(t);
                assert(before_collect.drains_to_boundary@[rt]);
                assert(before_collect.peak@[rt] is Some);
                assert((before_collect.peak@[rt]->0).elevation >= e);
                crate::union_find::lemma_find_idempotent(before_collect, t);
                assert(before_collect.is_root(rt));
                assert(before_collect.prominence_of_root(rt) >= e);
                assert(before_collect.emits(rt, min_prominence as int));
                assert(peaks@.contains(before_collect.peak_record_of_root(rt)));
                let jj = choose|j: int|
                    0 <= j < peaks@.len() && peaks@[j] == before_collect.peak_record_of_root(rt);
                assert(i16::MIN <= before_collect.prominence_of_root(rt) <= i16::MAX);
                assert(peaks@[jj].prominence >= e);
                assert(peaks@[0].prominence >= peaks@[jj].prominence);
            }
            if min_elevation <= 0 {
                assert forall|r: int, c: int|
                    #[trigger] g.spec_is_peak(r, c) && g.elev(r, c) >= min_prominence && g.elev(
                        r,
                        c,
                    ) > 0 implies peaks@.len() > 0 && peaks@[0].prominence >= g.elev(r, c) by {
                    let e = g.elev(r, c);
                    // Every in-bounds position is eligible, so the batch of
                    // cells covers the whole grid.
                    assert forall|r2: int, c2: int| #[trigger] g.in_bounds(r2, c2) implies exists|
                        j: int,
                    |
                        0 <= j < cells@.len() && (#[trigger] cells@[j]).row == r2 && cells@[j].col
                            == c2 by {
                        assert(0 <= g.elev(r2, c2));
                        assert(g.elev(r2, c2) >= min_elevation);
                    }
                    lemma_all_cells_connected(before_collect, g, cells@, r, c);
                    let rt = before_collect.root_of(0);
                    // The top-left corner lies on the boundary, so the single
                    // component drains to sea level.
                    assert(g.in_bounds(0, 0));
                    let j0 = choose|j: int|
                        0 <= j < cells@.len() && (#[trigger] cells@[j]).row == 0 && cells@[j].col
                            == 0;
                    assert(cells@[j0].index == 0);
                    assert(0 < after_init.len()) by (nonlinear_arith)
                        requires
                            after_init.len() == g.width * g.height,
                            g.width >= 1,
                            g.height >= 1,
                    ;
                    assert(after_init.drains_to_boundary@[after_init.root_of(0)]);
                    assert(before_collect.drains_to_boundary@[before_collect.root_of(0)]);
                    assert(before_collect.drains_to_boundary@[rt]);
                    // The local maximum put its elevation into its component's
                    // peak record, and no merge ever lowered it.
                    let j1 = choose|j: int|
                        0 <= j < cells@.len() && (#[trigger] cells@[j]).row == r && cells@[j].col
                            == c;
                    let t = cells@[j1].index as int;
                    assert(t < before_collect.len()) by (nonlinear_arith)
                        requires
                            t == cells@[j1].row * g.width + cells@[j1].col,
                            cells@[j1].row < g.height,
                            cells@[j1].col < g.width,
                            before_collect.len() == g.width * g.height,
                    ;
                    assert(g.spec_is_peak(cells@[j1].row as int, cells@[j1].col as int));
                    assert(after_init.peak@[after_init.root_of(t)] is Some);
                    assert((after_init.peak@[after_init.root_of(t)]->0).elevation
                        >= cells@[j1].elevation);
                    assert(cells@[j1].elevation == e);
                    assert(before_collect.peak@[before_collect.root_of(t)] is Some);
                    assert((before_collect.peak@[before_collect.root_of(t)]->0).elevation >= e);
                    assert(t == r * (g.width as int) + c);
                    assert(before_collect.root_of(t) == rt);
                    crate::union_find::lemma_find_idempotent(before_collect, 0);
                    assert(before_collect.is_root(rt));
                    assert(before_collect.prominence_of_root(rt) >= e);
                    assert(before_collect.emits(rt, min_prominence as int));
                    assert(peaks@.contains(before_collect.peak_record_of_root(rt)));
                    let jj = choose|j: int|
                        0 <= j < peaks@.len() && peaks@[j] == before_collect.peak_record_of_root(
                            rt,
                        );
                    assert(i16::MIN <= before_collect.prominence_of_root(rt) <= i16::MAX);
                    assert(peaks@[jj].prominence >= e);
                    assert(peaks@[0].prominence >= peaks@[jj].prominence);
                }
            }
        }

        Ok(peaks)
    }

    /// Marks every eligible boundary cell's component as boundary-draining,
    /// and records every eligible local maximum as its component's peak, so
    /// that afterwards each such component carries a peak at least as high
    /// as that maximum.
    fn initialize_union_find(
        &self,
        uf: &mut UnionFind,
        cells: &Vec<Cell>,
        min_elevation: i16,
    )
        requires
            self.grid.wf(),
            uf_ok(*old(uf), *self.grid, min_elevation),
            forall|j: int|
                0 <= j < cells@.len() ==> cell_ok(*self.grid, min_elevation, #[trigger] cells@[j]),
        ensures
            uf_ok(*final(uf), *self.grid, min_elevation),
            forall|j: int|
                #![trigger cells@[j]]
                0 <= j < cells@.len() ==> ({
                    let cl = cells@[j];
                    &&& ((cl.row == 0 || cl.row + 1 == self.grid.height || cl.col == 0 || cl.col
                        + 1 == self.grid.width) ==> final(uf).drains_to_boundary@[final(uf).root_of(cl.index as int)])
                    &&& (self.grid.spec_is_peak(cl.row as int, cl.col as int)
                        ==> final(uf).peak@[final(uf).root_of(cl.index as int)] is Some
                        && (final(uf).peak@[final(uf).root_of(cl.index as int)]->0).elevation
                            >= cl.elevation)
                }),
    {
        let grid = self.grid;
        let n = cells.len();
        let mut i: usize = 0;
        while i < n
            invariant
                grid == self.grid,
                self.grid.wf(),
                n == cells@.len(),
                uf_ok(*uf, *self.grid, min_elevation),
                forall|j: int|
                    0 <= j < cells@.len() ==> cell_ok(
                        *self.grid,
                        min_elevation,
                        #[trigger] cells@[j],
                    ),
                forall|j: int|
                    #![trigger cells@[j]]
                    0 <= j < i ==> ({
                        let cl = cells@[j];
                        &&& ((cl.row == 0 || cl.row + 1 == self.grid.height || cl.col == 0
                            || cl.col + 1 == self.grid.width) ==> uf.drains_to_boundary@[uf.root_of(
                            cl.index as int,
                        )])
                        &&& (self.grid.spec_is_peak(cl.row as int, cl.col as int)
                            ==> uf.peak@[uf.root_of(cl.index as int)] is Some && (uf.peak@[uf.root_of(
                            cl.index as int,
                        )]->0).elevation >= cl.elevation)
                    }),
            decreases n - i,
        {
            let cell = cells[i];
            proof {
                assert(cell_ok(*self.grid, min_elevation, cell));
                assert(cell.index < uf.len()) by (nonlinear_arith)
                    requires
                        cell.index == cell.row * self.grid.width + cell.col,
                        cell.row < self.grid.height,
                        cell.col < self.grid.width,
                        uf.len() == self.grid.width * self.grid.height,
                ;
            }

            // Mark boundary cells.
            if grid.is_on_boundary(cell.row, cell.col) {
                let ghost pre: UnionFind = *uf;
                proof {
                    crate::union_find::lemma_find_idempotent(pre, cell.index as int);
                }
                uf.mark_boundary(cell.index);
                proof {
                    assert forall|j: int|
                        0 <= j < cells@.len() && (#[trigger] cells@[j]).index
                            < uf.len() implies uf.root_of(cells@[j].index as int) == pre.root_of(
                        cells@[j].index as int,
                    ) by {}
                }
            }

            // Mark peaks.
            if grid.is_peak(cell.row, cell.col) {
                let ghost pre: UnionFind = *uf;
                proof {
                    vstd::arithmetic::div_mod::lemma_fundamental_div_mod_converse(
                        cell.index as int,
                        self.grid.width as int,
                        cell.row as int,
                        cell.col as int,
                    );
                    assert(peak_mark_ok(
                        *self.grid,
                        min_elevation,
                        Mark { index: cell.index, elevation: cell.elevation },
                    ));
                    crate::union_find::lemma_find_idempotent(pre, cell.index as int);
                }
                uf.mark_as_peak(cell.index, cell.elevation);
                proof {
                    let rt = pre.root_of(cell.index as int);
                    assert forall|r: int|
                        0 <= r < uf.len() && (#[trigger] uf.peak@[r]) is Some implies peak_mark_ok(
                        *self.grid,
                        min_elevation,
                        uf.peak@[r]->0,
                    ) by {
                        if r != rt {
                            assert(uf.peak@[r] == pre.peak@[r]);
                        }
                    }
                    // A re-recorded peak only ever rises.
                    assert forall|j: int|
                        0 <= j < cells@.len() && (#[trigger] cells@[j]).index < uf.len()
                            && pre.peak@[pre.root_of(cells@[j].index as int)]
                            is Some implies uf.peak@[uf.root_of(cells@[j].index as int)] is Some
                        && (uf.peak@[uf.root_of(cells@[j].index as int)]->0).elevation >= (pre.peak@[pre.root_of(
                        cells@[j].index as int,
                    )]->0).elevation by {
                        crate::union_find::lemma_find_idempotent(pre, cells@[j].index as int);
                        if pre.root_of(cells@[j].index as int) != rt {
                            assert(uf.peak@[pre.root_of(cells@[j].index as int)] == pre.peak@[pre.root_of(
                                cells@[j].index as int,
                            )]);
                        }
                    }
                }
            }

            proof {
                assert forall|j: int| #![trigger cells@[j]] 0 <= j < i + 1 implies ({
                    let cl = cells@[j];
                    &&& ((cl.row == 0 || cl.row + 1 == self.grid.height || cl.col == 0 || cl.col
                        + 1 == self.grid.width) ==> uf.drains_to_boundary@[uf.root_of(
                        cl.index as int,
                    )])
                    &&& (self.grid.spec_is_peak(cl.row as int, cl.col as int)
                        ==> uf.peak@[uf.root_of(cl.index as int)] is Some && (uf.peak@[uf.root_of(
                        cl.index as int,
                    )]->0).elevation >= cl.elevation)
                }) by {
                    let cl = cells@[j];
                    assert(cell_ok(*self.grid, min_elevation, cl));
                    assert(cl.index < uf.len()) by (nonlinear_arith)
                        requires
                            cl.index == cl.row * self.grid.width + cl.col,
                            cl.row < self.grid.height,
                            cl.col < self.grid.width,
                            uf.len() == self.grid.width * self.grid.height,
                    ;
                }
            }
            i += 1;
        }
    }

    /// Replays the cells from highest to lowest elevation, marking each as
    /// visited and merging it with every already-visited neighbor at the
    /// same or higher elevation, with the current cell as the merge event.
    /// Afterwards any two adjacent cells of the batch share a component;
    /// components only ever merged, drainage stayed monotone, and no
    /// component's recorded peak elevation dropped.
    fn process_cells(
        &self,
        uf: &mut UnionFind,
        cells: &Vec<Cell>,
        processed: &mut Vec<bool>,
        min_elevation: i16,
    )
        requires
            self.grid.wf(),
            uf_ok(*old(uf), *self.grid, min_elevation),
            old(processed)@.len() == old(uf).len(),
            forall|t: int| 0 <= t < old(processed)@.len() ==> !(#[trigger] old(processed)@[t]),
            forall|j: int|
                0 <= j < cells@.len() ==> cell_ok(*self.grid, min_elevation, #[trigger] cells@[j]),
            cells_sorted_by_elevation(cells@),
            forall|j1: int, j2: int|
                0 <= j1 < j2 < cells@.len() ==> cells@[j1].index != cells@[j2].index,
        ensures
            uf_ok(*final(uf), *self.grid, min_elevation),
            final(processed)@.len() == old(uf).len(),
            forall|j1: int, j2: int|
                0 <= j1 < cells@.len() && 0 <= j2 < cells@.len() && is_neighbor(
                    cells@[j1].row as int,
                    cells@[j1].col as int,
                    cells@[j2].row as int,
                    cells@[j2].col as int,
                ) ==> final(uf).root_of(cells@[j1].index as int) == final(uf).root_of(
                    cells@[j2].index as int,
                ),
            forall|z: int|
                0 <= z < old(uf).len() && old(uf).drains_to_boundary@[old(uf).root_of(z)]
                    ==> final(uf).drains_to_boundary@[final(uf).root_of(z)],
            forall|z: int|
                0 <= z < old(uf).len() && (#[trigger] old(uf).peak@[old(uf).root_of(z)]) is Some
                    ==> final(uf).peak@[final(uf).root_of(z)] is Some && (final(uf).peak@[final(uf).root_of(z)]->0).elevation >= (old(uf).peak@[old(uf).root_of(z)]->0).elevation,
    {
        let ghost orig_uf: UnionFind = *uf;
        let n = cells.len();
        let mut i: usize = n;
        while i > 0
            invariant
                self.grid.wf(),
                i <= n,
                n == cells@.len(),
                uf_ok(*uf, *self.grid, min_elevation),
                uf.len() == orig_uf.len(),
                orig_uf.wf(),
                processed@.len() == uf.len(),
                forall|j: int|
                    0 <= j < cells@.len() ==> cell_ok(
                        *self.grid,
                        min_elevation,
                        #[trigger] cells@[j],
                    ),
                cells_sorted_by_elevation(cells@),
                forall|j1: int, j2: int|
                    0 <= j1 < j2 < cells@.len() ==> cells@[j1].index != cells@[j2].index,
                forall|t: int|
                    0 <= t < processed@.len() ==> ((#[trigger] processed@[t]) <==> exists|j: int|
                        i <= j < n && (#[trigger] cells@[j]).index == t),
                forall|j1: int, j2: int|
                    i <= j1 < n && i <= j2 < n && is_neighbor(
                        cells@[j1].row as int,
                        cells@[j1].col as int,
                        cells@[j2].row as int,
                        cells@[j2].col as int,
                    ) ==> uf.root_of(cells@[j1].index as int) == uf.root_of(
                        cells@[j2].index as int,
                    ),
                forall|z1: int, z2: int|
                    0 <= z1 < orig_uf.len() && 0 <= z2 < orig_uf.len() && orig_uf.root_of(z1)
                        == orig_uf.root_of(z2) ==> uf.root_of(z1) == uf.root_of(z2),
                forall|z: int|
                    0 <= z < orig_uf.len() && orig_uf.drains_to_boundary@[orig_uf.root_of(z)]
                        ==> uf.drains_to_boundary@[uf.root_of(z)],
                forall|z: int|
                    0 <= z < orig_uf.len() && (#[trigger] orig_uf.peak@[orig_uf.root_of(z)])
                        is Some ==> uf.peak@[uf.root_of(z)] is Some && (uf.peak@[uf.root_of(
                        z,
                    )]->0).elevation >= (orig_uf.peak@[orig_uf.root_of(z)]->0).elevation,
            decreases i,
        {
            i -= 1;
            let cell = cells[i];
            proof {
                assert(cell_ok(*self.grid, min_elevation, cell));
                assert(cell.index < uf.len()) by (nonlinear_arith)
                    requires
                        cell.index == cell.row * self.grid.width + cell.col,
                        cell.row < self.grid.height,
                        cell.col < self.grid.width,
                        uf.len() == self.grid.width * self.grid.height,
                ;
            }
            processed[cell.index] = true;
            proof {
                assert forall|t: int|
                    0 <= t < processed@.len() implies ((#[trigger] processed@[t]) <==> exists|j: int|
                        i <= j < n && (#[trigger] cells@[j]).index == t) by {
                    if t == cell.index {
                        assert(cells@[i as int].index == t);
                    }
                }
            }

            let ghost pre: UnionFind = *uf;
            // Connect to processed neighbors at the same or higher elevation.
            self.connect_to_neighbors(uf, cell, processed, min_elevation);
            proof {
                let g = *self.grid;
                let w = g.width as int;
                // Any two adjacent cells of the processed suffix now share a
                // component: new pairs involve the cell just replayed, whose
                // already-visited neighbors all lie at its elevation or above.
                assert forall|j1: int, j2: int|
                    i <= j1 < n && i <= j2 < n && is_neighbor(
                        cells@[j1].row as int,
                        cells@[j1].col as int,
                        cells@[j2].row as int,
                        cells@[j2].col as int,
                    ) implies uf.root_of(cells@[j1].index as int) == uf.root_of(
                    cells@[j2].index as int,
                ) by {
                    let a = cells@[j1];
                    let b = cells@[j2];
                    if j1 == i || j2 == i {
                        let other = if j1 == i { j2 } else { j1 };
                        let oc = cells@[other];
                        if other != i {
                            let t = oc.index as int;
                            assert(t < uf.len()) by (nonlinear_arith)
                                requires
                                    t == oc.row * g.width + oc.col,
                                    oc.row < g.height,
                                    oc.col < g.width,
                                    uf.len() == g.width * g.height,
                            ;
                            vstd::arithmetic::div_mod::lemma_fundamental_div_mod_converse(
                                t,
                                w,
                                oc.row as int,
                                oc.col as int,
                            );
                            assert(processed@[t]);
                            assert(g.elev(t / w, t % w) == oc.elevation);
                            assert(oc.elevation >= cell.elevation);
                            assert(is_neighbor(
                                cell.row as int,
                                cell.col as int,
                                oc.row as int,
                                oc.col as int,
                            ));
                            assert(uf.root_of(t) == uf.root_of(cell.index as int));
                        }
                    } else {
                        assert(a.index < uf.len() && b.index < uf.len()) by (nonlinear_arith)
                            requires
                                a.index == a.row * g.width + a.col,
                                a.row < g.height,
                                a.col < g.width,
                                b.index == b.row * g.width + b.col,
                                b.row < g.height,
                                b.col < g.width,
                                uf.len() == g.width * g.height,
                        ;
                        assert(pre.root_of(a.index as int) == pre.root_of(b.index as int));
                    }
                }
                // Transports compose across the call.
                assert forall|z1: int, z2: int|
                    0 <= z1 < orig_uf.len() && 0 <= z2 < orig_uf.len() && orig_uf.root_of(z1)
                        == orig_uf.root_of(z2) implies uf.root_of(z1) == uf.root_of(z2) by {
                    assert(pre.root_of(z1) == pre.root_of(z2));
                }
                assert forall|z: int|
                    0 <= z < orig_uf.len() && orig_uf.drains_to_boundary@[orig_uf.root_of(
                        z,
                    )] implies uf.drains_to_boundary@[uf.root_of(z)] by {
                    assert(pre.drains_to_boundary@[pre.root_of(z)]);
                }
                assert forall|z: int|
                    0 <= z < orig_uf.len() && (#[trigger] orig_uf.peak@[orig_uf.root_of(z)])
                        is Some implies uf.peak@[uf.root_of(z)] is Some && (uf.peak@[uf.root_of(
                        z,
                    )]->0).elevation >= (orig_uf.peak@[orig_uf.root_of(z)]->0).elevation by {
                    assert(pre.peak@[pre.root_of(z)] is Some);
                }
            }
        }
    }

    /// Unions one cell with each of its already-visited neighbors whose
    /// elevation is at least the cell's own, using the cell itself as the
    /// merge event (the saddle candidate).
    /// Unions one cell with each of its already-visited neighbors whose
    /// elevation is at least the cell's own, using the cell itself as the
    /// merge event (the saddle candidate).  Afterwards every such neighbor
    /// shares the cell's component; components only ever merge, drainage
    /// stays monotone, and no component's recorded peak elevation drops.
    fn connect_to_neighbors(
        &self,
        uf: &mut UnionFind,
        cell: Cell,
        processed: &Vec<bool>,
        min_elevation: i16,
    )
        requires
            self.grid.wf(),
            uf_ok(*old(uf), *self.grid, min_elevation),
            processed@.len() == old(uf).len(),
            cell_ok(*self.grid, min_elevation, cell),
        ensures
            uf_ok(*final(uf), *self.grid, min_elevation),
            forall|t: int|
                #![trigger processed@[t]]
                0 <= t < old(uf).len() && processed@[t] && ({
                    let r2 = t / self.grid.width as int;
                    let c2 = t % self.grid.width as int;
                    &&& is_neighbor(cell.row as int, cell.col as int, r2, c2)
                    &&& self.grid.in_bounds(r2, c2)
                    &&& self.grid.elev(r2, c2) >= cell.elevation
                }) ==> final(uf).root_of(t) == final(uf).root_of(cell.index as int),
            forall|z1: int, z2: int|
                0 <= z1 < old(uf).len() && 0 <= z2 < old(uf).len() && old(uf).root_of(z1) == old(uf).root_of(z2) ==> final(uf).root_of(z1) == final(uf).root_of(z2),
            forall|z: int|
                0 <= z < old(uf).len() && old(uf).drains_to_boundary@[old(uf).root_of(z)]
                    ==> final(uf).drains_to_boundary@[final(uf).root_of(z)],
            forall|z: int|
                0 <= z < old(uf).len() && (#[trigger] old(uf).peak@[old(uf).root_of(z)]) is Some
                    ==> final(uf).peak@[final(uf).root_of(z)] is Some && (final(uf).peak@[final(uf).root_of(z)]->0).elevation >= (old(uf).peak@[old(uf).root_of(z)]->0).elevation,
    {
        let grid = self.grid;
        let ghost orig_uf: UnionFind = *uf;
        proof {
            assert(cell.index < uf.len()) by (nonlinear_arith)
                requires
                    cell.index == cell.row * self.grid.width + cell.col,
                    cell.row < self.grid.height,
                    cell.col < self.grid.width,
                    uf.len() == self.grid.width * self.grid.height,
            ;
        }
        let neighbors = grid.get_neighbor_indices(cell.row, cell.col);
        let m = neighbors.len();
        let mut k: usize = 0;
        while k < m
            invariant
                grid == self.grid,
                self.grid.wf(),
                m == neighbors@.len(),
                uf_ok(*uf, *self.grid, min_elevation),
                uf.len() == orig_uf.len(),
                orig_uf.wf(),
                processed@.len() == uf.len(),
                cell_ok(*self.grid, min_elevation, cell),
                cell.index < uf.len(),
                forall|j: int|
                    #![trigger neighbors@[j]]
                    0 <= j < neighbors@.len() ==> ({
                        let r2 = neighbors@[j] as int / self.grid.width as int;
                        let c2 = neighbors@[j] as int % self.grid.width as int;
                        &&& neighbors@[j] < self.grid.height * self.grid.width
                        &&& self.grid.in_bounds(r2, c2)
                        &&& neighbors@[j] == r2 * self.grid.width + c2
                    }),
                forall|j: int|
                    #![trigger neighbors@[j]]
                    0 <= j < k ==> ({
                        let t = neighbors@[j] as int;
                        processed@[t] && self.grid.elev(
                            t / self.grid.width as int,
                            t % self.grid.width as int,
                        ) >= cell.elevation ==> uf.root_of(t) == uf.root_of(cell.index as int)
                    }),
                forall|z1: int, z2: int|
                    0 <= z1 < orig_uf.len() && 0 <= z2 < orig_uf.len() && orig_uf.root_of(z1)
                        == orig_uf.root_of(z2) ==> uf.root_of(z1) == uf.root_of(z2),
                forall|z: int|
                    0 <= z < orig_uf.len() && orig_uf.drains_to_boundary@[orig_uf.root_of(z)]
                        ==> uf.drains_to_boundary@[uf.root_of(z)],
                forall|z: int|
                    0 <= z < orig_uf.len() && (#[trigger] orig_uf.peak@[orig_uf.root_of(z)])
                        is Some ==> uf.peak@[uf.root_of(z)] is Some && (uf.peak@[uf.root_of(
                        z,
                    )]->0).elevation >= (orig_uf.peak@[orig_uf.root_of(z)]->0).elevation,
            decreases m - k,
        {
            let neighbor_idx = neighbors[k];
            if processed[neighbor_idx] {
                let (neighbor_row, neighbor_col) = grid.index_to_coords(neighbor_idx);
                // The neighbor index always decodes to in-range coordinates,
                // so the lookup cannot fail.
                if let Some(neighbor_elev) = grid.get_elevation(neighbor_row, neighbor_col) {
                    // Connect if the neighbor is at the same or higher
                    // elevation (cells are replayed from high to low).
                    if neighbor_elev >= cell.elevation {
                        let ghost pre: UnionFind = *uf;
                        proof {
                            vstd::arithmetic::div_mod::lemma_fundamental_div_mod_converse(
                                cell.index as int,
                                self.grid.width as int,
                                cell.row as int,
                                cell.col as int,
                            );
                            assert(saddle_mark_ok(
                                *self.grid,
                                min_elevation,
                                Mark { index: cell.index, elevation: cell.elevation },
                            ));
                            crate::union_find::lemma_find_idempotent(pre, cell.index as int);
                            crate::union_find::lemma_find_idempotent(pre, neighbor_idx as int);
                        }
                        uf.union(cell.index, neighbor_idx, cell.elevation, cell.index);
                        proof {
                            let rx = pre.root_of(cell.index as int);
                            let ry = pre.root_of(neighbor_idx as int);
                            let st = if pre.rank@[rx] >= pre.rank@[ry] { rx } else { ry };
                            let ch = if pre.rank@[rx] >= pre.rank@[ry] { ry } else { rx };
                            assert forall|r: int|
                                0 <= r < uf.len() && (#[trigger] uf.peak@[r])
                                is Some implies peak_mark_ok(
                                *self.grid,
                                min_elevation,
                                uf.peak@[r]->0,
                            ) by {
                                if rx == ry || r != st {
                                    assert(uf.peak@[r] == pre.peak@[r]);
                                }
                            }
                            assert forall|r: int|
                                0 <= r < uf.len() && (#[trigger] uf.saddle@[r])
                                is Some implies saddle_mark_ok(
                                *self.grid,
                                min_elevation,
                                uf.saddle@[r]->0,
                            ) by {
                                if rx == ry || r != st {
                                    assert(uf.saddle@[r] == pre.saddle@[r]);
                                }
                            }
                            // Components only merge: equalities of roots persist.
                            assert forall|z1: int, z2: int|
                                0 <= z1 < orig_uf.len() && 0 <= z2 < orig_uf.len()
                                    && orig_uf.root_of(z1) == orig_uf.root_of(z2) implies uf.root_of(
                                z1,
                            ) == uf.root_of(z2) by {
                                assert(pre.root_of(z1) == pre.root_of(z2));
                            }
                            // Drainage transport.
                            assert forall|z: int|
                                0 <= z < orig_uf.len() && orig_uf.drains_to_boundary@[orig_uf.root_of(
                                    z,
                                )] implies uf.drains_to_boundary@[uf.root_of(z)] by {
                                assert(pre.drains_to_boundary@[pre.root_of(z)]);
                            }
                            // Peak-elevation transport.
                            assert forall|z: int|
                                0 <= z < orig_uf.len() && (#[trigger] orig_uf.peak@[orig_uf.root_of(
                                    z,
                                )]) is Some implies uf.peak@[uf.root_of(z)] is Some && (uf.peak@[uf.root_of(
                                z,
                            )]->0).elevation >= (orig_uf.peak@[orig_uf.root_of(z)]->0).elevation by {
                                assert(pre.peak@[pre.root_of(z)] is Some);
                                crate::union_find::lemma_find_idempotent(pre, z);
                                let e0 = (pre.peak@[pre.root_of(z)]->0).elevation;
                                if rx != ry {
                                    if pre.root_of(z) == st || pre.root_of(z) == ch {
                                        assert(uf.root_of(z) == st);
                                        assert(uf.peak@[st] == crate::union_find::merged_peak(
                                            pre.peak@[st],
                                            pre.peak@[ch],
                                        ));
                                    } else {
                                        assert(uf.root_of(z) == pre.root_of(z));
                                        assert(uf.peak@[pre.root_of(z)] == pre.peak@[pre.root_of(z)]);
                                    }
                                } else {
                                    assert(uf.peak@[uf.root_of(z)] == pre.peak@[pre.root_of(z)]);
                                }
                            }
                            // The cell and this neighbor now share a component,
                            // and previously handled neighbors still do.
                            assert(uf.root_of(neighbor_idx as int) == uf.root_of(
                                cell.index as int,
                            ));
                        }
                    }
                }
            }
            k += 1;
        }

        proof {
            let w = self.grid.width as int;
            assert forall|t: int|
                #![trigger processed@[t]]
                0 <= t < orig_uf.len() && processed@[t] && ({
                    let r2 = t / w;
                    let c2 = t % w;
                    &&& is_neighbor(cell.row as int, cell.col as int, r2, c2)
                    &&& self.grid.in_bounds(r2, c2)
                    &&& self.grid.elev(r2, c2) >= cell.elevation
                }) implies uf.root_of(t) == uf.root_of(cell.index as int) by {
                let r2 = t / w;
                let c2 = t % w;
                vstd::arithmetic::div_mod::lemma_fundamental_div_mod(t, w);
                vstd::arithmetic::mul::lemma_mul_is_commutative(r2, w);
                crate::grid::lemma_neighbor_seq_complete(
                    *self.grid,
                    cell.row as int,
                    cell.col as int,
                    r2,
                    c2,
                );
                let j = choose|j: int|
                    0 <= j < self.grid.neighbor_index_seq(cell.row as int, cell.col as int, 8).len()
                        && #[trigger] self.grid.neighbor_index_seq(
                        cell.row as int,
                        cell.col as int,
                        8,
                    )[j] == r2 * w + c2;
                assert(neighbors@[j] == t);
            }
        }
    }
}

} // verus!
