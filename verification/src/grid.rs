//! The elevation grid: immutable rectangular field of 16-bit elevation
//! samples, with the purely local queries the prominence algorithm needs.

use vstd::prelude::*;

use crate::ProminenceError;
use crate::sort::cells_sorted_by_elevation;
use crate::sort::sort_cells_by_elevation;

verus! {

/// Row offset of the `k`-th compass direction, `k` in `0..8`, in the fixed
/// scan order (row-major over the 3x3 block, the center skipped).
pub open spec fn offset_dr(k: int) -> int {
    if k <= 2 {
        -1
    } else if k <= 4 {
        0
    } else {
        1
    }
}

/// Column offset of the `k`-th compass direction, `k` in `0..8`.
pub open spec fn offset_dc(k: int) -> int {
    if k == 0 || k == 3 || k == 5 {
        -1
    } else if k == 1 || k == 6 {
        0
    } else {
        1
    }
}

/// Row of the `k`-th neighbor of a cell in row `row`.
pub open spec fn nbr_row(row: int, k: int) -> int {
    row + offset_dr(k)
}

/// Column of the `k`-th neighbor of a cell in column `col`.
pub open spec fn nbr_col(col: int, k: int) -> int {
    col + offset_dc(k)
}

/// Whether `(r2, c2)` is one of the up-to-8 compass neighbors of `(r, c)`.
pub open spec fn is_neighbor(r: int, c: int, r2: int, c2: int) -> bool {
    &&& -1 <= r2 - r <= 1
    &&& -1 <= c2 - c <= 1
    &&& !(r2 == r && c2 == c)
}

/// One eligible grid cell: its elevation, position, and the flat row-major
/// index `row * width + col` that keys every per-cell array.
#[derive(Debug, Clone, Copy, PartialEq, Eq)]
pub struct Cell {
    pub elevation: i16,
    pub row: usize,
    pub col: usize,
    pub index: usize,
}

impl Cell {
    pub fn new(elevation: i16, row: usize, col: usize, width: usize) -> (c: Cell)
        requires
            row * width + col <= usize::MAX,
        ensures
            c == (Cell { elevation, row, col, index: (row * width + col) as usize }),
    {
        Cell { elevation, row, col, index: row * width + col }
    }
}

/// An immutable rectangular grid of elevation samples.  Every row has exactly
/// `width` elements, both dimensions are at least 1, and the cell count
/// `height * width` fits in `usize` so that flat indices are well defined.
pub struct ElevationGrid {
    pub grid: Vec<Vec<i16>>,
    pub width: usize,
    pub height: usize,
}

impl View for ElevationGrid {
    type V = Seq<Seq<i16>>;

    open spec fn view(&self) -> Seq<Seq<i16>> {
        self.grid@.map_values(|r: Vec<i16>| r@)
    }
}

impl ElevationGrid {
    /// Shape of a well-formed grid: rectangular, non-empty, and small enough
    /// that `row * width + col` never overflows `usize`.
    pub open spec fn wf(self) -> bool {
        &&& self@.len() == self.height
        &&& 1 <= self.height
        &&& 1 <= self.width
        &&& self.height * self.width <= usize::MAX
        &&& forall|r: int| 0 <= r < self.height ==> (#[trigger] self@[r]).len() == self.width
    }

    /// The sample at an in-range position.
    pub open spec fn elev(self, row: int, col: int) -> i16 {
        self@[row][col]
    }

    /// Validates the dimensions: at least one row, at least one column, every
    /// row of the same width, and a total cell count that fits in `usize`.
    /// Returns `InvalidDimensions` exactly when one of those fails.
    pub fn new(grid: Vec<Vec<i16>>) -> (result: Result<ElevationGrid, ProminenceError>)
        ensures
            match result {
                Ok(g) => {
                    &&& g.wf()
                    &&& g@ == grid@.map_values(|r: Vec<i16>| r@)
                    &&& g.height == grid@.len()
                    &&& g.width == grid@[0]@.len()
                },
                Err(e) => {
                    &&& e is InvalidDimensions
                    &&& (grid@.len() == 0
                        || grid@[0]@.len() == 0
                        || (exists|r: int|
                            0 <= r < grid@.len() && (#[trigger] grid@[r])@.len() != grid@[0]@.len())
                        || grid@.len() * grid@[0]@.len() > usize::MAX)
                },
            },
    {
        let height = grid.len();
        if height == 0 {
            return Err(ProminenceError::InvalidDimensions);
        }

        let width = grid[0].len();
        if width == 0 {
            return Err(ProminenceError::InvalidDimensions);
        }

        proof {
            assert((height as u128) * (width as u128) == (height as int) * (width as int)
                && (height as u128) * (width as u128) <= u128::MAX) by (nonlinear_arith)
                requires
                    height <= usize::MAX,
                    width <= usize::MAX,
            ;
        }
        if (height as u128) * (width as u128) > usize::MAX as u128 {
            return Err(ProminenceError::InvalidDimensions);
        }

        let mut r: usize = 0;
        while r < height
            invariant
                height == grid@.len(),
                width == grid@[0]@.len(),
                r <= height,
                forall|k: int| 0 <= k < r ==> (#[trigger] grid@[k])@.len() == width,
            decreases height - r,
        {
            if grid[r].len() != width {
                return Err(ProminenceError::InvalidDimensions);
            }
            r += 1;
        }

        Ok(ElevationGrid { grid, width, height })
    }

    /// The sample at `(row, col)`, or `None` for out-of-range coordinates.
    pub fn get_elevation(&self, row: usize, col: usize) -> (result: Option<i16>)
        requires
            self.wf(),
        ensures
            result == if row < self.height && col < self.width {
                Some(self.elev(row as int, col as int))
            } else {
                None::<i16>
            },
    {
        if row < self.height && col < self.width {
            proof {
                assert(self@[row as int] == self.grid@[row as int]@);
                assert(self@[row as int].len() == self.width);
            }
            Some(self.grid[row][col])
        } else {
            None
        }
    }

    /// Whether `(r, c)` lies inside the grid.
    pub open spec fn in_bounds(self, r: int, c: int) -> bool {
        0 <= r < self.height && 0 <= c < self.width
    }

    /// The flat row-major indices of the in-bounds neighbors of `(row, col)`
    /// among the first `k` compass directions, in scan order.
    pub open spec fn neighbor_index_seq(self, row: int, col: int, k: int) -> Seq<int>
        decreases k,
    {
        if k <= 0 {
            Seq::empty()
        } else {
            let prev = self.neighbor_index_seq(row, col, k - 1);
            if self.in_bounds(nbr_row(row, k - 1), nbr_col(col, k - 1)) {
                prev.push(nbr_row(row, k - 1) * self.width + nbr_col(col, k - 1))
            } else {
                prev
            }
        }
    }

    /// The local-maximum rule: no in-bounds neighbor is strictly higher, and
    /// at least one in-bounds neighbor is strictly lower.  A cell surrounded
    /// entirely by equal-elevation neighbors (a flat plateau) is not a local
    /// maximum under this rule.
    pub open spec fn spec_is_peak(self, row: int, col: int) -> bool {
        &&& self.in_bounds(row, col)
        &&& forall|k: int|
            #![trigger offset_dr(k)]
            0 <= k < 8 && self.in_bounds(nbr_row(row, k), nbr_col(col, k)) ==> self.elev(
                nbr_row(row, k),
                nbr_col(col, k),
            ) <= self.elev(row, col)
        &&& exists|k: int|
            #![trigger offset_dr(k)]
            0 <= k < 8 && self.in_bounds(nbr_row(row, k), nbr_col(col, k)) && self.elev(
                nbr_row(row, k),
                nbr_col(col, k),
            ) < self.elev(row, col)
    }

    /// The coordinates of the `k`-th compass neighbor of `(row, col)`, or
    /// `None` when that neighbor falls outside the grid.
    fn neighbor_at(&self, row: usize, col: usize, k: usize) -> (result: Option<(usize, usize)>)
        requires
            self.wf(),
            row < self.height,
            col < self.width,
            k < 8,
        ensures
            match result {
                Some(rc) => {
                    &&& rc.0 == nbr_row(row as int, k as int)
                    &&& rc.1 == nbr_col(col as int, k as int)
                    &&& self.in_bounds(rc.0 as int, rc.1 as int)
                },
                None => !self.in_bounds(nbr_row(row as int, k as int), nbr_col(col as int, k as int)),
            },
    {
        let up_ok = row > 0;
        let down_ok = row + 1 < self.height;
        let left_ok = col > 0;
        let right_ok = col + 1 < self.width;
        match k {
            0 => if up_ok && left_ok { Some((row - 1, col - 1)) } else { None },
            1 => if up_ok { Some((row - 1, col)) } else { None },
            2 => if up_ok && right_ok { Some((row - 1, col + 1)) } else { None },
            3 => if left_ok { Some((row, col - 1)) } else { None },
            4 => if right_ok { Some((row, col + 1)) } else { None },
            5 => if down_ok && left_ok { Some((row + 1, col - 1)) } else { None },
            6 => if down_ok { Some((row + 1, col)) } else { None },
            _ => if down_ok && right_ok { Some((row + 1, col + 1)) } else { None },
        }
    }

    /// The flat indices of the up-to-8 neighbors of `(row, col)`, clipped to
    /// the grid, in the fixed scan order given by `neighbor_index_seq`.
    pub fn get_neighbor_indices(&self, row: usize, col: usize) -> (result: Vec<usize>)
        requires
            self.wf(),
            row < self.height,
            col < self.width,
        ensures
            result@.len() <= 8,
            result@.len() == self.neighbor_index_seq(row as int, col as int, 8).len(),
            forall|j: int|
                0 <= j < result@.len() ==> result@[j] == self.neighbor_index_seq(
                    row as int,
                    col as int,
                    8,
                )[j],
            forall|j: int|
                #![trigger result@[j]]
                0 <= j < result@.len() ==> ({
                    let r2 = result@[j] as int / self.width as int;
                    let c2 = result@[j] as int % self.width as int;
                    &&& result@[j] < self.height * self.width
                    &&& self.in_bounds(r2, c2)
                    &&& is_neighbor(row as int, col as int, r2, c2)
                    &&& result@[j] == r2 * self.width + c2
                }),
    {
        let mut result: Vec<usize> = Vec::new();
        let mut k: usize = 0;
        while k < 8
            invariant
                self.wf(),
                row < self.height,
                col < self.width,
                k <= 8,
                result@.len() <= k,
                result@.len() == self.neighbor_index_seq(row as int, col as int, k as int).len(),
                forall|j: int|
                    0 <= j < result@.len() ==> result@[j] == self.neighbor_index_seq(
                        row as int,
                        col as int,
                        k as int,
                    )[j],
                forall|j: int|
                    #![trigger result@[j]]
                    0 <= j < result@.len() ==> ({
                        let r2 = result@[j] as int / self.width as int;
                        let c2 = result@[j] as int % self.width as int;
                        &&& result@[j] < self.height * self.width
                        &&& self.in_bounds(r2, c2)
                        &&& is_neighbor(row as int, col as int, r2, c2)
                        &&& result@[j] == r2 * self.width + c2
                    }),
            decreases 8 - k,
        {
            if let Some((r2, c2)) = self.neighbor_at(row, col, k) {
                proof {
                    assert(r2 * self.width + c2 < self.height * self.width) by (nonlinear_arith)
                        requires
                            r2 < self.height,
                            c2 < self.width,
                            self.width >= 1,
                    ;
                    vstd::arithmetic::div_mod::lemma_fundamental_div_mod_converse(
                        r2 as int * self.width as int + c2 as int,
                        self.width as int,
                        r2 as int,
                        c2 as int,
                    );
                }
                result.push(r2 * self.width + c2);
            }
            k += 1;
        }
        result
    }

    /// Whether `(row, col)` is a local maximum: no neighbor strictly higher
    /// and at least one strictly lower.  Out-of-range coordinates are not
    /// local maxima.
    pub fn is_peak(&self, row: usize, col: usize) -> (result: bool)
        requires
            self.wf(),
        ensures
            result == self.spec_is_peak(row as int, col as int),
    {
        let elevation = match self.get_elevation(row, col) {
            Some(e) => e,
            None => {
                return false;
            },
        };

        let mut has_lower = false;
        let mut k: usize = 0;
        while k < 8
            invariant
                self.wf(),
                row < self.height,
                col < self.width,
                k <= 8,
                elevation == self.elev(row as int, col as int),
                forall|k2: int|
                    #![trigger offset_dr(k2)]
                    0 <= k2 < k && self.in_bounds(nbr_row(row as int, k2), nbr_col(col as int, k2))
                        ==> self.elev(nbr_row(row as int, k2), nbr_col(col as int, k2))
                        <= elevation,
                has_lower <==> exists|k2: int|
                    #![trigger offset_dr(k2)]
                    0 <= k2 < k && self.in_bounds(nbr_row(row as int, k2), nbr_col(col as int, k2))
                        && self.elev(nbr_row(row as int, k2), nbr_col(col as int, k2)) < elevation,
            decreases 8 - k,
        {
            if let Some((r2, c2)) = self.neighbor_at(row, col, k) {
                proof {
                    assert(self@[r2 as int] == self.grid@[r2 as int]@);
                }
                let neighbor_elev = self.grid[r2][c2];
                if neighbor_elev > elevation {
                    // A strictly higher neighbor: not a peak.
                    return false;
                }
                if neighbor_elev < elevation {
                    has_lower = true;
                }
            }
            k += 1;
        }

        has_lower
    }

    /// Whether the cell lies on the outermost ring of the grid.
    pub fn is_on_boundary(&self, row: usize, col: usize) -> (result: bool)
        requires
            self.wf(),
        ensures
            result == (row == 0 || row == self.height - 1 || col == 0 || col == self.width - 1),
    {
        row == 0 || row == self.height - 1 || col == 0 || col == self.width - 1
    }

    /// All cells with elevation at least `min_elevation`, sorted ascending
    /// by elevation.  Ties keep an unspecified but fixed order; every
    /// eligible position appears exactly once, with its true elevation and
    /// flat index.
    pub fn get_all_cells(&self, min_elevation: i16) -> (cells: Vec<Cell>)
        requires
            self.wf(),
        ensures
            cells_sorted_by_elevation(cells@),
            forall|j: int|
                #![trigger cells@[j]]
                0 <= j < cells@.len() ==> ({
                    let c = cells@[j];
                    &&& self.in_bounds(c.row as int, c.col as int)
                    &&& c.elevation == self.elev(c.row as int, c.col as int)
                    &&& c.elevation >= min_elevation
                    &&& c.index == c.row * self.width + c.col
                }),
            forall|r: int, c: int|
                self.in_bounds(r, c) && self.elev(r, c) >= min_elevation ==> exists|j: int|
                    0 <= j < cells@.len() && (#[trigger] cells@[j]).row == r && cells@[j].col == c,
            forall|j1: int, j2: int|
                0 <= j1 < j2 < cells@.len() ==> !(cells@[j1].row == cells@[j2].row
                    && cells@[j1].col == cells@[j2].col),
    {
        let mut cells: Vec<Cell> = Vec::new();
        let mut row: usize = 0;
        while row < self.height
            invariant
                self.wf(),
                row <= self.height,
                forall|j: int|
                    #![trigger cells@[j]]
                    0 <= j < cells@.len() ==> ({
                        let c = cells@[j];
                        &&& self.in_bounds(c.row as int, c.col as int)
                        &&& c.row < row
                        &&& c.elevation == self.elev(c.row as int, c.col as int)
                        &&& c.elevation >= min_elevation
                        &&& c.index == c.row * self.width + c.col
                    }),
                forall|r: int, c: int|
                    0 <= r < row && 0 <= c < self.width && self.elev(r, c) >= min_elevation
                        ==> exists|j: int|
                        0 <= j < cells@.len() && (#[trigger] cells@[j]).row == r && cells@[j].col
                            == c,
                forall|j1: int, j2: int|
                    0 <= j1 < j2 < cells@.len() ==> !(cells@[j1].row == cells@[j2].row
                        && cells@[j1].col == cells@[j2].col),
            decreases self.height - row,
        {
            let mut col: usize = 0;
            while col < self.width
                invariant
                    self.wf(),
                    row < self.height,
                    col <= self.width,
                    forall|j: int|
                        #![trigger cells@[j]]
                        0 <= j < cells@.len() ==> ({
                            let c = cells@[j];
                            &&& self.in_bounds(c.row as int, c.col as int)
                            &&& (c.row < row || (c.row == row && c.col < col))
                            &&& c.elevation == self.elev(c.row as int, c.col as int)
                            &&& c.elevation >= min_elevation
                            &&& c.index == c.row * self.width + c.col
                        }),
                    forall|r: int, c: int|
                        (0 <= r < row || (r == row && 0 <= c < col)) && 0 <= c < self.width
                            && self.elev(r, c) >= min_elevation ==> exists|j: int|
                            0 <= j < cells@.len() && (#[trigger] cells@[j]).row == r
                                && cells@[j].col == c,
                    forall|j1: int, j2: int|
                        0 <= j1 < j2 < cells@.len() ==> !(cells@[j1].row == cells@[j2].row
                            && cells@[j1].col == cells@[j2].col),
                decreases self.width - col,
            {
                proof {
                    assert(self@[row as int] == self.grid@[row as int]@);
                    assert(row * self.width + col < self.height * self.width) by (nonlinear_arith)
                        requires
                            row < self.height,
                            col < self.width,
                    ;
                }
                let elevation = self.grid[row][col];
                if elevation >= min_elevation {
                    let cell = Cell::new(elevation, row, col, self.width);
                    let ghost prior = cells@;
                    cells.push(cell);
                    proof {
                        assert(cells@[prior.len() as int] == cell);
                        assert(forall|j: int| 0 <= j < prior.len() ==> cells@[j] == prior[j]);
                    }
                }
                col += 1;
            }
            row += 1;
        }

        let ghost pre = cells@;
        sort_cells_by_elevation(&mut cells);
        proof {
            broadcast use vstd::seq_lib::group_to_multiset_ensures;

            assert forall|j: int| #![trigger cells@[j]] 0 <= j < cells@.len() implies ({
                let c = cells@[j];
                &&& self.in_bounds(c.row as int, c.col as int)
                &&& c.elevation == self.elev(c.row as int, c.col as int)
                &&& c.elevation >= min_elevation
                &&& c.index == c.row * self.width + c.col
            }) by {
                let x = cells@[j];
                assert(cells@.contains(x));
                assert(pre.to_multiset().count(x) > 0);
                assert(pre.contains(x));
                let k = choose|k: int| 0 <= k < pre.len() && pre[k] == x;
            }
            assert forall|r: int, c: int|
                self.in_bounds(r, c) && self.elev(r, c) >= min_elevation implies exists|j: int|
                0 <= j < cells@.len() && (#[trigger] cells@[j]).row == r && cells@[j].col
                    == c by {
                let k = choose|k: int|
                    0 <= k < pre.len() && (#[trigger] pre[k]).row == r && pre[k].col == c;
                let x = pre[k];
                assert(pre.contains(x));
                assert(cells@.to_multiset().count(x) > 0);
                assert(cells@.contains(x));
                let j = choose|j: int| 0 <= j < cells@.len() && cells@[j] == x;
                assert(0 <= j < cells@.len() && cells@[j].row == r && cells@[j].col == c);
            }
            assert(pre.no_duplicates()) by {
                assert forall|a: int, b: int| 0 <= a < b < pre.len() implies pre[a] != pre[b] by {
                    assert(!(pre[a].row == pre[b].row && pre[a].col == pre[b].col));
                }
            }
            pre.lemma_multiset_has_no_duplicates();
            assert forall|x: Cell|
                cells@.to_multiset().contains(x) implies cells@.to_multiset().count(x) == 1 by {
                assert(pre.to_multiset().contains(x));
            }
            cells@.lemma_multiset_has_no_duplicates_conv();
            assert forall|j1: int, j2: int|
                0 <= j1 < j2 < cells@.len() implies !(cells@[j1].row == cells@[j2].row
                && cells@[j1].col == cells@[j2].col) by {
                let v1 = cells@[j1];
                let v2 = cells@[j2];
                assert(v1 != v2);
                assert(cells@.contains(v1) && cells@.contains(v2));
                assert(pre.to_multiset().count(v1) > 0 && pre.to_multiset().count(v2) > 0);
                assert(pre.contains(v1) && pre.contains(v2));
                let k1 = choose|k: int| 0 <= k < pre.len() && pre[k] == v1;
                let k2 = choose|k: int| 0 <= k < pre.len() && pre[k] == v2;
                assert(k1 != k2);
            }
        }
        cells
    }

    /// Decodes a flat row-major index back into `(row, col)`.
    pub fn index_to_coords(&self, index: usize) -> (result: (usize, usize))
        requires
            self.wf(),
        ensures
            result.0 == index as int / self.width as int,
            result.1 == index as int % self.width as int,
    {
        (index / self.width, index % self.width)
    }
}

/// The value of a 16-bit little-endian sample, as a signed integer.
pub open spec fn le16_value(b0: u8, b1: u8) -> int {
    if b0 + 256 * b1 < 32768 {
        b0 + 256 * b1
    } else {
        b0 + 256 * b1 - 65536
    }
}

/// A sample clamped to sea level: negative elevations become 0.
pub open spec fn clamped(v: int) -> i16 {
    if v < 0 {
        0i16
    } else {
        v as i16
    }
}

/// Decodes a buffer of little-endian 16-bit signed samples into a
/// `height` x `width` grid, clamping negative samples to 0 (sea level).
/// Cells beyond the buffer's last full sample stay 0.
pub fn decode_elevations(buffer: &Vec<u8>, width: usize, height: usize) -> (grid: Vec<Vec<i16>>)
    requires
        width * height <= usize::MAX,
    ensures
        grid@.len() == height,
        forall|r: int| 0 <= r < height ==> (#[trigger] grid@[r])@.len() == width,
        forall|r: int, c: int|
            0 <= r < height && 0 <= c < width ==> #[trigger] grid@[r]@[c] == ({
                let k = r * width + c;
                if 2 * k + 1 < buffer@.len() {
                    clamped(le16_value(buffer@[2 * k], buffer@[2 * k + 1]))
                } else {
                    0i16
                }
            }),
{
    let n = buffer.len();
    let mut grid: Vec<Vec<i16>> = Vec::new();
    let mut r: usize = 0;
    while r < height
        invariant
            width * height <= usize::MAX,
            n == buffer@.len(),
            r <= height,
            grid@.len() == r,
            forall|r2: int| 0 <= r2 < r ==> (#[trigger] grid@[r2])@.len() == width,
            forall|r2: int, c2: int|
                0 <= r2 < r && 0 <= c2 < width ==> #[trigger] grid@[r2]@[c2] == ({
                    let k = r2 * width + c2;
                    if 2 * k + 1 < buffer@.len() {
                        clamped(le16_value(buffer@[2 * k], buffer@[2 * k + 1]))
                    } else {
                        0i16
                    }
                }),
        decreases height - r,
    {
        let mut row: Vec<i16> = Vec::new();
        let mut c: usize = 0;
        while c < width
            invariant
                width * height <= usize::MAX,
                n == buffer@.len(),
                r < height,
                c <= width,
                row@.len() == c,
                forall|c2: int|
                    0 <= c2 < c ==> #[trigger] row@[c2] == ({
                        let k = r * width + c2;
                        if 2 * k + 1 < buffer@.len() {
                            clamped(le16_value(buffer@[2 * k], buffer@[2 * k + 1]))
                        } else {
                            0i16
                        }
                    }),
            decreases width - c,
        {
            proof {
                assert(r * width + c < width * height) by (nonlinear_arith)
                    requires
                        r < height,
                        c < width,
                ;
            }
            let k = r * width + c;
            // A full two-byte sample exists exactly when k < n / 2.
            let value: i16 = if k < n / 2 {
                proof {
                    vstd::arithmetic::div_mod::lemma_fundamental_div_mod(n as int, 2);
                }
                let b0 = buffer[2 * k];
                let b1 = buffer[2 * k + 1];
                let raw: i32 = (b0 as i32) + 256 * (b1 as i32);
                let signed: i32 = if raw >= 32768 {
                    raw - 65536
                } else {
                    raw
                };
                if signed < 0 {
                    0
                } else {
                    signed as i16
                }
            } else {
                proof {
                    vstd::arithmetic::div_mod::lemma_fundamental_div_mod(n as int, 2);
                }
                0
            };
            row.push(value);
            c += 1;
        }
        grid.push(row);
        r += 1;
    }
    grid
}

/// The `k`-th compass neighbor, when in bounds, appears in every prefix of
/// the neighbor sequence long enough to have scanned it.
pub(crate) proof fn lemma_neighbor_seq_mem(g: ElevationGrid, row: int, col: int, k: int, m: int)
    requires
        0 <= k < m,
        g.in_bounds(nbr_row(row, k), nbr_col(col, k)),
    ensures
        exists|j: int|
            0 <= j < g.neighbor_index_seq(row, col, m).len() && #[trigger] g.neighbor_index_seq(
                row,
                col,
                m,
            )[j] == nbr_row(row, k) * g.width + nbr_col(col, k),
    decreases m,
{
    let target = nbr_row(row, k) * g.width + nbr_col(col, k);
    let prev = g.neighbor_index_seq(row, col, m - 1);
    if k == m - 1 {
        assert(g.neighbor_index_seq(row, col, m)[prev.len() as int] == target);
    } else {
        lemma_neighbor_seq_mem(g, row, col, k, m - 1);
        let j = choose|j: int|
            0 <= j < prev.len() && #[trigger] prev[j] == nbr_row(row, k) * g.width + nbr_col(
                col,
                k,
            );
        assert(g.neighbor_index_seq(row, col, m)[j] == target);
    }
}

/// Every in-bounds compass neighbor's flat index appears in the full
/// neighbor sequence.
pub(crate) proof fn lemma_neighbor_seq_complete(g: ElevationGrid, row: int, col: int, r2: int, c2: int)
    requires
        is_neighbor(row, col, r2, c2),
        g.in_bounds(r2, c2),
    ensures
        exists|j: int|
            0 <= j < g.neighbor_index_seq(row, col, 8).len() && #[trigger] g.neighbor_index_seq(
                row,
                col,
                8,
            )[j] == r2 * g.width + c2,
{
    let dr = r2 - row;
    let dc = c2 - col;
    let k: int = if dr == -1 {
        if dc == -1 {
            0
        } else if dc == 0 {
            1
        } else {
            2
        }
    } else if dr == 0 {
        if dc == -1 {
            3
        } else {
            4
        }
    } else {
        if dc == -1 {
            5
        } else if dc == 0 {
            6
        } else {
            7
        }
    };
    assert(nbr_row(row, k) == r2 && nbr_col(col, k) == c2);
    lemma_neighbor_seq_mem(g, row, col, k, 8);
}

/// Flat-plateau exclusion: a cell all of whose in-bounds neighbors share its
/// exact elevation — in particular an interior cell whose 8 neighbors all
/// equal it — is never classified as a local maximum.
pub proof fn lemma_flat_plateau_not_peak(g: ElevationGrid, row: int, col: int)
    requires
        g.wf(),
        g.in_bounds(row, col),
        forall|k: int|
            #![trigger offset_dr(k)]
            0 <= k < 8 && g.in_bounds(nbr_row(row, k), nbr_col(col, k)) ==> g.elev(
                nbr_row(row, k),
                nbr_col(col, k),
            ) == g.elev(row, col),
    ensures
        !g.spec_is_peak(row, col),
{
    if g.spec_is_peak(row, col) {
        let k = choose|k: int|
            #![trigger offset_dr(k)]
            0 <= k < 8 && g.in_bounds(nbr_row(row, k), nbr_col(col, k)) && g.elev(
                nbr_row(row, k),
                nbr_col(col, k),
            ) < g.elev(row, col);
        assert(g.elev(nbr_row(row, k), nbr_col(col, k)) == g.elev(row, col));
    }
}

} // verus!
