//! The immutable result record: one summit together with its prominence and,
//! for interior summits, the key saddle ("col") that defines that prominence.

use vstd::prelude::*;

verus! {

/// One entry of the result list: summit position and elevation, its
/// prominence, and the optional key-saddle position and elevation.  The
/// saddle fields are absent when prominence is measured against sea level
/// because the summit's basin drains to the grid boundary.
#[derive(Debug, Clone, Copy, PartialEq, Eq)]
pub struct Peak {
    pub row: usize,
    pub col: usize,
    pub elevation: i16,
    pub prominence: i16,
    pub col_row: Option<usize>,
    pub col_col: Option<usize>,
    pub col_elevation: Option<i16>,
}

impl Peak {
    /// A fresh record for a summit, with zero prominence and no saddle yet.
    pub fn new(row: usize, col: usize, elevation: i16) -> (p: Peak)
        ensures
            p == (Peak {
                row,
                col,
                elevation,
                prominence: 0,
                col_row: None,
                col_col: None,
                col_elevation: None,
            }),
    {
        Peak { row, col, elevation, prominence: 0, col_row: None, col_col: None, col_elevation: None }
    }

    /// The same record with the key saddle ("col") filled in.
    pub fn with_col(self, row: usize, col: usize, elevation: i16) -> (p: Peak)
        ensures
            p == (Peak {
                col_row: Some(row),
                col_col: Some(col),
                col_elevation: Some(elevation),
                ..self
            }),
    {
        Peak { col_row: Some(row), col_col: Some(col), col_elevation: Some(elevation), ..self }
    }

    /// The same record with the prominence filled in.
    pub fn with_prominence(self, prominence: i16) -> (p: Peak)
        ensures
            p == (Peak { prominence, ..self }),
    {
        Peak { prominence, ..self }
    }
}

} // verus!
