//! Topographic prominence for digital elevation models.
//!
//! For each summit of a rectangular elevation grid, the library computes how
//! far the summit rises above its key saddle — the highest pass one must cross
//! to reach higher ground — or above sea level when the summit's drainage
//! basin reaches the grid edge.  The core is an augmented union-find over the
//! grid cells, merged in descending elevation order.

use vstd::prelude::*;

pub mod grid;
pub mod peak;
pub mod prominence;
pub mod sort;
pub mod union_find;

pub use grid::Cell;
pub use grid::ElevationGrid;
pub use peak::Peak;
pub use prominence::ProminenceCalculator;

verus! {

/// Errors that can occur during prominence calculation.
#[derive(Debug)]
pub enum ProminenceError {
    /// I/O error when reading files.
    IoError(std::io::Error),
    /// Invalid grid dimensions.
    InvalidDimensions,
    /// Invalid elevation data.
    InvalidElevation,
    /// Processing error with description.
    ProcessingError(String),
}

/// `std::io::Error` is opaque to the verifier; it is only carried through.
#[verifier::external_type_specification]
#[verifier::external_body]
pub struct ExIoError(std::io::Error);

} // verus!
