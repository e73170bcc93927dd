//! The error taxonomy. Every failure is fatal for the run that raises it:
//! there is no partial-success mode.

use vstd::prelude::*;

verus! {

/// The reasons a run can fail.
#[derive(Clone, Copy, PartialEq, Eq, Structural, Debug)]
pub enum Error {
    /// Invalid or degenerate configuration: a dithering kernel whose first
    /// row carries no weight before any cell is processed, or a system clock
    /// that cannot be read.
    Configuration,
    /// The output grid references a variant index absent from the catalog;
    /// `variant_index` is the offending value.
    Consistency { variant_index: usize },
    /// The finished document or image cannot be written to its destination.
    Io,
}

} // verus!
