use vstd::prelude::*;

verus! {

/// Failure while loading a delimited table.
#[derive(Debug, Clone, Copy, PartialEq, Eq, Structural)]
pub enum CSVError {
    /// The file could not be opened or a line could not be read.
    IoErr,
    /// A cell did not hold a number.
    ParseErr,
}

/// A violated shape or domain precondition.
#[derive(Debug, Clone, Copy, PartialEq, Eq, Structural)]
pub enum ShapeError {
    /// A row index is not below the length of some column.
    RowOutOfRange,
    /// A column range does not lie within the matrix.
    ColumnOutOfRange,
    /// Two sequences that must be aligned have different lengths.
    LengthMismatch,
    /// A matrix has no columns, so its row count is unknown.
    NoColumns,
    /// An operation that needs at least one value got none.
    EmptyColumn,
    /// A regression target must have exactly one column.
    TargetColumns,
    /// The split feature of a node is missing from the input.
    FeatureCountMismatch,
}

} // verus!
