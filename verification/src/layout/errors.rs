//! Errors that can happen while editing a layout.

use vstd::prelude::*;

verus! {

/// Error type for layout operations.
#[derive(Debug, Clone, PartialEq, Eq)]
pub enum LayoutDbError {
    /// A cell with this name already exists.
    CellNameAlreadyExists(String),
    /// No cell with this name exists.
    CellNameNotFound(String),
    /// No cell with this index exists.
    CellIndexNotFound,
}

} // verus!
