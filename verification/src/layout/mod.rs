//! Layout data types: layer descriptions, layout errors and index types.

pub mod errors;
pub mod index;
pub mod types;
pub mod algorithms;
