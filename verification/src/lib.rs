//! Database for VLSI physical design: cell hierarchies, netlists and layouts
//! together with the identifiers and containers that hold them.
//!
//! The containers in this crate carry their invariants as well-formedness
//! predicates, and the operations state in their contracts how they change
//! the abstract view of the data.

pub mod index;
pub mod index_map;
pub mod layout;
pub mod netlist;
pub mod chip;
mod fnv_collections;
mod geometry;
pub mod ref_wrapper;
pub mod delegate;
pub mod library;
pub mod decorator;
pub mod profile;
pub mod rc_string;
pub mod flat_view;
