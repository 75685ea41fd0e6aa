//! Netlist data types.

pub mod direction;
pub mod util;
