//! Basic types used for layouts.

use vstd::prelude::*;

verus! {

/// Default unsigned integer type.
pub type UInt = u32;

/// Default signed integer type.
pub type SInt = i32;

/// Integer coordinate type.
pub type Coord = i32;

/// Meta-data of a layer.
#[derive(Clone, Debug, PartialEq)]
pub struct LayerInfo<NameType> {
    /// Identifier of the layer.
    pub index: UInt,
    /// Identifier of the layer.
    pub datatype: UInt,
    /// Name of the layer.
    pub name: Option<NameType>,
}

} // verus!
