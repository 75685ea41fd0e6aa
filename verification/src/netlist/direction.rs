//! The type of a pin is specified by a signal direction.

use vstd::prelude::*;

verus! {

/// Signal type for pins.
#[derive(Copy, Clone, Debug, Hash, PartialEq, Eq, Structural)]
pub enum Direction {
    /// No direction specified.
    Unspecified,
    /// Data input.
    Input,
    /// Data output.
    Output,
    /// Input and output.
    InOut,
    /// Clock input.
    Clock,
    /// Power VDD.
    Supply,
    /// Power ground.
    Ground,
}

impl Default for Direction {
    fn default() -> (res: Self)
        ensures
            res == Direction::Unspecified,
    {
        Direction::Unspecified
    }
}

impl Direction {
    /// Check if this direction is 'input'.
    pub fn is_input(&self) -> (res: bool)
        ensures
            res == (*self == Direction::Input),
    {
        *self == Direction::Input
    }

    /// Check if this direction is 'output'.
    pub fn is_output(&self) -> (res: bool)
        ensures
            res == (*self == Direction::Output),
    {
        *self == Direction::Output
    }
}

} // verus!
