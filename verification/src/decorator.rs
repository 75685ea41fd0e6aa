//! Traits for types that extend another data structure and pass calls on to it.

use vstd::prelude::*;

verus! {

/// A type that wraps an underlying data structure.
pub trait Decorator {
    /// The decorated type.
    type D;

    /// The underlying data structure.
    spec fn decorated(&self) -> Self::D;

    /// Get a reference to the underlying data structure.
    fn base(&self) -> (res: &Self::D)
        ensures
            *res == self.decorated();
}

/// A type that wraps an underlying data structure and gives mutable access to it.
pub trait MutDecorator: Decorator {
    /// Get a mutable reference to the underlying data structure: changes made
    /// through it are changes of the underlying data structure.
    fn mut_base(&mut self) -> (res: &mut Self::D)
        ensures
            *res == old(self).decorated(),
            final(self).decorated() == *final(res);
}

} // verus!
