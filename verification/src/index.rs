//! Data structure for creating indices related to some other type. This is used to create
//! handles for data stored in hash maps.

use std::marker::PhantomData;
use vstd::prelude::*;
use vstd::std_specs::cmp::PartialEqSpec;
use vstd::std_specs::cmp::PartialEqSpecImpl;
use vstd::std_specs::cmp::PartialOrdSpec;

verus! {

/// An identifier for an arbitrary type `T`.
/// This is a wrapper around an integer which is bound to a type `T`.
pub struct Index<T, Int = u32> {
    index: Int,
    phantom: PhantomData<T>,
}

impl<T, Int> View for Index<T, Int> {
    type V = Int;

    /// The integer value of the index.
    closed spec fn view(&self) -> Int {
        self.index
    }
}

impl<T, Int: Copy> Clone for Index<T, Int> {
    fn clone(&self) -> (res: Self)
        ensures
            res@ == self@,
    {
        Self::new(self.index)
    }
}

impl<T, Int: Copy> Copy for Index<T, Int> {

}

impl<T, Int: PartialEq> PartialEq for Index<T, Int> {
    fn eq(&self, other: &Self) -> (res: bool) {
        self.index == other.index
    }
}

impl<T, Int: PartialEq> PartialEqSpecImpl for Index<T, Int> {
    open spec fn obeys_eq_spec() -> bool {
        Int::obeys_eq_spec()
    }

    open spec fn eq_spec(&self, other: &Self) -> bool {
        self@.eq_spec(&other@)
    }
}

impl<T, Int: Eq> Eq for Index<T, Int> {

}

impl<T, Int: Copy> Index<T, Int> {
    /// Create an index from its integer value.
    pub(crate) fn new(index: Int) -> (res: Self)
        ensures
            res@ == index,
    {
        Index { index, phantom: PhantomData }
    }

    /// Get the integer value of this index.
    pub fn value(&self) -> (res: Int)
        ensures
            res == self@,
    {
        self.index
    }
}

impl<T> PartialOrd for Index<T, u32> {
    /// Indices are ordered by their integer values.
    fn partial_cmp(&self, other: &Self) -> (res: Option<core::cmp::Ordering>) {
        if self.index < other.index {
            Some(core::cmp::Ordering::Less)
        } else if self.index > other.index {
            Some(core::cmp::Ordering::Greater)
        } else {
            Some(core::cmp::Ordering::Equal)
        }
    }
}

impl<T> vstd::std_specs::cmp::PartialOrdSpecImpl for Index<T, u32> {
    open spec fn obeys_partial_cmp_spec() -> bool {
        true
    }

    open spec fn partial_cmp_spec(&self, other: &Self) -> Option<core::cmp::Ordering> {
        if self@ < other@ {
            Some(core::cmp::Ordering::Less)
        } else if self@ > other@ {
            Some(core::cmp::Ordering::Greater)
        } else {
            Some(core::cmp::Ordering::Equal)
        }
    }
}

impl<T> PartialOrd for Index<T, u16> {
    /// Indices are ordered by their integer values.
    fn partial_cmp(&self, other: &Self) -> (res: Option<core::cmp::Ordering>) {
        if self.index < other.index {
            Some(core::cmp::Ordering::Less)
        } else if self.index > other.index {
            Some(core::cmp::Ordering::Greater)
        } else {
            Some(core::cmp::Ordering::Equal)
        }
    }
}

impl<T> vstd::std_specs::cmp::PartialOrdSpecImpl for Index<T, u16> {
    open spec fn obeys_partial_cmp_spec() -> bool {
        true
    }

    open spec fn partial_cmp_spec(&self, other: &Self) -> Option<core::cmp::Ordering> {
        if self@ < other@ {
            Some(core::cmp::Ordering::Less)
        } else if self@ > other@ {
            Some(core::cmp::Ordering::Greater)
        } else {
            Some(core::cmp::Ordering::Equal)
        }
    }
}

/// Indices handed out by successive calls of `next` on one generator, the
/// `j`-th of them with value `first + j`, come in increasing order: each
/// compares less than every later one, and no two are equal.
pub proof fn law_generated_indices_increase<T>(rs: Seq<Index<T, u32>>, first: int)
    requires
        forall|j: int| 0 <= j < rs.len() ==> #[trigger] rs[j]@ == first + j,
    ensures
        forall|i: int, j: int| #![trigger rs[i], rs[j]] 0 <= i < j < rs.len() ==>
            rs[i].partial_cmp_spec(&rs[j]) == Some(core::cmp::Ordering::Less) && rs[i]@ != rs[j]@,
{
}

/// Generator for incrementing `Index<T>` values.
pub struct IndexGenerator<T, Int = u32> {
    counter: Int,
    phantom: PhantomData<T>,
}

impl<T, Int> View for IndexGenerator<T, Int> {
    type V = Int;

    /// The value of the next index that the generator hands out.
    closed spec fn view(&self) -> Int {
        self.counter
    }
}

impl<T> IndexGenerator<T, u32> {
    /// Create a new index generator whose first index is `start`.
    pub fn new(start: u32) -> (res: Self)
        ensures
            res@ == start,
    {
        IndexGenerator { counter: start, phantom: PhantomData }
    }

    /// Generate a new index: the current counter value, after which the counter
    /// is incremented.
    pub fn next(&mut self) -> (res: Index<T, u32>)
        requires
            old(self)@ < u32::MAX,
        ensures
            res@ == old(self)@,
            final(self)@ == old(self)@ + 1,
    {
        let index = Index::new(self.counter);
        self.counter = self.counter + 1;
        index
    }
}

impl<T> IndexGenerator<T, u16> {
    /// Create a new index generator whose first index is `start`.
    pub fn new(start: u16) -> (res: Self)
        ensures
            res@ == start,
    {
        IndexGenerator { counter: start, phantom: PhantomData }
    }

    /// Generate a new index: the current counter value, after which the counter
    /// is incremented.
    pub fn next(&mut self) -> (res: Index<T, u16>)
        requires
            old(self)@ < u16::MAX,
        ensures
            res@ == old(self)@,
            final(self)@ == old(self)@ + 1,
    {
        let index = Index::new(self.counter);
        self.counter = self.counter + 1;
        index
    }
}

impl<T> Default for IndexGenerator<T, u32> {
    fn default() -> (res: Self)
        ensures
            res@ == 0,
    {
        Self::new(0)
    }
}

impl<T> Default for IndexGenerator<T, u16> {
    fn default() -> (res: Self)
        ensures
            res@ == 0,
    {
        Self::new(0)
    }
}

} // verus!
