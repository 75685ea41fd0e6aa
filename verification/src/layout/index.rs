//! Data structure for creating indices related to some other type. This is used to create
//! handles for data stored in hash maps.

use std::marker::PhantomData;
use vstd::prelude::*;
use vstd::std_specs::cmp::PartialOrdSpec;

verus! {

/// An identifier for an arbitrary type `T`, backed by a `usize`. Indices are
/// ordered by their integer values.
#[derive(Debug, Hash, Ord)]
pub struct Index<T> {
    index: usize,
    phantom: PhantomData<T>,
}

impl<T> View for Index<T> {
    type V = usize;

    /// The integer value of the index.
    closed spec fn view(&self) -> usize {
        self.index
    }
}

impl<T> Clone for Index<T> {
    fn clone(&self) -> (res: Self)
        ensures
            res@ == self@,
    {
        Index::new(self.index)
    }
}

impl<T: Clone> Copy for Index<T> {

}

impl<T> PartialEq for Index<T> {
    fn eq(&self, other: &Self) -> (res: bool) {
        self.index == other.index
    }
}

impl<T> vstd::std_specs::cmp::PartialEqSpecImpl for Index<T> {
    open spec fn obeys_eq_spec() -> bool {
        true
    }

    open spec fn eq_spec(&self, other: &Self) -> bool {
        self@ == other@
    }
}

impl<T> Eq for Index<T> {

}

impl<T> PartialOrd for Index<T> {
    fn partial_cmp(&self, other: &Self) -> (res: Option<core::cmp::Ordering>) {
        if self.index < other.index {
            Some(core::cmp::Ordering::Less)
        } else if self.index > other.index {
            Some(core::cmp::Ordering::Greater)
        } else {
            Some(core::cmp::Ordering::Equal)
        }
    }
}

impl<T> vstd::std_specs::cmp::PartialOrdSpecImpl for Index<T> {
    open spec fn obeys_partial_cmp_spec() -> bool {
        true
    }

    open spec fn partial_cmp_spec(&self, other: &Self) -> Option<core::cmp::Ordering> {
        if self@ < other@ {
            Some(core::cmp::Ordering::Less)
        } else if self@ > other@ {
            Some(core::cmp::Ordering::Greater)
        } else {
            Some(core::cmp::Ordering::Equal)
        }
    }
}

/// An index that a generator hands out compares less than every index that the
/// same generator hands out later, and differs from it: `next` returns the
/// counter and increments it, so the values of later calls are greater.
pub proof fn law_later_index_greater<T>(earlier: Index<T>, later: Index<T>)
    requires
        earlier@ < later@,
    ensures
        earlier.partial_cmp_spec(&later) == Some(core::cmp::Ordering::Less),
        later.partial_cmp_spec(&earlier) == Some(core::cmp::Ordering::Greater),
        earlier != later,
{
}

impl<T> Index<T> {
    fn new(index: usize) -> (res: Self)
        ensures
            res@ == index,
    {
        Index { index, phantom: PhantomData }
    }

    /// Create a generator whose first index is zero.
    pub fn new_generator() -> (res: IndexGenerator<T>)
        ensures
            res@ == 0,
    {
        IndexGenerator::<T>::new()
    }
}

/// Indices handed out by successive calls of `next` on one generator, the
/// `j`-th of them with value `first + j`, come in increasing order: each
/// compares less than every later one, and no two are equal.
pub proof fn law_successive_indices_increase<T>(rs: Seq<Index<T>>, first: int)
    requires
        forall|j: int| 0 <= j < rs.len() ==> #[trigger] rs[j]@ == first + j,
    ensures
        forall|i: int, j: int| #![trigger rs[i], rs[j]] 0 <= i < j < rs.len() ==>
            rs[i].partial_cmp_spec(&rs[j]) == Some(core::cmp::Ordering::Less) && rs[i] != rs[j],
{
    assert forall|i: int, j: int| #![trigger rs[i], rs[j]] 0 <= i < j < rs.len() implies
        rs[i].partial_cmp_spec(&rs[j]) == Some(core::cmp::Ordering::Less) && rs[i] != rs[j] by {
        law_later_index_greater(rs[i], rs[j]);
    }
}

/// Generator for incrementing `Index<T>` values.
pub struct IndexGenerator<T> {
    counter: usize,
    phantom: PhantomData<T>,
}

impl<T> View for IndexGenerator<T> {
    type V = usize;

    /// The value of the next index that the generator hands out.
    closed spec fn view(&self) -> usize {
        self.counter
    }
}

impl<T> Default for IndexGenerator<T> {
    fn default() -> (res: Self)
        ensures
            res@ == 0,
    {
        Self::new()
    }
}

impl<T> IndexGenerator<T> {
    /// Create a new index generator whose first index is zero.
    pub fn new() -> (res: Self)
        ensures
            res@ == 0,
    {
        IndexGenerator { counter: 0, phantom: PhantomData }
    }

    /// Generate a new index: the current counter value, after which the counter
    /// is incremented.
    pub fn next(&mut self) -> (res: Index<T>)
        requires
            old(self)@ < usize::MAX,
        ensures
            res@ == old(self)@,
            final(self)@ == old(self)@ + 1,
    {
        let index = Index::new(self.counter);
        self.counter = self.counter + 1;
        index
    }
}

} // verus!
