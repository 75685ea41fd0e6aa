//! Registration of cell libraries next to an owned data base.
//!
//! The owned data base has the identifier 0; libraries are numbered from 1 in
//! the order in which they are added.

use vstd::prelude::*;

verus! {

/// Identifier of a library.
#[derive(Copy, Clone, Debug, Hash, PartialEq, Eq, PartialOrd, Ord, Structural)]
pub struct LibraryId(usize);

impl View for LibraryId {
    type V = usize;

    closed spec fn view(&self) -> usize {
        self.0
    }
}

/// An owned data base together with borrowed libraries.
pub struct LibraryWrapper<'a, T> {
    libraries: Vec<&'a T>,
    owned: T,
}

impl<'a, T> LibraryWrapper<'a, T> {
    /// The registered libraries, in the order in which they were added.
    pub closed spec fn libraries_spec(&self) -> Seq<&'a T> {
        self.libraries@
    }

    /// The owned data base.
    pub closed spec fn owned_spec(&self) -> T {
        self.owned
    }

    /// The data that identifier `id` names: the owned data base for 0, else the
    /// `id`-th library that was added.
    pub closed spec fn library_at(&self, id: usize) -> T {
        if id == 0 {
            self.owned
        } else {
            *self.libraries@[id - 1]
        }
    }

    /// Register a library. Returns the number of libraries registered so far.
    pub fn add_library(&mut self, library: &'a T) -> (res: LibraryId)
        ensures
            final(self).libraries_spec() == old(self).libraries_spec().push(library),
            final(self).owned_spec() == old(self).owned_spec(),
            res@ == final(self).libraries_spec().len(),
    {
        self.libraries.push(library);
        LibraryId(self.libraries.len())
    }

    /// Get the data of a library: the owned data base for identifier 0, else the
    /// library that `add_library` registered under the identifier, as `libraries`
    /// pairs them.
    fn get_library(&self, library_id: &LibraryId) -> (res: &T)
        requires
            library_id@ <= self.libraries_spec().len(),
        ensures
            *res == self.library_at(library_id@),
    {
        if library_id.0 == 0 {
            &self.owned
        } else {
            self.libraries[library_id.0 - 1]
        }
    }

    /// The owned data base (identifier 0) followed by the libraries (identifiers from 1).
    fn libraries(&self) -> (res: Vec<(LibraryId, &T)>)
        ensures
            res@.len() == self.libraries_spec().len() + 1,
            res@[0].0@ == 0 && *res@[0].1 == self.owned_spec(),
            forall|k: int| 0 <= k < self.libraries_spec().len() ==> (#[trigger] res@[k + 1]).0@ == k + 1
                && *res@[k + 1].1 == *self.libraries_spec()[k],
    {
        let mut res: Vec<(LibraryId, &T)> = Vec::new();
        res.push((LibraryId(0), &self.owned));
        let mut k: usize = 0;
        while k < self.libraries.len()
            invariant
                k <= self.libraries_spec().len(),
                res@.len() == k + 1,
                res@[0].0@ == 0 && *res@[0].1 == self.owned_spec(),
                forall|j: int| 0 <= j < k ==> (#[trigger] res@[j + 1]).0@ == j + 1
                    && *res@[j + 1].1 == *self.libraries_spec()[j],
            decreases self.libraries_spec().len() - k,
        {
            res.push((LibraryId(k + 1), self.libraries[k]));
            k = k + 1;
        }
        res
    }
}

/// Adding a library gives it an identifier under which it is found, names the
/// owned data base by 0 as before, and keeps every earlier identifier on its
/// library.
pub proof fn law_added_library_is_found<'a, T>(
    before: LibraryWrapper<'a, T>,
    after: LibraryWrapper<'a, T>,
    library: &'a T,
    id: LibraryId,
)
    requires
        after.libraries_spec() == before.libraries_spec().push(library),
        after.owned_spec() == before.owned_spec(),
        id@ == after.libraries_spec().len(),
    ensures
        id@ != 0,
        after.library_at(id@) == *library,
        after.library_at(0) == before.owned_spec(),
        forall|k: usize| #![trigger before.library_at(k)] k <= before.libraries_spec().len()
            ==> after.library_at(k) == before.library_at(k),
{
    assert forall|k: usize| #![trigger before.library_at(k)] k <= before.libraries_spec().len()
        implies after.library_at(k) == before.library_at(k) by {
        if k != 0 {
            assert(after.libraries@[k - 1] == before.libraries@[k - 1]);
        }
    }
}

} // verus!
