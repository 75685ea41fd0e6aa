//! Container with `O(1)` insertion, lookup and remove operations.
//!
//! The container generates the key of an element when the element is inserted.
//! A key consists of a slot in the data array and an ID that is drawn from a
//! monotonically increasing counter, so that a key of a removed element does
//! not match an element that later occupies the same slot.

use vstd::prelude::*;
use vstd::set_lib::*;
use vstd::relations::injective_on;

verus! {

/// Integer type used to make handles unique.
pub type IdType = u32;

/// Integer type used as pointer into the data array.
pub type IndexType = u32;

/// Key into an [`IndexMap`].
#[derive(Debug, Default, Clone, Copy, PartialEq, Eq, Hash, Structural)]
pub struct Index {
    /// Pointer into the data array.
    index: IndexType,
    /// A monotonically increasing ID which makes sure that the same index is not repeated.
    id: IdType,
}

impl Index {
    /// The slot in the data array this key points to.
    pub closed spec fn slot(self) -> IndexType {
        self.index
    }

    /// The unique ID of this key.
    pub closed spec fn key_id(self) -> IdType {
        self.id
    }

    fn index(&self) -> (res: usize)
        ensures
            res == self.index,
    {
        self.index as usize
    }
}

/// Map-like container which does not let the caller choose the key but generates it
/// when an element is inserted.
pub struct IndexMap<T> {
    data: Vec<Option<(IdType, T)>>,
    id_counter: IdType,
    free_indices: Vec<IndexType>,
    /// Number of elements currently in the map.
    len: usize,
}

/// The keys of the occupied slots of `data`, in slot order, together with the values.
pub closed spec fn occupied_entries<T>(data: Seq<Option<(IdType, T)>>) -> Seq<(Index, T)>
    decreases data.len(),
{
    if data.len() == 0 {
        Seq::empty()
    } else {
        let prefix = occupied_entries(data.drop_last());
        match data.last() {
            Some(e) => prefix.push((Index { index: (data.len() - 1) as u32, id: e.0 }, e.1)),
            None => prefix,
        }
    }
}

impl<T> IndexMap<T> {
    /// Does `k` address an element of the map?
    pub closed spec fn occupied(self, k: Index) -> bool {
        &&& (k.index as int) < self.data@.len()
        &&& self.data@[k.index as int] is Some
        &&& self.data@[k.index as int].unwrap().0 == k.id
    }

    /// The ID that the next inserted element receives.
    pub closed spec fn next_id(self) -> IdType {
        self.id_counter
    }

    /// The free slots of the data array, the most recently freed last: the next
    /// insertion takes the last of them.
    pub closed spec fn free_slots(self) -> Seq<IndexType> {
        self.free_indices@
    }

    /// Number of slots in the data array, occupied or free.
    pub closed spec fn num_slots(self) -> nat {
        self.data@.len()
    }

    /// The elements of the map together with their keys, in slot order.
    pub closed spec fn entries(self) -> Seq<(Index, T)> {
        occupied_entries(self.data@)
    }

    /// Internal consistency of the map.
    pub closed spec fn wf(self) -> bool {
        &&& self.data@.len() <= u32::MAX
        &&& forall|j: int|
            0 <= j < self.free_indices@.len() ==> {
                &&& (#[trigger] self.free_indices@[j] as int) < self.data@.len()
                &&& self.data@[self.free_indices@[j] as int] is None
            }
        &&& forall|i: int|
            0 <= i < self.data@.len() && #[trigger] self.data@[i] is None
                ==> self.free_indices@.contains(i as u32)
        &&& self.free_indices@.no_duplicates()
        &&& forall|i: int|
            0 <= i < self.data@.len() && #[trigger] self.data@[i] is Some
                ==> self.data@[i].unwrap().0 < self.id_counter
        &&& self.len + self.free_indices@.len() == self.data@.len()
    }

    /// All keys of elements in the map carry an ID below the next ID.
    pub proof fn lemma_keys_below_next_id(self, k: Index)
        requires
            self.wf(),
            self@.contains_key(k),
        ensures
            k.key_id() < self.next_id(),
    {
    }

    /// The entries are exactly the elements of the map, each key once, in slot order.
    pub proof fn lemma_entries_are_view(self)
        requires
            self.wf(),
        ensures
            forall|i: int| 0 <= i < self.entries().len() ==>
                self@.contains_key(#[trigger] self.entries()[i].0) && self@[self.entries()[i].0] == self.entries()[i].1,
            forall|k: Index| #[trigger] self@.contains_key(k) ==>
                exists|i: int| 0 <= i < self.entries().len() && self.entries()[i].0 == k,
            forall|i: int, j: int| 0 <= i < j < self.entries().len() ==>
                (#[trigger] self.entries()[i]).0 != (#[trigger] self.entries()[j]).0,
            forall|i: int, j: int| 0 <= i < j < self.entries().len() ==>
                (#[trigger] self.entries()[i]).0.slot() < (#[trigger] self.entries()[j]).0.slot(),
            self.entries().len() == self@.len(),
    {
        lemma_occupied_entries(self.data@);
        let es = self.entries();
        assert forall|i: int| 0 <= i < es.len() implies
            self@.contains_key(#[trigger] es[i].0) && self@[es[i].0] == es[i].1 by {
            assert(self.occupied(es[i].0));
        }
        assert forall|k: Index| #[trigger] self@.contains_key(k) implies
            exists|i: int| 0 <= i < es.len() && es[i].0 == k by {
            assert(self.data@[k.index as int] is Some);
            let i = choose|i: int| 0 <= i < es.len() && es[i].0.index == k.index;
            assert(es[i].0 == k);
        }
        let keys = es.map_values(|e: (Index, T)| e.0);
        assert(keys.no_duplicates()) by {
            assert forall|i: int, j: int| 0 <= i < keys.len() && 0 <= j < keys.len() && i != j implies keys[i] != keys[j] by {
                if i < j {
                    assert(es[i].0.index < es[j].0.index);
                } else {
                    assert(es[j].0.index < es[i].0.index);
                }
            }
        }
        keys.unique_seq_to_set();
        assert(keys.to_set() =~= self@.dom()) by {
            assert forall|k: Index| #[trigger] self@.dom().contains(k) implies keys.to_set().contains(k) by {
                let i = choose|i: int| 0 <= i < es.len() && es[i].0 == k;
                assert(keys[i] == k);
            }
            assert forall|k: Index| #[trigger] keys.to_set().contains(k) implies self@.dom().contains(k) by {
                let i = choose|i: int| 0 <= i < keys.len() && keys[i] == k;
                assert(es[i].0 == k);
            }
        }
        self.lemma_view_len();
    }

    /// The number of elements equals the size of the view.
    proof fn lemma_view_len(self)
        requires
            self.wf(),
        ensures
            self@.dom().finite(),
            self@.len() == self.len,
    {
        let n = self.data@.len() as int;
        let range = set_int_range(0, n);
        lemma_int_range(0, n);
        let some = range.filter(|i: int| self.data@[i] is Some);
        let none = range.filter(|i: int| self.data@[i] is None);
        assert(some + none =~= range);
        assert(some.disjoint(none));
        lemma_set_disjoint_lens(some, none);
        let free = self.free_indices@.to_set();
        self.free_indices@.unique_seq_to_set();
        let to_int = |x: u32| x as int;
        assert(free.map(to_int) =~= none) by {
            assert forall|i: int| none.contains(i) implies #[trigger] free.map(to_int).contains(i) by {
                assert(self.free_indices@.contains(i as u32));
                assert(free.contains(i as u32));
                assert(to_int(i as u32) == i);
            }
        }
        lemma_map_size(free, none, to_int);
        let to_key = |i: int| Index { index: i as u32, id: self.data@[i].unwrap().0 };
        assert(some.map(to_key) =~= self@.dom()) by {
            assert forall|k: Index| self@.dom().contains(k) implies #[trigger] some.map(to_key).contains(k) by {
                let i = k.index as int;
                assert(some.contains(i));
                assert(to_key(i) == k);
            }
        }
        assert(injective_on(to_key, some)) by {
            assert forall|a: int, b: int| some.contains(a) && some.contains(b) && #[trigger] to_key(a) == #[trigger] to_key(b) implies a == b by {
                assert((a as u32) as int == a);
                assert((b as u32) as int == b);
            }
        }
        lemma_map_size(some, self@.dom(), to_key);
    }
}

impl<T> View for IndexMap<T> {
    type V = Map<Index, T>;

    /// The elements of the map, indexed by their keys.
    closed spec fn view(&self) -> Map<Index, T> {
        Map::new(|k: Index| self.occupied(k), |k: Index| self.data@[k.index as int].unwrap().1)
    }
}

impl<T> IndexMap<T> {
    /// Create an empty container.
    pub fn new() -> (res: Self)
        ensures
            res.wf(),
            res@ == Map::<Index, T>::empty(),
            res.next_id() == 0,
            res.num_slots() == 0,
            res.free_slots() == Seq::<IndexType>::empty(),
    {
        let res = Self { id_counter: 0, free_indices: Vec::new(), data: Vec::new(), len: 0 };
        assert(res@ =~= Map::<Index, T>::empty());
        res
    }

    /// Access an element.
    pub fn get(&self, index: Index) -> (res: Option<&T>)
        requires
            self.wf(),
        ensures
            match res {
                Some(v) => self@.contains_key(index) && *v == self@[index],
                None => !self@.contains_key(index),
            },
    {
        let i = index.index();
        if i >= self.data.len() {
            return None;
        }
        match &self.data[i] {
            Some(data) => {
                if data.0 == index.id {
                    Some(&data.1)
                } else {
                    None
                }
            },
            None => None,
        }
    }

    /// Check if the key addresses an element of the map.
    pub fn contains_key(&self, index: Index) -> (res: bool)
        requires
            self.wf(),
        ensures
            res == self@.contains_key(index),
    {
        self.get(index).is_some()
    }

    /// Insert an element and return the index of it.
    /// A free slot is reused when there is one, else the data array grows by one slot.
    pub fn insert(&mut self, value: T) -> (res: Index)
        requires
            old(self).wf(),
            old(self).next_id() < u32::MAX,
            old(self).num_slots() < u32::MAX,
        ensures
            final(self).wf(),
            !old(self)@.contains_key(res),
            final(self)@ == old(self)@.insert(res, value),
            res.key_id() == old(self).next_id(),
            final(self).next_id() == old(self).next_id() + 1,
            final(self).num_slots() == if old(self)@.len() < old(self).num_slots() {
                old(self).num_slots()
            } else {
                old(self).num_slots() + 1
            },
            (if old(self).free_slots().len() > 0 {
                &&& res.slot() == old(self).free_slots().last()
                &&& final(self).free_slots() == old(self).free_slots().drop_last()
            } else {
                &&& res.slot() == old(self).num_slots()
                &&& final(self).free_slots() == old(self).free_slots()
            }),
    {
        let ghost old_free = self.free_indices@;
        proof {
            self.lemma_view_len();
        }
        // Find a new free index.
        let index: IndexType = match self.free_indices.pop() {
            Some(idx) => {
                assert(old_free.contains(idx));
                idx
            },
            None => {
                let idx = self.data.len() as IndexType;
                self.data.push(None);  // Extend by one element.
                assert(self.data@[idx as int] is None);
                idx
            },
        };
        let ghost mid_data = self.data@;
        let id = self.id_counter;
        self.id_counter = self.id_counter + 1;

        self.data.set(index as usize, Some((id, value)));
        self.len = self.len + 1;

        let res = Index { index: index, id };
        proof {
            let new_free = self.free_indices@;
            // The free list lost exactly the slot that is now occupied.
            assert forall|j: int| 0 <= j < new_free.len() implies new_free[j] != index by {
                if old_free.len() > 0 && index == old_free.last() {
                    assert(old_free[j] == new_free[j]);
                    assert(old_free.no_duplicates());
                }
            }
            assert forall|i: int|
                0 <= i < self.data@.len() && #[trigger] self.data@[i] is None
                implies self.free_indices@.contains(i as u32) by {
                assert(i != index);
                assert(mid_data[i] is None);
                if old_free.len() > 0 {
                    assert(old(self).data@.len() == self.data@.len());
                    assert(old_free.contains(i as u32));
                    let j = choose|j: int| 0 <= j < old_free.len() && old_free[j] == i as u32;
                    assert(j < old_free.len() - 1);
                    assert(new_free[j] == i as u32);
                } else {
                    assert(false);
                }
            }
            assert(!old(self)@.contains_key(res));
            assert(self@ =~= old(self)@.insert(res, value));
        }
        res
    }

    /// Allocate space to hold `n` elements.
    pub fn reserve(&mut self, n: usize)
        requires
            old(self).wf(),
        ensures
            final(self).wf(),
            final(self)@ == old(self)@,
            final(self).next_id() == old(self).next_id(),
            final(self).num_slots() == old(self).num_slots(),
    {
        self.data.reserve(n);
    }

    /// Remove an element and return it. Returns `None` if the key does not address an element.
    pub fn remove(&mut self, index: Index) -> (res: Option<T>)
        requires
            old(self).wf(),
        ensures
            final(self).wf(),
            final(self)@ == old(self)@.remove(index),
            match res {
                Some(v) => old(self)@.contains_key(index) && v == old(self)@[index],
                None => !old(self)@.contains_key(index),
            },
            res is None ==> final(self).entries() == old(self).entries(),
            res is None ==> final(self).free_slots() == old(self).free_slots(),
            res is Some ==> final(self).free_slots() == old(self).free_slots().push(index.slot()),
            final(self).next_id() == old(self).next_id(),
            final(self).num_slots() == old(self).num_slots(),
    {
        let i = index.index();
        if i >= self.data.len() {
            return None;
        }
        let matches = match &self.data[i] {
            Some(data) => data.0 == index.id,
            None => false,
        };
        if !matches {
            return None;
        }
        proof {
            self.lemma_view_len();
            assert(self@.contains_key(index));
            assert(self.len > 0) by {
                // The occupied slot is not free, so the free list is shorter than the data.
                let free = self.free_indices@.to_set();
                self.free_indices@.unique_seq_to_set();
                let n = self.data@.len() as int;
                let others = set_int_range(0, n).remove(i as int);
                lemma_int_range(0, n);
                let to_int = |x: u32| x as int;
                assert(free.map(to_int).subset_of(others));
                lemma_map_size(free, free.map(to_int), to_int);
                lemma_len_subset(free.map(to_int), others);
            }
        }
        let mut slot: Option<(IdType, T)> = None;
        self.data.set_and_swap(i, &mut slot);
        self.free_indices.push(index.index);
        self.len = self.len - 1;
        proof {
            assert(!old(self).free_indices@.contains(index.index));
            assert(self.free_indices@.no_duplicates());
            assert forall|i2: int|
                0 <= i2 < self.data@.len() && #[trigger] self.data@[i2] is None
                implies self.free_indices@.contains(i2 as u32) by {
                if i2 != i {
                    assert(old(self).free_indices@.contains(i2 as u32));
                    let j = choose|j: int| 0 <= j < old(self).free_indices@.len() && old(self).free_indices@[j] == i2 as u32;
                    assert(self.free_indices@[j] == i2 as u32);
                } else {
                    assert(self.free_indices@.last() == i2 as u32);
                }
            }
            assert(self@ =~= old(self)@.remove(index));
        }
        match slot {
            Some((_, value)) => Some(value),
            None => None,
        }
    }

    /// Number of elements currently in the map.
    pub fn len(&self) -> (res: usize)
        requires
            self.wf(),
        ensures
            res == self@.len(),
    {
        proof {
            self.lemma_view_len();
        }
        self.len
    }

    /// Check if the map holds no element.
    pub fn is_empty(&self) -> (res: bool)
        requires
            self.wf(),
        ensures
            res == (self@.len() == 0),
    {
        proof {
            self.lemma_view_len();
        }
        self.len == 0
    }

    /// Number of slots of the data array, including the free ones.
    pub fn num_slots_used(&self) -> (res: usize)
        ensures
            res == self.num_slots(),
    {
        self.data.len()
    }

    /// Reclaim as much space as possible: drop the free slots at the end of the
    /// data array and forget them in the free list.
    pub fn shrink(&mut self)
        requires
            old(self).wf(),
        ensures
            final(self).wf(),
            final(self)@ == old(self)@,
            final(self).entries() == old(self).entries(),
            final(self).next_id() == old(self).next_id(),
            final(self).num_slots() <= old(self).num_slots(),
            final(self).num_slots() == 0 || final(self).entries().len() > 0,
            final(self).free_slots() == slots_below(old(self).free_slots(), final(self).num_slots()),
    {
        let ghost old_data = self.data@;
        let ghost f = self.free_indices@;
        while self.data.len() > 0 && self.data[self.data.len() - 1].is_none()
            invariant
                self.data@.len() <= old_data.len(),
                self.data@ =~= old_data.subrange(0, self.data@.len() as int),
                forall|i: int| self.data@.len() <= i < old_data.len() ==> old_data[i] is None,
                occupied_entries(self.data@) == occupied_entries(old_data),
                self.free_indices@ == f,
                self.id_counter == old(self).id_counter,
                self.len == old(self).len,
            decreases self.data.len(),
        {
            let ghost d = self.data@;
            self.data.pop();
            proof {
                assert(self.data@ == d.drop_last());
                assert(occupied_entries(d) == occupied_entries(d.drop_last()));
            }
        }
        let n = self.data.len();
        let mut kept: Vec<IndexType> = Vec::new();
        let mut j: usize = 0;
        while j < self.free_indices.len()
            invariant
                n == self.data@.len(),
                j <= f.len(),
                self.free_indices@ == f,
                f.no_duplicates(),
                forall|k: int|
                    0 <= k < kept@.len() ==> (#[trigger] kept@[k] as int) < n
                        && exists|m: int| 0 <= m < j && f[m] == kept@[k],
                forall|k: int|
                    0 <= k < j && (f[k] as int) < n ==> kept@.contains(#[trigger] f[k]),
                kept@.no_duplicates(),
                kept@ == slots_below(f.subrange(0, j as int), n as nat),
            decreases f.len() - j,
        {
            let idx = self.free_indices[j];
            let ghost old_kept = kept@;
            proof {
                let s1 = f.subrange(0, j + 1);
                assert(s1.drop_last() =~= f.subrange(0, j as int));
                assert(s1.last() == idx);
            }
            if (idx as usize) < n {
                proof {
                    assert forall|k: int| 0 <= k < kept@.len() implies kept@[k] != idx by {
                        let m = choose|m: int| 0 <= m < j && f[m] == kept@[k];
                        if kept@[k] == idx {
                            assert(f[m] == f[j as int]);
                        }
                    }
                }
                kept.push(idx);
                proof {
                    assert forall|k: int| 0 <= k < kept@.len() implies
                        exists|m: int| 0 <= m < j + 1 && f[m] == #[trigger] kept@[k] by {
                        if k < kept@.len() - 1 {
                            let m = choose|m: int| 0 <= m < j && f[m] == kept@[k];
                        } else {
                            assert(f[j as int] == kept@[k]);
                        }
                    }
                }
            } else {
                proof {
                    assert forall|k: int| 0 <= k < kept@.len() implies
                        exists|m: int| 0 <= m < j + 1 && f[m] == #[trigger] kept@[k] by {
                        let m = choose|m: int| 0 <= m < j && f[m] == kept@[k];
                    }
                }
            }
            proof {
                assert forall|k: int| 0 <= k < j + 1 && (f[k] as int) < n implies
                    kept@.contains(#[trigger] f[k]) by {
                    if k == j {
                        assert(kept@[kept@.len() - 1] == f[k]);
                    } else {
                        assert(old_kept.contains(f[k]));
                        let w = choose|w: int| 0 <= w < old_kept.len() && old_kept[w] == f[k];
                        assert(kept@[w] == f[k]);
                    }
                }
            }
            j = j + 1;
        }
        self.free_indices = kept;
        proof {
            assert(f.subrange(0, j as int) =~= f);
            assert forall|k: int| 0 <= k < self.free_indices@.len() implies
                (#[trigger] self.free_indices@[k] as int) < self.data@.len()
                    && self.data@[self.free_indices@[k] as int] is None by {
                let m = choose|m: int| 0 <= m < j && f[m] == self.free_indices@[k];
            }
            assert forall|i: int|
                0 <= i < self.data@.len() && #[trigger] self.data@[i] is None
                implies self.free_indices@.contains(i as u32) by {
                assert(old_data[i] is None);
                let m = choose|m: int| 0 <= m < old(self).free_indices@.len() && old(self).free_indices@[m] == i as u32;
                assert(old(self).free_indices@[m] == i as u32);
            }
            // Count: the dropped slots were exactly the dropped free indices.
            self.lemma_free_count(old(self).free_indices@, old_data);
            assert(self@ =~= old(self)@);
            if self.data@.len() > 0 {
                assert(self.data@.last() is Some);
                lemma_occupied_entries_last(self.data@);
            }
        }
    }

    /// After dropping trailing free slots, the free list shrank by the same amount.
    proof fn lemma_free_count(self, old_free: Seq<IndexType>, old_data: Seq<Option<(IdType, T)>>)
        requires
            old_data.len() <= u32::MAX,
            self.data@.len() <= old_data.len(),
            self.data@ =~= old_data.subrange(0, self.data@.len() as int),
            forall|i: int| self.data@.len() <= i < old_data.len() ==> old_data[i] is None,
            forall|j: int|
                0 <= j < old_free.len() ==> {
                    &&& (#[trigger] old_free[j] as int) < old_data.len()
                    &&& old_data[old_free[j] as int] is None
                },
            forall|i: int| 0 <= i < old_data.len() && #[trigger] old_data[i] is None ==> old_free.contains(i as u32),
            old_free.no_duplicates(),
            self.free_indices@.no_duplicates(),
            forall|k: int| 0 <= k < self.free_indices@.len() ==> (#[trigger] self.free_indices@[k] as int) < self.data@.len(),
            forall|k: int| 0 <= k < self.free_indices@.len() ==> old_free.contains(#[trigger] self.free_indices@[k]),
            forall|k: int| 0 <= k < old_free.len() && (old_free[k] as int) < self.data@.len() ==> self.free_indices@.contains(#[trigger] old_free[k]),
        ensures
            old_data.len() - old_free.len() == self.data@.len() - self.free_indices@.len(),
    {
        let n = self.data@.len() as int;
        let m = old_data.len() as int;
        let oldf = old_free.to_set();
        let newf = self.free_indices@.to_set();
        old_free.unique_seq_to_set();
        self.free_indices@.unique_seq_to_set();
        let to_int = |x: u32| x as int;
        let tail = set_int_range(n, m);
        lemma_int_range(n, m);
        assert(oldf.map(to_int) =~= newf.map(to_int) + tail) by {
            assert forall|x: int| #[trigger] oldf.map(to_int).contains(x) implies newf.map(to_int).contains(x) || tail.contains(x) by {
                let y = choose|y: u32| oldf.contains(y) && to_int(y) == x;
                if x < n {
                    let k = choose|k: int| 0 <= k < old_free.len() && old_free[k] == y;
                    assert(self.free_indices@.contains(old_free[k]));
                    assert(newf.contains(y));
                }
            }
            assert forall|x: int| #[trigger] tail.contains(x) implies oldf.map(to_int).contains(x) by {
                assert(old_data[x] is None);
                assert(old_free.contains(x as u32));
                assert(oldf.contains(x as u32));
                assert(to_int(x as u32) == x);
            }
            assert forall|x: int| #[trigger] newf.map(to_int).contains(x) implies oldf.map(to_int).contains(x) by {
                let y = choose|y: u32| newf.contains(y) && to_int(y) == x;
                assert(oldf.contains(y));
            }
        }
        lemma_map_size(oldf, oldf.map(to_int), to_int);
        lemma_map_size(newf, newf.map(to_int), to_int);
        assert(newf.map(to_int).disjoint(tail)) by {
            assert forall|x: int| #[trigger] newf.map(to_int).contains(x) implies !tail.contains(x) by {
                let y = choose|y: u32| newf.contains(y) && to_int(y) == x;
                let k = choose|k: int| 0 <= k < self.free_indices@.len() && self.free_indices@[k] == y;
            }
        }
        lemma_set_disjoint_lens(newf.map(to_int), tail);
    }

    /// Drop all data. The ID counter keeps its value, so that no key handed out
    /// before is handed out again.
    pub fn clear(&mut self)
        ensures
            final(self).wf(),
            final(self)@ == Map::<Index, T>::empty(),
            final(self).next_id() == old(self).next_id(),
            final(self).num_slots() == 0,
            final(self).free_slots() == Seq::<IndexType>::empty(),
    {
        self.data.clear();
        self.free_indices.clear();
        self.len = 0;
        assert(self@ =~= Map::<Index, T>::empty());
    }

    /// All key-value pairs, in slot order.
    pub fn iter(&self) -> (res: Vec<(Index, &T)>)
        requires
            self.wf(),
        ensures
            res@.len() == self.entries().len(),
            forall|i: int| 0 <= i < res@.len() ==> (#[trigger] res@[i]).0 == self.entries()[i].0
                && *res@[i].1 == self.entries()[i].1,
    {
        let mut res: Vec<(Index, &T)> = Vec::new();
        let mut i: usize = 0;
        while i < self.data.len()
            invariant
                i <= self.data@.len(),
                self.data@.len() <= u32::MAX,
                res@.len() == occupied_entries(self.data@.subrange(0, i as int)).len(),
                forall|k: int| 0 <= k < res@.len() ==> (#[trigger] res@[k]).0 == occupied_entries(self.data@.subrange(0, i as int))[k].0
                    && *res@[k].1 == occupied_entries(self.data@.subrange(0, i as int))[k].1,
            decreases self.data@.len() - i,
        {
            assert(self.data@.subrange(0, i + 1).drop_last() =~= self.data@.subrange(0, i as int));
            match &self.data[i] {
                Some(entry) => {
                    res.push((Index { index: i as IndexType, id: entry.0 }, &entry.1));
                },
                None => {},
            }
            i = i + 1;
        }
        assert(self.data@.subrange(0, i as int) =~= self.data@);
        res
    }

    /// All values of the map, in slot order.
    pub fn values(&self) -> (res: Vec<&T>)
        requires
            self.wf(),
        ensures
            res@.len() == self.entries().len(),
            forall|i: int| 0 <= i < res@.len() ==> *(#[trigger] res@[i]) == self.entries()[i].1,
    {
        let pairs = self.iter();
        let mut res: Vec<&T> = Vec::new();
        let mut i: usize = 0;
        while i < pairs.len()
            invariant
                i <= pairs@.len(),
                res@.len() == i,
                forall|k: int| 0 <= k < i ==> *(#[trigger] res@[k]) == *pairs@[k].1,
            decreases pairs@.len() - i,
        {
            res.push(pairs[i].1);
            i = i + 1;
        }
        res
    }

    /// All keys of the map, in slot order.
    pub fn keys(&self) -> (res: Vec<Index>)
        requires
            self.wf(),
        ensures
            res@.len() == self.entries().len(),
            forall|i: int| 0 <= i < res@.len() ==> #[trigger] res@[i] == self.entries()[i].0,
    {
        let pairs = self.iter();
        let mut res: Vec<Index> = Vec::new();
        let mut i: usize = 0;
        while i < pairs.len()
            invariant
                i <= pairs@.len(),
                res@.len() == i,
                forall|k: int| 0 <= k < i ==> #[trigger] res@[k] == pairs@[k].0,
            decreases pairs@.len() - i,
        {
            res.push(pairs[i].0);
            i = i + 1;
        }
        res
    }
}

/// The slots of `s` below `n`, in the order of `s`.
pub open spec fn slots_below(s: Seq<IndexType>, n: nat) -> Seq<IndexType>
    decreases s.len(),
{
    if s.len() == 0 {
        Seq::empty()
    } else {
        let prefix = slots_below(s.drop_last(), n);
        if (s.last() as nat) < n {
            prefix.push(s.last())
        } else {
            prefix
        }
    }
}

/// The entries list the occupied slots in increasing slot order.
proof fn lemma_occupied_entries<T>(data: Seq<Option<(IdType, T)>>)
    requires
        data.len() <= u32::MAX,
    ensures
        forall|k: int| 0 <= k < occupied_entries(data).len() ==> {
            let e = #[trigger] occupied_entries(data)[k];
            &&& (e.0.index as int) < data.len()
            &&& data[e.0.index as int] == Some((e.0.id, e.1))
        },
        forall|k1: int, k2: int|
            0 <= k1 < k2 < occupied_entries(data).len() ==>
                (#[trigger] occupied_entries(data)[k1]).0.index < (#[trigger] occupied_entries(data)[k2]).0.index,
        forall|i: int| 0 <= i < data.len() && #[trigger] data[i] is Some ==>
            exists|k: int| 0 <= k < occupied_entries(data).len() && occupied_entries(data)[k].0.index == i,
    decreases data.len(),
{
    if data.len() > 0 {
        let prefix = data.drop_last();
        lemma_occupied_entries(prefix);
        assert forall|i: int| 0 <= i < data.len() && #[trigger] data[i] is Some implies
            exists|k: int| 0 <= k < occupied_entries(data).len() && occupied_entries(data)[k].0.index == i by {
            if i < data.len() - 1 {
                assert(prefix[i] is Some);
                let k = choose|k: int| 0 <= k < occupied_entries(prefix).len() && occupied_entries(prefix)[k].0.index == i;
                assert(occupied_entries(data)[k] == occupied_entries(prefix)[k]);
            } else {
                let k = occupied_entries(data).len() - 1;
                assert(occupied_entries(data)[k].0.index == i);
            }
        }
    }
}

/// When the last slot is occupied, the entry list is not empty.
proof fn lemma_occupied_entries_last<T>(data: Seq<Option<(IdType, T)>>)
    requires
        data.len() > 0,
        data.last() is Some,
    ensures
        occupied_entries(data).len() > 0,
{
}


/// An operation on an index map, as far as it decides which keys the map holds.
pub enum IndexMapOp {
    /// `insert`, which returned the key.
    Insert(Index),
    /// `remove` of the key.
    Remove(Index),
    /// `clear`.
    Clear,
}

/// The keys of `after` are those of `before` changed by `op`, as the contracts
/// of `insert`, `remove` and `clear` give them.
pub open spec fn op_step<T>(before: Map<Index, T>, op: IndexMapOp, after: Map<Index, T>) -> bool {
    match op {
        IndexMapOp::Insert(k) => !before.contains_key(k) && after.dom() == before.dom().insert(k),
        IndexMapOp::Remove(k) => after.dom() == before.dom().remove(k),
        IndexMapOp::Clear => after.dom() == Set::<Index>::empty(),
    }
}

/// Some insert of `ops` returned `k`, and no later operation removed it or cleared the map.
pub open spec fn inserted_and_kept(ops: Seq<IndexMapOp>, k: Index) -> bool {
    exists|j: int| 0 <= j < ops.len() && #[trigger] ops[j] == IndexMapOp::Insert(k)
        && forall|l: int| j < l < ops.len() ==> #[trigger] ops[l] != IndexMapOp::Remove(k) && ops[l] != IndexMapOp::Clear
}

/// A map made by `new` and then changed by the operations `ops` holds a key
/// exactly when an insert returned it and neither a remove of it nor a clear
/// came after.
pub proof fn law_contains_iff_inserted_and_kept<T>(states: Seq<Map<Index, T>>, ops: Seq<IndexMapOp>)
    requires
        states.len() == ops.len() + 1,
        states[0] == Map::<Index, T>::empty(),
        forall|j: int| 0 <= j < ops.len() ==> op_step(states[j], #[trigger] ops[j], states[j + 1]),
    ensures
        forall|k: Index| #[trigger] states.last().contains_key(k) <==> inserted_and_kept(ops, k),
    decreases ops.len(),
{
    if ops.len() == 0 {
        assert forall|k: Index| #[trigger] states.last().contains_key(k) <==> inserted_and_kept(ops, k) by {
            assert(states.last() == states[0]);
        }
    } else {
        let n = ops.len() - 1;
        let ops0 = ops.drop_last();
        let states0 = states.drop_last();
        assert forall|j: int| 0 <= j < ops0.len() implies op_step(states0[j], #[trigger] ops0[j], states0[j + 1]) by {
            assert(ops0[j] == ops[j]);
            assert(op_step(states[j], ops[j], states[j + 1]));
        }
        law_contains_iff_inserted_and_kept(states0, ops0);
        let before = states[n];
        let after = states.last();
        assert(states0.last() == before);
        assert(op_step(before, ops[n], after));
        assert forall|k: Index| #[trigger] after.contains_key(k) <==> inserted_and_kept(ops, k) by {
            assert(before.contains_key(k) <==> inserted_and_kept(ops0, k));
            match ops[n] {
                IndexMapOp::Insert(k2) => {
                    if k == k2 {
                        assert(after.dom().contains(k));
                        assert(ops[n] == IndexMapOp::Insert(k));
                        assert(inserted_and_kept(ops, k));
                    } else {
                        assert(after.contains_key(k) == before.contains_key(k));
                        if inserted_and_kept(ops0, k) {
                            let j = choose|j: int| 0 <= j < ops0.len() && #[trigger] ops0[j] == IndexMapOp::Insert(k)
                                && forall|l: int| j < l < ops0.len() ==> #[trigger] ops0[l] != IndexMapOp::Remove(k) && ops0[l] != IndexMapOp::Clear;
                            assert(ops[j] == ops0[j]);
                            assert forall|l: int| j < l < ops.len() implies #[trigger] ops[l] != IndexMapOp::Remove(k) && ops[l] != IndexMapOp::Clear by {
                                if l < n {
                                    assert(ops[l] == ops0[l]);
                                }
                            }
                        }
                        if inserted_and_kept(ops, k) {
                            let j = choose|j: int| 0 <= j < ops.len() && #[trigger] ops[j] == IndexMapOp::Insert(k)
                                && forall|l: int| j < l < ops.len() ==> #[trigger] ops[l] != IndexMapOp::Remove(k) && ops[l] != IndexMapOp::Clear;
                            assert(j != n);
                            assert(ops0[j] == ops[j]);
                            assert forall|l: int| j < l < ops0.len() implies #[trigger] ops0[l] != IndexMapOp::Remove(k) && ops0[l] != IndexMapOp::Clear by {
                                assert(ops0[l] == ops[l]);
                            }
                        }
                    }
                },
                IndexMapOp::Remove(k2) => {
                    if k == k2 {
                        assert(!after.dom().contains(k));
                        if inserted_and_kept(ops, k) {
                            let j = choose|j: int| 0 <= j < ops.len() && #[trigger] ops[j] == IndexMapOp::Insert(k)
                                && forall|l: int| j < l < ops.len() ==> #[trigger] ops[l] != IndexMapOp::Remove(k) && ops[l] != IndexMapOp::Clear;
                            assert(j != n);
                            assert(ops[n] != IndexMapOp::Remove(k));
                        }
                    } else {
                        assert(after.contains_key(k) == before.contains_key(k));
                        if inserted_and_kept(ops0, k) {
                            let j = choose|j: int| 0 <= j < ops0.len() && #[trigger] ops0[j] == IndexMapOp::Insert(k)
                                && forall|l: int| j < l < ops0.len() ==> #[trigger] ops0[l] != IndexMapOp::Remove(k) && ops0[l] != IndexMapOp::Clear;
                            assert(ops[j] == ops0[j]);
                            assert forall|l: int| j < l < ops.len() implies #[trigger] ops[l] != IndexMapOp::Remove(k) && ops[l] != IndexMapOp::Clear by {
                                if l < n {
                                    assert(ops[l] == ops0[l]);
                                }
                            }
                        }
                        if inserted_and_kept(ops, k) {
                            let j = choose|j: int| 0 <= j < ops.len() && #[trigger] ops[j] == IndexMapOp::Insert(k)
                                && forall|l: int| j < l < ops.len() ==> #[trigger] ops[l] != IndexMapOp::Remove(k) && ops[l] != IndexMapOp::Clear;
                            assert(j != n);
                            assert(ops0[j] == ops[j]);
                            assert forall|l: int| j < l < ops0.len() implies #[trigger] ops0[l] != IndexMapOp::Remove(k) && ops0[l] != IndexMapOp::Clear by {
                                assert(ops0[l] == ops[l]);
                            }
                        }
                    }
                },
                IndexMapOp::Clear => {
                    assert(!after.dom().contains(k));
                    if inserted_and_kept(ops, k) {
                        let j = choose|j: int| 0 <= j < ops.len() && #[trigger] ops[j] == IndexMapOp::Insert(k)
                            && forall|l: int| j < l < ops.len() ==> #[trigger] ops[l] != IndexMapOp::Remove(k) && ops[l] != IndexMapOp::Clear;
                        assert(j != n);
                        assert(ops[n] != IndexMapOp::Clear);
                    }
                },
            }
        }
    }
}

} // verus!
