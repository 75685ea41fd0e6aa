//! An on-the-fly flat view of a cell hierarchy.
//!
//! The view is flattened down to the leaf cells: it shows the top level cells
//! and the leaf cells; every other cell is flattened away. An instance in the
//! flat view is a path of instances through the hierarchy, from an instance in
//! a top level cell down to an instance of a leaf cell.
//!
//! Names in the flat view are the names of the path elements joined with a
//! separator string.

use crate::chip::{
    cell_ids_view, inst_ids_view, is_ancestor_or_self, upward_closed, ChipView, CellId, CellInstId, Chip,
};
use std::collections::HashSet;
use vstd::prelude::*;

verus! {

broadcast use vstd::std_specs::hash::group_hash_axioms;

/// Wrapper around identifier types, so that the flat view uses other
/// identifier types than the hierarchical view below it.
#[derive(Clone, Debug, Hash, PartialEq)]
pub struct FlatId<T>(T);

/// Flat view of a chip, down to its leaf cells.
pub struct FlatView<'a> {
    /// Sequence used to separate path elements when creating qualified names.
    /// Names in the underlying chip are not allowed to contain it.
    path_separator: String,
    /// Underlying hierarchy.
    base: &'a Chip,
}

/// `c` has no instances inside it.
pub open spec fn flat_is_leaf(v: ChipView, c: u32) -> bool {
    v.circuits[c].instances.len() == 0
}

/// `c` is neither a top level cell nor a leaf cell, so the flat view flattens it away.
pub open spec fn flat_is_flattened(v: ChipView, c: u32) -> bool {
    v.circuits[c].dependent_circuits.len() != 0 && !flat_is_leaf(v, c)
}

/// The names `names` joined with `sep` between each two of them.
pub open spec fn join_names(names: Seq<Seq<char>>, sep: Seq<char>) -> Seq<char>
    decreases names.len(),
{
    if names.len() == 0 {
        Seq::empty()
    } else if names.len() == 1 {
        names[0]
    } else {
        join_names(names.drop_last(), sep) + sep + names.last()
    }
}

/// The names of the instances `path`, or `None` if one of them has no name.
pub open spec fn path_names(v: ChipView, path: Seq<usize>) -> Option<Seq<Seq<char>>>
    decreases path.len(),
{
    if path.len() == 0 {
        Some(Seq::empty())
    } else {
        match (path_names(v, path.drop_last()), v.instances[path.last()].name) {
            (Some(ns), Some(n)) => Some(ns.push(n)),
            _ => None,
        }
    }
}

/// The paths of the flat view below cell `c`: chains of instances from `c` down to a leaf cell.
pub open spec fn leaf_paths(v: ChipView, c: u32) -> Set<Seq<usize>> {
    Set::new(|s: Seq<usize>| is_leaf_path(v, c, s))
}

impl<'a> FlatView<'a> {
    /// The hierarchy below the view.
    pub closed spec fn base_view(&self) -> ChipView {
        self.base@
    }

    /// The separator of path elements in names.
    pub closed spec fn separator(&self) -> Seq<char> {
        self.path_separator@
    }

    /// The hierarchy below the view is well formed.
    pub closed spec fn wf(&self) -> bool {
        self.base.wf()
    }

    /// Create a flat view of `base`, with "/" as separator of path elements in names.
    pub fn new(base: &'a Chip) -> (res: Self)
        ensures
            res.base_view() == base@,
            res.wf() == base.wf(),
            res.separator() == "/"@,
    {
        FlatView { path_separator: "/".to_string(), base }
    }

    /// Create a flat view of `base` with a custom separator of path elements in names.
    pub fn new_with_separator(base: &'a Chip, path_separator: String) -> (res: Self)
        ensures
            res.base_view() == base@,
            res.wf() == base.wf(),
            res.separator() == path_separator@,
    {
        FlatView { path_separator, base }
    }

    /// Check whether the cell has no instances inside it.
    fn cell_is_leaf(&self, cell: &CellId) -> (res: bool)
        requires
            self.base_view().circuits.contains_key(cell@),
        ensures
            res == flat_is_leaf(self.base_view(), cell@),
    {
        self.base.num_child_instances(cell) == 0
    }

    /// Check whether the cell is shown in the flat view.
    fn cell_exists_in_flat_view(&self, cell: &CellId) -> (res: bool)
        requires
            self.base_view().circuits.contains_key(cell@),
        ensures
            res == !flat_is_flattened(self.base_view(), cell@),
    {
        !self.cell_is_flattened(cell)
    }

    /// Check whether the cell got flattened away and does not exist in the flat view.
    fn cell_is_flattened(&self, cell: &CellId) -> (res: bool)
        requires
            self.base_view().circuits.contains_key(cell@),
        ensures
            res == flat_is_flattened(self.base_view(), cell@),
    {
        let is_top = self.base.num_dependent_cells(cell) == 0;
        let is_leaf = self.cell_is_leaf(cell);
        !is_top && !is_leaf
    }

    /// Find a cell of the flat view by its name.
    pub fn cell_by_name(&self, name: &str) -> (res: Option<CellId>)
        requires
            self.wf(),
        ensures
            match res {
                Some(c) => self.base_view().circuits_by_name.contains_key(name@)
                    && c@ == self.base_view().circuits_by_name[name@]
                    && !flat_is_flattened(self.base_view(), c@),
                None => !self.base_view().circuits_by_name.contains_key(name@)
                    || flat_is_flattened(self.base_view(), self.base_view().circuits_by_name[name@]),
            },
    {
        match self.base.cell_by_name(name) {
            Some(cell) => {
                if self.cell_exists_in_flat_view(&cell) {
                    Some(cell)
                } else {
                    None
                }
            },
            None => None,
        }
    }

    /// Get the name of a cell of the flat view.
    pub fn cell_name(&self, cell: &CellId) -> (res: String)
        requires
            self.base_view().circuits.contains_key(cell@),
            !flat_is_flattened(self.base_view(), cell@),
        ensures
            res@ == self.base_view().circuits[cell@].name,
    {
        self.base.cell_name(cell)
    }

    /// Get the name of an instance of the flat view: the names of the path
    /// elements joined with the separator, if all of them have a name.
    pub fn cell_instance_name(&self, cell_inst: &Vec<CellInstId>) -> (res: Option<String>)
        requires
            forall|k: int| 0 <= k < cell_inst@.len() ==> self.base_view().instances.contains_key(#[trigger] cell_inst@[k]@),
        ensures
            match path_names(self.base_view(), inst_ids_view(cell_inst@)) {
                Some(names) => res matches Some(s) && s@ == join_names(names, self.separator()),
                None => res is None,
            },
    {
        let ghost v = self.base_view();
        let ghost path = inst_ids_view(cell_inst@);
        let mut res = String::new();
        let mut k: usize = 0;
        while k < cell_inst.len()
            invariant
                k <= cell_inst@.len(),
                v == self.base_view(),
                path == inst_ids_view(cell_inst@),
                forall|j: int| 0 <= j < cell_inst@.len() ==> v.instances.contains_key(#[trigger] cell_inst@[j]@),
                path_names(v, path.subrange(0, k as int)) matches Some(names) && res@ == join_names(names, self.separator()),
            decreases cell_inst@.len() - k,
        {
            let ghost pre = path.subrange(0, k as int);
            let ghost post = path.subrange(0, k + 1);
            proof {
                assert(post.drop_last() =~= pre);
                assert(post.last() == cell_inst@[k as int]@);
            }
            match self.base.cell_instance_name(&cell_inst[k]) {
                Some(name) => {
                    let ghost names = path_names(v, pre)->Some_0;
                    if k > 0 {
                        res.append(self.path_separator.as_str());
                    }
                    res.append(name.as_str());
                    proof {
                        let names1 = names.push(name@);
                        assert(path_names(v, post) == Some(names1));
                        if k > 0 {
                            assert(names1.drop_last() =~= names);
                        } else {
                            assert(names =~= Seq::<Seq<char>>::empty());
                            assert(res@ =~= name@);
                        }
                    }
                },
                None => {
                    proof {
                        lemma_path_names_none(v, path, k + 1);
                    }
                    return None;
                },
            }
            k = k + 1;
        }
        proof {
            assert(path.subrange(0, k as int) =~= path);
        }
        Some(res)
    }

    /// Get the cell that holds the first instance of a path.
    pub fn parent_cell(&self, cell_instance: &Vec<CellInstId>) -> (res: CellId)
        requires
            cell_instance@.len() > 0,
            self.base_view().instances.contains_key(cell_instance@[0]@),
        ensures
            res@ == self.base_view().instances[cell_instance@[0]@].parent,
    {
        self.base.parent_cell(&cell_instance[0])
    }

    /// Get the cell that the last instance of a path instantiates.
    pub fn template_cell(&self, cell_instance: &Vec<CellInstId>) -> (res: CellId)
        requires
            cell_instance@.len() > 0,
            self.base_view().instances.contains_key(cell_instance@.last()@),
        ensures
            res@ == self.base_view().instances[cell_instance@.last()@].template,
    {
        self.base.template_cell(&cell_instance[cell_instance.len() - 1])
    }

    /// Get the cells of the flat view (top level and leaf cells), each once, in no particular order.
    pub fn each_cell_vec(&self) -> (res: Vec<CellId>)
        requires
            self.wf(),
        ensures
            cell_ids_view(res@).no_duplicates(),
            cell_ids_view(res@).to_set() == self.base_view().circuits.dom().filter(
                |c: u32| !flat_is_flattened(self.base_view(), c)),
    {
        let ghost v = self.base_view();
        let ghost f = |c: u32| !flat_is_flattened(v, c);
        let all = self.base.each_cell_vec();
        let ghost all_v = cell_ids_view(all@);
        let mut res: Vec<CellId> = Vec::new();
        let mut k: usize = 0;
        while k < all.len()
            invariant
                k <= all@.len(),
                v == self.base_view(),
                all_v == cell_ids_view(all@),
                all_v.to_set() == v.circuits.dom(),
                f == (|c: u32| !flat_is_flattened(v, c)),
                cell_ids_view(res@) == all_v.subrange(0, k as int).filter(f),
            decreases all@.len() - k,
        {
            let c = all[k];
            proof {
                assert(all_v[k as int] == c@);
                assert(all_v.to_set().contains(c@));
                all_v.subrange(0, k as int).lemma_filter_push(c@, f);
                assert(all_v.subrange(0, k + 1) =~= all_v.subrange(0, k as int).push(c@));
            }
            if self.cell_exists_in_flat_view(&c) {
                res.push(c);
                assert(cell_ids_view(res@) =~= all_v.subrange(0, k as int).filter(f).push(c@));
            }
            k = k + 1;
        }
        proof {
            assert(all_v.subrange(0, k as int) =~= all_v);
            crate::chip::lemma_filter_to_set(all_v, f);
        }
        res
    }

    /// Get the number of cells of the flat view.
    pub fn num_cells(&self) -> (res: usize)
        requires
            self.wf(),
        ensures
            res == self.base_view().circuits.dom().filter(|c: u32| !flat_is_flattened(self.base_view(), c)).len(),
    {
        let cells = self.each_cell_vec();
        proof {
            cell_ids_view(cells@).unique_seq_to_set();
        }
        cells.len()
    }

    /// Get the number of instances in the flat view of `cell`: the number of
    /// paths from `cell` down to leaf cells.
    pub fn num_child_instances(&self, cell: &CellId) -> (res: usize)
        requires
            self.wf(),
            self.base_view().circuits.contains_key(cell@),
        ensures
            res == leaf_paths(self.base_view(), cell@).len(),
    {
        let paths = self.each_cell_instance_vec(cell);
        proof {
            let pv = paths_view(paths@);
            assert(pv.to_set() =~= leaf_paths(self.base_view(), cell@));
            pv.unique_seq_to_set();
        }
        paths.len()
    }
}

/// If the name of an instance of the path is missing, the path has no names.
proof fn lemma_path_names_none(v: ChipView, path: Seq<usize>, k: int)
    requires
        0 < k <= path.len(),
        path_names(v, path.subrange(0, k)) is None,
    ensures
        path_names(v, path) is None,
    decreases path.len() - k,
{
    if k < path.len() {
        assert(path.subrange(0, k + 1).drop_last() =~= path.subrange(0, k));
        lemma_path_names_none(v, path, k + 1);
    } else {
        assert(path.subrange(0, k) =~= path);
    }
}

/// `s` is a chain of instances: each one after the first lies in the cell that
/// the one before instantiates.
pub open spec fn is_chain(v: ChipView, s: Seq<usize>) -> bool {
    &&& forall|k: int| 0 <= k < s.len() ==> v.instances.contains_key(#[trigger] s[k])
    &&& forall|k: int| 0 < k < s.len() ==> v.instances[#[trigger] s[k]].parent == v.instances[s[k - 1]].template
}

/// An instance of the flat view inside `cell`: a chain from an instance in
/// `cell` down to an instance of a leaf cell.
pub open spec fn is_leaf_path(v: ChipView, cell: u32, s: Seq<usize>) -> bool {
    &&& s.len() > 0
    &&& is_chain(v, s)
    &&& v.instances[s[0]].parent == cell
    &&& flat_is_leaf(v, v.instances[s.last()].template)
}

/// The integer values of a sequence of paths.
pub open spec fn paths_view(s: Seq<Vec<CellInstId>>) -> Seq<Seq<usize>> {
    s.map_values(|p: Vec<CellInstId>| inst_ids_view(p@))
}

/// `seg` holds, each once, exactly the paths `prefix + s` for the leaf paths `s` inside `cell`.
pub open spec fn leaf_paths_below(v: ChipView, cell: u32, prefix: Seq<usize>, seg: Seq<Seq<usize>>) -> bool {
    &&& seg.no_duplicates()
    &&& forall|j: int| 0 <= j < seg.len() ==> {
        &&& (#[trigger] seg[j]).len() > prefix.len()
        &&& seg[j].subrange(0, prefix.len() as int) == prefix
        &&& is_leaf_path(v, cell, seg[j].subrange(prefix.len() as int, seg[j].len() as int))
    }
    &&& forall|s: Seq<usize>| #[trigger] is_leaf_path(v, cell, s) ==> seg.contains(prefix + s)
}

/// A leaf path continued upwards by an instance of the cell where it starts.
proof fn lemma_leaf_path_cons(v: ChipView, cell: u32, i: usize, y: Seq<usize>)
    requires
        v.instances.contains_key(i),
        v.instances[i].parent == cell,
        is_leaf_path(v, v.instances[i].template, y),
    ensures
        is_leaf_path(v, cell, seq![i] + y),
{
    let s = seq![i] + y;
    assert forall|k: int| 0 < k < s.len() implies v.instances[#[trigger] s[k]].parent == v.instances[s[k - 1]].template by {
        if k > 1 {
            assert(s[k] == y[k - 1] && s[k - 1] == y[k - 2]);
        }
    }
    assert(s.last() == y.last());
}

/// The part of a leaf path below its first instance.
proof fn lemma_leaf_path_tail(v: ChipView, cell: u32, s: Seq<usize>)
    requires
        is_leaf_path(v, cell, s),
        s.len() > 1,
    ensures
        is_leaf_path(v, v.instances[s[0]].template, s.drop_first()),
        s =~= seq![s[0]] + s.drop_first(),
{
    let y = s.drop_first();
    assert forall|k: int| 0 < k < y.len() implies v.instances[#[trigger] y[k]].parent == v.instances[y[k - 1]].template by {
        assert(y[k] == s[k + 1] && y[k - 1] == s[k]);
    }
    assert(v.instances[y[0]].parent == v.instances[s[0]].template) by {
        assert(y[0] == s[1]);
    }
}

/// A copy of `prefix` with `i` appended.
fn extend_path(prefix: &Vec<CellInstId>, i: CellInstId) -> (res: Vec<CellInstId>)
    ensures
        inst_ids_view(res@) == inst_ids_view(prefix@).push(i@),
{
    let mut res: Vec<CellInstId> = Vec::new();
    let mut k: usize = 0;
    while k < prefix.len()
        invariant
            k <= prefix@.len(),
            res@.len() == k,
            forall|j: int| 0 <= j < k ==> #[trigger] res@[j] == prefix@[j],
        decreases prefix@.len() - k,
    {
        res.push(prefix[k]);
        k = k + 1;
    }
    res.push(i);
    assert(inst_ids_view(res@) =~= inst_ids_view(prefix@).push(i@));
    res
}

/// `seg` holds, each once, exactly the paths `prefix + s` for the leaf paths `s`
/// inside `cell` that start with an instance of `done`.
pub open spec fn leaf_seg_ok(v: ChipView, cell: u32, prefix: Seq<usize>, done: Seq<usize>, seg: Seq<Seq<usize>>) -> bool {
    &&& seg.no_duplicates()
    &&& forall|j: int| 0 <= j < seg.len() ==> {
        &&& (#[trigger] seg[j]).len() > prefix.len()
        &&& seg[j].subrange(0, prefix.len() as int) == prefix
        &&& is_leaf_path(v, cell, seg[j].subrange(prefix.len() as int, seg[j].len() as int))
        &&& done.contains(seg[j][prefix.len() as int])
    }
    &&& forall|s: Seq<usize>| #[trigger] is_leaf_path(v, cell, s) && done.contains(s[0]) ==> seg.contains(prefix + s)
}

/// Adding the path to an instance of a leaf cell.
proof fn lemma_seg_step_leaf(v: ChipView, cell: u32, prefix: Seq<usize>, done: Seq<usize>, seg0: Seq<Seq<usize>>, i: usize)
    requires
        v.inv(),
        leaf_seg_ok(v, cell, prefix, done, seg0),
        !done.contains(i),
        v.instances.contains_key(i),
        v.instances[i].parent == cell,
        flat_is_leaf(v, v.instances[i].template),
    ensures
        leaf_seg_ok(v, cell, prefix, done.push(i), seg0.push(prefix.push(i))),
{
    let plen = prefix.len();
    let np = prefix.push(i);
    let seg1 = seg0.push(np);
    let t = v.instances[i].template;
    let done1 = done.push(i);
    assert(np[plen as int] == i);
    assert(np.subrange(0, plen as int) =~= prefix);
    assert(np.subrange(plen as int, np.len() as int) =~= seq![i]);
    assert(is_leaf_path(v, cell, seq![i]));
    assert forall|x: usize| done.contains(x) implies done1.contains(x) by {
        let j = choose|j: int| 0 <= j < done.len() && done[j] == x;
        assert(done1[j] == x);
    }
    assert(done1.contains(i)) by {
        assert(done1[done.len() as int] == i);
    }
    assert forall|a: int, b: int| 0 <= a < seg1.len() && 0 <= b < seg1.len() && a != b implies seg1[a] != seg1[b] by {
        if a < seg0.len() && b < seg0.len() {
            assert(seg1[a] == seg0[a] && seg1[b] == seg0[b]);
        } else if a == seg0.len() {
            assert(seg1[b] == seg0[b]);
            assert(done.contains(seg0[b][plen as int]));
        } else {
            assert(seg1[a] == seg0[a]);
            assert(done.contains(seg0[a][plen as int]));
        }
    }
    assert forall|j: int| 0 <= j < seg1.len() implies {
        &&& (#[trigger] seg1[j]).len() > plen
        &&& seg1[j].subrange(0, plen as int) == prefix
        &&& is_leaf_path(v, cell, seg1[j].subrange(plen as int, seg1[j].len() as int))
        &&& done1.contains(seg1[j][plen as int])
    } by {
        if j < seg0.len() {
            assert(seg1[j] == seg0[j]);
        }
    }
    assert forall|s: Seq<usize>| #[trigger] is_leaf_path(v, cell, s) && done1.contains(s[0]) implies seg1.contains(prefix + s) by {
        if s[0] == i {
            if s.len() > 1 {
                assert(v.instances[s[1]].parent == v.instances[s[0]].template);
                assert(v.circuits[t].instances.contains(s[1]));
                v.circuits[t].instances.lemma_len0_is_empty();
            }
            assert(s =~= seq![i]);
            assert(prefix + s =~= np);
            assert(seg1[seg0.len() as int] == np);
        } else {
            let j = choose|j: int| 0 <= j < done1.len() && done1[j] == s[0];
            assert(j < done.len());
            assert(done[j] == s[0]);
            assert(seg0.contains(prefix + s));
            let m = choose|m: int| 0 <= m < seg0.len() && seg0[m] == prefix + s;
            assert(seg1[m] == prefix + s);
        }
    }
}

/// The paths through instance `i` of `cell` are leaf paths inside `cell`.
#[verifier::spinoff_prover]
#[verifier::rlimit(40)]
proof fn lemma_seg2_elements(v: ChipView, cell: u32, prefix: Seq<usize>, seg2: Seq<Seq<usize>>, i: usize)
    requires
        v.instances.contains_key(i),
        v.instances[i].parent == cell,
        leaf_paths_below(v, v.instances[i].template, prefix.push(i), seg2),
    ensures
        forall|j: int| 0 <= j < seg2.len() ==> {
            &&& (#[trigger] seg2[j]).len() > prefix.len()
            &&& seg2[j].subrange(0, prefix.len() as int) == prefix
            &&& is_leaf_path(v, cell, seg2[j].subrange(prefix.len() as int, seg2[j].len() as int))
            &&& seg2[j][prefix.len() as int] == i
        },
{
    let plen = prefix.len();
    let np = prefix.push(i);
    assert forall|j: int| 0 <= j < seg2.len() implies {
        &&& (#[trigger] seg2[j]).len() > plen
        &&& seg2[j].subrange(0, plen as int) == prefix
        &&& is_leaf_path(v, cell, seg2[j].subrange(plen as int, seg2[j].len() as int))
        &&& seg2[j][plen as int] == i
    } by {
        let x = seg2[j];
        let y = x.subrange(plen as int + 1, x.len() as int);
        assert(x.subrange(0, plen as int + 1) == np);
        assert(x[plen as int] == x.subrange(0, plen as int + 1)[plen as int]);
        assert(x.subrange(0, plen as int) =~= prefix) by {
            assert forall|m: int| 0 <= m < plen implies x.subrange(0, plen as int)[m] == prefix[m] by {
                assert(x.subrange(0, plen as int + 1)[m] == np[m]);
            }
        }
        lemma_leaf_path_cons(v, cell, i, y);
        assert(x.subrange(plen as int, x.len() as int) =~= seq![i] + y);
    }
}

/// Adding the paths through an instance of a cell that is not a leaf cell.
proof fn lemma_seg_step_rec(
    v: ChipView,
    cell: u32,
    prefix: Seq<usize>,
    done: Seq<usize>,
    seg0: Seq<Seq<usize>>,
    seg2: Seq<Seq<usize>>,
    i: usize,
)
    requires
        leaf_seg_ok(v, cell, prefix, done, seg0),
        !done.contains(i),
        v.instances.contains_key(i),
        v.instances[i].parent == cell,
        !flat_is_leaf(v, v.instances[i].template),
        leaf_paths_below(v, v.instances[i].template, prefix.push(i), seg2),
    ensures
        leaf_seg_ok(v, cell, prefix, done.push(i), seg0 + seg2),
{
    let plen = prefix.len();
    let np = prefix.push(i);
    let seg1 = seg0 + seg2;
    let t = v.instances[i].template;
    let done1 = done.push(i);
    assert forall|x: usize| done.contains(x) implies done1.contains(x) by {
        let j = choose|j: int| 0 <= j < done.len() && done[j] == x;
        assert(done1[j] == x);
    }
    assert(done1.contains(i)) by {
        assert(done1[done.len() as int] == i);
    }
    lemma_seg2_elements(v, cell, prefix, seg2, i);
    assert forall|a: int, b: int| 0 <= a < seg1.len() && 0 <= b < seg1.len() && a != b implies seg1[a] != seg1[b] by {
        if a < seg0.len() && b < seg0.len() {
            assert(seg1[a] == seg0[a] && seg1[b] == seg0[b]);
        } else if a >= seg0.len() && b >= seg0.len() {
            assert(seg1[a] == seg2[a - seg0.len()] && seg1[b] == seg2[b - seg0.len()]);
        } else if a < seg0.len() {
            assert(seg1[a] == seg0[a] && seg1[b] == seg2[b - seg0.len()]);
            assert(done.contains(seg0[a][plen as int]));
        } else {
            assert(seg1[b] == seg0[b] && seg1[a] == seg2[a - seg0.len()]);
            assert(done.contains(seg0[b][plen as int]));
        }
    }
    assert forall|j: int| 0 <= j < seg1.len() implies {
        &&& (#[trigger] seg1[j]).len() > plen
        &&& seg1[j].subrange(0, plen as int) == prefix
        &&& is_leaf_path(v, cell, seg1[j].subrange(plen as int, seg1[j].len() as int))
        &&& done1.contains(seg1[j][plen as int])
    } by {
        if j < seg0.len() {
            assert(seg1[j] == seg0[j]);
        } else {
            assert(seg1[j] == seg2[j - seg0.len()]);
        }
    }
    assert forall|s: Seq<usize>| #[trigger] is_leaf_path(v, cell, s) && done1.contains(s[0]) implies seg1.contains(prefix + s) by {
        if s[0] == i {
            if s.len() == 1 {
                assert(s.last() == i);
            }
            lemma_leaf_path_tail(v, cell, s);
            let y = s.drop_first();
            assert(seg2.contains(np + y));
            assert(np + y =~= prefix + s);
            let m = choose|m: int| 0 <= m < seg2.len() && seg2[m] == np + y;
            assert(seg1[seg0.len() + m] == prefix + s);
        } else {
            let j = choose|j: int| 0 <= j < done1.len() && done1[j] == s[0];
            assert(j < done.len());
            assert(done[j] == s[0]);
            assert(seg0.contains(prefix + s));
            let m = choose|m: int| 0 <= m < seg0.len() && seg0[m] == prefix + s;
            assert(seg1[m] == prefix + s);
        }
    }
}

/// The part of `out` after position `n`, as paths of integers.
pub open spec fn tail_paths(out: Seq<Vec<CellInstId>>, n: int) -> Seq<Seq<usize>> {
    paths_view(out.subrange(n, out.len() as int))
}

impl<'a> FlatView<'a> {
    /// Append to `out` the paths `prefix + s` for all leaf paths `s` inside `cell`,
    /// by a depth-first walk down the hierarchy. `above` holds the cells above
    /// `cell` on the way down; the hierarchy has no recursion, so `cell` is not among them.
    #[verifier::spinoff_prover]
    #[verifier::rlimit(40)]
    fn collect_leaf_paths(
        &self,
        cell: &CellId,
        prefix: &mut Vec<CellInstId>,
        out: &mut Vec<Vec<CellInstId>>,
        Ghost(above): Ghost<Set<u32>>,
    )
        requires
            self.wf(),
            self.base_view().circuits.contains_key(cell@),
            above.subset_of(self.base_view().circuits.dom()),
            !above.contains(cell@),
            forall|a: u32| #[trigger] above.contains(a) ==> is_ancestor_or_self(self.base_view().circuits, a, cell@),
        ensures
            final(prefix)@ == old(prefix)@,
            final(out)@.len() >= old(out)@.len(),
            final(out)@.subrange(0, old(out)@.len() as int) == old(out)@,
            leaf_paths_below(self.base_view(), cell@, inst_ids_view(old(prefix)@),
                tail_paths(final(out)@, old(out)@.len() as int)),
        decreases self.base_view().circuits.dom().difference(above).len(),
    {
        let ghost v = self.base_view();
        let ghost prefix0 = prefix@;
        let ghost pre = inst_ids_view(prefix@);
        let ghost out0 = out@;
        proof {
            assert(v.inv());
        }
        let insts = self.base.each_cell_instance_vec(cell);
        let ghost si = inst_ids_view(insts@);
        let mut k: usize = 0;
        proof {
            assert(tail_paths(out@, out0.len() as int) =~= Seq::<Seq<usize>>::empty());
            assert(out@.subrange(0, out0.len() as int) =~= out0);
            assert(si.subrange(0, 0) =~= Seq::<usize>::empty());
        }
        while k < insts.len()
            invariant
                self.wf(),
                v == self.base_view(),
                v.inv(),
                v.circuits.contains_key(cell@),
                above.subset_of(v.circuits.dom()),
                !above.contains(cell@),
                forall|a: u32| #[trigger] above.contains(a) ==> is_ancestor_or_self(v.circuits, a, cell@),
                k <= insts@.len(),
                si == inst_ids_view(insts@),
                si.no_duplicates(),
                si.to_set() == v.circuits[cell@].instances,
                prefix@ == prefix0,
                pre == inst_ids_view(prefix0),
                out@.len() >= out0.len(),
                out@.subrange(0, out0.len() as int) == out0,
                leaf_seg_ok(v, cell@, pre, si.subrange(0, k as int), tail_paths(out@, out0.len() as int)),
            decreases insts@.len() - k,
        {
            let i = insts[k];
            let ghost seg0 = tail_paths(out@, out0.len() as int);
            let ghost out_before = out@;
            proof {
                assert(si[k as int] == i@);
                assert(si.to_set().contains(i@));
                crate::chip::lemma_instance_edge(v, i@);
                assert(!si.subrange(0, k as int).contains(i@)) by {
                    if si.subrange(0, k as int).contains(i@) {
                        let j = choose|j: int| 0 <= j < k && #[trigger] si.subrange(0, k as int)[j] == i@;
                        assert(si[j] == si[k as int]);
                    }
                }
                assert(si.subrange(0, k + 1) =~= si.subrange(0, k as int).push(i@));
            }
            let t = self.base.template_cell(&i);
            if self.base.num_child_instances(&t) == 0 {
                let p = extend_path(prefix, i);
                out.push(p);
                proof {
                    lemma_seg_step_leaf(v, cell@, pre, si.subrange(0, k as int), seg0, i@);
                    assert(out@.subrange(out0.len() as int, out@.len() as int) =~=
                        out_before.subrange(out0.len() as int, out_before.len() as int).push(p));
                    assert(tail_paths(out@, out0.len() as int) =~= seg0.push(pre.push(i@)));
                    assert(out@.subrange(0, out0.len() as int) =~= out0) by {
                        assert forall|j: int| 0 <= j < out0.len() implies out@[j] == out0[j] by {
                            assert(out@[j] == out_before[j]);
                            assert(out_before.subrange(0, out0.len() as int)[j] == out0[j]);
                        }
                    }
                }
            } else {
                proof {
                    assert(v.circuits.dom().difference(above.insert(cell@)) =~=
                        v.circuits.dom().difference(above).remove(cell@));
                    assert(v.circuits.dom().difference(above).contains(cell@));
                    assert(v.circuits.dom().difference(above).finite()) by {
                        vstd::set_lib::lemma_set_subset_finite(v.circuits.dom(), v.circuits.dom().difference(above));
                    }
                    crate::chip::lemma_ancestor_edge(v.circuits, t@, cell@);
                    assert forall|a: u32| #[trigger] above.insert(cell@).contains(a) implies is_ancestor_or_self(v.circuits, a, t@) by {
                        if a != cell@ {
                            crate::chip::lemma_ancestor_trans(v.circuits, a, cell@, t@);
                        }
                    }
                    assert(!above.insert(cell@).contains(t@)) by {
                        if above.contains(t@) {
                            assert(is_ancestor_or_self(v.circuits, t@, cell@));
                        }
                    }
                }
                prefix.push(i);
                proof {
                    assert(inst_ids_view(prefix@) =~= pre.push(i@));
                }
                let ghost out_mid = out@;
                self.collect_leaf_paths(&t, prefix, out, Ghost(above.insert(cell@)));
                prefix.pop();
                proof {
                    assert(prefix@ =~= prefix0);
                    let seg2 = tail_paths(out@, out_mid.len() as int);
                    lemma_seg_step_rec(v, cell@, pre, si.subrange(0, k as int), seg0, seg2, i@);
                    assert(out@.subrange(0, out0.len() as int) =~= out0) by {
                        assert forall|j: int| 0 <= j < out0.len() implies out@[j] == out0[j] by {
                            assert(out@.subrange(0, out_mid.len() as int)[j] == out_mid[j]);
                            assert(out_mid.subrange(0, out0.len() as int)[j] == out0[j]);
                        }
                    }
                    assert(tail_paths(out@, out0.len() as int) =~= seg0 + seg2) by {
                        let seg1 = tail_paths(out@, out0.len() as int);
                        assert forall|j: int| 0 <= j < seg1.len() implies #[trigger] seg1[j] == (seg0 + seg2)[j] by {
                            if j < seg0.len() {
                                assert(out@[out0.len() + j] == out_mid[out0.len() + j]) by {
                                    assert(out@.subrange(0, out_mid.len() as int)[out0.len() + j] == out_mid[out0.len() + j]);
                                }
                            }
                        }
                    }
                }
            }
            k = k + 1;
        }
        proof {
            let seg = tail_paths(out@, out0.len() as int);
            assert(si.subrange(0, k as int) =~= si);
            assert forall|s: Seq<usize>| #[trigger] is_leaf_path(v, cell@, s) implies seg.contains(pre + s) by {
                assert(v.circuits[cell@].instances.contains(s[0]));
                assert(si.to_set().contains(s[0]));
            }
        }
    }

    /// Get the instances of the flat view inside `cell`: all paths of instances
    /// from an instance in `cell` down to an instance of a leaf cell, each once,
    /// in no particular order.
    pub fn each_cell_instance_vec(&self, cell: &CellId) -> (res: Vec<Vec<CellInstId>>)
        requires
            self.wf(),
            self.base_view().circuits.contains_key(cell@),
        ensures
            paths_view(res@).no_duplicates(),
            forall|s: Seq<usize>| paths_view(res@).contains(s) <==> #[trigger] is_leaf_path(self.base_view(), cell@, s),
    {
        let ghost v = self.base_view();
        let mut prefix: Vec<CellInstId> = Vec::new();
        let mut out: Vec<Vec<CellInstId>> = Vec::new();
        let ghost pre0 = prefix@;
        self.collect_leaf_paths(cell, &mut prefix, &mut out, Ghost(Set::<u32>::empty()));
        proof {
            let empty = Seq::<usize>::empty();
            assert(inst_ids_view(pre0) =~= empty);
            let seg = paths_view(out@);
            assert(out@.subrange(0, out@.len() as int) =~= out@);
            assert(tail_paths(out@, 0) == seg);
            assert forall|s: Seq<usize>| seg.contains(s) <==> #[trigger] is_leaf_path(v, cell@, s) by {
                if seg.contains(s) {
                    let j = choose|j: int| 0 <= j < seg.len() && seg[j] == s;
                    assert(seg[j].subrange(0, 0 as int) == empty);
                    assert(seg[j].subrange(0, seg[j].len() as int) =~= seg[j]);
                }
                if is_leaf_path(v, cell@, s) {
                    assert(empty + s =~= s);
                }
            }
        }
        out
    }
}

/// An instance of the flat view that instantiates `cell`: a chain from an
/// instance in a top level cell down to an instance of `cell`.
pub open spec fn is_ref_path(v: ChipView, cell: u32, s: Seq<usize>) -> bool {
    &&& s.len() > 0
    &&& is_chain(v, s)
    &&& v.instances[s.last()].template == cell
    &&& v.circuits[v.instances[s[0]].parent].dependent_circuits.len() == 0
}

/// `seg` holds, each once, exactly the paths `s + suffix` for the reference
/// paths `s` of `cell` whose last instance is in `done`.
pub open spec fn ref_seg_ok(v: ChipView, cell: u32, suffix: Seq<usize>, done: Seq<usize>, seg: Seq<Seq<usize>>) -> bool {
    &&& seg.no_duplicates()
    &&& forall|j: int| 0 <= j < seg.len() ==> {
        &&& (#[trigger] seg[j]).len() > suffix.len()
        &&& seg[j].subrange(seg[j].len() - suffix.len(), seg[j].len() as int) == suffix
        &&& is_ref_path(v, cell, seg[j].subrange(0, seg[j].len() - suffix.len()))
        &&& done.contains(seg[j][seg[j].len() - suffix.len() - 1])
    }
    &&& forall|s: Seq<usize>| #[trigger] is_ref_path(v, cell, s) && done.contains(s.last()) ==> seg.contains(s + suffix)
}

/// `seg` holds, each once, exactly the paths `s + suffix` for the reference paths `s` of `cell`.
pub open spec fn ref_paths_above(v: ChipView, cell: u32, suffix: Seq<usize>, seg: Seq<Seq<usize>>) -> bool {
    &&& seg.no_duplicates()
    &&& forall|j: int| 0 <= j < seg.len() ==> {
        &&& (#[trigger] seg[j]).len() > suffix.len()
        &&& seg[j].subrange(seg[j].len() - suffix.len(), seg[j].len() as int) == suffix
        &&& is_ref_path(v, cell, seg[j].subrange(0, seg[j].len() - suffix.len()))
    }
    &&& forall|s: Seq<usize>| #[trigger] is_ref_path(v, cell, s) ==> seg.contains(s + suffix)
}

/// A reference path continued downwards by an instance of the cell where it ends.
proof fn lemma_ref_path_snoc(v: ChipView, cell: u32, y: Seq<usize>, r: usize)
    requires
        v.instances.contains_key(r),
        v.instances[r].template == cell,
        is_ref_path(v, v.instances[r].parent, y),
    ensures
        is_ref_path(v, cell, y.push(r)),
{
    let s = y.push(r);
    assert forall|k: int| 0 < k < s.len() implies v.instances[#[trigger] s[k]].parent == v.instances[s[k - 1]].template by {
        if k < y.len() {
            assert(s[k] == y[k] && s[k - 1] == y[k - 1]);
        } else {
            assert(s[k - 1] == y.last());
        }
    }
    assert(s[0] == y[0]);
}

/// The part of a reference path above its last instance.
proof fn lemma_ref_path_init(v: ChipView, cell: u32, s: Seq<usize>)
    requires
        is_ref_path(v, cell, s),
        s.len() > 1,
    ensures
        is_ref_path(v, v.instances[s.last()].parent, s.drop_last()),
        s =~= s.drop_last().push(s.last()),
{
    let y = s.drop_last();
    assert forall|k: int| 0 < k < y.len() implies v.instances[#[trigger] y[k]].parent == v.instances[y[k - 1]].template by {
        assert(y[k] == s[k] && y[k - 1] == s[k - 1]);
    }
    assert(v.instances[y.last()].template == v.instances[s.last()].parent) by {
        assert(y.last() == s[s.len() - 2]);
    }
}

/// Adding the path of a reference that lies in a top level cell.
proof fn lemma_ref_step_top(v: ChipView, cell: u32, suffix: Seq<usize>, done: Seq<usize>, seg0: Seq<Seq<usize>>, r: usize)
    requires
        v.inv(),
        ref_seg_ok(v, cell, suffix, done, seg0),
        !done.contains(r),
        v.instances.contains_key(r),
        v.instances[r].template == cell,
        v.circuits[v.instances[r].parent].dependent_circuits.len() == 0,
    ensures
        ref_seg_ok(v, cell, suffix, done.push(r), seg0.push(seq![r] + suffix)),
{
    let slen = suffix.len();
    let np = seq![r] + suffix;
    let seg1 = seg0.push(np);
    let p = v.instances[r].parent;
    let done1 = done.push(r);
    assert(np[np.len() - slen - 1] == r);
    assert(np.subrange(np.len() - slen, np.len() as int) =~= suffix);
    assert(np.subrange(0, np.len() - slen) =~= seq![r]);
    assert(is_ref_path(v, cell, seq![r]));
    assert forall|x: usize| done.contains(x) implies done1.contains(x) by {
        let j = choose|j: int| 0 <= j < done.len() && done[j] == x;
        assert(done1[j] == x);
    }
    assert(done1.contains(r)) by {
        assert(done1[done.len() as int] == r);
    }
    assert forall|a: int, b: int| 0 <= a < seg1.len() && 0 <= b < seg1.len() && a != b implies seg1[a] != seg1[b] by {
        if a < seg0.len() && b < seg0.len() {
            assert(seg1[a] == seg0[a] && seg1[b] == seg0[b]);
        } else if a == seg0.len() {
            assert(seg1[b] == seg0[b]);
            assert(done.contains(seg0[b][seg0[b].len() - slen - 1]));
        } else {
            assert(seg1[a] == seg0[a]);
            assert(done.contains(seg0[a][seg0[a].len() - slen - 1]));
        }
    }
    assert forall|j: int| 0 <= j < seg1.len() implies {
        &&& (#[trigger] seg1[j]).len() > slen
        &&& seg1[j].subrange(seg1[j].len() - slen, seg1[j].len() as int) == suffix
        &&& is_ref_path(v, cell, seg1[j].subrange(0, seg1[j].len() - slen))
        &&& done1.contains(seg1[j][seg1[j].len() - slen - 1])
    } by {
        if j < seg0.len() {
            assert(seg1[j] == seg0[j]);
        }
    }
    assert forall|s: Seq<usize>| #[trigger] is_ref_path(v, cell, s) && done1.contains(s.last()) implies seg1.contains(s + suffix) by {
        if s.last() == r {
            if s.len() > 1 {
                let q = s[s.len() - 2];
                assert(v.instances[s[s.len() - 1]].parent == v.instances[s[s.len() - 2]].template);
                crate::chip::lemma_instance_edge(v, q);
                assert(v.circuits[p].dependent_circuits.dom().contains(v.instances[q].parent));
                assert(v.circuits[p].dependent_circuits.dom().subset_of(v.circuits.dom())) by {
                    assert forall|x: u32| v.circuits[p].dependent_circuits.dom().contains(x) implies v.circuits.dom().contains(x) by {
                        crate::chip::lemma_dependent_exists(v, p, x);
                    }
                }
                vstd::set_lib::lemma_set_subset_finite(v.circuits.dom(), v.circuits[p].dependent_circuits.dom());
                v.circuits[p].dependent_circuits.dom().lemma_len0_is_empty();
            }
            assert(s =~= seq![r]);
            assert(seg1[seg0.len() as int] == np);
        } else {
            let j = choose|j: int| 0 <= j < done1.len() && done1[j] == s.last();
            assert(j < done.len());
            assert(done[j] == s.last());
            assert(seg0.contains(s + suffix));
            let m = choose|m: int| 0 <= m < seg0.len() && seg0[m] == s + suffix;
            assert(seg1[m] == s + suffix);
        }
    }
}

/// The paths through reference `r` of `cell` are reference paths of `cell`.
proof fn lemma_ref_seg2_elements(v: ChipView, cell: u32, suffix: Seq<usize>, seg2: Seq<Seq<usize>>, r: usize)
    requires
        v.instances.contains_key(r),
        v.instances[r].template == cell,
        ref_paths_above(v, v.instances[r].parent, seq![r] + suffix, seg2),
    ensures
        forall|j: int| 0 <= j < seg2.len() ==> {
            &&& (#[trigger] seg2[j]).len() > suffix.len()
            &&& seg2[j].subrange(seg2[j].len() - suffix.len(), seg2[j].len() as int) == suffix
            &&& is_ref_path(v, cell, seg2[j].subrange(0, seg2[j].len() - suffix.len()))
            &&& seg2[j][seg2[j].len() - suffix.len() - 1] == r
        },
{
    let slen = suffix.len();
    let ns = seq![r] + suffix;
    assert forall|j: int| 0 <= j < seg2.len() implies {
        &&& (#[trigger] seg2[j]).len() > slen
        &&& seg2[j].subrange(seg2[j].len() - slen, seg2[j].len() as int) == suffix
        &&& is_ref_path(v, cell, seg2[j].subrange(0, seg2[j].len() - slen))
        &&& seg2[j][seg2[j].len() - slen - 1] == r
    } by {
        let x = seg2[j];
        let n = x.len();
        let y = x.subrange(0, n - slen - 1);
        assert(x.subrange(n - slen - 1, n as int) == ns);
        assert(x[n - slen - 1] == x.subrange(n - slen - 1, n as int)[0]);
        assert(x.subrange(n - slen, n as int) =~= suffix) by {
            assert forall|m: int| 0 <= m < slen implies x.subrange(n - slen, n as int)[m] == suffix[m] by {
                assert(x.subrange(n - slen - 1, n as int)[m + 1] == ns[m + 1]);
            }
        }
        lemma_ref_path_snoc(v, cell, y, r);
        assert(x.subrange(0, n - slen) =~= y.push(r));
    }
}

/// Adding the paths through a reference that lies in a flattened cell.
#[verifier::spinoff_prover]
#[verifier::rlimit(40)]
proof fn lemma_ref_step_rec(
    v: ChipView,
    cell: u32,
    suffix: Seq<usize>,
    done: Seq<usize>,
    seg0: Seq<Seq<usize>>,
    seg2: Seq<Seq<usize>>,
    r: usize,
)
    requires
        ref_seg_ok(v, cell, suffix, done, seg0),
        !done.contains(r),
        v.instances.contains_key(r),
        v.instances[r].template == cell,
        v.circuits[v.instances[r].parent].dependent_circuits.len() != 0,
        ref_paths_above(v, v.instances[r].parent, seq![r] + suffix, seg2),
    ensures
        ref_seg_ok(v, cell, suffix, done.push(r), seg0 + seg2),
{
    let slen = suffix.len();
    let ns = seq![r] + suffix;
    let seg1 = seg0 + seg2;
    let done1 = done.push(r);
    assert forall|x: usize| done.contains(x) implies done1.contains(x) by {
        let j = choose|j: int| 0 <= j < done.len() && done[j] == x;
        assert(done1[j] == x);
    }
    assert(done1.contains(r)) by {
        assert(done1[done.len() as int] == r);
    }
    lemma_ref_seg2_elements(v, cell, suffix, seg2, r);
    assert forall|a: int, b: int| 0 <= a < seg1.len() && 0 <= b < seg1.len() && a != b implies seg1[a] != seg1[b] by {
        if a < seg0.len() && b < seg0.len() {
            assert(seg1[a] == seg0[a] && seg1[b] == seg0[b]);
        } else if a >= seg0.len() && b >= seg0.len() {
            assert(seg1[a] == seg2[a - seg0.len()] && seg1[b] == seg2[b - seg0.len()]);
        } else if a < seg0.len() {
            assert(seg1[a] == seg0[a] && seg1[b] == seg2[b - seg0.len()]);
            assert(done.contains(seg0[a][seg0[a].len() - slen - 1]));
        } else {
            assert(seg1[b] == seg0[b] && seg1[a] == seg2[a - seg0.len()]);
            assert(done.contains(seg0[b][seg0[b].len() - slen - 1]));
        }
    }
    assert forall|j: int| 0 <= j < seg1.len() implies {
        &&& (#[trigger] seg1[j]).len() > slen
        &&& seg1[j].subrange(seg1[j].len() - slen, seg1[j].len() as int) == suffix
        &&& is_ref_path(v, cell, seg1[j].subrange(0, seg1[j].len() - slen))
        &&& done1.contains(seg1[j][seg1[j].len() - slen - 1])
    } by {
        if j < seg0.len() {
            assert(seg1[j] == seg0[j]);
        } else {
            assert(seg1[j] == seg2[j - seg0.len()]);
        }
    }
    assert forall|s: Seq<usize>| #[trigger] is_ref_path(v, cell, s) && done1.contains(s.last()) implies seg1.contains(s + suffix) by {
        if s.last() == r {
            if s.len() == 1 {
                assert(s[0] == r);
            }
            lemma_ref_path_init(v, cell, s);
            let y = s.drop_last();
            assert(seg2.contains(y + ns));
            assert(y + ns =~= s + suffix);
            let m = choose|m: int| 0 <= m < seg2.len() && seg2[m] == y + ns;
            assert(seg1[seg0.len() + m] == s + suffix);
        } else {
            let j = choose|j: int| 0 <= j < done1.len() && done1[j] == s.last();
            assert(j < done.len());
            assert(done[j] == s.last());
            assert(seg0.contains(s + suffix));
            let m = choose|m: int| 0 <= m < seg0.len() && seg0[m] == s + suffix;
            assert(seg1[m] == s + suffix);
        }
    }
}

/// A copy of `rev` in reverse order.
fn reversed_path(rev: &Vec<CellInstId>) -> (res: Vec<CellInstId>)
    ensures
        inst_ids_view(res@) == inst_ids_view(rev@).reverse(),
{
    let mut res: Vec<CellInstId> = Vec::new();
    let mut k: usize = rev.len();
    while k > 0
        invariant
            k <= rev@.len(),
            res@.len() == rev@.len() - k,
            forall|j: int| 0 <= j < res@.len() ==> #[trigger] res@[j] == rev@[rev@.len() - 1 - j],
        decreases k,
    {
        k = k - 1;
        res.push(rev[k]);
    }
    assert(inst_ids_view(res@) =~= inst_ids_view(rev@).reverse());
    res
}

impl<'a> FlatView<'a> {
    /// Append to `out` the paths `s + reverse(rev)` for all reference paths `s`
    /// of `cell`, by a depth-first walk up the hierarchy. `below` holds the
    /// cells below `cell` on the way up; the hierarchy has no recursion, so
    /// `cell` is not among them.
    #[verifier::spinoff_prover]
    #[verifier::rlimit(40)]
    fn collect_ref_paths(
        &self,
        cell: &CellId,
        rev: &mut Vec<CellInstId>,
        out: &mut Vec<Vec<CellInstId>>,
        Ghost(below): Ghost<Set<u32>>,
    )
        requires
            self.wf(),
            self.base_view().circuits.contains_key(cell@),
            below.subset_of(self.base_view().circuits.dom()),
            !below.contains(cell@),
            forall|b: u32| #[trigger] below.contains(b) ==> is_ancestor_or_self(self.base_view().circuits, cell@, b),
        ensures
            final(rev)@ == old(rev)@,
            final(out)@.len() >= old(out)@.len(),
            final(out)@.subrange(0, old(out)@.len() as int) == old(out)@,
            ref_paths_above(self.base_view(), cell@, inst_ids_view(old(rev)@).reverse(),
                tail_paths(final(out)@, old(out)@.len() as int)),
        decreases self.base_view().circuits.dom().difference(below).len(),
    {
        let ghost v = self.base_view();
        let ghost rev0 = rev@;
        let ghost suffix = inst_ids_view(rev@).reverse();
        let ghost out0 = out@;
        proof {
            assert(v.inv());
        }
        let refs = self.base.each_cell_reference_vec(cell);
        let ghost si = inst_ids_view(refs@);
        let mut k: usize = 0;
        proof {
            assert(tail_paths(out@, out0.len() as int) =~= Seq::<Seq<usize>>::empty());
            assert(out@.subrange(0, out0.len() as int) =~= out0);
            assert(si.subrange(0, 0) =~= Seq::<usize>::empty());
        }
        while k < refs.len()
            invariant
                self.wf(),
                v == self.base_view(),
                v.inv(),
                v.circuits.contains_key(cell@),
                below.subset_of(v.circuits.dom()),
                !below.contains(cell@),
                forall|b: u32| #[trigger] below.contains(b) ==> is_ancestor_or_self(v.circuits, cell@, b),
                k <= refs@.len(),
                si == inst_ids_view(refs@),
                si.no_duplicates(),
                si.to_set() == v.circuits[cell@].references,
                rev@ == rev0,
                suffix == inst_ids_view(rev0).reverse(),
                out@.len() >= out0.len(),
                out@.subrange(0, out0.len() as int) == out0,
                ref_seg_ok(v, cell@, suffix, si.subrange(0, k as int), tail_paths(out@, out0.len() as int)),
            decreases refs@.len() - k,
        {
            let r = refs[k];
            let ghost seg0 = tail_paths(out@, out0.len() as int);
            let ghost out_before = out@;
            proof {
                assert(si[k as int] == r@);
                assert(si.to_set().contains(r@));
                crate::chip::lemma_instance_edge(v, r@);
                assert(!si.subrange(0, k as int).contains(r@)) by {
                    if si.subrange(0, k as int).contains(r@) {
                        let j = choose|j: int| 0 <= j < k && #[trigger] si.subrange(0, k as int)[j] == r@;
                        assert(si[j] == si[k as int]);
                    }
                }
                assert(si.subrange(0, k + 1) =~= si.subrange(0, k as int).push(r@));
                let p = v.instances[r@].parent;
                assert(v.circuits[p].instances.contains(r@));
                if v.circuits[p].instances.len() == 0 {
                    v.circuits[p].instances.lemma_len0_is_empty();
                }
            }
            let p = self.base.parent_cell(&r);
            rev.push(r);
            proof {
                assert(inst_ids_view(rev@).reverse() =~= seq![r@] + suffix);
            }
            if self.cell_exists_in_flat_view(&p) {
                let path = reversed_path(rev);
                rev.pop();
                out.push(path);
                proof {
                    assert(rev@ =~= rev0);
                    lemma_ref_step_top(v, cell@, suffix, si.subrange(0, k as int), seg0, r@);
                    assert(out@.subrange(out0.len() as int, out@.len() as int) =~=
                        out_before.subrange(out0.len() as int, out_before.len() as int).push(path));
                    assert(tail_paths(out@, out0.len() as int) =~= seg0.push(seq![r@] + suffix));
                    assert(out@.subrange(0, out0.len() as int) =~= out0) by {
                        assert forall|j: int| 0 <= j < out0.len() implies out@[j] == out0[j] by {
                            assert(out@[j] == out_before[j]);
                            assert(out_before.subrange(0, out0.len() as int)[j] == out0[j]);
                        }
                    }
                }
            } else {
                proof {
                    assert(v.circuits.dom().difference(below.insert(cell@)) =~=
                        v.circuits.dom().difference(below).remove(cell@));
                    assert(v.circuits.dom().difference(below).contains(cell@));
                    assert(v.circuits.dom().difference(below).finite()) by {
                        vstd::set_lib::lemma_set_subset_finite(v.circuits.dom(), v.circuits.dom().difference(below));
                    }
                    crate::chip::lemma_ancestor_edge(v.circuits, cell@, p@);
                    assert forall|b: u32| #[trigger] below.insert(cell@).contains(b) implies is_ancestor_or_self(v.circuits, p@, b) by {
                        if b != cell@ {
                            crate::chip::lemma_ancestor_trans(v.circuits, p@, cell@, b);
                        }
                    }
                    assert(!below.insert(cell@).contains(p@)) by {
                        if below.contains(p@) {
                            assert(is_ancestor_or_self(v.circuits, cell@, p@));
                        }
                    }
                }
                let ghost out_mid = out@;
                self.collect_ref_paths(&p, rev, out, Ghost(below.insert(cell@)));
                rev.pop();
                proof {
                    assert(rev@ =~= rev0);
                    let seg2 = tail_paths(out@, out_mid.len() as int);
                    lemma_ref_step_rec(v, cell@, suffix, si.subrange(0, k as int), seg0, seg2, r@);
                    assert(out@.subrange(0, out0.len() as int) =~= out0) by {
                        assert forall|j: int| 0 <= j < out0.len() implies out@[j] == out0[j] by {
                            assert(out@.subrange(0, out_mid.len() as int)[j] == out_mid[j]);
                            assert(out_mid.subrange(0, out0.len() as int)[j] == out0[j]);
                        }
                    }
                    assert(tail_paths(out@, out0.len() as int) =~= seg0 + seg2) by {
                        let seg1 = tail_paths(out@, out0.len() as int);
                        assert forall|j: int| 0 <= j < seg1.len() implies #[trigger] seg1[j] == (seg0 + seg2)[j] by {
                            if j < seg0.len() {
                                assert(out@[out0.len() + j] == out_mid[out0.len() + j]) by {
                                    assert(out@.subrange(0, out_mid.len() as int)[out0.len() + j] == out_mid[out0.len() + j]);
                                }
                            }
                        }
                    }
                }
            }
            k = k + 1;
        }
        proof {
            let seg = tail_paths(out@, out0.len() as int);
            assert(si.subrange(0, k as int) =~= si);
            assert forall|s: Seq<usize>| #[trigger] is_ref_path(v, cell@, s) implies seg.contains(s + suffix) by {
                assert(v.circuits[cell@].references.contains(s.last()));
                assert(si.to_set().contains(s.last()));
            }
        }
    }

    /// Get the instances of `cell` in the flat view: all paths of instances from
    /// an instance in a top level cell down to an instance of `cell`, each once,
    /// in no particular order.
    pub fn each_cell_reference_vec(&self, cell: &CellId) -> (res: Vec<Vec<CellInstId>>)
        requires
            self.wf(),
            self.base_view().circuits.contains_key(cell@),
            !flat_is_flattened(self.base_view(), cell@),
        ensures
            paths_view(res@).no_duplicates(),
            forall|s: Seq<usize>| paths_view(res@).contains(s) <==> #[trigger] is_ref_path(self.base_view(), cell@, s),
    {
        let ghost v = self.base_view();
        let mut rev: Vec<CellInstId> = Vec::new();
        let mut out: Vec<Vec<CellInstId>> = Vec::new();
        let ghost rev0 = rev@;
        self.collect_ref_paths(cell, &mut rev, &mut out, Ghost(Set::<u32>::empty()));
        proof {
            let empty = Seq::<usize>::empty();
            assert(inst_ids_view(rev0).reverse() =~= empty);
            let seg = paths_view(out@);
            assert(out@.subrange(0, out@.len() as int) =~= out@);
            assert(tail_paths(out@, 0) == seg);
            assert forall|s: Seq<usize>| seg.contains(s) <==> #[trigger] is_ref_path(v, cell@, s) by {
                if seg.contains(s) {
                    let j = choose|j: int| 0 <= j < seg.len() && seg[j] == s;
                    assert(seg[j].subrange(0, seg[j].len() as int) =~= seg[j]);
                }
                if is_ref_path(v, cell@, s) {
                    assert(s + empty =~= s);
                }
            }
        }
        out
    }
}

/// `d` lies below `cell`: a cell that `cell` instantiates is `d` or instantiates `d`.
pub open spec fn is_proper_descendant(v: ChipView, cell: u32, d: u32) -> bool {
    exists|t: u32| #[trigger] v.circuits[cell].dependencies.contains_key(t) && is_ancestor_or_self(v.circuits, t, d)
}

/// `a` lies above `cell`: it is or instantiates a cell that instantiates `cell`.
pub open spec fn is_proper_ancestor(v: ChipView, cell: u32, a: u32) -> bool {
    exists|p: u32| #[trigger] v.circuits[cell].dependent_circuits.contains_key(p) && is_ancestor_or_self(v.circuits, a, p)
}

/// The identifiers of the cells in `s`.
pub open spec fn cell_set(s: Seq<CellId>) -> Set<u32> {
    cell_ids_view(s).to_set()
}

/// The cells that instantiate some cell form a finite set of existing cells.
proof fn lemma_dependents_finite(v: ChipView, c: u32)
    requires
        v.inv(),
        v.circuits.contains_key(c),
    ensures
        v.circuits[c].dependent_circuits.dom().subset_of(v.circuits.dom()),
        v.circuits[c].dependent_circuits.dom().finite(),
{
    assert forall|x: u32| v.circuits[c].dependent_circuits.dom().contains(x) implies v.circuits.dom().contains(x) by {
        crate::chip::lemma_dependent_exists(v, c, x);
    }
    vstd::set_lib::lemma_set_subset_finite(v.circuits.dom(), v.circuits[c].dependent_circuits.dom());
}

/// Push the cells of `cells` onto `stack`.
fn push_cells(stack: &mut Vec<CellId>, cells: &Vec<CellId>)
    ensures
        final(stack)@ == old(stack)@ + cells@,
{
    let mut k: usize = 0;
    let ghost st0 = stack@;
    while k < cells.len()
        invariant
            k <= cells@.len(),
            stack@ == st0 + cells@.subrange(0, k as int),
        decreases cells@.len() - k,
    {
        stack.push(cells[k]);
        k = k + 1;
        assert(stack@ =~= st0 + cells@.subrange(0, k as int));
    }
    assert(cells@.subrange(0, k as int) =~= cells@);
}

impl<'a> FlatView<'a> {
    /// Get the cells of the flat view below `cell` (leaf cells that `cell`
    /// instantiates, directly or through other cells), each once, in no particular order.
    #[verifier::spinoff_prover]
    pub fn each_cell_dependency_vec(&self, cell: &CellId) -> (res: Vec<CellId>)
        requires
            self.wf(),
            self.base_view().circuits.contains_key(cell@),
        ensures
            cell_ids_view(res@).no_duplicates(),
            forall|d: u32| #[trigger] cell_set(res@).contains(d) <==> self.base_view().circuits.contains_key(d)
                && is_proper_descendant(self.base_view(), cell@, d) && !flat_is_flattened(self.base_view(), d),
    {
        let ghost v = self.base_view();
        let ghost dom = v.circuits.dom();
        proof {
            assert(v.inv());
        }
        let mut visited: HashSet<u32> = HashSet::new();
        let mut stack: Vec<CellId> = self.base.each_cell_dependency_vec(cell);
        let mut res: Vec<CellId> = Vec::new();
        proof {
            assert forall|k: int| 0 <= k < stack@.len() implies dom.contains(#[trigger] stack@[k]@)
                && is_proper_descendant(v, cell@, stack@[k]@) by {
                assert(cell_ids_view(stack@)[k] == stack@[k]@);
                assert(cell_ids_view(stack@).to_set().contains(stack@[k]@));
                crate::chip::lemma_dependency_iff(v, cell@, stack@[k]@);
                crate::chip::lemma_ancestor_refl(v.circuits, stack@[k]@);
            }
            assert forall|t: u32| #[trigger] v.circuits[cell@].dependencies.contains_key(t) implies cell_set(stack@).contains(t) by {
                assert(v.circuits[cell@].dependencies.dom().contains(t));
            }
            assert(cell_set(res@) =~= Set::<u32>::empty());
        }
        while stack.len() > 0
            invariant
                self.wf(),
                v == self.base_view(),
                v.inv(),
                dom == v.circuits.dom(),
                dom.finite(),
                v.circuits.contains_key(cell@),
                visited@.subset_of(dom),
                forall|x: u32| #[trigger] visited@.contains(x) ==> is_proper_descendant(v, cell@, x),
                forall|k: int| 0 <= k < stack@.len() ==> dom.contains(#[trigger] stack@[k]@)
                    && is_proper_descendant(v, cell@, stack@[k]@),
                forall|x: u32, y: u32| #[trigger] visited@.contains(x) && #[trigger] v.circuits[x].dependencies.contains_key(y)
                    ==> visited@.contains(y) || cell_set(stack@).contains(y),
                forall|t: u32| #[trigger] v.circuits[cell@].dependencies.contains_key(t)
                    ==> visited@.contains(t) || cell_set(stack@).contains(t),
                cell_ids_view(res@).no_duplicates(),
                forall|x: u32| #[trigger] cell_set(res@).contains(x) <==> visited@.contains(x) && !flat_is_flattened(v, x),
            decreases dom.difference(visited@).len(), stack@.len(),
        {
            let ghost st0 = stack@;
            let ghost vis0 = visited@;
            let d = stack.pop().unwrap();
            proof {
                assert(st0 =~= stack@.push(d));
                assert(st0[st0.len() - 1] == d);
                assert forall|x: u32| cell_set(st0).contains(x) implies cell_set(stack@).contains(x) || x == d@ by {
                    let j = choose|j: int| 0 <= j < st0.len() && cell_ids_view(st0)[j] == x;
                    if j < stack@.len() {
                        assert(cell_ids_view(stack@)[j] == x);
                    }
                }
            }
            let ghost res0 = res@;
            if !visited.contains(&d.to_u32()) {
                let deps = self.base.each_cell_dependency_vec(&d);
                let ghost st1 = stack@;
                push_cells(&mut stack, &deps);
                let exists = self.cell_exists_in_flat_view(&d);
                if exists {
                    res.push(d);
                }
                visited.insert(d.to_u32());
                proof {
                    assert(dom.difference(visited@) =~= dom.difference(vis0).remove(d@));
                    assert(dom.difference(vis0).contains(d@));
                    assert(dom.difference(vis0).finite()) by {
                        vstd::set_lib::lemma_set_subset_finite(dom, dom.difference(vis0));
                    }
                    assert forall|k: int| 0 <= k < stack@.len() implies dom.contains(#[trigger] stack@[k]@)
                        && is_proper_descendant(v, cell@, stack@[k]@) by {
                        if k < st1.len() {
                            assert(stack@[k] == st0[k]);
                        } else {
                            let y = stack@[k]@;
                            assert(stack@[k] == deps@[k - st1.len()]);
                            assert(cell_ids_view(deps@)[k - st1.len()] == y);
                            assert(cell_ids_view(deps@).to_set().contains(y));
                            crate::chip::lemma_dependency_iff(v, d@, y);
                            crate::chip::lemma_ancestor_edge(v.circuits, y, d@);
                            let t = choose|t: u32| #[trigger] v.circuits[cell@].dependencies.contains_key(t)
                                && is_ancestor_or_self(v.circuits, t, d@);
                            crate::chip::lemma_ancestor_trans(v.circuits, t, d@, y);
                        }
                    }
                    assert forall|x: u32| cell_set(st1).contains(x) implies cell_set(stack@).contains(x) by {
                        let j = choose|j: int| 0 <= j < st1.len() && cell_ids_view(st1)[j] == x;
                        assert(cell_ids_view(stack@)[j] == x);
                    }
                    assert forall|x: u32, y: u32| #[trigger] visited@.contains(x) && #[trigger] v.circuits[x].dependencies.contains_key(y)
                        implies visited@.contains(y) || cell_set(stack@).contains(y) by {
                        if x == d@ {
                            assert(cell_ids_view(deps@).to_set().contains(y));
                            let j = choose|j: int| 0 <= j < deps@.len() && cell_ids_view(deps@)[j] == y;
                            assert(cell_ids_view(stack@)[st1.len() + j] == y);
                        } else {
                            assert(vis0.contains(x));
                        }
                    }
                    assert forall|x: u32| #[trigger] cell_set(res@).contains(x) <==> visited@.contains(x) && !flat_is_flattened(v, x) by {
                        if exists {
                            assert(cell_ids_view(res@) =~= cell_ids_view(res0).push(d@));
                            if cell_set(res@).contains(x) && x != d@ {
                                let j = choose|j: int| 0 <= j < res@.len() && cell_ids_view(res@)[j] == x;
                                assert(cell_ids_view(res0)[j] == x);
                                assert(cell_set(res0).contains(x));
                            }
                            if x == d@ {
                                assert(cell_ids_view(res@)[res@.len() - 1] == x);
                            }
                            if vis0.contains(x) && !flat_is_flattened(v, x) {
                                assert(cell_set(res0).contains(x));
                                let j = choose|j: int| 0 <= j < res0.len() && cell_ids_view(res0)[j] == x;
                                assert(cell_ids_view(res@)[j] == x);
                            }
                        } else {
                            assert(res@ == res0);
                        }
                    }
                    if exists {
                        assert(!cell_set(res0).contains(d@));
                        assert forall|a: int, b: int| 0 <= a < res@.len() && 0 <= b < res@.len() && a != b
                            implies cell_ids_view(res@)[a] != cell_ids_view(res@)[b] by {
                            let r0 = cell_ids_view(res0);
                            if a < res@.len() - 1 && b < res@.len() - 1 {
                                assert(cell_ids_view(res@)[a] == r0[a] && cell_ids_view(res@)[b] == r0[b]);
                            } else if a == res@.len() - 1 {
                                assert(cell_ids_view(res@)[b] == r0[b]);
                                assert(r0.to_set().contains(r0[b]));
                            } else {
                                assert(cell_ids_view(res@)[a] == r0[a]);
                                assert(r0.to_set().contains(r0[a]));
                            }
                        }
                    }
                }
            } else {
                proof {
                    assert forall|k: int| 0 <= k < stack@.len() implies dom.contains(#[trigger] stack@[k]@)
                        && is_proper_descendant(v, cell@, stack@[k]@) by {
                        assert(stack@[k] == st0[k]);
                    }
                }
            }
        }
        proof {
            assert forall|d: u32| #[trigger] cell_set(res@).contains(d) <==> v.circuits.contains_key(d)
                && is_proper_descendant(v, cell@, d) && !flat_is_flattened(v, d) by {
                if v.circuits.contains_key(d) && is_proper_descendant(v, cell@, d) && !visited@.contains(d) {
                    let t = choose|t: u32| #[trigger] v.circuits[cell@].dependencies.contains_key(t)
                        && is_ancestor_or_self(v.circuits, t, d);
                    let u = Set::new(|x: u32| !visited@.contains(x));
                    assert(upward_closed(v.circuits, u)) by {
                        assert forall|x: u32, p: u32| #[trigger] u.contains(x) && v.circuits.contains_key(x)
                            && #[trigger] v.circuits[x].dependent_circuits.contains_key(p) implies u.contains(p) by {
                            if visited@.contains(p) {
                                crate::chip::lemma_dependency_iff(v, p, x);
                            }
                        }
                    }
                    assert(u.contains(d));
                    assert(!u.contains(t));
                }
            }
        }
        res
    }

    /// Get the cells of the flat view above `cell` (top level cells that
    /// instantiate `cell`, directly or through other cells), each once, in no particular order.
    #[verifier::spinoff_prover]
    pub fn each_dependent_cell_vec(&self, cell: &CellId) -> (res: Vec<CellId>)
        requires
            self.wf(),
            self.base_view().circuits.contains_key(cell@),
        ensures
            cell_ids_view(res@).no_duplicates(),
            forall|a: u32| #[trigger] cell_set(res@).contains(a) <==> self.base_view().circuits.contains_key(a)
                && is_proper_ancestor(self.base_view(), cell@, a) && !flat_is_flattened(self.base_view(), a),
    {
        let ghost v = self.base_view();
        let ghost dom = v.circuits.dom();
        proof {
            assert(v.inv());
        }
        let mut visited: HashSet<u32> = HashSet::new();
        let mut stack: Vec<CellId> = self.base.each_dependent_cell_vec(cell);
        let mut res: Vec<CellId> = Vec::new();
        proof {
            assert forall|k: int| 0 <= k < stack@.len() implies dom.contains(#[trigger] stack@[k]@)
                && is_proper_ancestor(v, cell@, stack@[k]@) && v.circuits[stack@[k]@].instances.len() > 0 by {
                assert(cell_ids_view(stack@)[k] == stack@[k]@);
                assert(cell_ids_view(stack@).to_set().contains(stack@[k]@));
                crate::chip::lemma_dependent_exists(v, cell@, stack@[k]@);
                crate::chip::lemma_dependency_iff(v, stack@[k]@, cell@);
                crate::chip::lemma_ancestor_refl(v.circuits, stack@[k]@);
            }
            assert forall|p: u32| #[trigger] v.circuits[cell@].dependent_circuits.contains_key(p) implies cell_set(stack@).contains(p) by {
                assert(v.circuits[cell@].dependent_circuits.dom().contains(p));
            }
            assert(cell_set(res@) =~= Set::<u32>::empty());
        }
        while stack.len() > 0
            invariant
                self.wf(),
                v == self.base_view(),
                v.inv(),
                dom == v.circuits.dom(),
                dom.finite(),
                v.circuits.contains_key(cell@),
                visited@.subset_of(dom),
                forall|x: u32| #[trigger] visited@.contains(x) ==> is_proper_ancestor(v, cell@, x)
                    && v.circuits[x].instances.len() > 0,
                forall|k: int| 0 <= k < stack@.len() ==> dom.contains(#[trigger] stack@[k]@)
                    && is_proper_ancestor(v, cell@, stack@[k]@) && v.circuits[stack@[k]@].instances.len() > 0,
                forall|x: u32, y: u32| #[trigger] visited@.contains(x) && flat_is_flattened(v, x)
                    && #[trigger] v.circuits[x].dependent_circuits.contains_key(y)
                    ==> visited@.contains(y) || cell_set(stack@).contains(y),
                forall|p: u32| #[trigger] v.circuits[cell@].dependent_circuits.contains_key(p)
                    ==> visited@.contains(p) || cell_set(stack@).contains(p),
                cell_ids_view(res@).no_duplicates(),
                forall|x: u32| #[trigger] cell_set(res@).contains(x) <==> visited@.contains(x) && !flat_is_flattened(v, x),
            decreases dom.difference(visited@).len(), stack@.len(),
        {
            let ghost st0 = stack@;
            let ghost vis0 = visited@;
            let d = stack.pop().unwrap();
            proof {
                assert(st0 =~= stack@.push(d));
                assert(st0[st0.len() - 1] == d);
                assert forall|x: u32| cell_set(st0).contains(x) implies cell_set(stack@).contains(x) || x == d@ by {
                    let j = choose|j: int| 0 <= j < st0.len() && cell_ids_view(st0)[j] == x;
                    if j < stack@.len() {
                        assert(cell_ids_view(stack@)[j] == x);
                    }
                }
            }
            let ghost res0 = res@;
            if !visited.contains(&d.to_u32()) {
                visited.insert(d.to_u32());
                let ghost st1 = stack@;
                let exists = self.cell_exists_in_flat_view(&d);
                let ghost deps_v: Seq<CellId> = Seq::empty();
                if exists {
                    res.push(d);
                } else {
                    let deps = self.base.each_dependent_cell_vec(&d);
                    push_cells(&mut stack, &deps);
                    proof {
                        deps_v = deps@;
                    }
                }
                proof {
                    assert(stack@ == st1 + deps_v);
                    assert(!exists ==> cell_ids_view(deps_v).to_set() == v.circuits[d@].dependent_circuits.dom());
                    assert(dom.difference(visited@) =~= dom.difference(vis0).remove(d@));
                    assert(dom.difference(vis0).contains(d@));
                    assert(dom.difference(vis0).finite()) by {
                        vstd::set_lib::lemma_set_subset_finite(dom, dom.difference(vis0));
                    }
                    assert forall|k: int| 0 <= k < stack@.len() implies dom.contains(#[trigger] stack@[k]@)
                        && is_proper_ancestor(v, cell@, stack@[k]@) && v.circuits[stack@[k]@].instances.len() > 0 by {
                        if k < st1.len() {
                            assert(stack@[k] == st0[k]);
                        } else {
                            let y = stack@[k]@;
                            assert(stack@[k] == deps_v[k - st1.len()]);
                            assert(cell_ids_view(deps_v)[k - st1.len()] == y);
                            assert(cell_ids_view(deps_v).to_set().contains(y));
                            crate::chip::lemma_dependent_exists(v, d@, y);
                            crate::chip::lemma_dependency_iff(v, y, d@);
                            crate::chip::lemma_ancestor_edge(v.circuits, d@, y);
                            let p = choose|p: u32| #[trigger] v.circuits[cell@].dependent_circuits.contains_key(p)
                                && is_ancestor_or_self(v.circuits, d@, p);
                            crate::chip::lemma_ancestor_trans(v.circuits, y, d@, p);
                        }
                    }
                    assert forall|x: u32| cell_set(st1).contains(x) implies cell_set(stack@).contains(x) by {
                        let j = choose|j: int| 0 <= j < st1.len() && cell_ids_view(st1)[j] == x;
                        assert(cell_ids_view(stack@)[j] == x);
                    }
                    assert forall|x: u32, y: u32| #[trigger] visited@.contains(x) && flat_is_flattened(v, x)
                        && #[trigger] v.circuits[x].dependent_circuits.contains_key(y)
                        implies visited@.contains(y) || cell_set(stack@).contains(y) by {
                        if x == d@ {
                            assert(cell_ids_view(deps_v).to_set().contains(y)) by {
                                assert(v.circuits[d@].dependent_circuits.dom().contains(y));
                            }
                            let j = choose|j: int| 0 <= j < deps_v.len() && cell_ids_view(deps_v)[j] == y;
                            assert(cell_ids_view(stack@)[st1.len() + j] == y);
                        } else {
                            assert(vis0.contains(x));
                        }
                    }
                    assert forall|x: u32| #[trigger] cell_set(res@).contains(x) <==> visited@.contains(x) && !flat_is_flattened(v, x) by {
                        if exists {
                            assert(cell_ids_view(res@) =~= cell_ids_view(res0).push(d@));
                            if cell_set(res@).contains(x) && x != d@ {
                                let j = choose|j: int| 0 <= j < res@.len() && cell_ids_view(res@)[j] == x;
                                assert(cell_ids_view(res0)[j] == x);
                                assert(cell_set(res0).contains(x));
                            }
                            if x == d@ {
                                assert(cell_ids_view(res@)[res@.len() - 1] == x);
                            }
                            if vis0.contains(x) && !flat_is_flattened(v, x) {
                                assert(cell_set(res0).contains(x));
                                let j = choose|j: int| 0 <= j < res0.len() && cell_ids_view(res0)[j] == x;
                                assert(cell_ids_view(res@)[j] == x);
                            }
                        } else {
                            assert(res@ == res0);
                        }
                    }
                    if exists {
                        assert(!cell_set(res0).contains(d@));
                        assert forall|a: int, b: int| 0 <= a < res@.len() && 0 <= b < res@.len() && a != b
                            implies cell_ids_view(res@)[a] != cell_ids_view(res@)[b] by {
                            let r0 = cell_ids_view(res0);
                            if a < res@.len() - 1 && b < res@.len() - 1 {
                                assert(cell_ids_view(res@)[a] == r0[a] && cell_ids_view(res@)[b] == r0[b]);
                            } else if a == res@.len() - 1 {
                                assert(cell_ids_view(res@)[b] == r0[b]);
                                assert(r0.to_set().contains(r0[b]));
                            } else {
                                assert(cell_ids_view(res@)[a] == r0[a]);
                                assert(r0.to_set().contains(r0[a]));
                            }
                        }
                    }
                }
            } else {
                proof {
                    assert forall|k: int| 0 <= k < stack@.len() implies dom.contains(#[trigger] stack@[k]@)
                        && is_proper_ancestor(v, cell@, stack@[k]@) && v.circuits[stack@[k]@].instances.len() > 0 by {
                        assert(stack@[k] == st0[k]);
                    }
                }
            }
        }
        proof {
            assert forall|a: u32| #[trigger] cell_set(res@).contains(a) <==> v.circuits.contains_key(a)
                && is_proper_ancestor(v, cell@, a) && !flat_is_flattened(v, a) by {
                if v.circuits.contains_key(a) && is_proper_ancestor(v, cell@, a) && !visited@.contains(a) {
                    let p = choose|p: u32| #[trigger] v.circuits[cell@].dependent_circuits.contains_key(p)
                        && is_ancestor_or_self(v.circuits, a, p);
                    let s = visited@;
                    assert(upward_closed(v.circuits, s)) by {
                        assert forall|x: u32, q: u32| #[trigger] s.contains(x) && v.circuits.contains_key(x)
                            && #[trigger] v.circuits[x].dependent_circuits.contains_key(q) implies s.contains(q) by {
                            if !flat_is_flattened(v, x) {
                                lemma_dependents_finite(v, x);
                                assert(v.circuits[x].dependent_circuits.dom().contains(q));
                                v.circuits[x].dependent_circuits.dom().lemma_len0_is_empty();
                            }
                        }
                    }
                    assert(s.contains(p));
                }
            }
        }
        res
    }
}

/// `sep` occurs in `s` at position `i`.
pub open spec fn occurs_at(s: Seq<char>, sep: Seq<char>, i: int) -> bool {
    0 <= i && i + sep.len() <= s.len() && s.subrange(i, i + sep.len()) == sep
}

/// The first position at or after `from` where the non-empty `sep` occurs in `s`, or -1.
pub open spec fn find_from(s: Seq<char>, sep: Seq<char>, from: int) -> int
    decreases s.len() + 1 - from,
{
    if from < 0 || from + sep.len() > s.len() {
        -1
    } else if occurs_at(s, sep, from) {
        from
    } else {
        find_from(s, sep, from + 1)
    }
}

/// `find_from` finds the first occurrence.
pub proof fn lemma_find_from(s: Seq<char>, sep: Seq<char>, from: int)
    requires
        0 <= from,
    ensures
        find_from(s, sep, from) == -1 || (from <= find_from(s, sep, from) && occurs_at(s, sep, find_from(s, sep, from))),
        find_from(s, sep, from) == -1 ==> forall|j: int| from <= j ==> !occurs_at(s, sep, j),
        find_from(s, sep, from) != -1 ==> forall|j: int| from <= j < find_from(s, sep, from) ==> !occurs_at(s, sep, j),
    decreases s.len() + 1 - from,
{
    if from + sep.len() > s.len() {
    } else if occurs_at(s, sep, from) {
    } else {
        lemma_find_from(s, sep, from + 1);
    }
}

/// If `sep` does not occur before `k` but occurs at `k`, the first occurrence is at `k`.
proof fn lemma_find_from_first(s: Seq<char>, sep: Seq<char>, k: int)
    requires
        0 <= k,
        occurs_at(s, sep, k),
        forall|j: int| 0 <= j < k ==> !occurs_at(s, sep, j),
    ensures
        find_from(s, sep, 0) == k,
{
    lemma_find_from(s, sep, 0);
    let f = find_from(s, sep, 0);
    if f == -1 {
        assert(!occurs_at(s, sep, k));
    } else if f < k {
        assert(!occurs_at(s, sep, f));
    } else if f > k {
        assert(!occurs_at(s, sep, k));
    }
}

/// The pieces of `s` between the occurrences of `sep`, as `str::split` gives them.
pub open spec fn split_by(s: Seq<char>, sep: Seq<char>) -> Seq<Seq<char>>
    decreases s.len(),
{
    if sep.len() == 0 {
        Seq::new((s.len() + 2) as nat, |k: int| if k == 0 || k == s.len() + 1 { Seq::<char>::empty() } else { seq![s[k - 1]] })
    } else {
        let i = find_from(s, sep, 0);
        if i < 0 {
            seq![s]
        } else {
            proof {
                lemma_find_from(s, sep, 0);
            }
            seq![s.subrange(0, i)] + split_by(s.subrange(i + sep.len(), s.len() as int), sep)
        }
    }
}

/// The integer values of a sequence of strings.
pub open spec fn strings_view(s: Seq<String>) -> Seq<Seq<char>> {
    s.map_values(|x: String| x@)
}

/// The characters of a string.
fn chars_of(s: &str) -> (res: Vec<char>)
    ensures
        res@ == s@,
{
    let n = s.unicode_len();
    let mut res: Vec<char> = Vec::new();
    let mut k: usize = 0;
    while k < n
        invariant
            n == s@.len(),
            k <= n,
            res@ == s@.subrange(0, k as int),
        decreases n - k,
    {
        res.push(s.get_char(k));
        k = k + 1;
        assert(res@ =~= s@.subrange(0, k as int));
    }
    assert(s@.subrange(0, n as int) =~= s@);
    res
}

/// Check whether `sep` occurs in `s` at position `i`.
fn matches_at(s: &Vec<char>, sep: &Vec<char>, i: usize) -> (res: bool)
    requires
        i + sep@.len() <= s.len(),
    ensures
        res == occurs_at(s@, sep@, i as int),
{
    let mut k: usize = 0;
    while k < sep.len()
        invariant
            i + sep@.len() <= s.len(),
            k <= sep@.len(),
            forall|j: int| 0 <= j < k ==> s@[i + j] == sep@[j],
        decreases sep@.len() - k,
    {
        if s[i + k] != sep[k] {
            assert(s@.subrange(i as int, i + sep@.len())[k as int] != sep@[k as int]);
            return false;
        }
        k = k + 1;
    }
    assert(s@.subrange(i as int, i + sep@.len()) =~= sep@);
    true
}

/// Split `s` at the occurrences of `sep`, like `str::split`.
fn split_path(s: &str, sep: &str) -> (res: Vec<String>)
    ensures
        strings_view(res@) == split_by(s@, sep@),
{
    let sc = chars_of(s);
    let pc = chars_of(sep);
    let n = sc.len();
    let m = pc.len();
    let mut res: Vec<String> = Vec::new();
    if m == 0 {
        res.push(String::new());
        proof {
            assert(sep@.len() == 0);
            assert(strings_view(res@) =~= split_by(s@, sep@).subrange(0, 1));
        }
        let mut k: usize = 0;
        while k < n
            invariant
                n == s@.len(),
                sep@.len() == 0,
                split_by(s@, sep@).len() == n + 2,
                k <= n,
                strings_view(res@) == split_by(s@, sep@).subrange(0, k + 1),
            decreases n - k,
        {
            let ghost r0 = strings_view(res@);
            res.push(s.substring_char(k, k + 1).to_owned());
            proof {
                let sp = split_by(s@, sep@);
                assert(s@.subrange(k as int, k + 1) =~= seq![s@[k as int]]);
                assert(sp[k + 1] == seq![s@[k as int]]);
                assert(strings_view(res@) =~= r0.push(seq![s@[k as int]]));
                assert(sp.subrange(0, k + 2) =~= sp.subrange(0, k + 1).push(sp[k + 1]));
            }
            k = k + 1;
        }
        let ghost r1 = strings_view(res@);
        res.push(String::new());
        proof {
            let sp = split_by(s@, sep@);
            assert(sp[n + 1] == Seq::<char>::empty());
            assert(strings_view(res@) =~= r1.push(Seq::<char>::empty()));
            assert(sp =~= sp.subrange(0, n + 1).push(sp[n + 1]));
        }
        return res;
    }
    let mut start: usize = 0;
    let mut i: usize = 0;
    proof {
        assert(s@.subrange(0, n as int) =~= s@);
    }
    while m <= n - i
        invariant
            n == s@.len(),
            m == sep@.len(),
            m > 0,
            sc@ == s@,
            pc@ == sep@,
            start <= i,
            i <= n,
            split_by(s@, sep@) == strings_view(res@) + split_by(s@.subrange(start as int, n as int), sep@),
            forall|j: int| start <= j < i ==> !occurs_at(s@, sep@, j),
        decreases n - i, n - start,
    {
        let ghost t = s@.subrange(start as int, n as int);
        if matches_at(&sc, &pc, i) {
            proof {
                assert forall|j: int| 0 <= j < i - start implies !occurs_at(t, sep@, j) by {
                    assert(!occurs_at(s@, sep@, start + j));
                    assert(t.subrange(j, j + m) =~= s@.subrange(start + j, start + j + m));
                }
                assert(t.subrange(i - start, i - start + m) =~= s@.subrange(i as int, i + m));
                lemma_find_from_first(t, sep@, i - start);
                assert(t.subrange(0, i - start) =~= s@.subrange(start as int, i as int));
                assert(t.subrange(i - start + m, t.len() as int) =~= s@.subrange(i + m, n as int));
            }
            res.push(s.substring_char(start, i).to_owned());
            start = i + m;
            i = start;
            assert(split_by(s@, sep@) =~= strings_view(res@) + split_by(s@.subrange(start as int, n as int), sep@));
        } else {
            i = i + 1;
        }
    }
    proof {
        let t = s@.subrange(start as int, n as int);
        assert forall|j: int| 0 <= j implies !occurs_at(t, sep@, j) by {
            if occurs_at(t, sep@, j) {
                assert(start + j < i);
                assert(t.subrange(j, j + m) =~= s@.subrange(start + j, start + j + m));
                assert(occurs_at(s@, sep@, start + j));
                assert(!occurs_at(s@, sep@, start + j));
            }
        }
        lemma_find_from(t, sep@, 0);
        assert(find_from(t, sep@, 0) == -1);
    }
    res.push(s.substring_char(start, n).to_owned());
    assert(strings_view(res@) =~= split_by(s@, sep@));
    res
}

/// The instances reached by following the names `names` down from `cell`, or
/// `None` if one of them is not found.
pub open spec fn resolve_path(v: ChipView, cell: u32, names: Seq<Seq<char>>) -> Option<Seq<usize>>
    decreases names.len(),
{
    if names.len() == 0 {
        Some(Seq::empty())
    } else if v.circuits[cell].instances_by_name.contains_key(names[0]) {
        let i = v.circuits[cell].instances_by_name[names[0]];
        match resolve_path(v, v.instances[i].template, names.drop_first()) {
            Some(rest) => Some(seq![i] + rest),
            None => None,
        }
    } else {
        None
    }
}

impl<'a> FlatView<'a> {
    /// Find an instance of the flat view by its name: the names of the path
    /// elements joined by the separator. Returns `None` if no such path exists.
    pub fn cell_instance_by_name(&self, parent_cell: &CellId, name: &str) -> (res: Option<Vec<CellInstId>>)
        requires
            self.wf(),
            self.base_view().circuits.contains_key(parent_cell@),
        ensures
            match resolve_path(self.base_view(), parent_cell@, split_by(name@, self.separator())) {
                Some(p) => if p.len() > 0 && flat_is_leaf(self.base_view(), self.base_view().instances[p.last()].template) {
                    res matches Some(r) && inst_ids_view(r@) == p
                } else {
                    res is None
                },
                None => res is None,
            },
    {
        let ghost v = self.base_view();
        let path = split_path(name, self.path_separator.as_str());
        let ghost names = strings_view(path@);
        let mut parent = *parent_cell;
        let mut current: Vec<CellInstId> = Vec::new();
        let mut k: usize = 0;
        proof {
            assert(v.inv());
            assert(names.subrange(0, 0) =~= Seq::<Seq<char>>::empty());
            assert(names.skip(0) =~= names);
        }
        while k < path.len()
            invariant
                self.wf(),
                v == self.base_view(),
                v.inv(),
                names == strings_view(path@),
                names == split_by(name@, self.separator()),
                k <= names.len(),
                v.circuits.contains_key(parent@),
                resolve_path(v, parent_cell@, names) == match resolve_path(v, parent@, names.skip(k as int)) {
                    Some(rest) => Some(inst_ids_view(current@) + rest),
                    None => None::<Seq<usize>>,
                },
                current@.len() == k,
                k > 0 ==> parent@ == v.instances[current@[k - 1]@].template,
            decreases names.len() - k,
        {
            let ghost rest_names = names.skip(k as int);
            proof {
                assert(rest_names[0] == path@[k as int]@);
                assert(rest_names.drop_first() =~= names.skip(k + 1));
            }
            match self.base.cell_instance_by_name(&parent, path[k].as_str()) {
                Some(inst) => {
                    proof {
                        assert(v.circuits[parent@].instances_by_name.contains_key(rest_names[0]));
                        assert(v.instances.contains_key(inst@));
                        crate::chip::lemma_instance_edge(v, inst@);
                    }
                    parent = self.base.template_cell(&inst);
                    current.push(inst);
                    proof {
                        let ghost cur0 = inst_ids_view(current@.drop_last());
                        assert(inst_ids_view(current@) =~= inst_ids_view(current@.drop_last()).push(inst@));
                        match resolve_path(v, parent@, names.skip(k + 1)) {
                            Some(r) => {
                                assert(inst_ids_view(current@.drop_last()) + (seq![inst@] + r)
                                    =~= inst_ids_view(current@) + r);
                            },
                            None => {},
                        }
                    }
                },
                None => {
                    proof {
                        assert(rest_names.len() > 0);
                        assert(resolve_path(v, parent@, rest_names) is None);
                        assert(names == split_by(name@, self.separator()));
                        assert(resolve_path(v, parent_cell@, names) is None);
                    }
                    return None;
                },
            }
            k = k + 1;
        }
        proof {
            assert(names.skip(k as int) =~= Seq::<Seq<char>>::empty());
            assert(inst_ids_view(current@) + Seq::<usize>::empty() =~= inst_ids_view(current@));
        }
        // The flat view holds only the paths down to leaf cells.
        if current.len() == 0 || self.base.num_child_instances(&parent) != 0 {
            None
        } else {
            proof {
                assert(inst_ids_view(current@).last() == current@[k - 1]@);
            }
            Some(current)
        }
    }
}


/// The separator occurs neither inside the name `n` nor across its end, where
/// the separator that follows it in a joined name would complete it.
pub open spec fn name_fits_separator(n: Seq<char>, sep: Seq<char>) -> bool {
    forall|j: int| 0 <= j < n.len() ==> !occurs_at(n + sep, sep, j)
}

/// A joined name of two or more parts is its first part, the separator and the
/// rest joined.
proof fn lemma_join_names_front(names: Seq<Seq<char>>, sep: Seq<char>)
    requires
        names.len() >= 2,
    ensures
        join_names(names, sep) == names[0] + sep + join_names(names.drop_first(), sep),
    decreases names.len(),
{
    if names.len() == 2 {
        assert(names.drop_last().len() == 1);
        assert(names.drop_first().len() == 1);
        assert(join_names(names.drop_last(), sep) == names[0]);
        assert(join_names(names.drop_first(), sep) == names[1]);
    } else {
        lemma_join_names_front(names.drop_last(), sep);
        assert(names.drop_last().drop_first() =~= names.drop_first().drop_last());
        assert(names.drop_last()[0] == names[0]);
        assert(names.drop_first().last() == names.last());
        assert(join_names(names, sep) =~= names[0] + sep + join_names(names.drop_first(), sep));
    }
}

/// Splitting a joined name gives back its parts, when each part fits the separator.
proof fn lemma_split_join(names: Seq<Seq<char>>, sep: Seq<char>)
    requires
        sep.len() > 0,
        names.len() >= 1,
        forall|k: int| 0 <= k < names.len() ==> name_fits_separator(#[trigger] names[k], sep),
    ensures
        split_by(join_names(names, sep), sep) == names,
    decreases names.len(),
{
    let n = names[0];
    assert(name_fits_separator(n, sep));
    if names.len() == 1 {
        assert(join_names(names, sep) == n);
        lemma_find_from(n, sep, 0);
        let f = find_from(n, sep, 0);
        if f != -1 {
            assert(occurs_at(n, sep, f));
            assert((n + sep).subrange(f, f + sep.len()) =~= n.subrange(f, f + sep.len()));
            assert(occurs_at(n + sep, sep, f));
        }
        assert(split_by(n, sep) =~= seq![n]);
        assert(names =~= seq![n]);
    } else {
        let rest = names.drop_first();
        lemma_join_names_front(names, sep);
        let jr = join_names(rest, sep);
        let s = n + sep + jr;
        assert forall|j: int| 0 <= j < n.len() implies !occurs_at(s, sep, j) by {
            if occurs_at(s, sep, j) {
                assert(s.subrange(j, j + sep.len()) =~= (n + sep).subrange(j, j + sep.len()));
                assert(occurs_at(n + sep, sep, j));
            }
        }
        assert(s.subrange(n.len() as int, (n.len() + sep.len()) as int) =~= sep);
        assert(occurs_at(s, sep, n.len() as int));
        lemma_find_from(s, sep, 0);
        let f = find_from(s, sep, 0);
        assert(f == n.len()) by {
            if f == -1 {
                assert(!occurs_at(s, sep, n.len() as int));
            } else if f < n.len() {
                assert(!occurs_at(s, sep, f));
            } else if f > n.len() {
                assert(!occurs_at(s, sep, n.len() as int));
            }
        }
        assert(s.subrange(0, f) =~= n);
        assert(s.subrange(f + sep.len(), s.len() as int) =~= jr);
        assert forall|k: int| 0 <= k < rest.len() implies name_fits_separator(#[trigger] rest[k], sep) by {
            assert(rest[k] == names[k + 1]);
        }
        lemma_split_join(rest, sep);
        assert(split_by(s, sep) == seq![n] + split_by(jr, sep));
        assert(seq![n] + rest =~= names);
    }
}

/// The names of a path, where each instance has one, are the names of its
/// instances in order.
proof fn lemma_path_names_index(v: ChipView, path: Seq<usize>)
    requires
        path_names(v, path) is Some,
    ensures
        path_names(v, path)->Some_0.len() == path.len(),
        forall|k: int| 0 <= k < path.len() ==> v.instances[#[trigger] path[k]].name
            == Some(path_names(v, path)->Some_0[k]),
    decreases path.len(),
{
    if path.len() > 0 {
        let pre = path.drop_last();
        lemma_path_names_index(v, pre);
        assert forall|k: int| 0 <= k < path.len() implies v.instances[#[trigger] path[k]].name
            == Some(path_names(v, path)->Some_0[k]) by {
            if k < path.len() - 1 {
                assert(pre[k] == path[k]);
            }
        }
    }
}

/// Following the names of a chain down from the cell of its first instance
/// finds the chain again.
proof fn lemma_resolve_chain(v: ChipView, cell: u32, path: Seq<usize>, names: Seq<Seq<char>>)
    requires
        v.inv(),
        is_chain(v, path),
        path.len() > 0 ==> v.instances[path[0]].parent == cell,
        names.len() == path.len(),
        forall|k: int| 0 <= k < path.len() ==> v.instances[#[trigger] path[k]].name == Some(names[k]),
    ensures
        resolve_path(v, cell, names) == Some(path),
    decreases path.len(),
{
    if path.len() > 0 {
        let i = path[0];
        assert(v.instances.contains_key(i));
        assert(v.instances[i].name == Some(names[0]));
        assert(v.circuits[cell].instances_by_name.contains_key(names[0]));
        assert(v.circuits[cell].instances_by_name[names[0]] == i);
        let rest = path.drop_first();
        assert forall|k: int| 0 < k < rest.len() implies v.instances[#[trigger] rest[k]].parent
            == v.instances[rest[k - 1]].template by {
            assert(rest[k] == path[k + 1]);
            assert(v.instances[path[k + 1]].parent == v.instances[path[k]].template);
        }
        assert forall|k: int| 0 <= k < rest.len() implies v.instances.contains_key(#[trigger] rest[k]) by {
            assert(rest[k] == path[k + 1]);
        }
        if rest.len() > 0 {
            assert(v.instances[path[1]].parent == v.instances[path[0]].template);
        }
        assert forall|k: int| 0 <= k < rest.len() implies v.instances[#[trigger] rest[k]].name
            == Some(names.drop_first()[k]) by {
            assert(rest[k] == path[k + 1]);
        }
        lemma_resolve_chain(v, v.instances[i].template, rest, names.drop_first());
        assert(seq![i] + rest =~= path);
    }
}

/// Looking up the name of an instance of the flat view finds that instance:
/// for a path down to a leaf cell whose instances all have names, and each
/// name fits the separator, the name of the path splits into the names that
/// lead back to the path.
pub proof fn law_instance_name_round_trip(v: ChipView, sep: Seq<char>, cell: u32, path: Seq<usize>)
    requires
        v.inv(),
        sep.len() > 0,
        is_leaf_path(v, cell, path),
        path_names(v, path) is Some,
        forall|k: int| 0 <= k < path.len() ==> name_fits_separator(#[trigger] path_names(v, path)->Some_0[k], sep),
    ensures
        resolve_path(v, cell, split_by(join_names(path_names(v, path)->Some_0, sep), sep)) == Some(path),
{
    let names = path_names(v, path)->Some_0;
    lemma_path_names_index(v, path);
    lemma_split_join(names, sep);
    lemma_resolve_chain(v, cell, path, names);
}


/// Following names down from `cell` finds a chain from an instance in `cell`
/// whose instances carry those names.
proof fn lemma_resolved_path_is_chain(v: ChipView, cell: u32, names: Seq<Seq<char>>, path: Seq<usize>)
    requires
        v.inv(),
        v.circuits.contains_key(cell),
        resolve_path(v, cell, names) == Some(path),
    ensures
        path.len() == names.len(),
        is_chain(v, path),
        path.len() > 0 ==> v.instances[path[0]].parent == cell,
        forall|k: int| 0 <= k < path.len() ==> v.instances[#[trigger] path[k]].name == Some(names[k]),
    decreases names.len(),
{
    if names.len() > 0 {
        let i = v.circuits[cell].instances_by_name[names[0]];
        assert(v.instances.contains_key(i) && v.instances[i].parent == cell && v.instances[i].name == Some(names[0]));
        let t = v.instances[i].template;
        let rest = resolve_path(v, t, names.drop_first())->Some_0;
        lemma_resolved_path_is_chain(v, t, names.drop_first(), rest);
        assert(path == seq![i] + rest);
        assert forall|k: int| 0 <= k < path.len() implies v.instances.contains_key(#[trigger] path[k]) by {
            if k > 0 {
                assert(path[k] == rest[k - 1]);
            }
        }
        assert forall|k: int| 0 < k < path.len() implies v.instances[#[trigger] path[k]].parent == v.instances[path[k - 1]].template by {
            assert(path[k] == rest[k - 1]);
            if k > 1 {
                assert(path[k - 1] == rest[k - 2]);
            }
        }
        assert forall|k: int| 0 <= k < path.len() implies v.instances[#[trigger] path[k]].name == Some(names[k]) by {
            if k > 0 {
                assert(path[k] == rest[k - 1]);
                assert(names.drop_first()[k - 1] == names[k]);
            }
        }
    }
}

/// Looking up a joined name in the flat view: for names that each fit the
/// separator, the lookup that `cell_instance_by_name` makes finds a path
/// exactly when the path is a chain down from an instance of `cell` whose
/// instances carry the names in order; that path is the one found.
pub proof fn law_instance_by_name_iff_chain(v: ChipView, sep: Seq<char>, cell: u32, names: Seq<Seq<char>>, path: Seq<usize>)
    requires
        v.inv(),
        v.circuits.contains_key(cell),
        sep.len() > 0,
        names.len() >= 1,
        forall|k: int| 0 <= k < names.len() ==> name_fits_separator(#[trigger] names[k], sep),
    ensures
        resolve_path(v, cell, split_by(join_names(names, sep), sep)) == Some(path) <==> {
            &&& path.len() == names.len()
            &&& is_chain(v, path)
            &&& v.instances[path[0]].parent == cell
            &&& forall|k: int| 0 <= k < path.len() ==> v.instances[#[trigger] path[k]].name == Some(names[k])
        },
{
    lemma_split_join(names, sep);
    if resolve_path(v, cell, names) == Some(path) {
        lemma_resolved_path_is_chain(v, cell, names, path);
    }
    if path.len() == names.len() && is_chain(v, path) && v.instances[path[0]].parent == cell
        && forall|k: int| 0 <= k < path.len() ==> v.instances[#[trigger] path[k]].name == Some(names[k]) {
        lemma_resolve_chain(v, cell, path, names);
    }
}

} // verus!
