//! A human readable text of a netlist: one block per cell with its pins and
//! the nets they are connected to, followed by a line per child instance.

use vstd::prelude::*;
use crate::chip::{cell_ids_view, inst_ids_view, opt_net, pin_ids_view, pin_inst_ids_view};
use crate::chip::{CellId, CellInstId, Chip, ChipView, NetId};

verus! {

/// The debug form of a string: in double quotes, with the escapes that Rust's
/// `Debug` uses for `str`.
pub uninterp spec fn debug_text(s: Seq<char>) -> Seq<char>;

/// `format!("{:?}", s)`, the debug form of a string: its result is named
/// `debug_text`, a function of the characters alone.
#[verifier::external_body]
fn debug_string(s: &str) -> (res: String)
    ensures
        res@ == debug_text(s@),
{
    format!("{:?}", s)
}

/// A name, or "<unnamed>" where there is none.
pub open spec fn name_or_unnamed(n: Option<Seq<char>>) -> Seq<char> {
    match n {
        Some(s) => s,
        None => "<unnamed>"@,
    }
}

/// How a connection to net `n` shows: `Some("name")` or `None`.
pub open spec fn net_text(v: ChipView, n: Option<usize>) -> Seq<char> {
    match n {
        Some(x) => "Some("@ + debug_text(name_or_unnamed(v.nets[x].name)) + ")"@,
        None => "None"@,
    }
}

/// A pin with its net: "name=net".
pub open spec fn pin_text(v: ChipView, p: u32) -> Seq<char> {
    v.pins[p].name + "="@ + net_text(v, v.pins[p].net)
}

/// A pin instance with its net: "pin name=net".
pub open spec fn pin_inst_text(v: ChipView, q: usize) -> Seq<char> {
    v.pins[v.pin_insts[q].template_pin].name + "="@ + net_text(v, v.pin_insts[q].net)
}

/// The texts of the pins `ps`, separated by single spaces.
pub open spec fn joined_pins(v: ChipView, ps: Seq<u32>) -> Seq<char>
    decreases ps.len(),
{
    if ps.len() == 0 {
        Seq::empty()
    } else if ps.len() == 1 {
        pin_text(v, ps[0])
    } else {
        joined_pins(v, ps.drop_last()) + " "@ + pin_text(v, ps.last())
    }
}

/// The texts of the pin instances `qs`, separated by single spaces.
pub open spec fn joined_pin_insts(v: ChipView, qs: Seq<usize>) -> Seq<char>
    decreases qs.len(),
{
    if qs.len() == 0 {
        Seq::empty()
    } else if qs.len() == 1 {
        pin_inst_text(v, qs[0])
    } else {
        joined_pin_insts(v, qs.drop_last()) + " "@ + pin_inst_text(v, qs.last())
    }
}

/// The line of a child instance: its name, its template and its connections.
pub open spec fn instance_line(v: ChipView, i: usize) -> Seq<char> {
    "    X"@ + name_or_unnamed(v.instances[i].name) + " "@ + v.circuits[v.instances[i].template].name + " "@
        + joined_pin_insts(v, v.instances[i].pins) + "\n"@
}

/// The lines of the child instances `is`, in this order.
pub open spec fn instance_lines(v: ChipView, is: Seq<usize>) -> Seq<char>
    decreases is.len(),
{
    if is.len() == 0 {
        Seq::empty()
    } else {
        instance_lines(v, is.drop_last()) + instance_line(v, is.last())
    }
}

/// The block of cell `c` with its child instances listed in the order `is`.
pub open spec fn cell_block(v: ChipView, c: u32, is: Seq<usize>) -> Seq<char> {
    ".subckt "@ + v.circuits[c].name + " "@ + joined_pins(v, v.circuits[c].pins) + "\n"@
        + instance_lines(v, is) + ".ends "@ + v.circuits[c].name + "\n\n"@
}

/// The blocks of the cells `cs`, in this order, each listing the child
/// instances of its cell in the order that `order` gives.
pub open spec fn netlist_text(v: ChipView, cs: Seq<u32>, order: Map<u32, Seq<usize>>) -> Seq<char>
    decreases cs.len(),
{
    if cs.len() == 0 {
        Seq::empty()
    } else {
        netlist_text(v, cs.drop_last(), order) + cell_block(v, cs.last(), order[cs.last()])
    }
}

/// Every pin instance of a live instance has its template pin.
pub open spec fn templates_present(v: ChipView) -> bool {
    forall|i: usize, k: int| #[trigger] v.instances.contains_key(i) && 0 <= k < v.instances[i].pins.len()
        ==> v.pins.contains_key(#[trigger] v.pin_insts[v.instances[i].pins[k]].template_pin)
}

impl Chip {
    /// The text of a connection to the net `n`.
    fn net_text_of(&self, n: Option<NetId>) -> (res: String)
        requires
            n matches Some(x) ==> self@.nets.contains_key(x@),
        ensures
            res@ == net_text(self@, opt_net(n)),
    {
        match n {
            Some(x) => {
                let name = match self.net_name(&x) {
                    Some(s) => s,
                    None => "<unnamed>".to_owned(),
                };
                let mut r = "Some(".to_owned();
                let d = debug_string(name.as_str());
                r.append(d.as_str());
                r.append(")");
                r
            },
            None => "None".to_owned(),
        }
    }

    /// The pins of cell `c` with their nets, separated by spaces.
    fn pins_text(&self, c: &CellId) -> (res: String)
        requires
            self.wf(),
            self@.circuits.contains_key(c@),
        ensures
            res@ == joined_pins(self@, self@.circuits[c@].pins),
    {
        let pins = self.each_pin_vec(c);
        let ghost pv = pin_ids_view(pins@);
        let mut out = String::new();
        let mut j: usize = 0;
        proof {
            assert(pv.subrange(0, 0) =~= Seq::<u32>::empty());
        }
        while j < pins.len()
            invariant
                self.wf(),
                self@.circuits.contains_key(c@),
                pv == pin_ids_view(pins@),
                pv == self@.circuits[c@].pins,
                j <= pins@.len(),
                out@ == joined_pins(self@, pv.subrange(0, j as int)),
            decreases pins@.len() - j,
        {
            let p = pins[j];
            let ghost before = out@;
            proof {
                assert(pv[j as int] == p@);
                assert(self@.pins.contains_key(p@));
            }
            if j > 0 {
                out.append(" ");
            }
            let name = self.pin_name(&p);
            out.append(name.as_str());
            out.append("=");
            let n = self.net_of_pin(&p);
            proof {
                if let Some(x) = self@.pins[p@].net {
                    assert(self@.nets.contains_key(x));
                }
            }
            let t = self.net_text_of(n);
            out.append(t.as_str());
            proof {
                let s1 = pv.subrange(0, j + 1);
                assert(s1.drop_last() =~= pv.subrange(0, j as int));
                assert(s1.last() == p@);
                if j == 0 {
                    assert(out@ =~= pin_text(self@, p@));
                } else {
                    assert(out@ =~= before + " "@ + pin_text(self@, p@));
                }
            }
            j = j + 1;
        }
        proof {
            assert(pv.subrange(0, j as int) =~= pv);
        }
        out
    }

    /// The line of child instance `i`.
    fn instance_text(&self, i: &CellInstId) -> (res: String)
        requires
            self.wf(),
            templates_present(self@),
            self@.instances.contains_key(i@),
        ensures
            res@ == instance_line(self@, i@),
    {
        let mut out = "    X".to_owned();
        let name = match self.cell_instance_name(i) {
            Some(s) => s,
            None => "<unnamed>".to_owned(),
        };
        out.append(name.as_str());
        out.append(" ");
        let t = self.template_cell(i);
        let tname = self.cell_name(&t);
        out.append(tname.as_str());
        out.append(" ");
        let ghost head = out@;
        let qs = self.each_pin_instance_vec(i);
        let ghost qv = pin_inst_ids_view(qs@);
        let mut list = String::new();
        let mut j: usize = 0;
        proof {
            assert(qv.subrange(0, 0) =~= Seq::<usize>::empty());
        }
        while j < qs.len()
            invariant
                self.wf(),
                templates_present(self@),
                self@.instances.contains_key(i@),
                qv == pin_inst_ids_view(qs@),
                qv == self@.instances[i@].pins,
                j <= qs@.len(),
                list@ == joined_pin_insts(self@, qv.subrange(0, j as int)),
            decreases qs@.len() - j,
        {
            let q = qs[j];
            let ghost before = list@;
            proof {
                assert(qv[j as int] == q@);
                assert(self@.pin_insts.contains_key(q@));
                assert(self@.pins.contains_key(self@.pin_insts[self@.instances[i@].pins[j as int]].template_pin));
            }
            if j > 0 {
                list.append(" ");
            }
            let tp = self.template_pin(&q);
            let pname = self.pin_name(&tp);
            list.append(pname.as_str());
            list.append("=");
            let n = self.net_of_pin_instance(&q);
            proof {
                if let Some(x) = self@.pin_insts[q@].net {
                    assert(self@.nets.contains_key(x));
                }
            }
            let t = self.net_text_of(n);
            list.append(t.as_str());
            proof {
                let s1 = qv.subrange(0, j + 1);
                assert(s1.drop_last() =~= qv.subrange(0, j as int));
                assert(s1.last() == q@);
                if j == 0 {
                    assert(list@ =~= pin_inst_text(self@, q@));
                } else {
                    assert(list@ =~= before + " "@ + pin_inst_text(self@, q@));
                }
            }
            j = j + 1;
        }
        proof {
            assert(qv.subrange(0, j as int) =~= qv);
        }
        out.append(list.as_str());
        out.append("\n");
        proof {
            assert(out@ =~= instance_line(self@, i@));
        }
        out
    }

    /// Write the netlist in a human readable form: for each cell a line
    /// ".subckt NAME PIN=NET ...", a line "    XINSTANCE TEMPLATE PIN=NET ..." for
    /// each child instance and a line ".ends NAME" followed by an empty line.
    /// A net shows as `Some("name")`, `Some("<unnamed>")` or `None`. Cells and
    /// their child instances come in no particular order.
    pub fn fmt(&self) -> (res: String)
        requires
            self.wf(),
        ensures
            exists|cs: Seq<u32>, order: Map<u32, Seq<usize>>| {
                &&& cs.no_duplicates()
                &&& cs.to_set() == self@.circuits.dom()
                &&& forall|c: u32| #[trigger] self@.circuits.contains_key(c) ==> order.contains_key(c)
                    && order[c].no_duplicates() && order[c].to_set() == self@.circuits[c].instances
                &&& res@ == #[trigger] netlist_text(self@, cs, order)
            },
    {
        proof {
            crate::chip::lemma_templates_present(self@);
        }
        let cells = self.each_cell_vec();
        let ghost cv = cell_ids_view(cells@);
        let ghost mut order: Map<u32, Seq<usize>> = Map::empty();
        let mut out = String::new();
        let mut k: usize = 0;
        proof {
            assert(cv.subrange(0, 0) =~= Seq::<u32>::empty());
        }
        while k < cells.len()
            invariant
                self.wf(),
                templates_present(self@),
                cv == cell_ids_view(cells@),
                cv.no_duplicates(),
                cv.to_set() == self@.circuits.dom(),
                k <= cells@.len(),
                forall|c: u32| #[trigger] order.contains_key(c) ==> self@.circuits.contains_key(c)
                    && order[c].no_duplicates() && order[c].to_set() == self@.circuits[c].instances,
                forall|j: int| 0 <= j < k ==> order.contains_key(#[trigger] cv[j]),
                out@ == netlist_text(self@, cv.subrange(0, k as int), order),
            decreases cells@.len() - k,
        {
            let c = cells[k];
            let ghost before = out@;
            let ghost order0 = order;
            proof {
                assert(cv[k as int] == c@);
                assert(cv.to_set().contains(c@));
            }
            let name = self.cell_name(&c);
            out.append(".subckt ");
            out.append(name.as_str());
            out.append(" ");
            let pins = self.pins_text(&c);
            out.append(pins.as_str());
            out.append("\n");
            let insts = self.each_cell_instance_vec(&c);
            let ghost iv = inst_ids_view(insts@);
            let ghost head = out@;
            let mut lines = String::new();
            let mut j: usize = 0;
            proof {
                assert(iv.subrange(0, 0) =~= Seq::<usize>::empty());
            }
            while j < insts.len()
                invariant
                    self.wf(),
                    templates_present(self@),
                    self@.circuits.contains_key(c@),
                    iv == inst_ids_view(insts@),
                    iv.to_set() == self@.circuits[c@].instances,
                    j <= insts@.len(),
                    lines@ == instance_lines(self@, iv.subrange(0, j as int)),
                decreases insts@.len() - j,
            {
                let i = insts[j];
                proof {
                    assert(iv[j as int] == i@);
                    assert(iv.to_set().contains(i@));
                }
                let line = self.instance_text(&i);
                lines.append(line.as_str());
                proof {
                    let s1 = iv.subrange(0, j + 1);
                    assert(s1.drop_last() =~= iv.subrange(0, j as int));
                    assert(s1.last() == i@);
                }
                j = j + 1;
            }
            proof {
                assert(iv.subrange(0, j as int) =~= iv);
            }
            out.append(lines.as_str());
            out.append(".ends ");
            out.append(name.as_str());
            out.append("\n\n");
            proof {
                order = order0.insert(c@, iv);
                assert(out@ =~= before + cell_block(self@, c@, iv));
                let s1 = cv.subrange(0, k + 1);
                assert(s1.drop_last() =~= cv.subrange(0, k as int));
                assert(s1.last() == c@);
                assert(!cv.subrange(0, k as int).contains(c@)) by {
                    let pre = cv.subrange(0, k as int);
                    if pre.contains(c@) {
                        let jj = choose|jj: int| 0 <= jj < pre.len() && pre[jj] == c@;
                        assert(cv[jj] == cv[k as int]);
                    }
                }
                lemma_netlist_text_frame(self@, cv.subrange(0, k as int), order0, order);
                assert forall|jj: int| 0 <= jj < k + 1 implies order.contains_key(#[trigger] cv[jj]) by {
                    if jj < k {
                        assert(order0.contains_key(cv[jj]));
                    }
                }
            }
            k = k + 1;
        }
        proof {
            assert(cv.subrange(0, k as int) =~= cv);
            assert forall|c: u32| #[trigger] self@.circuits.contains_key(c) implies order.contains_key(c)
                && order[c].no_duplicates() && order[c].to_set() == self@.circuits[c].instances by {
                assert(cv.to_set().contains(c));
                let jj = choose|jj: int| 0 <= jj < cv.len() && cv[jj] == c;
                assert(order.contains_key(cv[jj]));
            }
        }
        out
    }
}

/// The text of cells `cs` stays when the order of the instances of other cells is added.
proof fn lemma_netlist_text_frame(v: ChipView, cs: Seq<u32>, o1: Map<u32, Seq<usize>>, o2: Map<u32, Seq<usize>>)
    requires
        forall|j: int| 0 <= j < cs.len() ==> o1.contains_key(#[trigger] cs[j]) && o2.contains_key(cs[j]) && o2[cs[j]] == o1[cs[j]],
    ensures
        netlist_text(v, cs, o1) == netlist_text(v, cs, o2),
    decreases cs.len(),
{
    if cs.len() > 0 {
        lemma_netlist_text_frame(v, cs.drop_last(), o1, o2);
        assert(cs.last() == cs[cs.len() - 1]);
    }
}

/// A cell without pins lists nothing; a cell with a single pin lists just
/// that pin, as "name=net".
pub proof fn law_joined_pins_single(v: ChipView, p: u32)
    ensures
        joined_pins(v, Seq::empty()) == Seq::<char>::empty(),
        joined_pins(v, seq![p]) == pin_text(v, p),
{
}

/// The pins of two consecutive runs are listed as the first run, one space and
/// the second run: every pin is listed, in order, each once.
pub proof fn law_joined_pins_concat(v: ChipView, a: Seq<u32>, b: Seq<u32>)
    requires
        a.len() > 0,
        b.len() > 0,
    ensures
        joined_pins(v, a + b) == joined_pins(v, a) + " "@ + joined_pins(v, b),
    decreases b.len(),
{
    let ab = a + b;
    assert(ab.len() > 1);
    assert(ab.last() == b.last());
    if b.len() == 1 {
        assert(ab.drop_last() =~= a);
    } else {
        law_joined_pins_concat(v, a, b.drop_last());
        assert(ab.drop_last() =~= a + b.drop_last());
        assert(joined_pins(v, ab) =~= joined_pins(v, a) + " "@ + joined_pins(v, b));
    }
}

/// An instance without pin instances lists nothing; an instance with a single
/// pin instance lists just that one, as "name=net".
pub proof fn law_joined_pin_insts_single(v: ChipView, q: usize)
    ensures
        joined_pin_insts(v, Seq::empty()) == Seq::<char>::empty(),
        joined_pin_insts(v, seq![q]) == pin_inst_text(v, q),
{
}

/// A single child instance gives just its own line.
pub proof fn law_instance_lines_single(v: ChipView, i: usize)
    ensures
        instance_lines(v, seq![i]) == instance_line(v, i),
{
    let one = seq![i];
    assert(one.drop_last() =~= Seq::<usize>::empty());
    assert(instance_lines(v, one.drop_last()) == Seq::<char>::empty());
    assert(instance_lines(v, one) =~= instance_line(v, i));
}

/// A single cell gives just its own block.
pub proof fn law_netlist_text_single(v: ChipView, c: u32, order: Map<u32, Seq<usize>>)
    ensures
        netlist_text(v, seq![c], order) == cell_block(v, c, order[c]),
{
    let one = seq![c];
    assert(one.drop_last() =~= Seq::<u32>::empty());
    assert(netlist_text(v, one.drop_last(), order) == Seq::<char>::empty());
    assert(netlist_text(v, one, order) =~= cell_block(v, c, order[c]));
}

/// The pin instances of two consecutive runs are listed as the first run, one
/// space and the second run: every pin instance is listed, in order, each once.
pub proof fn law_joined_pin_insts_concat(v: ChipView, a: Seq<usize>, b: Seq<usize>)
    requires
        a.len() > 0,
        b.len() > 0,
    ensures
        joined_pin_insts(v, a + b) == joined_pin_insts(v, a) + " "@ + joined_pin_insts(v, b),
    decreases b.len(),
{
    let ab = a + b;
    assert(ab.len() > 1);
    assert(ab.last() == b.last());
    if b.len() == 1 {
        assert(ab.drop_last() =~= a);
    } else {
        law_joined_pin_insts_concat(v, a, b.drop_last());
        assert(ab.drop_last() =~= a + b.drop_last());
        assert(joined_pin_insts(v, ab) =~= joined_pin_insts(v, a) + " "@ + joined_pin_insts(v, b));
    }
}

/// The lines of two runs of child instances are the lines of the first run
/// followed by those of the second: one line per instance, in order.
pub proof fn law_instance_lines_concat(v: ChipView, a: Seq<usize>, b: Seq<usize>)
    ensures
        instance_lines(v, a + b) == instance_lines(v, a) + instance_lines(v, b),
    decreases b.len(),
{
    let ab = a + b;
    if b.len() == 0 {
        assert(ab =~= a);
        assert(instance_lines(v, a) + instance_lines(v, b) =~= instance_lines(v, a));
    } else {
        law_instance_lines_concat(v, a, b.drop_last());
        assert(ab.drop_last() =~= a + b.drop_last());
        assert(ab.last() == b.last());
        assert(instance_lines(v, ab) =~= instance_lines(v, a) + instance_lines(v, b));
    }
}

/// The text of two runs of cells is the blocks of the first run followed by
/// those of the second: one block per cell, in order.
pub proof fn law_netlist_text_concat(v: ChipView, a: Seq<u32>, b: Seq<u32>, order: Map<u32, Seq<usize>>)
    ensures
        netlist_text(v, a + b, order) == netlist_text(v, a, order) + netlist_text(v, b, order),
    decreases b.len(),
{
    let ab = a + b;
    if b.len() == 0 {
        assert(ab =~= a);
        assert(netlist_text(v, a, order) + netlist_text(v, b, order) =~= netlist_text(v, a, order));
    } else {
        law_netlist_text_concat(v, a, b.drop_last(), order);
        assert(ab.drop_last() =~= a + b.drop_last());
        assert(ab.last() == b.last());
        assert(netlist_text(v, ab, order) =~= netlist_text(v, a, order) + netlist_text(v, b, order));
    }
}

} // verus!
