//! Chip data structure holding netlist and layout together.
//!
//! [`Chip`] holds cells (circuits) with their pins, nets and instances of other
//! cells. All objects are addressed by integer identifiers that are never reused.
//!
//! The abstract view of a chip is a [`ChipView`]: maps from identifiers to plain
//! descriptions of the objects. [`ChipView::inv`] states how the objects refer to
//! each other; every operation keeps it.
//!
//! Objects can outlive the object that holds them: nets of a removed cell and pin
//! instances of a removed cell instance stay in the tables. Such objects are
//! called *dead*; the invariant speaks about the *live* ones.

use crate::fnv_collections::{
    fnv_map_contains_key, fnv_map_get, fnv_map_insert, fnv_map_keys, fnv_map_len, fnv_map_remove,
    fnv_set_contains, fnv_set_insert, fnv_set_len, fnv_set_remove, fnv_set_to_vec,
};
use crate::index::{Index, IndexGenerator};
use crate::layout::types::{Coord, LayerInfo};
use crate::netlist::direction::Direction;
use fnv::{FnvHashMap, FnvHashSet};
use iron_shapes::shape::Geometry;
use iron_shapes::transform::SimpleTransform;
use crate::geometry::{identity_transform, identity_transform_spec};
use vstd::hash_map::StringHashMap;
use vstd::prelude::*;

verus! {

broadcast use vstd::std_specs::hash::group_hash_axioms;

/// Circuit identifier.
#[derive(Debug, Copy, Clone, Eq, PartialEq, Hash, Structural)]
pub struct CellId(u32);

/// Circuit instance identifier.
#[derive(Debug, Copy, Clone, Eq, PartialEq, Hash, Structural)]
pub struct CellInstId(usize);

/// Pin identifier.
#[derive(Debug, Copy, Clone, Eq, PartialEq, Hash, Structural)]
pub struct PinId(u32);

/// Pin instance identifier.
#[derive(Debug, Copy, Clone, Eq, PartialEq, Hash, Structural)]
pub struct PinInstId(usize);

/// Net identifier.
#[derive(Debug, Copy, Clone, Eq, PartialEq, Hash, Structural)]
pub struct NetId(usize);

/// Either a pin or pin instance identifier.
#[derive(Debug, Copy, Clone, Eq, PartialEq, Hash, Structural)]
pub enum TerminalId {
    /// Terminal is a pin.
    Pin(PinId),
    /// Terminal is a pin instance.
    PinInst(PinInstId),
}

/// An arc represents the direct path from one terminal to another.
#[derive(Debug, Copy, Clone, Eq, PartialEq, Hash, Structural)]
pub struct ArcId {
    start: TerminalId,
    end: TerminalId,
}

impl View for CellId {
    type V = u32;

    closed spec fn view(&self) -> u32 {
        self.0
    }
}

impl View for CellInstId {
    type V = usize;

    closed spec fn view(&self) -> usize {
        self.0
    }
}

impl View for PinId {
    type V = u32;

    closed spec fn view(&self) -> u32 {
        self.0
    }
}

impl View for PinInstId {
    type V = usize;

    closed spec fn view(&self) -> usize {
        self.0
    }
}

impl View for NetId {
    type V = usize;

    closed spec fn view(&self) -> usize {
        self.0
    }
}

impl CellId {
    /// Create a circuit identifier from its integer value.
    pub fn from_u32(id: u32) -> (res: Self)
        ensures
            res@ == id,
    {
        CellId(id)
    }

    /// The integer value of the identifier.
    pub(crate) fn to_u32(&self) -> (res: u32)
        ensures
            res == self@,
    {
        self.0
    }
}

impl CellInstId {
    /// Create a circuit instance identifier from its integer value.
    pub fn from_usize(id: usize) -> (res: Self)
        ensures
            res@ == id,
    {
        CellInstId(id)
    }
}

impl PinId {
    /// Create a pin identifier from its integer value.
    pub fn from_u32(id: u32) -> (res: Self)
        ensures
            res@ == id,
    {
        PinId(id)
    }
}

impl PinInstId {
    /// Create a pin instance identifier from its integer value.
    pub fn from_usize(id: usize) -> (res: Self)
        ensures
            res@ == id,
    {
        PinInstId(id)
    }
}

impl NetId {
    /// Create a net identifier from its integer value.
    pub fn from_usize(id: usize) -> (res: Self)
        ensures
            res@ == id,
    {
        NetId(id)
    }
}

impl From<PinId> for TerminalId {
    fn from(id: PinId) -> (res: Self) {
        TerminalId::Pin(id)
    }
}

impl vstd::std_specs::convert::FromSpecImpl<PinId> for TerminalId {
    open spec fn obeys_from_spec() -> bool {
        true
    }

    open spec fn from_spec(v: PinId) -> Self {
        TerminalId::Pin(v)
    }
}

impl From<PinInstId> for TerminalId {
    fn from(id: PinInstId) -> (res: Self) {
        TerminalId::PinInst(id)
    }
}

impl vstd::std_specs::convert::FromSpecImpl<PinInstId> for TerminalId {
    open spec fn obeys_from_spec() -> bool {
        true
    }

    open spec fn from_spec(v: PinInstId) -> Self {
        TerminalId::PinInst(v)
    }
}

/// The view of an optional name.
pub open spec fn opt_name(o: Option<String>) -> Option<Seq<char>> {
    match o {
        Some(s) => Some(s@),
        None => None,
    }
}

/// Abstract description of a circuit.
pub struct CircuitView {
    pub id: u32,
    pub name: Seq<char>,
    /// Instances inside this circuit.
    pub instances: Set<usize>,
    /// Named instances inside this circuit.
    pub instances_by_name: Map<Seq<char>, usize>,
    /// Instances of this circuit.
    pub references: Set<usize>,
    /// For each circuit instantiated in this circuit, the number of its instances here.
    pub dependencies: Map<u32, usize>,
    /// For each circuit that instantiates this circuit, the number of those instances.
    pub dependent_circuits: Map<u32, usize>,
    /// Pins, in creation order.
    pub pins: Seq<u32>,
    pub nets: Set<usize>,
    pub nets_by_name: Map<Seq<char>, usize>,
    pub net_low: usize,
    pub net_high: usize,
}

/// Abstract description of a circuit instance.
pub struct InstView {
    pub name: Option<Seq<char>>,
    pub template: u32,
    pub parent: u32,
    pub pins: Seq<usize>,
}

/// Abstract description of a pin.
pub struct PinView {
    pub name: Seq<char>,
    pub direction: Direction,
    pub circuit: u32,
    pub net: Option<usize>,
}

/// Abstract description of a pin instance.
pub struct PinInstView {
    pub template_pin: u32,
    pub circuit_inst: usize,
    pub net: Option<usize>,
}

/// Abstract description of a net.
pub struct NetView {
    pub name: Option<Seq<char>>,
    pub parent: u32,
    pub pins: Set<u32>,
    pub pin_instances: Set<usize>,
}

/// Abstract view of the netlist part of a chip.
pub struct ChipView {
    pub circuits: Map<u32, CircuitView>,
    pub circuits_by_name: Map<Seq<char>, u32>,
    pub instances: Map<usize, InstView>,
    pub nets: Map<usize, NetView>,
    pub pins: Map<u32, PinView>,
    pub pin_insts: Map<usize, PinInstView>,
    pub next_circuit: u32,
    pub next_inst: usize,
    pub next_pin: u32,
    pub next_pin_inst: usize,
    pub next_net: usize,
}

/// A net is live while its parent circuit exists.
pub open spec fn net_is_live(circuits: Map<u32, CircuitView>, nets: Map<usize, NetView>, n: usize) -> bool {
    nets.contains_key(n) && circuits.contains_key(nets[n].parent)
}

/// A pin instance is live while its circuit instance exists.
pub open spec fn pin_inst_is_live(instances: Map<usize, InstView>, pin_insts: Map<usize, PinInstView>, q: usize) -> bool {
    pin_insts.contains_key(q) && instances.contains_key(pin_insts[q].circuit_inst)
}

/// Number of instances of `t` inside `c`.
pub open spec fn dep_count(circuits: Map<u32, CircuitView>, instances: Map<usize, InstView>, c: u32, t: u32) -> nat {
    circuits[c].instances.filter(|i: usize| instances[i].template == t).len()
}

/// Number of instances of `t` inside `p`, counted from the side of `t`.
pub open spec fn ref_count(circuits: Map<u32, CircuitView>, instances: Map<usize, InstView>, t: u32, p: u32) -> nat {
    circuits[t].references.filter(|i: usize| instances[i].parent == p).len()
}

/// Circuit names are unique and the name table lists exactly the circuits.
pub open spec fn inv_cell_names(circuits: Map<u32, CircuitView>, circuits_by_name: Map<Seq<char>, u32>) -> bool {
    &&& forall|s: Seq<char>| #[trigger] circuits_by_name.contains_key(s) ==> {
        &&& circuits.contains_key(circuits_by_name[s])
        &&& circuits[circuits_by_name[s]].name == s
    }
    &&& forall|c: u32| #[trigger] circuits.contains_key(c) ==> {
        &&& circuits_by_name.contains_key(circuits[c].name)
        &&& circuits_by_name[circuits[c].name] == c
    }
}

/// Instances, their parent and template circuits, and their names agree.
pub open spec fn inv_instances(
    circuits: Map<u32, CircuitView>,
    instances: Map<usize, InstView>,
    pin_insts: Map<usize, PinInstView>,
) -> bool {
    &&& forall|i: usize| #[trigger] instances.contains_key(i) ==> {
        let x = instances[i];
        &&& circuits.contains_key(x.parent)
        &&& circuits.contains_key(x.template)
        &&& x.parent != x.template
        &&& circuits[x.parent].instances.contains(i)
        &&& circuits[x.template].references.contains(i)
        &&& (x.name matches Some(s) ==> circuits[x.parent].instances_by_name.contains_key(s)
            && circuits[x.parent].instances_by_name[s] == i)
        &&& x.pins.no_duplicates()
        &&& forall|k: int| 0 <= k < x.pins.len() ==> pin_insts.contains_key(#[trigger] x.pins[k])
            && pin_insts[x.pins[k]].circuit_inst == i
    }
    &&& forall|c: u32, i: usize| #[trigger] circuits.contains_key(c) && #[trigger] circuits[c].instances.contains(i)
        ==> instances.contains_key(i) && instances[i].parent == c
    &&& forall|c: u32, i: usize| #[trigger] circuits.contains_key(c) && #[trigger] circuits[c].references.contains(i)
        ==> instances.contains_key(i) && instances[i].template == c
    &&& forall|c: u32, s: Seq<char>| #[trigger] circuits.contains_key(c) && #[trigger] circuits[c].instances_by_name.contains_key(s)
        ==> {
            let i = circuits[c].instances_by_name[s];
            &&& instances.contains_key(i)
            &&& instances[i].parent == c
            &&& instances[i].name == Some(s)
        }
    &&& forall|c: u32| #[trigger] circuits.contains_key(c) ==> circuits[c].instances.finite() && circuits[c].references.finite()
}

/// The dependency counters count the instances.
pub open spec fn inv_deps(circuits: Map<u32, CircuitView>, instances: Map<usize, InstView>) -> bool {
    &&& forall|c: u32, t: u32| #[trigger] circuits.contains_key(c) ==> {
        &&& (#[trigger] circuits[c].dependencies.contains_key(t) <==> dep_count(circuits, instances, c, t) > 0)
        &&& (circuits[c].dependencies.contains_key(t) ==> circuits[c].dependencies[t] == dep_count(circuits, instances, c, t))
    }
    &&& forall|t: u32, p: u32| #[trigger] circuits.contains_key(t) ==> {
        &&& (#[trigger] circuits[t].dependent_circuits.contains_key(p) <==> ref_count(circuits, instances, t, p) > 0)
        &&& (circuits[t].dependent_circuits.contains_key(p) ==> circuits[t].dependent_circuits[p] == ref_count(circuits, instances, t, p))
    }
}

/// Live nets belong to their circuit, and net names are unique within a circuit.
pub open spec fn inv_nets(circuits: Map<u32, CircuitView>, nets: Map<usize, NetView>) -> bool {
    &&& forall|n: usize| #[trigger] net_is_live(circuits, nets, n) ==> {
        let x = nets[n];
        &&& circuits[x.parent].nets.contains(n)
        &&& (x.name matches Some(s) ==> circuits[x.parent].nets_by_name.contains_key(s)
            && circuits[x.parent].nets_by_name[s] == n)
    }
    &&& forall|c: u32, n: usize| #[trigger] circuits.contains_key(c) && #[trigger] circuits[c].nets.contains(n)
        ==> nets.contains_key(n) && nets[n].parent == c
    &&& forall|c: u32, s: Seq<char>| #[trigger] circuits.contains_key(c) && #[trigger] circuits[c].nets_by_name.contains_key(s)
        ==> {
            let n = circuits[c].nets_by_name[s];
            &&& nets.contains_key(n)
            &&& nets[n].parent == c
            &&& nets[n].name == Some(s)
        }
    &&& forall|c: u32| #[trigger] circuits.contains_key(c) ==> {
        &&& circuits[c].nets.contains(circuits[c].net_low)
        &&& circuits[c].nets.contains(circuits[c].net_high)
        &&& circuits[c].net_low != circuits[c].net_high
    }
}

/// Pins belong to their circuit, and pins and nets know of each other.
pub open spec fn inv_pins(circuits: Map<u32, CircuitView>, nets: Map<usize, NetView>, pins: Map<u32, PinView>) -> bool {
    &&& forall|p: u32| #[trigger] pins.contains_key(p) ==> {
        let x = pins[p];
        &&& circuits.contains_key(x.circuit)
        &&& circuits[x.circuit].pins.contains(p)
        &&& (x.net matches Some(n) ==> net_is_live(circuits, nets, n) && nets[n].parent == x.circuit
            && nets[n].pins.contains(p))
    }
    &&& forall|c: u32| #[trigger] circuits.contains_key(c) ==> {
        &&& circuits[c].pins.no_duplicates()
        &&& forall|k: int| 0 <= k < circuits[c].pins.len() ==> pins.contains_key(#[trigger] circuits[c].pins[k])
            && pins[circuits[c].pins[k]].circuit == c
    }
    &&& forall|n: usize, p: u32| #[trigger] net_is_live(circuits, nets, n) && #[trigger] nets[n].pins.contains(p)
        ==> pins.contains_key(p) && pins[p].net == Some(n)
}

/// Live pin instances belong to their instance, and pin instances and nets know of each other.
pub open spec fn inv_pin_insts(
    circuits: Map<u32, CircuitView>,
    instances: Map<usize, InstView>,
    nets: Map<usize, NetView>,
    pin_insts: Map<usize, PinInstView>,
) -> bool {
    &&& forall|q: usize| #[trigger] pin_insts.contains_key(q) ==> {
        let x = pin_insts[q];
        if instances.contains_key(x.circuit_inst) {
            &&& instances[x.circuit_inst].pins.contains(q)
            &&& (x.net matches Some(n) ==> net_is_live(circuits, nets, n)
                && nets[n].parent == instances[x.circuit_inst].parent
                && nets[n].pin_instances.contains(q))
        } else {
            x.net is None
        }
    }
    &&& forall|n: usize, q: usize| #[trigger] net_is_live(circuits, nets, n) && #[trigger] nets[n].pin_instances.contains(q)
        ==> pin_inst_is_live(instances, pin_insts, q) && pin_insts[q].net == Some(n)
}

/// The template pin of a live pin instance, while it exists, is a pin of the
/// instance's template circuit.
pub open spec fn inv_pin_templates(
    instances: Map<usize, InstView>,
    pins: Map<u32, PinView>,
    pin_insts: Map<usize, PinInstView>,
) -> bool {
    forall|q: usize| #[trigger] pin_insts.contains_key(q) && instances.contains_key(pin_insts[q].circuit_inst)
        && pins.contains_key(pin_insts[q].template_pin)
        ==> pins[pin_insts[q].template_pin].circuit == instances[pin_insts[q].circuit_inst].template
}

/// The pin instances of a live instance have their template pins, each a
/// different one.
pub open spec fn inv_pin_inst_templates(
    instances: Map<usize, InstView>,
    pins: Map<u32, PinView>,
    pin_insts: Map<usize, PinInstView>,
) -> bool {
    forall|i: usize| #[trigger] instances.contains_key(i) ==> {
        &&& forall|k: int| 0 <= k < instances[i].pins.len()
            ==> pins.contains_key(#[trigger] pin_insts[instances[i].pins[k]].template_pin)
        &&& forall|a: int, b: int| 0 <= a < b < instances[i].pins.len()
            ==> pin_insts[#[trigger] instances[i].pins[a]].template_pin != pin_insts[#[trigger] instances[i].pins[b]].template_pin
    }
}

/// The pin instances of a live instance follow the pins of its template, one
/// for each, in the same order.
pub open spec fn inv_pin_order(
    circuits: Map<u32, CircuitView>,
    instances: Map<usize, InstView>,
    pin_insts: Map<usize, PinInstView>,
) -> bool {
    forall|i: usize| #[trigger] instances.contains_key(i) ==> {
        &&& instances[i].pins.len() == circuits[instances[i].template].pins.len()
        &&& forall|k: int| 0 <= k < instances[i].pins.len()
            ==> #[trigger] pin_insts[instances[i].pins[k]].template_pin == circuits[instances[i].template].pins[k]
    }
}

/// A net whose circuit is gone has no pin instances left.
pub open spec fn inv_dead_nets(circuits: Map<u32, CircuitView>, nets: Map<usize, NetView>) -> bool {
    forall|n: usize| #[trigger] nets.contains_key(n) && !circuits.contains_key(nets[n].parent)
        ==> nets[n].pin_instances == Set::<usize>::empty()
}

impl ChipView {
    /// Identifiers are below the counters that generate them.
    pub open spec fn inv_ids(self) -> bool {
        &&& self.circuits.dom().finite()
        &&& forall|c: u32| #[trigger] self.circuits.contains_key(c) ==> c < self.next_circuit && self.circuits[c].id == c
        &&& forall|i: usize| #[trigger] self.instances.contains_key(i) ==> i < self.next_inst
        &&& forall|p: u32| #[trigger] self.pins.contains_key(p) ==> p < self.next_pin
        &&& forall|q: usize| #[trigger] self.pin_insts.contains_key(q) ==> q < self.next_pin_inst
            && self.pin_insts[q].circuit_inst < self.next_inst
            && self.pin_insts[q].template_pin < self.next_pin
        &&& forall|n: usize| #[trigger] self.nets.contains_key(n) ==> n < self.next_net
            && self.nets[n].parent < self.next_circuit
    }

    /// Consistency of the whole netlist.
    pub open spec fn inv(self) -> bool {
        &&& self.inv_core()
        &&& inv_pin_order(self.circuits, self.instances, self.pin_insts)
    }

    /// Consistency of the netlist but for the order of the pin instances, which
    /// adding or removing a pin restores at its end.
    pub open spec fn inv_core(self) -> bool {
        &&& self.inv_ids()
        &&& inv_cell_names(self.circuits, self.circuits_by_name)
        &&& inv_instances(self.circuits, self.instances, self.pin_insts)
        &&& inv_deps(self.circuits, self.instances)
        &&& inv_nets(self.circuits, self.nets)
        &&& inv_pins(self.circuits, self.nets, self.pins)
        &&& inv_pin_insts(self.circuits, self.instances, self.nets, self.pin_insts)
        &&& inv_pin_templates(self.instances, self.pins, self.pin_insts)
        &&& inv_pin_inst_templates(self.instances, self.pins, self.pin_insts)
        &&& inv_dead_nets(self.circuits, self.nets)
        &&& acyclic(self.circuits)
    }
}

/// A circuit is defined by an interface (pins) and
/// a content which consists of interconnected circuit instances.
pub struct Circuit {
    /// ID of this circuit.
    id: CellId,
    /// Name of the circuit.
    name: String,
    /// Instances inside this circuit.
    instances: FnvHashSet<usize>,
    /// Instances inside this circuit indexed by name.
    instances_by_name: StringHashMap<usize>,
    /// Circuit instances that reference to this circuit.
    references: FnvHashSet<usize>,
    /// Circuits that are direct dependencies of this circuit, with the number of their instances.
    dependencies: FnvHashMap<u32, usize>,
    /// Circuits that use an instance of this circuit, with the number of those instances.
    dependent_circuits: FnvHashMap<u32, usize>,
    /// Pin definitions, the actual pin structs are in the top level `Chip` struct.
    pins: Vec<u32>,
    /// All nets in this circuit.
    nets: FnvHashSet<usize>,
    /// Nets IDs stored by name.
    nets_by_name: StringHashMap<usize>,
    /// Logic constant LOW net.
    net_low: NetId,
    /// Logic constant HIGH net.
    net_high: NetId,
}

impl View for Circuit {
    type V = CircuitView;

    closed spec fn view(&self) -> CircuitView {
        CircuitView {
            id: self.id@,
            name: self.name@,
            instances: self.instances@,
            instances_by_name: self.instances_by_name@,
            references: self.references@,
            dependencies: self.dependencies@,
            dependent_circuits: self.dependent_circuits@,
            pins: self.pins@,
            nets: self.nets@,
            nets_by_name: self.nets_by_name@,
            net_low: self.net_low@,
            net_high: self.net_high@,
        }
    }
}

/// Instance of a circuit.
pub struct CircuitInst {
    /// Name of the instance.
    name: Option<String>,
    /// The ID of the template circuit.
    template_circuit_id: CellId,
    /// The ID of the parent circuit where this instance lives in.
    parent_circuit_id: CellId,
    /// List of pins of this instance.
    pins: Vec<usize>,
}

impl View for CircuitInst {
    type V = InstView;

    closed spec fn view(&self) -> InstView {
        InstView {
            name: opt_name(self.name),
            template: self.template_circuit_id@,
            parent: self.parent_circuit_id@,
            pins: self.pins@,
        }
    }
}

/// Single bit wire pin.
pub struct Pin {
    /// Name of the pin.
    name: String,
    /// Signal type/direction of the pin.
    direction: Direction,
    /// Parent circuit of this pin.
    circuit: CellId,
    /// Net that is connected to this pin.
    net: Option<NetId>,
}

impl View for Pin {
    type V = PinView;

    closed spec fn view(&self) -> PinView {
        PinView {
            name: self.name@,
            direction: self.direction,
            circuit: self.circuit@,
            net: match self.net {
                Some(n) => Some(n@),
                None => None,
            },
        }
    }
}

/// Instance of a pin.
pub struct PinInst {
    /// ID of the template pin.
    template_pin_id: PinId,
    /// Circuit instance where this pin instance lives in.
    circuit_inst: CellInstId,
    /// Net connected to this pin instance.
    net: Option<NetId>,
}

impl View for PinInst {
    type V = PinInstView;

    closed spec fn view(&self) -> PinInstView {
        PinInstView {
            template_pin: self.template_pin_id@,
            circuit_inst: self.circuit_inst@,
            net: match self.net {
                Some(n) => Some(n@),
                None => None,
            },
        }
    }
}

/// A net represents an electric potential or a wire.
pub struct Net {
    /// Name of the net.
    name: Option<String>,
    /// Parent circuit of the net.
    parent_id: CellId,
    /// Pins connected to this net.
    pins: FnvHashSet<u32>,
    /// Pin instances connected to this net.
    pin_instances: FnvHashSet<usize>,
}

impl View for Net {
    type V = NetView;

    closed spec fn view(&self) -> NetView {
        NetView {
            name: opt_name(self.name),
            parent: self.parent_id@,
            pins: self.pins@,
            pin_instances: self.pin_instances@,
        }
    }
}

/// A netlist is the container of circuits.
pub struct Chip {
    circuits: FnvHashMap<u32, Circuit>,
    circuits_by_name: StringHashMap<u32>,
    circuit_instances: FnvHashMap<usize, CircuitInst>,
    nets: FnvHashMap<usize, Net>,
    pins: FnvHashMap<u32, Pin>,
    pin_instances: FnvHashMap<usize, PinInst>,
    id_counter_circuit: u32,
    id_counter_circuit_inst: usize,
    id_counter_pin: u32,
    id_counter_pin_inst: usize,
    id_counter_net: usize,
    /// Size of the data base unit.
    dbu: Coord,
    /// Counter for generating the next layer index.
    layer_index_generator: IndexGenerator<LayerInfo<String>, u16>,
    /// Lookup table for finding layers by name.
    layers_by_name: StringHashMap<u16>,
    /// Lookup table for finding layers by index/datatype numbers, keyed by `index_datatype_key`.
    layers_by_index_datatype: FnvHashMap<u64, u16>,
    /// Info structures for all layers.
    layer_info: FnvHashMap<u16, LayerInfo<String>>,
    /// Counter for generating the next shape identifier.
    shape_index_generator: IndexGenerator<Shape, u32>,
    /// All shapes of all cells.
    shapes: FnvHashMap<u32, Shape>,
    /// Link to the cell and layer that contain a shape.
    shape_parents: FnvHashMap<u32, (CellId, LayerId)>,
    /// The pairs of a cell and a layer that got a shape container, keyed by `container_key`.
    shape_containers: FnvHashSet<u64>,
    /// Link to the shapes of a net.
    net_shapes: FnvHashMap<usize, FnvHashSet<u32>>,
    /// Link to the shapes of a pin.
    pin_shapes: FnvHashMap<u32, FnvHashSet<u32>>,
    /// Location and orientation of the cell instances that have been placed.
    instance_transforms: FnvHashMap<usize, SimpleTransform<Coord>>,
}

impl View for Chip {
    type V = ChipView;

    closed spec fn view(&self) -> ChipView {
        ChipView {
            circuits: self.circuits@.map_values(|c: Circuit| c@),
            circuits_by_name: self.circuits_by_name@,
            instances: self.circuit_instances@.map_values(|i: CircuitInst| i@),
            nets: self.nets@.map_values(|n: Net| n@),
            pins: self.pins@.map_values(|p: Pin| p@),
            pin_insts: self.pin_instances@.map_values(|p: PinInst| p@),
            next_circuit: self.id_counter_circuit,
            next_inst: self.id_counter_circuit_inst,
            next_pin: self.id_counter_pin,
            next_pin_inst: self.id_counter_pin_inst,
            next_net: self.id_counter_net,
        }
    }
}

/// Identifier of a layer.
pub type LayerId = Index<LayerInfo<String>, u16>;

/// Abstract description of a layer.
pub struct LayerView {
    pub index: u32,
    pub datatype: u32,
    pub name: Option<Seq<char>>,
}

/// Abstract view of the layers of a chip.
pub struct LayersView {
    /// Size of the data base unit.
    pub dbu: Coord,
    /// The identifier that the next created layer gets.
    pub next_layer: u16,
    pub info: Map<u16, LayerView>,
    pub by_name: Map<Seq<char>, u16>,
    pub by_index_datatype: Map<(u32, u32), u16>,
}

impl LayersView {
    /// Layer identifiers are below the counter, names are unique, and the lookup
    /// tables point to layers with the looked up name or numbers.
    pub open spec fn inv(self) -> bool {
        &&& forall|l: u16| #[trigger] self.info.contains_key(l) ==> l < self.next_layer
        &&& forall|s: Seq<char>| #[trigger] self.by_name.contains_key(s) ==> {
            &&& self.info.contains_key(self.by_name[s])
            &&& self.info[self.by_name[s]].name == Some(s)
        }
        &&& forall|l: u16| #[trigger] self.info.contains_key(l) && self.info[l].name is Some ==> {
            &&& self.by_name.contains_key(self.info[l].name.unwrap())
            &&& self.by_name[self.info[l].name.unwrap()] == l
        }
        &&& forall|k: (u32, u32)| #[trigger] self.by_index_datatype.contains_key(k) ==> {
            &&& self.info.contains_key(self.by_index_datatype[k])
            &&& self.info[self.by_index_datatype[k]].index == k.0
            &&& self.info[self.by_index_datatype[k]].datatype == k.1
        }
        &&& forall|l: u16| #[trigger] self.info.contains_key(l)
            ==> self.by_index_datatype.contains_key((self.info[l].index, self.info[l].datatype))
    }
}

/// Identifier of a shape.
pub type ShapeId = Index<Shape, u32>;

/// A geometric shape in a layer of a cell, with the net and the pin it belongs to.
pub struct Shape {
    /// The geometry of this shape.
    pub geometry: Geometry<Coord>,
    /// Net attached to this shape.
    net: Option<NetId>,
    /// Pin that belongs to this shape.
    pin: Option<PinId>,
}

/// Abstract description of a shape.
pub struct ShapeView {
    pub geometry: Geometry<Coord>,
    pub cell: u32,
    pub layer: u16,
    pub net: Option<usize>,
    pub pin: Option<u32>,
}

/// Abstract view of the shapes of a chip.
pub struct ShapesView {
    /// The identifier that the next created shape gets.
    pub next_shape: u32,
    pub shapes: Map<u32, ShapeView>,
    /// The pairs of a cell and a layer that hold a shape container. A container
    /// is created with the first shape and stays while the cell lives.
    pub containers: Set<(u32, u16)>,
    /// The shapes linked to each net. A net without entry has no shapes.
    pub net_shapes: Map<usize, Set<u32>>,
    /// The shapes linked to each pin. A pin without entry has no shapes.
    pub pin_shapes: Map<u32, Set<u32>>,
    /// The transformations of the cell instances that have been placed. An
    /// instance without entry has the identity transformation.
    pub transforms: Map<usize, SimpleTransform<Coord>>,
}

/// The transformation of cell instance `i`.
pub open spec fn transform_of(v: ShapesView, i: usize) -> SimpleTransform<Coord> {
    if v.transforms.contains_key(i) { v.transforms[i] } else { identity_transform_spec() }
}

/// The shapes linked to net `n`.
pub open spec fn shapes_of(links: Map<usize, Set<u32>>, n: usize) -> Set<u32> {
    if links.contains_key(n) { links[n] } else { Set::empty() }
}

/// The shapes linked to pin `p`.
pub open spec fn shapes_of_pin_spec(links: Map<u32, Set<u32>>, p: u32) -> Set<u32> {
    if links.contains_key(p) { links[p] } else { Set::empty() }
}

impl ShapesView {
    /// Shape identifiers are below the counter, every shape lies in a container,
    /// and a shape and its net or pin know of each other. Links from nets and
    /// pins to shapes that no longer exist may stay.
    pub open spec fn inv(self) -> bool {
        &&& forall|s: u32| #[trigger] self.shapes.contains_key(s) ==> s < self.next_shape
            && self.containers.contains((self.shapes[s].cell, self.shapes[s].layer))
        &&& forall|s: u32| #[trigger] self.shapes.contains_key(s) && self.shapes[s].net is Some
            ==> shapes_of(self.net_shapes, self.shapes[s].net.unwrap()).contains(s)
        &&& forall|n: usize, s: u32| #[trigger] shapes_of(self.net_shapes, n).contains(s) && #[trigger] self.shapes.contains_key(s)
            ==> self.shapes[s].net == Some(n)
        &&& forall|s: u32| #[trigger] self.shapes.contains_key(s) && self.shapes[s].pin is Some
            ==> shapes_of_pin_spec(self.pin_shapes, self.shapes[s].pin.unwrap()).contains(s)
        &&& forall|p: u32, s: u32| #[trigger] shapes_of_pin_spec(self.pin_shapes, p).contains(s) && #[trigger] self.shapes.contains_key(s)
            ==> self.shapes[s].pin == Some(p)
        &&& forall|n: usize, s: u32| #[trigger] shapes_of(self.net_shapes, n).contains(s) ==> s < self.next_shape
        &&& forall|p: u32, s: u32| #[trigger] shapes_of_pin_spec(self.pin_shapes, p).contains(s) ==> s < self.next_shape
    }
}

/// The key of a pair of a cell and a layer in the set of shape containers.
pub open spec fn container_key(cell: u32, layer: u16) -> u64 {
    (cell * 0x1_0000 + layer) as u64
}

/// Pairs of a cell and a layer have distinct keys, and every key is the key of a pair.
proof fn lemma_container_key(k: u64)
    ensures
        forall|c1: u32, l1: u16, c2: u32, l2: u16| #[trigger] container_key(c1, l1) == #[trigger] container_key(c2, l2)
            ==> c1 == c2 && l1 == l2,
        k < 0x1_0000_0000_0000 ==> container_key((k / 0x1_0000) as u32, (k % 0x1_0000) as u16) == k,
{
    assert forall|c1: u32, l1: u16, c2: u32, l2: u16| #[trigger] container_key(c1, l1) == #[trigger] container_key(c2, l2)
        implies c1 == c2 && l1 == l2 by {
        assert(c1 * 0x1_0000 + l1 < 0x1_0000_0000_0000) by (nonlinear_arith)
            requires c1 < 0x1_0000_0000, l1 < 0x1_0000;
        assert(c2 * 0x1_0000 + l2 < 0x1_0000_0000_0000) by (nonlinear_arith)
            requires c2 < 0x1_0000_0000, l2 < 0x1_0000;
        assert(c1 == c2 && l1 == l2) by (nonlinear_arith)
            requires
                c1 * 0x1_0000 + l1 == c2 * 0x1_0000 + l2,
                0 <= l1 < 0x1_0000,
                0 <= l2 < 0x1_0000,
                0 <= c1,
                0 <= c2;
    }
    if k < 0x1_0000_0000_0000 {
        let c = k / 0x1_0000;
        let l = k % 0x1_0000;
        assert(c * 0x1_0000 + l == k) by (nonlinear_arith)
            requires c == k / 0x1_0000, l == k % 0x1_0000;
        assert(c < 0x1_0000_0000) by (nonlinear_arith)
            requires c == k / 0x1_0000, k < 0x1_0000_0000_0000;
    }
}

/// The key of a pair of a cell and a layer in the set of shape containers.
fn shape_container_key(cell: u32, layer: u16) -> (res: u64)
    ensures
        res == container_key(cell, layer),
        res < 0x1_0000_0000_0000,
{
    assert((cell as u64) * 0x1_0000 + (layer as u64) < 0x1_0000_0000_0000) by (nonlinear_arith)
        requires cell < 0x1_0000_0000, layer < 0x1_0000;
    (cell as u64) * 0x1_0000 + (layer as u64)
}

/// The view of an optional pin identifier.
pub open spec fn opt_pin(p: Option<PinId>) -> Option<u32> {
    match p {
        Some(x) => Some(x@),
        None => None,
    }
}

/// The key of a pair of layer numbers in the lookup table.
pub open spec fn index_datatype_key(index: u32, datatype: u32) -> u64 {
    (index * 0x1_0000_0000 + datatype) as u64
}

/// Pairs of layer numbers have distinct keys, and every key is the key of a pair.
proof fn lemma_index_datatype_key(k: u64)
    ensures
        forall|i1: u32, d1: u32, i2: u32, d2: u32| #[trigger] index_datatype_key(i1, d1) == #[trigger] index_datatype_key(i2, d2)
            ==> i1 == i2 && d1 == d2,
        index_datatype_key((k / 0x1_0000_0000) as u32, (k % 0x1_0000_0000) as u32) == k,
{
    assert forall|i1: u32, d1: u32, i2: u32, d2: u32| #[trigger] index_datatype_key(i1, d1) == #[trigger] index_datatype_key(i2, d2)
        implies i1 == i2 && d1 == d2 by {
        assert(i1 * 0x1_0000_0000 + d1 < 0x1_0000_0000_0000_0000) by (nonlinear_arith)
            requires i1 < 0x1_0000_0000, d1 < 0x1_0000_0000;
        assert(i2 * 0x1_0000_0000 + d2 < 0x1_0000_0000_0000_0000) by (nonlinear_arith)
            requires i2 < 0x1_0000_0000, d2 < 0x1_0000_0000;
        assert(i1 == i2 && d1 == d2) by (nonlinear_arith)
            requires
                i1 * 0x1_0000_0000 + d1 == i2 * 0x1_0000_0000 + d2,
                0 <= d1 < 0x1_0000_0000,
                0 <= d2 < 0x1_0000_0000,
                0 <= i1,
                0 <= i2;
    }
    let i = k / 0x1_0000_0000;
    let d = k % 0x1_0000_0000;
    assert(i * 0x1_0000_0000 + d == k) by (nonlinear_arith)
        requires i == k / 0x1_0000_0000, d == k % 0x1_0000_0000;
    assert(i < 0x1_0000_0000) by (nonlinear_arith)
        requires i == k / 0x1_0000_0000, k < 0x1_0000_0000_0000_0000;
}

/// The key of a pair of layer numbers in the lookup table.
fn layer_key(index: u32, datatype: u32) -> (res: u64)
    ensures
        res == index_datatype_key(index, datatype),
{
    assert((index as u64) * 0x1_0000_0000 + (datatype as u64) < 0x1_0000_0000_0000_0000) by (nonlinear_arith)
        requires index < 0x1_0000_0000, datatype < 0x1_0000_0000;
    (index as u64) * 0x1_0000_0000 + (datatype as u64)
}

/// The view of the meta-data of a layer.
pub open spec fn layer_view(x: LayerInfo<String>) -> LayerView {
    LayerView { index: x.index, datatype: x.datatype, name: opt_name(x.name) }
}

impl Chip {
    /// The layers of the chip.
    pub closed spec fn layers(self) -> LayersView {
        LayersView {
            dbu: self.dbu,
            next_layer: self.layer_index_generator@,
            info: self.layer_info@.map_values(|x: LayerInfo<String>| layer_view(x)),
            by_name: self.layers_by_name@,
            by_index_datatype: Map::new(
                |k: (u32, u32)| self.layers_by_index_datatype@.contains_key(index_datatype_key(k.0, k.1)),
                |k: (u32, u32)| self.layers_by_index_datatype@[index_datatype_key(k.0, k.1)],
            ),
        }
    }
}

impl Chip {
    /// The shapes of the chip.
    pub closed spec fn shapes_view(self) -> ShapesView {
        ShapesView {
            next_shape: self.shape_index_generator@,
            shapes: Map::new(
                |s: u32| self.shapes@.contains_key(s) && self.shape_parents@.contains_key(s),
                |s: u32| ShapeView {
                    geometry: self.shapes@[s].geometry,
                    cell: self.shape_parents@[s].0@,
                    layer: self.shape_parents@[s].1@,
                    net: opt_net(self.shapes@[s].net),
                    pin: opt_pin(self.shapes@[s].pin),
                },
            ),
            containers: Set::new(|k: (u32, u16)| self.shape_containers@.contains(container_key(k.0, k.1))),
            net_shapes: self.net_shapes@.map_values(|x: FnvHashSet<u32>| x@),
            pin_shapes: self.pin_shapes@.map_values(|x: FnvHashSet<u32>| x@),
            transforms: self.instance_transforms@,
        }
    }
}

impl Default for Chip {
    /// An empty chip.
    fn default() -> (res: Self)
        ensures
            res.wf(),
            res@.circuits == Map::<u32, CircuitView>::empty(),
            res@.instances == Map::<usize, InstView>::empty(),
            res@.nets == Map::<usize, NetView>::empty(),
            res@.pins == Map::<u32, PinView>::empty(),
            res@.pin_insts == Map::<usize, PinInstView>::empty(),
            res@.circuits_by_name == Map::<Seq<char>, u32>::empty(),
            res@.next_circuit == 0,
            res@.next_inst == 0,
            res@.next_pin == 0,
            res@.next_pin_inst == 0,
            res@.next_net == 0,
            res.layers() == (LayersView {
                dbu: 1,
                next_layer: 0,
                info: Map::empty(),
                by_name: Map::empty(),
                by_index_datatype: Map::empty(),
            }),
            res.shapes_view() == (ShapesView {
                next_shape: 0,
                shapes: Map::empty(),
                containers: Set::empty(),
                net_shapes: Map::empty(),
                pin_shapes: Map::empty(),
                transforms: Map::empty(),
            }),
    {
        Chip::new()
    }
}

/// Get the value of a counter and increment the counter afterwards.
fn next_id_counter_usize(ctr: &mut usize) -> (res: usize)
    requires
        *old(ctr) < usize::MAX,
    ensures
        res == *old(ctr),
        *final(ctr) == *old(ctr) + 1,
{
    let c = *ctr;
    *ctr = *ctr + 1;
    c
}

/// Get the value of a counter and increment the counter afterwards.
fn next_id_counter_u32(ctr: &mut u32) -> (res: u32)
    requires
        *old(ctr) < u32::MAX,
    ensures
        res == *old(ctr),
        *final(ctr) == *old(ctr) + 1,
{
    let c = *ctr;
    *ctr = *ctr + 1;
    c
}

impl Chip {
    /// Consistency of the chip.
    pub open spec fn wf(self) -> bool {
        &&& self@.inv()
        &&& self.layers().inv()
        &&& self.shapes_view().inv()
        &&& forall|n: usize| #[trigger] self.shapes_view().net_shapes.contains_key(n) ==> n < self@.next_net
    }

    /// `wf` but for the order of the pin instances.
    pub open spec fn wf_core(self) -> bool {
        &&& self@.inv_core()
        &&& self.layers().inv()
        &&& self.shapes_view().inv()
        &&& forall|n: usize| #[trigger] self.shapes_view().net_shapes.contains_key(n) ==> n < self@.next_net
    }

    /// Create an empty chip.
    pub fn new() -> (res: Self)
        ensures
            res.wf(),
            res@.circuits == Map::<u32, CircuitView>::empty(),
            res@.instances == Map::<usize, InstView>::empty(),
            res@.nets == Map::<usize, NetView>::empty(),
            res@.pins == Map::<u32, PinView>::empty(),
            res@.pin_insts == Map::<usize, PinInstView>::empty(),
            res@.circuits_by_name == Map::<Seq<char>, u32>::empty(),
            res@.next_circuit == 0,
            res@.next_inst == 0,
            res@.next_pin == 0,
            res@.next_pin_inst == 0,
            res@.next_net == 0,
            res.layers() == (LayersView {
                dbu: 1,
                next_layer: 0,
                info: Map::empty(),
                by_name: Map::empty(),
                by_index_datatype: Map::empty(),
            }),
            res.shapes_view() == (ShapesView {
                next_shape: 0,
                shapes: Map::empty(),
                containers: Set::empty(),
                net_shapes: Map::empty(),
                pin_shapes: Map::empty(),
                transforms: Map::empty(),
            }),
    {
        let res = Chip {
            circuits: FnvHashMap::default(),
            circuits_by_name: StringHashMap::new(),
            circuit_instances: FnvHashMap::default(),
            nets: FnvHashMap::default(),
            pins: FnvHashMap::default(),
            pin_instances: FnvHashMap::default(),
            id_counter_circuit: 0,
            id_counter_circuit_inst: 0,
            id_counter_pin: 0,
            id_counter_pin_inst: 0,
            id_counter_net: 0,
            dbu: 1,
            layer_index_generator: IndexGenerator::<LayerInfo<String>, u16>::new(0),
            layers_by_name: StringHashMap::new(),
            layers_by_index_datatype: FnvHashMap::default(),
            layer_info: FnvHashMap::default(),
            shape_index_generator: IndexGenerator::<Shape, u32>::new(0),
            shapes: FnvHashMap::default(),
            shape_parents: FnvHashMap::default(),
            shape_containers: FnvHashSet::default(),
            net_shapes: FnvHashMap::default(),
            pin_shapes: FnvHashMap::default(),
            instance_transforms: FnvHashMap::default(),
        };
        assert(res@.circuits =~= Map::<u32, CircuitView>::empty());
        assert(res@.instances =~= Map::<usize, InstView>::empty());
        assert(res@.nets =~= Map::<usize, NetView>::empty());
        assert(res@.pins =~= Map::<u32, PinView>::empty());
        assert(res@.pin_insts =~= Map::<usize, PinInstView>::empty());
        assert(res.layers().info =~= Map::empty());
        assert(res.layers().by_index_datatype =~= Map::empty());
        assert(res.shapes_view().shapes =~= Map::empty());
        assert(res.shapes_view().containers =~= Set::empty());
        assert(res.shapes_view().net_shapes =~= Map::empty());
        assert(res.shapes_view().pin_shapes =~= Map::empty());
        res
    }

    /// Find a circuit by its name.
    pub fn circuit_by_name(&self, name: &str) -> (res: Option<CellId>)
        requires
            self.wf(),
        ensures
            match res {
                Some(c) => self@.circuits_by_name.contains_key(name@) && c@ == self@.circuits_by_name[name@],
                None => !self@.circuits_by_name.contains_key(name@),
            },
    {
        match self.circuits_by_name.get(name) {
            Some(id) => Some(CellId(*id)),
            None => None,
        }
    }

    /// Get a reference to a circuit.
    fn circuit(&self, id: &CellId) -> (res: &Circuit)
        requires
            self@.circuits.contains_key(id@),
        ensures
            res@ == self@.circuits[id@],
    {
        fnv_map_get(&self.circuits, &id.0).unwrap()
    }

    /// Get a reference to a circuit instance.
    fn circuit_inst(&self, id: &CellInstId) -> (res: &CircuitInst)
        requires
            self@.instances.contains_key(id@),
        ensures
            res@ == self@.instances[id@],
    {
        fnv_map_get(&self.circuit_instances, &id.0).unwrap()
    }

    /// Get a reference to a net.
    fn net(&self, id: &NetId) -> (res: &Net)
        requires
            self@.nets.contains_key(id@),
        ensures
            res@ == self@.nets[id@],
    {
        fnv_map_get(&self.nets, &id.0).unwrap()
    }

    /// Get a reference to a pin.
    fn pin(&self, id: &PinId) -> (res: &Pin)
        requires
            self@.pins.contains_key(id@),
        ensures
            res@ == self@.pins[id@],
    {
        fnv_map_get(&self.pins, &id.0).unwrap()
    }

    /// Get a reference to a pin instance.
    fn pin_inst(&self, id: &PinInstId) -> (res: &PinInst)
        requires
            self@.pin_insts.contains_key(id@),
        ensures
            res@ == self@.pin_insts[id@],
    {
        fnv_map_get(&self.pin_instances, &id.0).unwrap()
    }
}

impl Chip {
    /// Clone an optional name.
    fn clone_name(name: &Option<String>) -> (res: Option<String>)
        ensures
            opt_name(res) == opt_name(*name),
    {
        match name {
            Some(s) => Some(s.clone()),
            None => None,
        }
    }

    /// Create a new net in the `parent` circuit.
    pub fn create_net(&mut self, parent: &CellId, name: Option<String>) -> (res: NetId)
        requires
            old(self).wf(),
            old(self)@.circuits.contains_key(parent@),
            old(self)@.next_net < usize::MAX,
            name matches Some(s) ==> !old(self)@.circuits[parent@].nets_by_name.contains_key(s@),
        ensures
            final(self).wf(),
            final(self).layers() == old(self).layers(),
            final(self).shapes_view() == old(self).shapes_view(),
            res@ == old(self)@.next_net,
            final(self)@.next_net == old(self)@.next_net + 1,
            final(self)@.nets == old(self)@.nets.insert(res@, NetView {
                name: opt_name(name),
                parent: parent@,
                pins: Set::empty(),
                pin_instances: Set::empty(),
            }),
            final(self)@.circuits == old(self)@.circuits.insert(parent@, CircuitView {
                nets: old(self)@.circuits[parent@].nets.insert(res@),
                nets_by_name: match opt_name(name) {
                    Some(s) => old(self)@.circuits[parent@].nets_by_name.insert(s, res@),
                    None => old(self)@.circuits[parent@].nets_by_name,
                },
                ..old(self)@.circuits[parent@]
            }),
            final(self)@.circuits_by_name == old(self)@.circuits_by_name,
            final(self)@.instances == old(self)@.instances,
            final(self)@.pins == old(self)@.pins,
            final(self)@.pin_insts == old(self)@.pin_insts,
            final(self)@.next_circuit == old(self)@.next_circuit,
            final(self)@.next_inst == old(self)@.next_inst,
            final(self)@.next_pin == old(self)@.next_pin,
            final(self)@.next_pin_inst == old(self)@.next_pin_inst,
    {
        let ghost v0 = self@;
        let id = NetId(next_id_counter_usize(&mut self.id_counter_net));
        let net = Net {
            name: Self::clone_name(&name),
            parent_id: *parent,
            pins: FnvHashSet::default(),
            pin_instances: FnvHashSet::default(),
        };
        fnv_map_insert(&mut self.nets, id.0, net);
        let mut circuit = fnv_map_remove(&mut self.circuits, &parent.0).unwrap();
        fnv_set_insert(&mut circuit.nets, id.0);
        match name {
            Some(name) => {
                circuit.nets_by_name.insert(name, id.0);
            },
            None => {},
        }
        fnv_map_insert(&mut self.circuits, parent.0, circuit);
        proof {
            let v1 = self@;
            assert(v1.nets =~= v0.nets.insert(id@, v1.nets[id@]));
            assert(v1.circuits =~= v0.circuits.insert(parent@, v1.circuits[parent@]));
            assert(v1.instances =~= v0.instances);
            assert(v1.pins =~= v0.pins);
            assert(v1.pin_insts =~= v0.pin_insts);
            assert forall|c: u32, t: u32|
                #![trigger dep_count(v1.circuits, v1.instances, c, t)]
                #![trigger ref_count(v1.circuits, v1.instances, c, t)]
                v1.circuits.contains_key(c) implies
                dep_count(v1.circuits, v1.instances, c, t) == dep_count(v0.circuits, v0.instances, c, t) && ref_count(v1.circuits, v1.instances, c, t) == ref_count(v0.circuits, v0.instances, c, t) by {
                assert(v1.circuits[c].instances == v0.circuits[c].instances);
                assert(v1.circuits[c].references == v0.circuits[c].references);
                assert(v1.circuits[c].instances.filter(|i: usize| v1.instances[i].template == t)
                    =~= v0.circuits[c].instances.filter(|i: usize| v0.instances[i].template == t));
                assert(v1.circuits[c].references.filter(|i: usize| v1.instances[i].parent == t)
                    =~= v0.circuits[c].references.filter(|i: usize| v0.instances[i].parent == t));
            }
            lemma_acyclic_frame(v0.circuits, v1.circuits);
            assert(v1.inv_ids());
            assert(inv_cell_names(v1.circuits, v1.circuits_by_name));
            assert(inv_instances(v1.circuits, v1.instances, v1.pin_insts));
            assert(inv_deps(v1.circuits, v1.instances));
            assert forall|n: usize| #[trigger] net_is_live(v1.circuits, v1.nets, n) implies net_is_live(v0.circuits, v0.nets, n) || n == id@ by {}
            assert forall|n: usize| #[trigger] net_is_live(v0.circuits, v0.nets, n) implies net_is_live(v1.circuits, v1.nets, n) && v1.nets[n] == v0.nets[n] by {
                assert(n != id@);
            }
            assert(inv_nets(v1.circuits, v1.nets)) by {
                assert forall|n: usize| #[trigger] net_is_live(v1.circuits, v1.nets, n) implies {
                    let x = v1.nets[n];
                    &&& v1.circuits[x.parent].nets.contains(n)
                    &&& (x.name matches Some(s) ==> v1.circuits[x.parent].nets_by_name.contains_key(s)
                        && v1.circuits[x.parent].nets_by_name[s] == n)
                } by {
                    if n != id@ {
                        assert(net_is_live(v0.circuits, v0.nets, n));
                        let x = v0.nets[n];
                        if x.parent == parent@ {
                            if let Some(s) = x.name {
                                if let Some(s2) = opt_name(name) {
                                    assert(s != s2);
                                }
                            }
                        }
                    }
                }
                assert forall|c: u32, s: Seq<char>| #[trigger] v1.circuits.contains_key(c) && #[trigger] v1.circuits[c].nets_by_name.contains_key(s)
                    implies {
                        let n = v1.circuits[c].nets_by_name[s];
                        &&& v1.nets.contains_key(n)
                        &&& v1.nets[n].parent == c
                        &&& v1.nets[n].name == Some(s)
                    } by {
                    if c == parent@ {
                        if opt_name(name) != Some(s) {
                            assert(v0.circuits[c].nets_by_name.contains_key(s));
                        }
                    }
                }
            }
            assert(inv_pins(v1.circuits, v1.nets, v1.pins)) by {
                assert forall|n: usize, p: u32| #[trigger] net_is_live(v1.circuits, v1.nets, n) && #[trigger] v1.nets[n].pins.contains(p)
                    implies v1.pins.contains_key(p) && v1.pins[p].net == Some(n) by {
                    assert(n != id@);
                }
                assert forall|p: u32| #[trigger] v1.pins.contains_key(p) implies {
                    let x = v1.pins[p];
                    &&& v1.circuits.contains_key(x.circuit)
                    &&& v1.circuits[x.circuit].pins.contains(p)
                    &&& (x.net matches Some(n) ==> net_is_live(v1.circuits, v1.nets, n) && v1.nets[n].parent == x.circuit
                        && v1.nets[n].pins.contains(p))
                } by {
                    let x = v0.pins[p];
                    if let Some(n) = x.net {
                        assert(net_is_live(v0.circuits, v0.nets, n));
                    }
                }
            }
            assert(inv_pin_insts(v1.circuits, v1.instances, v1.nets, v1.pin_insts));
        }
        id
    }
}

/// The dependency counters of two views agree when the instance sets of all
/// circuits and the templates and parents of all instances agree.
proof fn lemma_counts_frame(v0: ChipView, v1: ChipView)
    requires
        v1.circuits.dom() == v0.circuits.dom(),
        forall|c: u32| #[trigger] v1.circuits.contains_key(c) ==>
            v1.circuits[c].instances == v0.circuits[c].instances
            && v1.circuits[c].references == v0.circuits[c].references,
        forall|c: u32, i: usize| #[trigger] v0.circuits.contains_key(c) && #[trigger] v0.circuits[c].instances.contains(i)
            ==> v1.instances[i].template == v0.instances[i].template,
        forall|c: u32, i: usize| #[trigger] v0.circuits.contains_key(c) && #[trigger] v0.circuits[c].references.contains(i)
            ==> v1.instances[i].parent == v0.instances[i].parent,
    ensures
        forall|c: u32, t: u32|
            #![trigger dep_count(v1.circuits, v1.instances, c, t)]
            #![trigger ref_count(v1.circuits, v1.instances, c, t)]
            v1.circuits.contains_key(c) ==> dep_count(v1.circuits, v1.instances, c, t) == dep_count(v0.circuits, v0.instances, c, t) && ref_count(v1.circuits, v1.instances, c, t) == ref_count(v0.circuits, v0.instances, c, t),
{
    assert forall|c: u32, t: u32|
        #![trigger dep_count(v1.circuits, v1.instances, c, t)]
        #![trigger ref_count(v1.circuits, v1.instances, c, t)]
        v1.circuits.contains_key(c) implies
        dep_count(v1.circuits, v1.instances, c, t) == dep_count(v0.circuits, v0.instances, c, t) && ref_count(v1.circuits, v1.instances, c, t) == ref_count(v0.circuits, v0.instances, c, t) by {
        assert(v1.circuits[c].instances.filter(|i: usize| v1.instances[i].template == t)
            =~= v0.circuits[c].instances.filter(|i: usize| v0.instances[i].template == t));
        assert(v1.circuits[c].references.filter(|i: usize| v1.instances[i].parent == t)
            =~= v0.circuits[c].references.filter(|i: usize| v0.instances[i].parent == t));
    }
}

impl Chip {
    /// Append a new pin instance of `pin` to the circuit instance `inst`.
    fn append_pin_instance(&mut self, inst: CellInstId, pin: PinId) -> (res: PinInstId)
        requires
            old(self).wf_core(),
            old(self)@.instances.contains_key(inst@),
            old(self)@.next_pin_inst < usize::MAX,
            old(self)@.pins.contains_key(pin@),
            old(self)@.pins[pin@].circuit == old(self)@.instances[inst@].template,
            forall|k: int| 0 <= k < old(self)@.instances[inst@].pins.len()
                ==> old(self)@.pin_insts[#[trigger] old(self)@.instances[inst@].pins[k]].template_pin != pin@,
        ensures
            final(self).wf_core(),
            final(self).layers() == old(self).layers(),
            final(self).shapes_view() == old(self).shapes_view(),
            res@ == old(self)@.next_pin_inst,
            final(self)@.next_pin_inst == old(self)@.next_pin_inst + 1,
            final(self)@.pin_insts == old(self)@.pin_insts.insert(res@, PinInstView {
                template_pin: pin@,
                circuit_inst: inst@,
                net: None,
            }),
            final(self)@.instances == old(self)@.instances.insert(inst@, InstView {
                pins: old(self)@.instances[inst@].pins.push(res@),
                ..old(self)@.instances[inst@]
            }),
            final(self)@.circuits == old(self)@.circuits,
            final(self)@.circuits_by_name == old(self)@.circuits_by_name,
            final(self)@.nets == old(self)@.nets,
            final(self)@.pins == old(self)@.pins,
            final(self)@.next_circuit == old(self)@.next_circuit,
            final(self)@.next_inst == old(self)@.next_inst,
            final(self)@.next_pin == old(self)@.next_pin,
            final(self)@.next_net == old(self)@.next_net,
    {
        let ghost v0 = self@;
        let id = PinInstId(next_id_counter_usize(&mut self.id_counter_pin_inst));
        let pi = PinInst { template_pin_id: pin, circuit_inst: inst, net: None };
        fnv_map_insert(&mut self.pin_instances, id.0, pi);
        let mut ci = fnv_map_remove(&mut self.circuit_instances, &inst.0).unwrap();
        ci.pins.push(id.0);
        fnv_map_insert(&mut self.circuit_instances, inst.0, ci);
        proof {
            let v1 = self@;
            assert(v1.pin_insts =~= v0.pin_insts.insert(id@, v1.pin_insts[id@]));
            assert(v1.instances =~= v0.instances.insert(inst@, v1.instances[inst@]));
            assert(v1.circuits =~= v0.circuits);
            assert(v1.nets =~= v0.nets);
            assert(v1.pins =~= v0.pins);
            lemma_counts_frame(v0, v1);
            assert(!v0.pin_insts.contains_key(id@));
            assert(!v0.instances[inst@].pins.contains(id@));
            assert(inv_instances(v1.circuits, v1.instances, v1.pin_insts)) by {
                assert forall|i: usize| #[trigger] v1.instances.contains_key(i) implies {
                    let x = v1.instances[i];
                    &&& x.pins.no_duplicates()
                    &&& forall|k: int| 0 <= k < x.pins.len() ==> v1.pin_insts.contains_key(#[trigger] x.pins[k])
                        && v1.pin_insts[x.pins[k]].circuit_inst == i
                } by {
                    let x = v1.instances[i];
                    assert forall|k: int| 0 <= k < x.pins.len() implies v1.pin_insts.contains_key(#[trigger] x.pins[k])
                        && v1.pin_insts[x.pins[k]].circuit_inst == i by {
                        if i == inst@ && k == x.pins.len() - 1 {
                        } else {
                            assert(x.pins[k] == v0.instances[i].pins[k]);
                        }
                    }
                }
            }
            assert(inv_pin_insts(v1.circuits, v1.instances, v1.nets, v1.pin_insts)) by {
                assert forall|q: usize| #[trigger] v1.pin_insts.contains_key(q) implies {
                    let x = v1.pin_insts[q];
                    if v1.instances.contains_key(x.circuit_inst) {
                        &&& v1.instances[x.circuit_inst].pins.contains(q)
                        &&& (x.net matches Some(n) ==> net_is_live(v1.circuits, v1.nets, n)
                            && v1.nets[n].parent == v1.instances[x.circuit_inst].parent
                            && v1.nets[n].pin_instances.contains(q))
                    } else {
                        x.net is None
                    }
                } by {
                    let x = v1.pin_insts[q];
                    if q != id@ && x.circuit_inst == inst@ {
                        assert(v0.instances[inst@].pins.contains(q));
                        let k = choose|k: int| 0 <= k < v0.instances[inst@].pins.len() && v0.instances[inst@].pins[k] == q;
                        assert(v1.instances[inst@].pins[k] == q);
                    }
                    if q == id@ {
                        assert(v1.instances[inst@].pins[v1.instances[inst@].pins.len() - 1] == q);
                    }
                }
                assert forall|n: usize, q: usize| #[trigger] net_is_live(v1.circuits, v1.nets, n) && #[trigger] v1.nets[n].pin_instances.contains(q)
                    implies pin_inst_is_live(v1.instances, v1.pin_insts, q) && v1.pin_insts[q].net == Some(n) by {
                    assert(net_is_live(v0.circuits, v0.nets, n));
                    assert(pin_inst_is_live(v0.instances, v0.pin_insts, q));
                    assert(q != id@);
                }
            }
            lemma_acyclic_frame(v0.circuits, v1.circuits);
            assert(v1.inv_ids());
            assert(inv_cell_names(v1.circuits, v1.circuits_by_name));
            assert(inv_deps(v1.circuits, v1.instances));
            assert(inv_nets(v1.circuits, v1.nets));
            assert(inv_pins(v1.circuits, v1.nets, v1.pins));
            assert(inv_pin_inst_templates(v1.instances, v1.pins, v1.pin_insts)) by {
                assert forall|i: usize| #[trigger] v1.instances.contains_key(i) implies {
                    &&& forall|k: int| 0 <= k < v1.instances[i].pins.len()
                        ==> v1.pins.contains_key(#[trigger] v1.pin_insts[v1.instances[i].pins[k]].template_pin)
                    &&& forall|a: int, b: int| 0 <= a < b < v1.instances[i].pins.len()
                        ==> v1.pin_insts[#[trigger] v1.instances[i].pins[a]].template_pin
                            != v1.pin_insts[#[trigger] v1.instances[i].pins[b]].template_pin
                } by {
                    let old_len = v0.instances[i].pins.len();
                    assert forall|k: int| 0 <= k < v1.instances[i].pins.len()
                        implies v1.pins.contains_key(#[trigger] v1.pin_insts[v1.instances[i].pins[k]].template_pin) by {
                        if i != inst@ || k < old_len {
                            assert(v1.instances[i].pins[k] == v0.instances[i].pins[k]);
                            assert(v0.pin_insts.contains_key(v0.instances[i].pins[k]));
                        }
                    }
                    assert forall|a: int, b: int| 0 <= a < b < v1.instances[i].pins.len()
                        implies v1.pin_insts[#[trigger] v1.instances[i].pins[a]].template_pin
                            != v1.pin_insts[#[trigger] v1.instances[i].pins[b]].template_pin by {
                        assert(v1.instances[i].pins[a] == v0.instances[i].pins[a]);
                        assert(v0.pin_insts.contains_key(v0.instances[i].pins[a]));
                        if i != inst@ || b < old_len {
                            assert(v1.instances[i].pins[b] == v0.instances[i].pins[b]);
                            assert(v0.pin_insts.contains_key(v0.instances[i].pins[b]));
                        } else {
                            assert(v1.instances[i].pins[b] == id@);
                        }
                    }
                }
            }
        }
        id
    }
}

impl Chip {
    /// Append a new pin to the `parent` circuit.
    /// Every instance of the circuit gets a new pin instance for it.
    pub fn create_pin(&mut self, parent: CellId, name: String, direction: Direction) -> (res: PinId)
        requires
            old(self).wf(),
            old(self)@.circuits.contains_key(parent@),
            old(self)@.next_pin < u32::MAX,
            old(self)@.next_pin_inst + old(self)@.circuits[parent@].references.len() <= usize::MAX,
        ensures
            final(self).wf(),
            final(self).layers() == old(self).layers(),
            final(self).shapes_view() == old(self).shapes_view(),
            res@ == old(self)@.next_pin,
            final(self)@.next_pin == old(self)@.next_pin + 1,
            final(self)@.pins == old(self)@.pins.insert(res@, PinView {
                name: name@,
                direction: direction,
                circuit: parent@,
                net: None,
            }),
            final(self)@.circuits == old(self)@.circuits.insert(parent@, CircuitView {
                pins: old(self)@.circuits[parent@].pins.push(res@),
                ..old(self)@.circuits[parent@]
            }),
            final(self)@.circuits_by_name == old(self)@.circuits_by_name,
            final(self)@.nets == old(self)@.nets,
            final(self)@.next_circuit == old(self)@.next_circuit,
            final(self)@.next_inst == old(self)@.next_inst,
            final(self)@.next_net == old(self)@.next_net,
            final(self)@.next_pin_inst == old(self)@.next_pin_inst + old(self)@.circuits[parent@].references.len(),
            final(self)@.instances.dom() == old(self)@.instances.dom(),
            forall|i: usize| #[trigger] old(self)@.instances.contains_key(i)
                && !old(self)@.circuits[parent@].references.contains(i)
                ==> final(self)@.instances[i] == old(self)@.instances[i],
            forall|i: usize| #[trigger] old(self)@.circuits[parent@].references.contains(i) ==> {
                let q = final(self)@.instances[i].pins.last();
                &&& final(self)@.instances[i] == InstView { pins: old(self)@.instances[i].pins.push(q), ..old(self)@.instances[i] }
                &&& final(self)@.pin_insts.contains_key(q)
                &&& final(self)@.pin_insts[q] == PinInstView { template_pin: res@, circuit_inst: i, net: None }
                &&& !old(self)@.pin_insts.contains_key(q)
            },
            forall|q: usize| #[trigger] old(self)@.pin_insts.contains_key(q) ==>
                final(self)@.pin_insts.contains_key(q) && final(self)@.pin_insts[q] == old(self)@.pin_insts[q],
            forall|q: usize| #[trigger] final(self)@.pin_insts.contains_key(q) && !old(self)@.pin_insts.contains_key(q) ==> {
                &&& final(self)@.pin_insts[q].template_pin == res@
                &&& old(self)@.circuits[parent@].references.contains(final(self)@.pin_insts[q].circuit_inst)
                &&& final(self)@.pin_insts[q].net is None
            },
    {
        let ghost v0 = self@;
        let pin_id = PinId(next_id_counter_u32(&mut self.id_counter_pin));
        let pin = Pin { name, direction, circuit: parent, net: None };
        fnv_map_insert(&mut self.pins, pin_id.0, pin);
        // Register the pin in the circuit.
        let mut circuit = fnv_map_remove(&mut self.circuits, &parent.0).unwrap();
        circuit.pins.push(pin_id.0);
        let refs = fnv_set_to_vec(&circuit.references);
        fnv_map_insert(&mut self.circuits, parent.0, circuit);
        let ghost v1 = self@;
        proof {
            assert(v1.pins =~= v0.pins.insert(pin_id@, v1.pins[pin_id@]));
            assert(v1.circuits =~= v0.circuits.insert(parent@, v1.circuits[parent@]));
            assert(v1.instances =~= v0.instances);
            assert(v1.nets =~= v0.nets);
            assert(v1.pin_insts =~= v0.pin_insts);
            lemma_counts_frame(v0, v1);
            assert(!v0.pins.contains_key(pin_id@));
            assert(!v0.circuits[parent@].pins.contains(pin_id@));
            assert(inv_pins(v1.circuits, v1.nets, v1.pins)) by {
                assert forall|c: u32| #[trigger] v1.circuits.contains_key(c) implies {
                    &&& v1.circuits[c].pins.no_duplicates()
                    &&& forall|k: int| 0 <= k < v1.circuits[c].pins.len() ==> v1.pins.contains_key(#[trigger] v1.circuits[c].pins[k])
                        && v1.pins[v1.circuits[c].pins[k]].circuit == c
                } by {
                    if c == parent@ {
                        assert forall|k: int| 0 <= k < v1.circuits[c].pins.len() implies v1.pins.contains_key(#[trigger] v1.circuits[c].pins[k])
                            && v1.pins[v1.circuits[c].pins[k]].circuit == c by {
                            if k < v0.circuits[c].pins.len() {
                                assert(v1.circuits[c].pins[k] == v0.circuits[c].pins[k]);
                            }
                        }
                    }
                }
                assert forall|p: u32| #[trigger] v1.pins.contains_key(p) implies {
                    let x = v1.pins[p];
                    &&& v1.circuits.contains_key(x.circuit)
                    &&& v1.circuits[x.circuit].pins.contains(p)
                    &&& (x.net matches Some(n) ==> net_is_live(v1.circuits, v1.nets, n) && v1.nets[n].parent == x.circuit
                        && v1.nets[n].pins.contains(p))
                } by {
                    if p == pin_id@ {
                        assert(v1.circuits[parent@].pins.last() == p);
                    } else {
                        let x = v0.pins[p];
                        if x.circuit == parent@ {
                            let k = choose|k: int| 0 <= k < v0.circuits[parent@].pins.len() && v0.circuits[parent@].pins[k] == p;
                            assert(v1.circuits[parent@].pins[k] == p);
                        }
                        if let Some(n) = x.net {
                            assert(net_is_live(v0.circuits, v0.nets, n));
                        }
                    }
                }
                assert forall|n: usize, p: u32| #[trigger] net_is_live(v1.circuits, v1.nets, n) && #[trigger] v1.nets[n].pins.contains(p)
                    implies v1.pins.contains_key(p) && v1.pins[p].net == Some(n) by {
                    assert(net_is_live(v0.circuits, v0.nets, n));
                }
            }
            assert(inv_nets(v1.circuits, v1.nets)) by {
                assert forall|n: usize| #[trigger] net_is_live(v1.circuits, v1.nets, n) implies net_is_live(v0.circuits, v0.nets, n) by {}
            }
            assert(inv_pin_insts(v1.circuits, v1.instances, v1.nets, v1.pin_insts)) by {
                assert forall|n: usize| #[trigger] net_is_live(v1.circuits, v1.nets, n) <==> net_is_live(v0.circuits, v0.nets, n) by {}
            }
            lemma_acyclic_frame(v0.circuits, v1.circuits);
            assert(v1.inv_ids());
            assert(inv_cell_names(v1.circuits, v1.circuits_by_name));
            assert(inv_instances(v1.circuits, v1.instances, v1.pin_insts));
            assert(inv_deps(v1.circuits, v1.instances));
            assert(inv_pin_templates(v1.instances, v1.pins, v1.pin_insts)) by {
                assert forall|q: usize| #[trigger] v1.pin_insts.contains_key(q) implies v1.pin_insts[q].template_pin != pin_id@ by {
                    assert(v0.pin_insts[q].template_pin < v0.next_pin);
                }
            }
            assert(inv_pin_inst_templates(v1.instances, v1.pins, v1.pin_insts));
            refs@.unique_seq_to_set();
        }
        // Insert the pin in all instances of this circuit.
        let mut k: usize = 0;
        while k < refs.len()
            invariant
                self.layers() == old(self).layers(),
                self.shapes_view() == old(self).shapes_view(),
                self.wf_core(),
                v0.inv(),
                v0.circuits.contains_key(parent@),
                k <= refs@.len(),
                refs@.no_duplicates(),
                refs@.to_set() == v0.circuits[parent@].references,
                refs@.len() == v0.circuits[parent@].references.len(),
                v1.next_pin_inst == v0.next_pin_inst,
                v0.next_pin_inst + refs@.len() <= usize::MAX,
                self@.next_pin_inst == v0.next_pin_inst + k,
                self@.pins == v1.pins,
                self@.circuits == v1.circuits,
                self@.circuits_by_name == v1.circuits_by_name,
                self@.nets == v1.nets,
                self@.next_circuit == v1.next_circuit,
                self@.next_inst == v1.next_inst,
                self@.next_pin == v1.next_pin,
                self@.next_net == v1.next_net,
                v1.instances == v0.instances,
                v1.pin_insts == v0.pin_insts,
                v1.pins.contains_key(pin_id@),
                v1.pins[pin_id@].circuit == parent@,
                pin_id@ < v1.next_pin,
                pin_id@ == v0.next_pin,
                self@.instances.dom() == v0.instances.dom(),
                forall|i: usize| #[trigger] v0.instances.contains_key(i) && !refs@.subrange(0, k as int).contains(i)
                    ==> self@.instances[i] == v0.instances[i],
                forall|i: usize| #[trigger] refs@.subrange(0, k as int).contains(i) ==> {
                    let q = self@.instances[i].pins.last();
                    &&& self@.instances[i] == InstView { pins: v0.instances[i].pins.push(q), ..v0.instances[i] }
                    &&& self@.pin_insts.contains_key(q)
                    &&& self@.pin_insts[q] == PinInstView { template_pin: pin_id@, circuit_inst: i, net: None }
                    &&& !v0.pin_insts.contains_key(q)
                },
                forall|q: usize| #[trigger] v0.pin_insts.contains_key(q) ==>
                    self@.pin_insts.contains_key(q) && self@.pin_insts[q] == v0.pin_insts[q],
                forall|q: usize| #[trigger] self@.pin_insts.contains_key(q) && !v0.pin_insts.contains_key(q) ==> {
                    &&& self@.pin_insts[q].template_pin == pin_id@
                    &&& refs@.subrange(0, k as int).contains(self@.pin_insts[q].circuit_inst)
                    &&& self@.pin_insts[q].net is None
                },
            decreases refs@.len() - k,
        {
            let ghost w0 = self@;
            let inst = refs[k];
            proof {
                assert(refs@.to_set().contains(inst));
                assert(v0.instances.contains_key(inst));
                assert(!refs@.subrange(0, k as int).contains(inst));
            }
            proof {
                assert(self@.pins[pin_id@].circuit == parent@);
                assert(v0.instances[inst].template == parent@);
                assert(self@.instances[inst].template == v0.instances[inst].template);
                assert forall|j: int| 0 <= j < self@.instances[inst].pins.len()
                    implies self@.pin_insts[#[trigger] self@.instances[inst].pins[j]].template_pin != pin_id@ by {
                    assert(self@.instances[inst] == v0.instances[inst]);
                    let q0 = v0.instances[inst].pins[j];
                    assert(v0.pin_insts.contains_key(q0));
                    assert(self@.pin_insts[q0] == v0.pin_insts[q0]);
                    assert(v0.pin_insts[q0].template_pin < v0.next_pin);
                }
            }
            let q = self.append_pin_instance(CellInstId(inst), pin_id);
            proof {
                let w1 = self@;
                assert(refs@.subrange(0, k + 1) == refs@.subrange(0, k as int).push(inst));
                assert(refs@.subrange(0, k + 1)[k as int] == inst);
                assert(refs@.subrange(0, k + 1).contains(inst));
                assert forall|i: usize| #[trigger] refs@.subrange(0, k + 1).contains(i) implies {
                    let q2 = w1.instances[i].pins.last();
                    &&& w1.instances[i] == InstView { pins: v0.instances[i].pins.push(q2), ..v0.instances[i] }
                    &&& w1.pin_insts.contains_key(q2)
                    &&& w1.pin_insts[q2] == PinInstView { template_pin: pin_id@, circuit_inst: i, net: None }
                    &&& !v0.pin_insts.contains_key(q2)
                } by {
                    if i == inst {
                        assert(w0.instances[i] == v0.instances[i]);
                    } else {
                        assert(refs@.subrange(0, k as int).contains(i));
                        let q2 = w0.instances[i].pins.last();
                        assert(w1.instances[i].pins.last() == q2);
                        assert(w0.pin_insts.contains_key(q2));
                        assert(q2 != q@);
                    }
                }
                assert forall|i: usize| #[trigger] v0.instances.contains_key(i) && !refs@.subrange(0, k + 1).contains(i)
                    implies w1.instances[i] == v0.instances[i] by {
                    assert(!refs@.subrange(0, k as int).contains(i));
                    assert(i != inst);
                }
                assert forall|q2: usize| #[trigger] v0.pin_insts.contains_key(q2) implies
                    w1.pin_insts.contains_key(q2) && w1.pin_insts[q2] == v0.pin_insts[q2] by {
                    assert(w0.pin_insts.contains_key(q2));
                }
                assert forall|q2: usize| #[trigger] w1.pin_insts.contains_key(q2) && !v0.pin_insts.contains_key(q2) implies {
                    &&& w1.pin_insts[q2].template_pin == pin_id@
                    &&& refs@.subrange(0, k + 1).contains(w1.pin_insts[q2].circuit_inst)
                    &&& w1.pin_insts[q2].net is None
                } by {
                    if q2 != q@ {
                        assert(w0.pin_insts.contains_key(q2));
                    } else {
                        assert(refs@.subrange(0, k + 1)[k as int] == inst);
                    }
                }
            }
            k = k + 1;
        }
        proof {
            assert(refs@.subrange(0, k as int) == refs@);
            assert forall|i: usize| #[trigger] refs@.contains(i) <==> v0.circuits[parent@].references.contains(i) by {
                assert(refs@.to_set().contains(i) <==> refs@.contains(i));
            }
            let w = self@;
            assert(inv_pin_order(w.circuits, w.instances, w.pin_insts)) by {
                assert forall|i: usize| #[trigger] w.instances.contains_key(i) implies {
                    &&& w.instances[i].pins.len() == w.circuits[w.instances[i].template].pins.len()
                    &&& forall|kk: int| 0 <= kk < w.instances[i].pins.len()
                        ==> #[trigger] w.pin_insts[w.instances[i].pins[kk]].template_pin == w.circuits[w.instances[i].template].pins[kk]
                } by {
                    assert(v0.instances.contains_key(i));
                    let x0 = v0.instances[i];
                    if refs@.contains(i) {
                        assert(x0.template == parent@);
                        assert forall|kk: int| 0 <= kk < w.instances[i].pins.len() implies
                            #[trigger] w.pin_insts[w.instances[i].pins[kk]].template_pin == w.circuits[w.instances[i].template].pins[kk] by {
                            if kk < x0.pins.len() {
                                assert(w.instances[i].pins[kk] == x0.pins[kk]);
                                assert(v0.pin_insts.contains_key(x0.pins[kk]));
                                assert(w.circuits[parent@].pins[kk] == v0.circuits[parent@].pins[kk]);
                            }
                        }
                    } else {
                        assert(x0.template != parent@) by {
                            if x0.template == parent@ {
                                assert(v0.circuits[x0.template].references.contains(i));
                            }
                        }
                        assert(w.instances[i] == x0);
                        assert forall|kk: int| 0 <= kk < w.instances[i].pins.len() implies
                            #[trigger] w.pin_insts[w.instances[i].pins[kk]].template_pin == w.circuits[w.instances[i].template].pins[kk] by {
                            assert(v0.pin_insts.contains_key(x0.pins[kk]));
                        }
                    }
                }
            }
        }
        pin_id
    }
}

/// The view of a freshly created circuit with the given pins.
pub open spec fn new_circuit_view(id: u32, name: Seq<char>, pins: Seq<u32>, net_low: usize, net_high: usize) -> CircuitView {
    CircuitView {
        id: id,
        name: name,
        instances: Set::empty(),
        instances_by_name: Map::empty(),
        references: Set::empty(),
        dependencies: Map::empty(),
        dependent_circuits: Map::empty(),
        pins: pins,
        nets: set![net_low, net_high],
        nets_by_name: map!["__LOW__"@ => net_low, "__HIGH__"@ => net_high],
        net_low: net_low,
        net_high: net_high,
    }
}

/// The view of a freshly created net without connections.
pub open spec fn new_net_view(name: Option<Seq<char>>, parent: u32) -> NetView {
    NetView { name: name, parent: parent, pins: Set::empty(), pin_instances: Set::empty() }
}

impl Chip {
    /// Create a new circuit template with the given pins.
    /// The circuit gets its constant nets `__LOW__` and `__HIGH__`.
    pub fn create_circuit(&mut self, name: String, pins: Vec<(String, Direction)>) -> (res: CellId)
        requires
            old(self).wf(),
            !old(self)@.circuits_by_name.contains_key(name@),
            old(self)@.next_circuit < u32::MAX,
            old(self)@.next_net + 2 < usize::MAX,
            old(self)@.next_pin + pins@.len() <= u32::MAX,
        ensures
            final(self).wf(),
            final(self).layers() == old(self).layers(),
            final(self).shapes_view() == old(self).shapes_view(),
            res@ == old(self)@.next_circuit,
            final(self)@.next_circuit == old(self)@.next_circuit + 1,
            final(self)@.circuits == old(self)@.circuits.insert(res@, new_circuit_view(
                res@,
                name@,
                Seq::new(pins@.len(), |k: int| (old(self)@.next_pin + k) as u32),
                old(self)@.next_net,
                (old(self)@.next_net + 1) as usize,
            )),
            final(self)@.circuits_by_name == old(self)@.circuits_by_name.insert(name@, res@),
            final(self)@.nets == old(self)@.nets
                .insert(old(self)@.next_net, new_net_view(Some("__LOW__"@), res@))
                .insert((old(self)@.next_net + 1) as usize, new_net_view(Some("__HIGH__"@), res@)),
            final(self)@.next_net == old(self)@.next_net + 2,
            final(self)@.next_pin == old(self)@.next_pin + pins@.len(),
            final(self)@.pins.dom() =~= old(self)@.pins.dom().union(
                Set::new(|p: u32| old(self)@.next_pin <= p < old(self)@.next_pin + pins@.len())),
            forall|p: u32| #[trigger] old(self)@.pins.contains_key(p) ==> final(self)@.pins[p] == old(self)@.pins[p],
            forall|k: int| 0 <= k < pins@.len() ==> #[trigger] final(self)@.pins[(old(self)@.next_pin + k) as u32] == (PinView {
                name: pins@[k].0@,
                direction: pins@[k].1,
                circuit: res@,
                net: None,
            }),
            final(self)@.instances == old(self)@.instances,
            final(self)@.pin_insts == old(self)@.pin_insts,
            final(self)@.next_inst == old(self)@.next_inst,
            final(self)@.next_pin_inst == old(self)@.next_pin_inst,
    {
        let ghost v0 = self@;
        let id = CellId(next_id_counter_u32(&mut self.id_counter_circuit));
        // Create LOW and HIGH nets.
        let net_low = NetId(next_id_counter_usize(&mut self.id_counter_net));
        let net_high = NetId(next_id_counter_usize(&mut self.id_counter_net));
        let low_name = "__LOW__".to_owned();
        let high_name = "__HIGH__".to_owned();
        let mut nets = FnvHashSet::default();
        fnv_set_insert(&mut nets, net_low.0);
        fnv_set_insert(&mut nets, net_high.0);
        let mut nets_by_name = StringHashMap::new();
        nets_by_name.insert(low_name.clone(), net_low.0);
        nets_by_name.insert(high_name.clone(), net_high.0);
        let circuit = Circuit {
            id,
            name: name.clone(),
            pins: Vec::new(),
            instances: FnvHashSet::default(),
            instances_by_name: StringHashMap::new(),
            references: FnvHashSet::default(),
            nets,
            nets_by_name,
            net_low,
            net_high,
            dependent_circuits: FnvHashMap::default(),
            dependencies: FnvHashMap::default(),
        };
        fnv_map_insert(&mut self.nets, net_low.0, Net {
            name: Some(low_name),
            parent_id: id,
            pins: FnvHashSet::default(),
            pin_instances: FnvHashSet::default(),
        });
        fnv_map_insert(&mut self.nets, net_high.0, Net {
            name: Some(high_name),
            parent_id: id,
            pins: FnvHashSet::default(),
            pin_instances: FnvHashSet::default(),
        });
        fnv_map_insert(&mut self.circuits, id.0, circuit);
        self.circuits_by_name.insert(name, id.0);
        let ghost v1 = self@;
        proof {
            reveal_strlit("__LOW__");
            reveal_strlit("__HIGH__");
            assert("__LOW__"@ != "__HIGH__"@) by {
                assert("__LOW__"@[2] != "__HIGH__"@[2]);
            }
            assert(v1.circuits =~= v0.circuits.insert(id@, new_circuit_view(id@, name@, Seq::empty(), net_low@, net_high@)));
            assert(v1.nets =~= v0.nets.insert(net_low@, new_net_view(Some("__LOW__"@), id@))
                .insert(net_high@, new_net_view(Some("__HIGH__"@), id@)));
            assert(v1.instances =~= v0.instances);
            assert(v1.pins =~= v0.pins);
            assert(v1.pin_insts =~= v0.pin_insts);
            assert(!v0.circuits.contains_key(id@));
            assert(!v0.nets.contains_key(net_low@));
            assert(!v0.nets.contains_key(net_high@));
            assert forall|c: u32, t: u32|
                #![trigger dep_count(v1.circuits, v1.instances, c, t)]
                #![trigger ref_count(v1.circuits, v1.instances, c, t)]
                v1.circuits.contains_key(c) implies
                dep_count(v1.circuits, v1.instances, c, t) == (if c == id@ { 0 } else { dep_count(v0.circuits, v0.instances, c, t) })
                && ref_count(v1.circuits, v1.instances, c, t) == (if c == id@ { 0 } else { ref_count(v0.circuits, v0.instances, c, t) }) by {
                if c == id@ {
                    assert(v1.circuits[c].instances.filter(|i: usize| v1.instances[i].template == t) =~= Set::empty());
                    assert(v1.circuits[c].references.filter(|i: usize| v1.instances[i].parent == t) =~= Set::empty());
                } else {
                    assert(v1.circuits[c].instances.filter(|i: usize| v1.instances[i].template == t)
                        =~= v0.circuits[c].instances.filter(|i: usize| v0.instances[i].template == t));
                    assert(v1.circuits[c].references.filter(|i: usize| v1.instances[i].parent == t)
                        =~= v0.circuits[c].references.filter(|i: usize| v0.instances[i].parent == t));
                }
            }
            assert(edges_subset(v1.circuits, v0.circuits)) by {
                assert forall|c: u32, p: u32| #[trigger] v1.circuits.contains_key(c) && #[trigger] v1.circuits[c].dependent_circuits.contains_key(p)
                    implies v0.circuits.contains_key(c) && v0.circuits[c].dependent_circuits.contains_key(p) by {
                    if c == id@ {
                        assert(v1.circuits[c].dependent_circuits == Map::<u32, usize>::empty());
                    }
                }
            }
            lemma_acyclic_subgraph(v0.circuits, v1.circuits);
            assert(v1.inv_ids());
            assert(inv_cell_names(v1.circuits, v1.circuits_by_name));
            assert(inv_instances(v1.circuits, v1.instances, v1.pin_insts));
            assert(inv_deps(v1.circuits, v1.instances));
            assert(inv_nets(v1.circuits, v1.nets)) by {
                assert forall|n: usize| #[trigger] net_is_live(v1.circuits, v1.nets, n) implies {
                    let x = v1.nets[n];
                    &&& v1.circuits[x.parent].nets.contains(n)
                    &&& (x.name matches Some(s) ==> v1.circuits[x.parent].nets_by_name.contains_key(s)
                        && v1.circuits[x.parent].nets_by_name[s] == n)
                } by {
                    if n != net_low@ && n != net_high@ {
                        assert(net_is_live(v0.circuits, v0.nets, n));
                    }
                }
                assert forall|c: u32, n: usize| #[trigger] v1.circuits.contains_key(c) && #[trigger] v1.circuits[c].nets.contains(n)
                    implies v1.nets.contains_key(n) && v1.nets[n].parent == c by {
                    if c != id@ {
                        assert(v0.circuits[c].nets.contains(n));
                    }
                }
            }
            assert(inv_pins(v1.circuits, v1.nets, v1.pins)) by {
                assert forall|n: usize| #[trigger] net_is_live(v1.circuits, v1.nets, n) && n != net_low@ && n != net_high@
                    implies net_is_live(v0.circuits, v0.nets, n) by {}
                assert forall|p: u32| #[trigger] v1.pins.contains_key(p) implies {
                    let x = v1.pins[p];
                    &&& v1.circuits.contains_key(x.circuit)
                    &&& v1.circuits[x.circuit].pins.contains(p)
                    &&& (x.net matches Some(n) ==> net_is_live(v1.circuits, v1.nets, n) && v1.nets[n].parent == x.circuit
                        && v1.nets[n].pins.contains(p))
                } by {
                    let x = v0.pins[p];
                    if let Some(n) = x.net {
                        assert(net_is_live(v0.circuits, v0.nets, n));
                    }
                }
            }
            assert(inv_pin_insts(v1.circuits, v1.instances, v1.nets, v1.pin_insts)) by {
                assert forall|q: usize| #[trigger] v1.pin_insts.contains_key(q) implies {
                    let x = v1.pin_insts[q];
                    if v1.instances.contains_key(x.circuit_inst) {
                        &&& v1.instances[x.circuit_inst].pins.contains(q)
                        &&& (x.net matches Some(n) ==> net_is_live(v1.circuits, v1.nets, n)
                            && v1.nets[n].parent == v1.instances[x.circuit_inst].parent
                            && v1.nets[n].pin_instances.contains(q))
                    } else {
                        x.net is None
                    }
                } by {
                    assert(v0.pin_insts.contains_key(q));
                    let x = v0.pin_insts[q];
                    if let Some(n) = x.net {
                        if v0.instances.contains_key(x.circuit_inst) {
                            assert(net_is_live(v0.circuits, v0.nets, n));
                        }
                    }
                }
                assert forall|n: usize, q: usize| #[trigger] net_is_live(v1.circuits, v1.nets, n) && #[trigger] v1.nets[n].pin_instances.contains(q)
                    implies pin_inst_is_live(v1.instances, v1.pin_insts, q) && v1.pin_insts[q].net == Some(n) by {
                    assert(n != net_low@ && n != net_high@);
                    assert(net_is_live(v0.circuits, v0.nets, n));
                }
            }
        }
        proof {
            assert(Seq::new(0, |j: int| (v0.next_pin + j) as u32) =~= v1.circuits[id@].pins);
            assert(v1.circuits =~= v1.circuits.insert(id@, CircuitView {
                pins: Seq::new(0, |j: int| (v0.next_pin + j) as u32),
                ..v1.circuits[id@]
            }));
            assert(v1.pins.dom() =~= v0.pins.dom().union(Set::new(|p: u32| v0.next_pin <= p < v0.next_pin + 0)));
        }
        // Create pins.
        let mut k: usize = 0;
        while k < pins.len()
            invariant
                self.layers() == old(self).layers(),
                self.shapes_view() == old(self).shapes_view(),
                self.wf(),
                k <= pins@.len(),
                v0.next_pin + pins@.len() <= u32::MAX,
                self@.next_pin == v0.next_pin + k,
                self@.circuits == v1.circuits.insert(id@, CircuitView {
                    pins: Seq::new(k as nat, |j: int| (v0.next_pin + j) as u32),
                    ..v1.circuits[id@]
                }),
                v1.circuits.contains_key(id@),
                v1.circuits[id@].references == Set::<usize>::empty(),
                self@.circuits_by_name == v1.circuits_by_name,
                self@.nets == v1.nets,
                self@.instances == v1.instances,
                self@.pin_insts == v1.pin_insts,
                self@.next_circuit == v1.next_circuit,
                self@.next_inst == v1.next_inst,
                self@.next_net == v1.next_net,
                self@.next_pin_inst == v1.next_pin_inst,
                v1.pins == v0.pins,
                self@.pins.dom() =~= v0.pins.dom().union(Set::new(|p: u32| v0.next_pin <= p < v0.next_pin + k)),
                forall|p: u32| #[trigger] v0.pins.contains_key(p) ==> self@.pins[p] == v0.pins[p],
                forall|j: int| 0 <= j < k ==> #[trigger] self@.pins[(v0.next_pin + j) as u32] == (PinView {
                    name: pins@[j].0@,
                    direction: pins@[j].1,
                    circuit: id@,
                    net: None,
                }),
            decreases pins@.len() - k,
        {
            let ghost w0 = self@;
            let pname = pins[k].0.clone();
            let pdir = pins[k].1;
            proof {
                assert(w0.circuits[id@].references.len() == 0);
            }
            let p = self.create_pin(id, pname, pdir);
            proof {
                let w1 = self@;
                assert(w1.circuits[id@].pins =~= Seq::new((k + 1) as nat, |j: int| (v0.next_pin + j) as u32));
                assert(w1.circuits =~= v1.circuits.insert(id@, CircuitView {
                    pins: Seq::new((k + 1) as nat, |j: int| (v0.next_pin + j) as u32),
                    ..v1.circuits[id@]
                }));
                assert(w1.instances =~= w0.instances);
                assert(w1.pin_insts =~= w0.pin_insts);
                assert(!w0.pins.contains_key(p@));
            }
            k = k + 1;
        }
        proof {
            assert(self@.circuits[id@] == new_circuit_view(
                id@,
                name@,
                Seq::new(pins@.len(), |j: int| (v0.next_pin + j) as u32),
                net_low@,
                net_high@,
            ));
            assert(self@.circuits =~= v0.circuits.insert(id@, self@.circuits[id@]));
        }
        id
    }
}

/// Nets after moving pin `p` from net `from` to net `to`.
pub open spec fn nets_after_pin_move(nets: Map<usize, NetView>, p: u32, from: Option<usize>, to: Option<usize>) -> Map<usize, NetView> {
    let n1 = match from {
        Some(o) => nets.insert(o, NetView { pins: nets[o].pins.remove(p), ..nets[o] }),
        None => nets,
    };
    match to {
        Some(n) => n1.insert(n, NetView { pins: n1[n].pins.insert(p), ..n1[n] }),
        None => n1,
    }
}

/// Nets after moving pin instance `q` from net `from` to net `to`.
pub open spec fn nets_after_pin_inst_move(nets: Map<usize, NetView>, q: usize, from: Option<usize>, to: Option<usize>) -> Map<usize, NetView> {
    let n1 = match from {
        Some(o) => nets.insert(o, NetView { pin_instances: nets[o].pin_instances.remove(q), ..nets[o] }),
        None => nets,
    };
    match to {
        Some(n) => n1.insert(n, NetView { pin_instances: n1[n].pin_instances.insert(q), ..n1[n] }),
        None => n1,
    }
}

/// The view of an optional net identifier.
pub open spec fn opt_net(n: Option<NetId>) -> Option<usize> {
    match n {
        Some(x) => Some(x@),
        None => None,
    }
}

impl Chip {
    /// Connect the pin to a net, or disconnect it with `None`.
    /// Returns the net that was connected before.
    pub fn connect_pin(&mut self, pin: &PinId, net: Option<NetId>) -> (res: Option<NetId>)
        requires
            old(self).wf_core(),
            old(self)@.pins.contains_key(pin@),
            net matches Some(n) ==> old(self)@.nets.contains_key(n@)
                && old(self)@.nets[n@].parent == old(self)@.pins[pin@].circuit,
        ensures
            final(self).wf_core(),
            old(self).wf() ==> final(self).wf(),
            final(self).layers() == old(self).layers(),
            final(self).shapes_view() == old(self).shapes_view(),
            opt_net(res) == old(self)@.pins[pin@].net,
            final(self)@.pins == old(self)@.pins.insert(pin@, PinView { net: opt_net(net), ..old(self)@.pins[pin@] }),
            final(self)@.nets == nets_after_pin_move(old(self)@.nets, pin@, old(self)@.pins[pin@].net, opt_net(net)),
            final(self)@.circuits == old(self)@.circuits,
            final(self)@.circuits_by_name == old(self)@.circuits_by_name,
            final(self)@.instances == old(self)@.instances,
            final(self)@.pin_insts == old(self)@.pin_insts,
            final(self)@.next_circuit == old(self)@.next_circuit,
            final(self)@.next_inst == old(self)@.next_inst,
            final(self)@.next_pin == old(self)@.next_pin,
            final(self)@.next_pin_inst == old(self)@.next_pin_inst,
            final(self)@.next_net == old(self)@.next_net,
    {
        let ghost v0 = self@;
        let mut p = fnv_map_remove(&mut self.pins, &pin.0).unwrap();
        let old_net = p.net;
        p.net = net;
        fnv_map_insert(&mut self.pins, pin.0, p);
        if let Some(o) = old_net {
            // Remove the pin from the old net.
            let mut n = fnv_map_remove(&mut self.nets, &o.0).unwrap();
            fnv_set_remove(&mut n.pins, &pin.0);
            fnv_map_insert(&mut self.nets, o.0, n);
        }
        if let Some(nn) = net {
            // Store the pin in the new net.
            let mut n = fnv_map_remove(&mut self.nets, &nn.0).unwrap();
            fnv_set_insert(&mut n.pins, pin.0);
            fnv_map_insert(&mut self.nets, nn.0, n);
        }
        proof {
            let v1 = self@;
            let from = v0.pins[pin@].net;
            let to = opt_net(net);
            assert(v1.pins =~= v0.pins.insert(pin@, PinView { net: to, ..v0.pins[pin@] }));
            assert(v1.nets =~= nets_after_pin_move(v0.nets, pin@, from, to));
            assert(v1.circuits =~= v0.circuits);
            assert(v1.instances =~= v0.instances);
            assert(v1.pin_insts =~= v0.pin_insts);
            assert(v1.nets.dom() =~= v0.nets.dom());
            assert forall|n: usize| #[trigger] net_is_live(v1.circuits, v1.nets, n) <==> net_is_live(v0.circuits, v0.nets, n) by {}
            assert forall|n: usize| #[trigger] v1.nets.contains_key(n) implies
                v1.nets[n].name == v0.nets[n].name && v1.nets[n].parent == v0.nets[n].parent
                && v1.nets[n].pin_instances == v0.nets[n].pin_instances by {}
            lemma_acyclic_frame(v0.circuits, v1.circuits);
            assert(v1.inv_ids());
            assert(inv_nets(v1.circuits, v1.nets));
            assert(inv_pin_insts(v1.circuits, v1.instances, v1.nets, v1.pin_insts));
            assert(inv_pins(v1.circuits, v1.nets, v1.pins)) by {
                assert forall|p2: u32| #[trigger] v1.pins.contains_key(p2) implies {
                    let x = v1.pins[p2];
                    &&& v1.circuits.contains_key(x.circuit)
                    &&& v1.circuits[x.circuit].pins.contains(p2)
                    &&& (x.net matches Some(n) ==> net_is_live(v1.circuits, v1.nets, n) && v1.nets[n].parent == x.circuit
                        && v1.nets[n].pins.contains(p2))
                } by {
                    assert(v0.pins.contains_key(p2));
                    if p2 != pin@ {
                        if let Some(n) = v0.pins[p2].net {
                            assert(v0.nets[n].pins.contains(p2));
                        }
                    }
                }
                assert forall|n: usize, p2: u32| #[trigger] net_is_live(v1.circuits, v1.nets, n) && #[trigger] v1.nets[n].pins.contains(p2)
                    implies v1.pins.contains_key(p2) && v1.pins[p2].net == Some(n) by {
                    if p2 != pin@ {
                        assert(v0.nets[n].pins.contains(p2));
                    }
                }
            }
        }
        old_net
    }

    /// Disconnect the pin and return the net that was connected.
    pub fn disconnect_pin(&mut self, pin: &PinId) -> (res: Option<NetId>)
        requires
            old(self).wf_core(),
            old(self)@.pins.contains_key(pin@),
        ensures
            final(self).wf_core(),
            old(self).wf() ==> final(self).wf(),
            final(self).layers() == old(self).layers(),
            final(self).shapes_view() == old(self).shapes_view(),
            opt_net(res) == old(self)@.pins[pin@].net,
            final(self)@.pins == old(self)@.pins.insert(pin@, PinView { net: None, ..old(self)@.pins[pin@] }),
            final(self)@.nets == nets_after_pin_move(old(self)@.nets, pin@, old(self)@.pins[pin@].net, None),
            final(self)@.circuits == old(self)@.circuits,
            final(self)@.circuits_by_name == old(self)@.circuits_by_name,
            final(self)@.instances == old(self)@.instances,
            final(self)@.pin_insts == old(self)@.pin_insts,
            final(self)@.next_circuit == old(self)@.next_circuit,
            final(self)@.next_inst == old(self)@.next_inst,
            final(self)@.next_pin == old(self)@.next_pin,
            final(self)@.next_pin_inst == old(self)@.next_pin_inst,
            final(self)@.next_net == old(self)@.next_net,
    {
        self.connect_pin(pin, None)
    }

    /// Connect the pin instance to a net, or disconnect it with `None`.
    /// Returns the net that was connected before.
    pub fn connect_pin_instance(&mut self, pin: &PinInstId, net: Option<NetId>) -> (res: Option<NetId>)
        requires
            old(self).wf_core(),
            old(self)@.pin_insts.contains_key(pin@),
            net matches Some(n) ==> old(self)@.nets.contains_key(n@)
                && old(self)@.instances.contains_key(old(self)@.pin_insts[pin@].circuit_inst)
                && old(self)@.nets[n@].parent == old(self)@.instances[old(self)@.pin_insts[pin@].circuit_inst].parent,
        ensures
            final(self).wf_core(),
            old(self).wf() ==> final(self).wf(),
            final(self).layers() == old(self).layers(),
            final(self).shapes_view() == old(self).shapes_view(),
            opt_net(res) == old(self)@.pin_insts[pin@].net,
            final(self)@.pin_insts == old(self)@.pin_insts.insert(pin@, PinInstView { net: opt_net(net), ..old(self)@.pin_insts[pin@] }),
            final(self)@.nets == nets_after_pin_inst_move(old(self)@.nets, pin@, old(self)@.pin_insts[pin@].net, opt_net(net)),
            final(self)@.circuits == old(self)@.circuits,
            final(self)@.circuits_by_name == old(self)@.circuits_by_name,
            final(self)@.instances == old(self)@.instances,
            final(self)@.pins == old(self)@.pins,
            final(self)@.next_circuit == old(self)@.next_circuit,
            final(self)@.next_inst == old(self)@.next_inst,
            final(self)@.next_pin == old(self)@.next_pin,
            final(self)@.next_pin_inst == old(self)@.next_pin_inst,
            final(self)@.next_net == old(self)@.next_net,
    {
        let ghost v0 = self@;
        let mut p = fnv_map_remove(&mut self.pin_instances, &pin.0).unwrap();
        let old_net = p.net;
        p.net = net;
        fnv_map_insert(&mut self.pin_instances, pin.0, p);
        if let Some(o) = old_net {
            // Remove the pin instance from the old net.
            let mut n = fnv_map_remove(&mut self.nets, &o.0).unwrap();
            fnv_set_remove(&mut n.pin_instances, &pin.0);
            fnv_map_insert(&mut self.nets, o.0, n);
        }
        if let Some(nn) = net {
            // Store the pin instance in the new net.
            let mut n = fnv_map_remove(&mut self.nets, &nn.0).unwrap();
            fnv_set_insert(&mut n.pin_instances, pin.0);
            fnv_map_insert(&mut self.nets, nn.0, n);
        }
        proof {
            let v1 = self@;
            let from = v0.pin_insts[pin@].net;
            let to = opt_net(net);
            assert(v1.pin_insts =~= v0.pin_insts.insert(pin@, PinInstView { net: to, ..v0.pin_insts[pin@] }));
            assert(v1.nets =~= nets_after_pin_inst_move(v0.nets, pin@, from, to));
            assert(v1.circuits =~= v0.circuits);
            assert(v1.instances =~= v0.instances);
            assert(v1.pins =~= v0.pins);
            assert(v1.nets.dom() =~= v0.nets.dom());
            assert forall|n: usize| #[trigger] net_is_live(v1.circuits, v1.nets, n) <==> net_is_live(v0.circuits, v0.nets, n) by {}
            assert forall|n: usize| #[trigger] v1.nets.contains_key(n) implies
                v1.nets[n].name == v0.nets[n].name && v1.nets[n].parent == v0.nets[n].parent
                && v1.nets[n].pins == v0.nets[n].pins by {}
            lemma_acyclic_frame(v0.circuits, v1.circuits);
            assert(v1.inv_ids());
            assert(inv_nets(v1.circuits, v1.nets));
            assert(inv_pins(v1.circuits, v1.nets, v1.pins));
            assert(inv_instances(v1.circuits, v1.instances, v1.pin_insts));
            assert(inv_pin_insts(v1.circuits, v1.instances, v1.nets, v1.pin_insts)) by {
                assert forall|q: usize| #[trigger] v1.pin_insts.contains_key(q) implies {
                    let x = v1.pin_insts[q];
                    if v1.instances.contains_key(x.circuit_inst) {
                        &&& v1.instances[x.circuit_inst].pins.contains(q)
                        &&& (x.net matches Some(n) ==> net_is_live(v1.circuits, v1.nets, n)
                            && v1.nets[n].parent == v1.instances[x.circuit_inst].parent
                            && v1.nets[n].pin_instances.contains(q))
                    } else {
                        x.net is None
                    }
                } by {
                    assert(v0.pin_insts.contains_key(q));
                    if q != pin@ {
                        if let Some(n) = v0.pin_insts[q].net {
                            if v0.instances.contains_key(v0.pin_insts[q].circuit_inst) {
                                assert(v0.nets[n].pin_instances.contains(q));
                            }
                        }
                    }
                }
                assert forall|n: usize, q: usize| #[trigger] net_is_live(v1.circuits, v1.nets, n) && #[trigger] v1.nets[n].pin_instances.contains(q)
                    implies pin_inst_is_live(v1.instances, v1.pin_insts, q) && v1.pin_insts[q].net == Some(n) by {
                    if q != pin@ {
                        assert(v0.nets[n].pin_instances.contains(q));
                    }
                }
            }
        }
        old_net
    }

    /// Disconnect the pin instance and return the net to which it was connected.
    pub fn disconnect_pin_instance(&mut self, pin: &PinInstId) -> (res: Option<NetId>)
        requires
            old(self).wf_core(),
            old(self)@.pin_insts.contains_key(pin@),
        ensures
            final(self).wf_core(),
            old(self).wf() ==> final(self).wf(),
            final(self).layers() == old(self).layers(),
            final(self).shapes_view() == old(self).shapes_view(),
            opt_net(res) == old(self)@.pin_insts[pin@].net,
            final(self)@.pin_insts == old(self)@.pin_insts.insert(pin@, PinInstView { net: None, ..old(self)@.pin_insts[pin@] }),
            final(self)@.nets == nets_after_pin_inst_move(old(self)@.nets, pin@, old(self)@.pin_insts[pin@].net, None),
            final(self)@.circuits == old(self)@.circuits,
            final(self)@.circuits_by_name == old(self)@.circuits_by_name,
            final(self)@.instances == old(self)@.instances,
            final(self)@.pins == old(self)@.pins,
            final(self)@.next_circuit == old(self)@.next_circuit,
            final(self)@.next_inst == old(self)@.next_inst,
            final(self)@.next_pin == old(self)@.next_pin,
            final(self)@.next_pin_inst == old(self)@.next_pin_inst,
            final(self)@.next_net == old(self)@.next_net,
    {
        self.connect_pin_instance(pin, None)
    }
}

/// A set of circuits that holds, with each circuit, all circuits that instantiate it.
pub open spec fn upward_closed(circuits: Map<u32, CircuitView>, s: Set<u32>) -> bool {
    forall|c: u32, p: u32| #[trigger] s.contains(c) && circuits.contains_key(c)
        && #[trigger] circuits[c].dependent_circuits.contains_key(p) ==> s.contains(p)
}

/// `a` is `c` or instantiates `c`, directly or through other circuits.
pub open spec fn is_ancestor_or_self(circuits: Map<u32, CircuitView>, a: u32, c: u32) -> bool {
    forall|s: Set<u32>| #[trigger] upward_closed(circuits, s) && s.contains(c) ==> s.contains(a)
}

/// No circuit instantiates itself, directly or through other circuits: for each
/// circuit `c` instantiated by `p`, `c` is not `p` and does not instantiate `p`.
pub open spec fn acyclic(circuits: Map<u32, CircuitView>) -> bool {
    forall|c: u32, p: u32| #[trigger] circuits.contains_key(c) && #[trigger] circuits[c].dependent_circuits.contains_key(p)
        ==> !is_ancestor_or_self(circuits, c, p)
}

/// Every instantiation (edge from a circuit to a circuit that instantiates it) of `c1` is one of `c0`.
pub open spec fn edges_subset(c1: Map<u32, CircuitView>, c0: Map<u32, CircuitView>) -> bool {
    forall|c: u32, p: u32| #[trigger] c1.contains_key(c) && #[trigger] c1[c].dependent_circuits.contains_key(p)
        ==> c0.contains_key(c) && c0[c].dependent_circuits.contains_key(p)
}

/// The ancestors of `x`, `x` included.
pub open spec fn ancestors_or_self(circuits: Map<u32, CircuitView>, x: u32) -> Set<u32> {
    Set::new(|y: u32| is_ancestor_or_self(circuits, y, x))
}

/// Being an ancestor is transitive.
pub proof fn lemma_ancestor_trans(circuits: Map<u32, CircuitView>, a: u32, b: u32, c: u32)
    requires
        is_ancestor_or_self(circuits, a, b),
        is_ancestor_or_self(circuits, b, c),
    ensures
        is_ancestor_or_self(circuits, a, c),
{
    assert forall|s: Set<u32>| #[trigger] upward_closed(circuits, s) && s.contains(c) implies s.contains(a) by {
        assert(s.contains(b));
    }
}

/// A circuit that instantiates `c` is an ancestor of `c`.
pub proof fn lemma_ancestor_edge(circuits: Map<u32, CircuitView>, c: u32, p: u32)
    requires
        circuits.contains_key(c),
        circuits[c].dependent_circuits.contains_key(p),
    ensures
        is_ancestor_or_self(circuits, p, c),
{
}

/// Every circuit is its own ancestor-or-self.
pub proof fn lemma_ancestor_refl(circuits: Map<u32, CircuitView>, c: u32)
    ensures
        is_ancestor_or_self(circuits, c, c),
{
}

/// The set of ancestors of `x` is closed towards instantiating circuits and holds `x`.
proof fn lemma_ancestors_closed(circuits: Map<u32, CircuitView>, x: u32)
    ensures
        upward_closed(circuits, ancestors_or_self(circuits, x)),
        ancestors_or_self(circuits, x).contains(x),
{
    let a = ancestors_or_self(circuits, x);
    assert forall|c: u32, p: u32| #[trigger] a.contains(c) && circuits.contains_key(c)
        && #[trigger] circuits[c].dependent_circuits.contains_key(p) implies a.contains(p) by {
        lemma_ancestor_edge(circuits, c, p);
        lemma_ancestor_trans(circuits, p, c, x);
    }
    lemma_ancestor_refl(circuits, x);
}

/// Dropping instantiations keeps the hierarchy free of recursion.
pub proof fn lemma_acyclic_subgraph(c0: Map<u32, CircuitView>, c1: Map<u32, CircuitView>)
    requires
        acyclic(c0),
        edges_subset(c1, c0),
    ensures
        acyclic(c1),
{
    assert forall|c: u32, p: u32| #[trigger] c1.contains_key(c) && #[trigger] c1[c].dependent_circuits.contains_key(p)
        implies !is_ancestor_or_self(c1, c, p) by {
        assert(c0.contains_key(c) && c0[c].dependent_circuits.contains_key(p));
        assert(!is_ancestor_or_self(c0, c, p));
        let s = choose|s: Set<u32>| #[trigger] upward_closed(c0, s) && s.contains(p) && !s.contains(c);
        assert(upward_closed(c1, s));
    }
}

/// Keeping the circuits or dropping some, and keeping or dropping instantiations,
/// keeps the hierarchy free of recursion.
pub proof fn lemma_acyclic_frame(c0: Map<u32, CircuitView>, c1: Map<u32, CircuitView>)
    requires
        acyclic(c0),
        forall|c: u32| #[trigger] c1.contains_key(c) ==> c0.contains_key(c)
            && c1[c].dependent_circuits.dom().subset_of(c0[c].dependent_circuits.dom()),
    ensures
        acyclic(c1),
{
    assert(edges_subset(c1, c0)) by {
        assert forall|c: u32, p: u32| #[trigger] c1.contains_key(c) && #[trigger] c1[c].dependent_circuits.contains_key(p)
            implies c0.contains_key(c) && c0[c].dependent_circuits.contains_key(p) by {
            assert(c1[c].dependent_circuits.dom().contains(p));
        }
    }
    lemma_acyclic_subgraph(c0, c1);
}

/// Adding the instantiation of `t` in `p`, where `t` is not an ancestor-or-self
/// of `p`, keeps the hierarchy free of recursion.
pub proof fn lemma_acyclic_add_edge(c0: Map<u32, CircuitView>, c1: Map<u32, CircuitView>, t: u32, p: u32)
    requires
        acyclic(c0),
        c0.contains_key(t),
        !is_ancestor_or_self(c0, t, p),
        forall|c: u32, q: u32| #[trigger] c1.contains_key(c) && #[trigger] c1[c].dependent_circuits.contains_key(q)
            ==> (c0.contains_key(c) && c0[c].dependent_circuits.contains_key(q)) || (c == t && q == p),
    ensures
        acyclic(c1),
{
    assert forall|c: u32, q: u32| #[trigger] c1.contains_key(c) && #[trigger] c1[c].dependent_circuits.contains_key(q)
        implies !is_ancestor_or_self(c1, c, q) by {
        let aq = ancestors_or_self(c0, q);
        let ap = ancestors_or_self(c0, p);
        lemma_ancestors_closed(c0, q);
        lemma_ancestors_closed(c0, p);
        let s = if aq.contains(t) { aq.union(ap) } else { aq };
        assert(upward_closed(c1, s)) by {
            assert forall|y: u32, z: u32| #[trigger] s.contains(y) && c1.contains_key(y)
                && #[trigger] c1[y].dependent_circuits.contains_key(z) implies s.contains(z) by {
                if c0.contains_key(y) && c0[y].dependent_circuits.contains_key(z) {
                    if aq.contains(y) {
                        assert(aq.contains(z));
                    } else {
                        assert(ap.contains(z));
                    }
                } else {
                    assert(y == t && z == p);
                    if aq.contains(t) {
                        assert(ap.contains(p));
                    }
                }
            }
        }
        if is_ancestor_or_self(c1, c, q) {
            assert(s.contains(q));
            assert(s.contains(c));
            if c0.contains_key(c) && c0[c].dependent_circuits.contains_key(q) {
                if aq.contains(c) {
                    assert(is_ancestor_or_self(c0, c, q));
                } else {
                    assert(aq.contains(t) && ap.contains(c));
                    lemma_ancestor_edge(c0, c, q);
                    lemma_ancestor_trans(c0, t, q, c);
                    lemma_ancestor_trans(c0, t, c, p);
                }
            } else {
                assert(c == t && q == p);
                assert(aq.contains(c) || ap.contains(c));
            }
        }
    }
}

/// An instance makes its parent circuit instantiate its template circuit.
pub proof fn lemma_instance_edge(v: ChipView, i: usize)
    requires
        v.inv(),
        v.instances.contains_key(i),
    ensures
        v.circuits.contains_key(v.instances[i].template),
        v.circuits.contains_key(v.instances[i].parent),
        v.circuits[v.instances[i].template].dependent_circuits.contains_key(v.instances[i].parent),
        v.circuits[v.instances[i].parent].instances.contains(i),
        v.instances[i].parent != v.instances[i].template,
{
    let t = v.instances[i].template;
    let p = v.instances[i].parent;
    let f = v.circuits[t].references.filter(|j: usize| v.instances[j].parent == p);
    assert(f.contains(i));
    assert(f.finite());
    if f.len() == 0 {
        f.lemma_len0_is_empty();
    }
    assert(ref_count(v.circuits, v.instances, t, p) > 0);
}

/// A circuit that instantiates an existing circuit exists.
pub proof fn lemma_dependent_exists(v: ChipView, c: u32, p: u32)
    requires
        v.inv(),
        v.circuits.contains_key(c),
        v.circuits[c].dependent_circuits.contains_key(p),
    ensures
        v.circuits.contains_key(p),
{
    let f = v.circuits[c].references.filter(|i: usize| v.instances[i].parent == p);
    assert(ref_count(v.circuits, v.instances, c, p) > 0);
    assert(f.len() > 0);
    let i = f.choose();
    assert(f.contains(i)) by {
        broadcast use vstd::set_lib::group_set_properties;
        if !f.contains(i) {
            assert(f =~= Set::empty());
        }
    }
    assert(v.circuits[c].references.contains(i));
}

/// A finite set with an element is not empty.
proof fn lemma_member_len<A>(s: Set<A>, x: A)
    requires
        s.finite(),
        s.contains(x),
    ensures
        s.len() > 0,
{
    if s.len() == 0 {
        s.lemma_len0_is_empty();
    }
}

/// An element of a finite set with elements.
proof fn lemma_some_member<A>(s: Set<A>) -> (x: A)
    requires
        s.finite(),
        s.len() > 0,
    ensures
        s.contains(x),
{
    let x = s.choose();
    if !s.contains(x) {
        assert(s =~= Set::<A>::empty());
    }
    x
}

/// `c` instantiates `t` exactly if `t` is instantiated by `c`; both then exist,
/// and `c` holds an instance.
pub proof fn lemma_dependency_iff(v: ChipView, c: u32, t: u32)
    requires
        v.inv(),
        v.circuits.contains_key(c),
    ensures
        v.circuits[c].dependencies.contains_key(t) ==> v.circuits.contains_key(t)
            && v.circuits[t].dependent_circuits.contains_key(c) && v.circuits[c].instances.len() > 0,
        v.circuits.contains_key(t) && v.circuits[t].dependent_circuits.contains_key(c) ==>
            v.circuits[c].dependencies.contains_key(t) && v.circuits[c].instances.len() > 0,
{
    if v.circuits[c].dependencies.contains_key(t) {
        let f = v.circuits[c].instances.filter(|i: usize| v.instances[i].template == t);
        assert(dep_count(v.circuits, v.instances, c, t) > 0);
        let i = lemma_some_member(f);
        assert(v.instances.contains_key(i));
        lemma_instance_edge(v, i);
        lemma_member_len(v.circuits[c].instances, i);
    }
    if v.circuits.contains_key(t) && v.circuits[t].dependent_circuits.contains_key(c) {
        let f = v.circuits[t].references.filter(|i: usize| v.instances[i].parent == c);
        assert(ref_count(v.circuits, v.instances, t, c) > 0);
        let i = lemma_some_member(f);
        assert(v.instances.contains_key(i));
        lemma_instance_edge(v, i);
        let g = v.circuits[c].instances.filter(|j: usize| v.instances[j].template == t);
        assert(g.contains(i));
        lemma_member_len(g, i);
        lemma_member_len(v.circuits[c].instances, i);
    }
}

impl Chip {
    /// Check whether `ancestor` is `cell` itself or instantiates `cell`,
    /// directly or through other circuits. Creating an instance of `ancestor`
    /// inside `cell` would then make the hierarchy recursive.
    pub fn is_ancestor_or_self(&self, ancestor: &CellId, cell: &CellId) -> (res: bool)
        requires
            self.wf(),
            self@.circuits.contains_key(cell@),
        ensures
            res == is_ancestor_or_self(self@.circuits, ancestor@, cell@),
    {
        let ghost circuits = self@.circuits;
        let mut stack: Vec<u32> = Vec::new();
        stack.push(cell.0);
        let mut visited: FnvHashSet<u32> = FnvHashSet::default();
        let mut found = false;
        proof {
            assert(stack@[0] == cell@);
        }
        while stack.len() > 0
            invariant
                self.wf(),
                circuits == self@.circuits,
                circuits.dom().finite(),
                visited@.subset_of(circuits.dom()),
                forall|k: int| 0 <= k < stack@.len() ==> circuits.contains_key(#[trigger] stack@[k]),
                visited@.contains(cell@) || stack@.contains(cell@),
                forall|c: u32, p: u32| #[trigger] visited@.contains(c) && #[trigger] circuits[c].dependent_circuits.contains_key(p)
                    ==> visited@.contains(p) || stack@.contains(p),
                forall|s: Set<u32>| #[trigger] upward_closed(circuits, s) && s.contains(cell@) ==>
                    visited@.subset_of(s) && forall|k: int| 0 <= k < stack@.len() ==> s.contains(#[trigger] stack@[k]),
                found ==> is_ancestor_or_self(circuits, ancestor@, cell@),
                !found ==> !visited@.contains(ancestor@),
            decreases circuits.dom().difference(visited@).len(), stack@.len(),
        {
            let ghost st0 = stack@;
            let ghost vis0 = visited@;
            let c = stack.pop().unwrap();
            let ghost st1 = stack@;
            proof {
                assert(st0 == st1.push(c));
                assert forall|s: Set<u32>| #[trigger] upward_closed(circuits, s) && s.contains(cell@) implies s.contains(c) by {
                    assert(st0[st0.len() - 1] == c);
                }
            }
            if c == ancestor.0 {
                found = true;
            }
            if !fnv_set_contains(&visited, &c) {
                fnv_set_insert(&mut visited, c);
                let deps = fnv_map_keys(&self.circuit(&CellId(c)).dependent_circuits);
                proof {
                    broadcast use vstd::set_lib::group_set_properties;
                    assert(circuits.dom().difference(visited@) =~= circuits.dom().difference(vis0).remove(c));
                    assert(circuits.dom().difference(vis0).contains(c));
                }
                let mut k: usize = 0;
                while k < deps.len()
                    invariant
                        self.wf(),
                        circuits == self@.circuits,
                        circuits.contains_key(c),
                        deps@.to_set() == circuits[c].dependent_circuits.dom(),
                        k <= deps@.len(),
                        stack@ == st1 + deps@.subrange(0, k as int),
                    decreases deps@.len() - k,
                {
                    stack.push(deps[k]);
                    proof {
                        assert(deps@.subrange(0, k + 1) == deps@.subrange(0, k as int).push(deps@[k as int]));
                    }
                    k = k + 1;
                }
                proof {
                    assert(deps@.subrange(0, k as int) == deps@);
                    assert(stack@ == st1 + deps@);
                    assert forall|p: u32| #[trigger] circuits[c].dependent_circuits.contains_key(p) implies stack@.contains(p) by {
                        assert(deps@.to_set().contains(p));
                        let j = choose|j: int| 0 <= j < deps@.len() && deps@[j] == p;
                        assert(stack@[st1.len() + j] == p);
                    }
                    assert forall|k2: int| 0 <= k2 < stack@.len() implies circuits.contains_key(#[trigger] stack@[k2]) by {
                        if k2 >= st1.len() {
                            let p = stack@[k2];
                            assert(p == deps@[k2 - st1.len()]);
                            assert(deps@.to_set().contains(p));
                            lemma_dependent_exists(self@, c, p);
                        } else {
                            assert(stack@[k2] == st0[k2]);
                        }
                    }
                    assert forall|s: Set<u32>| #[trigger] upward_closed(circuits, s) && s.contains(cell@) implies
                        visited@.subset_of(s) && forall|k2: int| 0 <= k2 < stack@.len() ==> s.contains(#[trigger] stack@[k2]) by {
                        assert forall|k2: int| 0 <= k2 < stack@.len() implies s.contains(#[trigger] stack@[k2]) by {
                            if k2 >= st1.len() {
                                let p = stack@[k2];
                                assert(p == deps@[k2 - st1.len()]);
                                assert(deps@.to_set().contains(p));
                                assert(s.contains(c));
                            } else {
                                assert(stack@[k2] == st0[k2]);
                            }
                        }
                    }
                    assert forall|c2: u32, p: u32| #[trigger] visited@.contains(c2) && #[trigger] circuits[c2].dependent_circuits.contains_key(p)
                        implies visited@.contains(p) || stack@.contains(p) by {
                        if c2 != c {
                            assert(vis0.contains(c2));
                            if !vis0.contains(p) {
                                assert(st0.contains(p));
                                let j = choose|j: int| 0 <= j < st0.len() && st0[j] == p;
                                if j < st1.len() {
                                    assert(stack@[j] == p);
                                }
                            }
                        }
                    }
                    if !visited@.contains(cell@) {
                        let j = choose|j: int| 0 <= j < st0.len() && st0[j] == cell@;
                        assert(j < st1.len());
                        assert(stack@[j] == cell@);
                    }
                }
            } else {
                proof {
                    assert forall|k2: int| 0 <= k2 < stack@.len() implies circuits.contains_key(#[trigger] stack@[k2]) by {
                        assert(stack@[k2] == st0[k2]);
                    }
                    assert forall|s: Set<u32>| #[trigger] upward_closed(circuits, s) && s.contains(cell@) implies
                        visited@.subset_of(s) && forall|k2: int| 0 <= k2 < stack@.len() ==> s.contains(#[trigger] stack@[k2]) by {
                        assert forall|k2: int| 0 <= k2 < stack@.len() implies s.contains(#[trigger] stack@[k2]) by {
                            assert(stack@[k2] == st0[k2]);
                        }
                    }
                    assert forall|c2: u32, p: u32| #[trigger] visited@.contains(c2) && #[trigger] circuits[c2].dependent_circuits.contains_key(p)
                        implies visited@.contains(p) || stack@.contains(p) by {
                        if !vis0.contains(p) {
                            assert(st0.contains(p));
                            let j = choose|j: int| 0 <= j < st0.len() && st0[j] == p;
                            if j < st1.len() {
                                assert(stack@[j] == p);
                            }
                        }
                    }
                    if !visited@.contains(cell@) {
                        let j = choose|j: int| 0 <= j < st0.len() && st0[j] == cell@;
                        if j < st1.len() {
                            assert(stack@[j] == cell@);
                        }
                    }
                }
            }
        }
        proof {
            if !found {
                assert(upward_closed(circuits, visited@));
                assert(!visited@.contains(ancestor@));
            }
        }
        found
    }
}

/// A set of identifiers below `n` has at most `n` elements.
proof fn lemma_bounded_set_len(s: Set<usize>, n: usize)
    requires
        s.finite(),
        forall|x: usize| #[trigger] s.contains(x) ==> x < n,
    ensures
        s.len() <= n,
{
    let to_int = |x: usize| x as int;
    let r = vstd::set_lib::set_int_range(0, n as int);
    vstd::set_lib::lemma_int_range(0, n as int);
    assert(vstd::relations::injective_on(to_int, s));
    vstd::set_lib::lemma_map_size(s, s.map(to_int), to_int);
    assert(s.map(to_int).subset_of(r));
    vstd::set_lib::lemma_len_subset(s.map(to_int), r);
}

/// Adding an element to a finite set adds one to the size of a filter that keeps it.
proof fn lemma_filter_insert(s: Set<usize>, x: usize, f: spec_fn(usize) -> bool, g: spec_fn(usize) -> bool)
    requires
        s.finite(),
        !s.contains(x),
        forall|y: usize| #[trigger] s.contains(y) ==> f(y) == g(y),
    ensures
        s.insert(x).filter(g).len() == s.filter(f).len() + (if g(x) { 1int } else { 0int }),
        s.insert(x).filter(g).finite(),
{
    broadcast use vstd::set_lib::group_set_properties;
    s.lemma_len_filter(f);
    if g(x) {
        assert(s.insert(x).filter(g) =~= s.filter(f).insert(x));
    } else {
        assert(s.insert(x).filter(g) =~= s.filter(f));
    }
}

/// The view of the circuits after an instance `i` of `template` named `name` was added to `parent`.
pub open spec fn circuits_after_instantiation(
    circuits: Map<u32, CircuitView>,
    parent: u32,
    template: u32,
    i: usize,
    name: Option<Seq<char>>,
) -> Map<u32, CircuitView> {
    let p = circuits[parent];
    let t = circuits[template];
    circuits.insert(parent, CircuitView {
        instances: p.instances.insert(i),
        instances_by_name: match name {
            Some(s) => p.instances_by_name.insert(s, i),
            None => p.instances_by_name,
        },
        dependencies: p.dependencies.insert(template,
            if p.dependencies.contains_key(template) { (p.dependencies[template] + 1) as usize } else { 1 }),
        ..p
    }).insert(template, CircuitView {
        references: t.references.insert(i),
        dependent_circuits: t.dependent_circuits.insert(parent,
            if t.dependent_circuits.contains_key(parent) { (t.dependent_circuits[parent] + 1) as usize } else { 1 }),
        ..t
    })
}

impl Chip {
    /// Insert a new pin instance for a circuit instance that is not created yet.
    fn create_pin_inst(&mut self, circuit: CellInstId, pin: PinId) -> (res: PinInstId)
        requires
            old(self).wf(),
            !old(self)@.instances.contains_key(circuit@),
            circuit@ < old(self)@.next_inst,
            pin@ < old(self)@.next_pin,
            old(self)@.next_pin_inst < usize::MAX,
        ensures
            final(self).wf(),
            final(self).layers() == old(self).layers(),
            final(self).shapes_view() == old(self).shapes_view(),
            res@ == old(self)@.next_pin_inst,
            final(self)@.next_pin_inst == old(self)@.next_pin_inst + 1,
            final(self)@.pin_insts == old(self)@.pin_insts.insert(res@, PinInstView {
                template_pin: pin@,
                circuit_inst: circuit@,
                net: None,
            }),
            final(self)@.circuits == old(self)@.circuits,
            final(self)@.circuits_by_name == old(self)@.circuits_by_name,
            final(self)@.instances == old(self)@.instances,
            final(self)@.nets == old(self)@.nets,
            final(self)@.pins == old(self)@.pins,
            final(self)@.next_circuit == old(self)@.next_circuit,
            final(self)@.next_inst == old(self)@.next_inst,
            final(self)@.next_pin == old(self)@.next_pin,
            final(self)@.next_net == old(self)@.next_net,
    {
        let ghost v0 = self@;
        let id = PinInstId(next_id_counter_usize(&mut self.id_counter_pin_inst));
        let pin = PinInst { template_pin_id: pin, circuit_inst: circuit, net: None };
        fnv_map_insert(&mut self.pin_instances, id.0, pin);
        proof {
            let v1 = self@;
            assert(v1.pin_insts =~= v0.pin_insts.insert(id@, v1.pin_insts[id@]));
            assert(v1.circuits =~= v0.circuits);
            assert(v1.instances =~= v0.instances);
            assert(v1.nets =~= v0.nets);
            assert(v1.pins =~= v0.pins);
            assert(!v0.pin_insts.contains_key(id@));
            assert(inv_instances(v1.circuits, v1.instances, v1.pin_insts)) by {
                assert forall|i: usize| #[trigger] v1.instances.contains_key(i) implies
                    forall|k: int| 0 <= k < v1.instances[i].pins.len() ==> v1.pin_insts.contains_key(#[trigger] v1.instances[i].pins[k])
                        && v1.pin_insts[v1.instances[i].pins[k]].circuit_inst == i by {
                    assert forall|k: int| 0 <= k < v1.instances[i].pins.len() implies v1.pin_insts.contains_key(#[trigger] v1.instances[i].pins[k])
                        && v1.pin_insts[v1.instances[i].pins[k]].circuit_inst == i by {
                        assert(v0.pin_insts.contains_key(v0.instances[i].pins[k]));
                    }
                }
            }
            assert(inv_pin_insts(v1.circuits, v1.instances, v1.nets, v1.pin_insts)) by {
                assert forall|n: usize, q: usize| #[trigger] net_is_live(v1.circuits, v1.nets, n) && #[trigger] v1.nets[n].pin_instances.contains(q)
                    implies pin_inst_is_live(v1.instances, v1.pin_insts, q) && v1.pin_insts[q].net == Some(n) by {
                    assert(pin_inst_is_live(v0.instances, v0.pin_insts, q));
                }
            }
            lemma_acyclic_frame(v0.circuits, v1.circuits);
            assert(v1.inv_ids());
        }
        id
    }

    /// Create a new instance of `circuit_template` in the `parent` circuit.
    /// The instance gets one pin instance for each pin of the template, in the same order.
    pub fn create_circuit_instance(&mut self, parent: &CellId, circuit_template: &CellId, name: Option<String>) -> (res: CellInstId)
        requires
            old(self).wf(),
            old(self)@.circuits.contains_key(parent@),
            old(self)@.circuits.contains_key(circuit_template@),
            !is_ancestor_or_self(old(self)@.circuits, circuit_template@, parent@),
            old(self)@.next_inst < usize::MAX,
            old(self)@.next_pin_inst + old(self)@.circuits[circuit_template@].pins.len() <= usize::MAX,
            name matches Some(s) ==> !old(self)@.circuits[parent@].instances_by_name.contains_key(s@),
        ensures
            final(self).wf(),
            final(self).layers() == old(self).layers(),
            final(self).shapes_view() == old(self).shapes_view(),
            res@ == old(self)@.next_inst,
            final(self)@.next_inst == old(self)@.next_inst + 1,
            final(self)@.instances == old(self)@.instances.insert(res@, InstView {
                name: opt_name(name),
                template: circuit_template@,
                parent: parent@,
                pins: Seq::new(old(self)@.circuits[circuit_template@].pins.len(), |k: int| (old(self)@.next_pin_inst + k) as usize),
            }),
            final(self)@.next_pin_inst == old(self)@.next_pin_inst + old(self)@.circuits[circuit_template@].pins.len(),
            final(self)@.pin_insts.dom() =~= old(self)@.pin_insts.dom().union(Set::new(|q: usize|
                old(self)@.next_pin_inst <= q < final(self)@.next_pin_inst)),
            forall|q: usize| #[trigger] old(self)@.pin_insts.contains_key(q) ==> final(self)@.pin_insts[q] == old(self)@.pin_insts[q],
            forall|k: int| 0 <= k < old(self)@.circuits[circuit_template@].pins.len() ==>
                #[trigger] final(self)@.pin_insts[(old(self)@.next_pin_inst + k) as usize] == (PinInstView {
                    template_pin: old(self)@.circuits[circuit_template@].pins[k],
                    circuit_inst: res@,
                    net: None,
                }),
            final(self)@.circuits == circuits_after_instantiation(old(self)@.circuits, parent@, circuit_template@, res@, opt_name(name)),
            final(self)@.circuits_by_name == old(self)@.circuits_by_name,
            final(self)@.nets == old(self)@.nets,
            final(self)@.pins == old(self)@.pins,
            final(self)@.next_circuit == old(self)@.next_circuit,
            final(self)@.next_pin == old(self)@.next_pin,
            final(self)@.next_net == old(self)@.next_net,
    {
        let ghost v0 = self@;
        proof {
            // The template is not the parent: a set closed towards the instantiating
            // circuits and holding the parent misses the template.
            assert(circuit_template@ != parent@);
        }
        let id = CellInstId(next_id_counter_usize(&mut self.id_counter_circuit_inst));
        proof {
            assert(self@.inv_ids());
        }
        // Create pin instances from template pins.
        let num_pins = self.circuit(circuit_template).pins.len();
        let mut pins: Vec<usize> = Vec::new();
        let mut k: usize = 0;
        while k < num_pins
            invariant
                self.layers() == old(self).layers(),
                self.shapes_view() == old(self).shapes_view(),
                self.wf(),
                num_pins == v0.circuits[circuit_template@].pins.len(),
                v0.circuits.contains_key(circuit_template@),
                k <= num_pins,
                v0.next_pin_inst + num_pins <= usize::MAX,
                !self@.instances.contains_key(id@),
                id@ < self@.next_inst,
                self@.next_pin_inst == v0.next_pin_inst + k,
                self@.circuits == v0.circuits,
                self@.circuits_by_name == v0.circuits_by_name,
                self@.instances == v0.instances,
                self@.nets == v0.nets,
                self@.pins == v0.pins,
                self@.next_circuit == v0.next_circuit,
                self@.next_inst == v0.next_inst + 1,
                self@.next_pin == v0.next_pin,
                self@.next_net == v0.next_net,
                pins@ == Seq::new(k as nat, |j: int| (v0.next_pin_inst + j) as usize),
                self@.pin_insts.dom() =~= v0.pin_insts.dom().union(Set::new(|q: usize| v0.next_pin_inst <= q < v0.next_pin_inst + k)),
                forall|q: usize| #[trigger] v0.pin_insts.contains_key(q) ==> self@.pin_insts[q] == v0.pin_insts[q],
                forall|j: int| 0 <= j < k ==> #[trigger] self@.pin_insts[(v0.next_pin_inst + j) as usize] == (PinInstView {
                    template_pin: v0.circuits[circuit_template@].pins[j],
                    circuit_inst: id@,
                    net: None,
                }),
            decreases num_pins - k,
        {
            let tp = self.circuit(circuit_template).pins[k];
            let ghost before = self@;
            let q = self.create_pin_inst(id, PinId(tp));
            pins.push(q.0);
            proof {
                assert forall|q2: usize| #[trigger] v0.pin_insts.contains_key(q2) implies self@.pin_insts[q2] == v0.pin_insts[q2] by {
                    assert(before.pin_insts.dom().contains(q2));
                    assert(q2 < before.next_pin_inst);
                }
                assert(pins@ =~= Seq::new((k + 1) as nat, |j: int| (v0.next_pin_inst + j) as usize));
            }
            k = k + 1;
        }
        let ghost v1 = self@;
        let inst = CircuitInst {
            name: Self::clone_name(&name),
            template_circuit_id: *circuit_template,
            parent_circuit_id: *parent,
            pins,
        };
        fnv_map_insert(&mut self.circuit_instances, id.0, inst);
        let mut pc = fnv_map_remove(&mut self.circuits, &parent.0).unwrap();
        fnv_set_insert(&mut pc.instances, id.0);
        match name {
            Some(name) => {
                pc.instances_by_name.insert(name, id.0);
            },
            None => {},
        }
        proof {
            lemma_bounded_set_len(v0.circuits[parent@].instances, v0.next_inst);
            v0.circuits[parent@].instances.lemma_len_filter(|i: usize| v0.instances[i].template == circuit_template@);
        }
        // Remember dependency.
        let new_dep_count: usize = match fnv_map_get(&pc.dependencies, &circuit_template.0) {
            Some(c) => {
                proof {
                    assert(v0.circuits[parent@].dependencies.contains_key(circuit_template@));
                    assert(*c == dep_count(v0.circuits, v0.instances, parent@, circuit_template@));
                }
                *c + 1
            },
            None => 1,
        };
        fnv_map_insert(&mut pc.dependencies, circuit_template.0, new_dep_count);
        fnv_map_insert(&mut self.circuits, parent.0, pc);
        let mut tc = fnv_map_remove(&mut self.circuits, &circuit_template.0).unwrap();
        fnv_set_insert(&mut tc.references, id.0);
        proof {
            lemma_bounded_set_len(v0.circuits[circuit_template@].references, v0.next_inst);
            v0.circuits[circuit_template@].references.lemma_len_filter(|i: usize| v0.instances[i].parent == parent@);
        }
        let new_ref_count: usize = match fnv_map_get(&tc.dependent_circuits, &parent.0) {
            Some(c) => {
                proof {
                    assert(v0.circuits[circuit_template@].dependent_circuits.contains_key(parent@));
                    assert(*c == ref_count(v0.circuits, v0.instances, circuit_template@, parent@));
                }
                *c + 1
            },
            None => 1,
        };
        fnv_map_insert(&mut tc.dependent_circuits, parent.0, new_ref_count);
        fnv_map_insert(&mut self.circuits, circuit_template.0, tc);
        proof {
            let v2 = self@;
            let nm = opt_name(name);
            assert(v2.instances =~= v0.instances.insert(id@, v2.instances[id@]));
            assert(v2.circuits =~= circuits_after_instantiation(v0.circuits, parent@, circuit_template@, id@, nm));
            assert(v2.nets =~= v0.nets);
            assert(v2.pins =~= v0.pins);
            assert(v2.pin_insts =~= v1.pin_insts);
            assert(!v0.instances.contains_key(id@));
            assert forall|c: u32| #[trigger] v0.circuits.contains_key(c) implies
                !v0.circuits[c].instances.contains(id@) && !v0.circuits[c].references.contains(id@) by {}
            assert forall|n: usize| #[trigger] net_is_live(v2.circuits, v2.nets, n) <==> net_is_live(v0.circuits, v0.nets, n) by {}
            // Counters.
            assert(inv_deps(v2.circuits, v2.instances)) by {
                assert forall|c: u32, t: u32| #[trigger] v2.circuits.contains_key(c) implies {
                    &&& (#[trigger] v2.circuits[c].dependencies.contains_key(t) <==> dep_count(v2.circuits, v2.instances, c, t) > 0)
                    &&& (v2.circuits[c].dependencies.contains_key(t) ==> v2.circuits[c].dependencies[t] == dep_count(v2.circuits, v2.instances, c, t))
                } by {
                    let f0 = |i: usize| v0.instances[i].template == t;
                    let f2 = |i: usize| v2.instances[i].template == t;
                    if c == parent@ {
                        lemma_filter_insert(v0.circuits[c].instances, id@, f0, f2);
                    } else {
                        assert(v2.circuits[c].instances.filter(f2) =~= v0.circuits[c].instances.filter(f0));
                    }
                }
                assert forall|t: u32, p: u32| #[trigger] v2.circuits.contains_key(t) implies {
                    &&& (#[trigger] v2.circuits[t].dependent_circuits.contains_key(p) <==> ref_count(v2.circuits, v2.instances, t, p) > 0)
                    &&& (v2.circuits[t].dependent_circuits.contains_key(p) ==> v2.circuits[t].dependent_circuits[p] == ref_count(v2.circuits, v2.instances, t, p))
                } by {
                    let f0 = |i: usize| v0.instances[i].parent == p;
                    let f2 = |i: usize| v2.instances[i].parent == p;
                    if t == circuit_template@ {
                        lemma_filter_insert(v0.circuits[t].references, id@, f0, f2);
                    } else {
                        assert(v2.circuits[t].references.filter(f2) =~= v0.circuits[t].references.filter(f0));
                    }
                }
            }
            assert(inv_instances(v2.circuits, v2.instances, v2.pin_insts)) by {
                assert forall|i: usize| #[trigger] v2.instances.contains_key(i) implies {
                    let x = v2.instances[i];
                    &&& v2.circuits.contains_key(x.parent)
                    &&& v2.circuits.contains_key(x.template)
                    &&& v2.circuits[x.parent].instances.contains(i)
                    &&& v2.circuits[x.template].references.contains(i)
                    &&& (x.name matches Some(s) ==> v2.circuits[x.parent].instances_by_name.contains_key(s)
                        && v2.circuits[x.parent].instances_by_name[s] == i)
                    &&& x.pins.no_duplicates()
                    &&& forall|k: int| 0 <= k < x.pins.len() ==> v2.pin_insts.contains_key(#[trigger] x.pins[k])
                        && v2.pin_insts[x.pins[k]].circuit_inst == i
                } by {
                    if i != id@ {
                        let x = v0.instances[i];
                        if x.parent == parent@ {
                            if let Some(s) = x.name {
                                if let Some(s2) = nm {
                                    assert(s != s2);
                                }
                            }
                        }
                        assert forall|k: int| 0 <= k < x.pins.len() implies v2.pin_insts.contains_key(#[trigger] x.pins[k])
                            && v2.pin_insts[x.pins[k]].circuit_inst == i by {
                            assert(v0.pin_insts.contains_key(x.pins[k]));
                        }
                    } else {
                        let x = v2.instances[i];
                        assert forall|k: int| 0 <= k < x.pins.len() implies v2.pin_insts.contains_key(#[trigger] x.pins[k])
                            && v2.pin_insts[x.pins[k]].circuit_inst == i by {
                            assert(x.pins[k] == (v0.next_pin_inst + k) as usize);
                        }
                    }
                }
                assert forall|c: u32, s: Seq<char>| #[trigger] v2.circuits.contains_key(c) && #[trigger] v2.circuits[c].instances_by_name.contains_key(s)
                    implies {
                        let i = v2.circuits[c].instances_by_name[s];
                        &&& v2.instances.contains_key(i)
                        &&& v2.instances[i].parent == c
                        &&& v2.instances[i].name == Some(s)
                    } by {
                    if c == parent@ && nm != Some(s) {
                        assert(v0.circuits[c].instances_by_name.contains_key(s));
                    }
                }
                assert forall|c: u32, i: usize| #[trigger] v2.circuits.contains_key(c) && #[trigger] v2.circuits[c].instances.contains(i)
                    implies v2.instances.contains_key(i) && v2.instances[i].parent == c by {
                    if i != id@ {
                        assert(v0.circuits[c].instances.contains(i));
                    }
                }
                assert forall|c: u32, i: usize| #[trigger] v2.circuits.contains_key(c) && #[trigger] v2.circuits[c].references.contains(i)
                    implies v2.instances.contains_key(i) && v2.instances[i].template == c by {
                    if i != id@ {
                        assert(v0.circuits[c].references.contains(i));
                    }
                }
            }
            assert(inv_pin_insts(v2.circuits, v2.instances, v2.nets, v2.pin_insts)) by {
                assert forall|q: usize| #[trigger] v2.pin_insts.contains_key(q) implies {
                    let x = v2.pin_insts[q];
                    if v2.instances.contains_key(x.circuit_inst) {
                        &&& v2.instances[x.circuit_inst].pins.contains(q)
                        &&& (x.net matches Some(n) ==> net_is_live(v2.circuits, v2.nets, n)
                            && v2.nets[n].parent == v2.instances[x.circuit_inst].parent
                            && v2.nets[n].pin_instances.contains(q))
                    } else {
                        x.net is None
                    }
                } by {
                    if v0.pin_insts.contains_key(q) {
                        assert(v0.pin_insts[q].circuit_inst < v0.next_inst);
                        let x = v0.pin_insts[q];
                        if let Some(n) = x.net {
                            if v0.instances.contains_key(x.circuit_inst) {
                                assert(v0.nets[n].pin_instances.contains(q));
                            }
                        }
                    } else {
                        let j = q - v0.next_pin_inst;
                        assert(v2.pin_insts[(v0.next_pin_inst + j) as usize] == v2.pin_insts[q]);
                        assert(v2.instances[id@].pins[j] == q);
                    }
                }
                assert forall|n: usize, q: usize| #[trigger] net_is_live(v2.circuits, v2.nets, n) && #[trigger] v2.nets[n].pin_instances.contains(q)
                    implies pin_inst_is_live(v2.instances, v2.pin_insts, q) && v2.pin_insts[q].net == Some(n) by {
                    assert(pin_inst_is_live(v0.instances, v0.pin_insts, q));
                }
            }
            assert(inv_nets(v2.circuits, v2.nets));
            assert(inv_pins(v2.circuits, v2.nets, v2.pins)) by {
                assert forall|c: u32| #[trigger] v2.circuits.contains_key(c) implies v2.circuits[c].pins == v0.circuits[c].pins by {}
            }
            assert(inv_cell_names(v2.circuits, v2.circuits_by_name));
            lemma_acyclic_add_edge(v0.circuits, v2.circuits, circuit_template@, parent@);
            assert(v2.inv_ids()) by {
                assert forall|q: usize| #[trigger] v2.pin_insts.contains_key(q) implies q < v2.next_pin_inst
                    && v2.pin_insts[q].circuit_inst < v2.next_inst by {
                    if !v0.pin_insts.contains_key(q) {
                        let j = q - v0.next_pin_inst;
                        assert(v2.pin_insts[(v0.next_pin_inst + j) as usize] == v2.pin_insts[q]);
                    }
                }
            }
            assert(v2.instances[id@].pins =~= Seq::new(v0.circuits[circuit_template@].pins.len(), |k: int| (v0.next_pin_inst + k) as usize));
        }
        id
    }
}

/// Removing an element from a finite set removes one from the size of a filter that keeps it.
proof fn lemma_filter_remove(s: Set<usize>, x: usize, f: spec_fn(usize) -> bool, g: spec_fn(usize) -> bool)
    requires
        s.finite(),
        s.contains(x),
        forall|y: usize| #[trigger] s.contains(y) && y != x ==> f(y) == g(y),
    ensures
        s.remove(x).filter(g).len() + (if f(x) { 1int } else { 0int }) == s.filter(f).len(),
{
    broadcast use vstd::set_lib::group_set_properties;
    s.lemma_len_filter(f);
    s.remove(x).lemma_len_filter(g);
    if f(x) {
        assert(s.remove(x).filter(g) =~= s.filter(f).remove(x));
    } else {
        assert(s.remove(x).filter(g) =~= s.filter(f));
    }
}

/// The names of the instances of a circuit after renaming instance `i` from `old_name` to `new_name`.
pub open spec fn names_after_rename<T>(names: Map<Seq<char>, T>, i: T, old_name: Option<Seq<char>>, new_name: Option<Seq<char>>) -> Map<Seq<char>, T> {
    let n1 = match old_name {
        Some(s) => names.remove(s),
        None => names,
    };
    match new_name {
        Some(s) => n1.insert(s, i),
        None => n1,
    }
}

impl Chip {
    /// Change the name of the cell instance, or remove it with `None`.
    pub fn rename_cell_instance(&mut self, inst: &CellInstId, name: Option<String>)
        requires
            old(self).wf(),
            old(self)@.instances.contains_key(inst@),
            name matches Some(s) ==> !old(self)@.circuits[old(self)@.instances[inst@].parent].instances_by_name.contains_key(s@),
        ensures
            final(self).wf(),
            final(self).layers() == old(self).layers(),
            final(self).shapes_view() == old(self).shapes_view(),
            final(self)@.instances == old(self)@.instances.insert(inst@, InstView { name: opt_name(name), ..old(self)@.instances[inst@] }),
            ({
                let p = old(self)@.instances[inst@].parent;
                final(self)@.circuits == old(self)@.circuits.insert(p, CircuitView {
                    instances_by_name: names_after_rename(old(self)@.circuits[p].instances_by_name, inst@,
                        old(self)@.instances[inst@].name, opt_name(name)),
                    ..old(self)@.circuits[p]
                })
            }),
            final(self)@.circuits_by_name == old(self)@.circuits_by_name,
            final(self)@.nets == old(self)@.nets,
            final(self)@.pins == old(self)@.pins,
            final(self)@.pin_insts == old(self)@.pin_insts,
            final(self)@.next_circuit == old(self)@.next_circuit,
            final(self)@.next_inst == old(self)@.next_inst,
            final(self)@.next_pin == old(self)@.next_pin,
            final(self)@.next_pin_inst == old(self)@.next_pin_inst,
            final(self)@.next_net == old(self)@.next_net,
    {
        let ghost v0 = self@;
        let mut ci = fnv_map_remove(&mut self.circuit_instances, &inst.0).unwrap();
        let parent = ci.parent_circuit_id;
        let old_name = ci.name.take();
        ci.name = Self::clone_name(&name);
        fnv_map_insert(&mut self.circuit_instances, inst.0, ci);
        let mut pc = fnv_map_remove(&mut self.circuits, &parent.0).unwrap();
        match old_name {
            Some(old_name) => {
                pc.instances_by_name.remove(old_name.as_str());
            },
            None => {},
        }
        match name {
            Some(name) => {
                pc.instances_by_name.insert(name, inst.0);
            },
            None => {},
        }
        fnv_map_insert(&mut self.circuits, parent.0, pc);
        proof {
            let v1 = self@;
            let p = parent@;
            let nm = opt_name(name);
            let om = v0.instances[inst@].name;
            assert(v1.instances =~= v0.instances.insert(inst@, InstView { name: nm, ..v0.instances[inst@] }));
            assert(v1.circuits =~= v0.circuits.insert(p, CircuitView {
                instances_by_name: names_after_rename(v0.circuits[p].instances_by_name, inst@, om, nm),
                ..v0.circuits[p]
            }));
            assert(v1.nets =~= v0.nets);
            assert(v1.pins =~= v0.pins);
            assert(v1.pin_insts =~= v0.pin_insts);
            lemma_counts_frame(v0, v1);
            assert forall|n: usize| #[trigger] net_is_live(v1.circuits, v1.nets, n) <==> net_is_live(v0.circuits, v0.nets, n) by {}
            assert(inv_instances(v1.circuits, v1.instances, v1.pin_insts)) by {
                assert forall|i: usize| #[trigger] v1.instances.contains_key(i) implies {
                    let x = v1.instances[i];
                    &&& (x.name matches Some(s) ==> v1.circuits[x.parent].instances_by_name.contains_key(s)
                        && v1.circuits[x.parent].instances_by_name[s] == i)
                    &&& forall|k: int| 0 <= k < x.pins.len() ==> v1.pin_insts.contains_key(#[trigger] x.pins[k])
                        && v1.pin_insts[x.pins[k]].circuit_inst == i
                } by {
                    let x = v0.instances[i];
                    if i != inst@ && x.parent == p {
                        if let Some(s) = x.name {
                            assert(v0.circuits[p].instances_by_name[s] == i);
                            if let Some(s2) = om {
                                assert(s != s2);
                            }
                            if let Some(s2) = nm {
                                assert(s != s2);
                            }
                        }
                    }
                    assert forall|k: int| 0 <= k < x.pins.len() implies v1.pin_insts.contains_key(#[trigger] x.pins[k])
                        && v1.pin_insts[x.pins[k]].circuit_inst == i by {
                        assert(v0.pin_insts.contains_key(x.pins[k]));
                    }
                }
                assert forall|c: u32, s: Seq<char>| #[trigger] v1.circuits.contains_key(c) && #[trigger] v1.circuits[c].instances_by_name.contains_key(s)
                    implies {
                        let i = v1.circuits[c].instances_by_name[s];
                        &&& v1.instances.contains_key(i)
                        &&& v1.instances[i].parent == c
                        &&& v1.instances[i].name == Some(s)
                    } by {
                    if c == p && nm != Some(s) {
                        assert(v0.circuits[c].instances_by_name.contains_key(s));
                        let i = v0.circuits[c].instances_by_name[s];
                        if i == inst@ {
                            assert(om == Some(s));
                        }
                    }
                }
            }
            assert(inv_pin_insts(v1.circuits, v1.instances, v1.nets, v1.pin_insts)) by {
                assert forall|q: usize| #[trigger] v1.pin_insts.contains_key(q) implies {
                    let x = v1.pin_insts[q];
                    if v1.instances.contains_key(x.circuit_inst) {
                        &&& v1.instances[x.circuit_inst].pins.contains(q)
                        &&& (x.net matches Some(n) ==> net_is_live(v1.circuits, v1.nets, n)
                            && v1.nets[n].parent == v1.instances[x.circuit_inst].parent
                            && v1.nets[n].pin_instances.contains(q))
                    } else {
                        x.net is None
                    }
                } by {
                    assert(v0.pin_insts.contains_key(q));
                }
                assert forall|n: usize, q: usize| #[trigger] net_is_live(v1.circuits, v1.nets, n) && #[trigger] v1.nets[n].pin_instances.contains(q)
                    implies pin_inst_is_live(v1.instances, v1.pin_insts, q) && v1.pin_insts[q].net == Some(n) by {
                    assert(pin_inst_is_live(v0.instances, v0.pin_insts, q));
                }
            }
            assert(inv_pins(v1.circuits, v1.nets, v1.pins)) by {
                assert forall|c: u32| #[trigger] v1.circuits.contains_key(c) implies v1.circuits[c].pins == v0.circuits[c].pins by {}
            }
            assert(inv_nets(v1.circuits, v1.nets)) by {
                assert forall|c: u32| #[trigger] v1.circuits.contains_key(c) implies
                    v1.circuits[c].nets == v0.circuits[c].nets && v1.circuits[c].nets_by_name == v0.circuits[c].nets_by_name by {}
            }
            assert(inv_cell_names(v1.circuits, v1.circuits_by_name));
            assert(inv_deps(v1.circuits, v1.instances));
            lemma_acyclic_frame(v0.circuits, v1.circuits);
            assert(v1.inv_ids());
        }
    }
}

/// A counter map after one of the counted things is gone: the entry drops to zero and vanishes.
pub open spec fn count_decremented(m: Map<u32, usize>, k: u32) -> Map<u32, usize> {
    if m[k] <= 1 {
        m.remove(k)
    } else {
        m.insert(k, (m[k] - 1) as usize)
    }
}

/// Nets after the pin instances in `qs` were disconnected.
pub open spec fn nets_after_disconnecting(nets: Map<usize, NetView>, pin_insts: Map<usize, PinInstView>, qs: Set<usize>) -> Map<usize, NetView> {
    Map::new(|n: usize| nets.contains_key(n), |n: usize| NetView {
        pin_instances: nets[n].pin_instances.difference(Set::new(|q: usize| qs.contains(q) && pin_insts[q].net == Some(n))),
        ..nets[n]
    })
}

/// Disconnecting all pin instances of a live instance takes exactly them out of
/// the pin instance set of every net.
proof fn lemma_disconnecting_instance(v: ChipView, i: usize)
    requires
        v.inv(),
        v.instances.contains_key(i),
    ensures
        forall|n: usize| #[trigger] v.nets.contains_key(n) ==>
            nets_after_disconnecting(v.nets, v.pin_insts, v.instances[i].pins.to_set())[n].pin_instances
            == v.nets[n].pin_instances.difference(v.instances[i].pins.to_set()),
{
    let qs = v.instances[i].pins.to_set();
    assert forall|n: usize| #[trigger] v.nets.contains_key(n) implies
        nets_after_disconnecting(v.nets, v.pin_insts, qs)[n].pin_instances == v.nets[n].pin_instances.difference(qs) by {
        let gone = Set::new(|q: usize| qs.contains(q) && v.pin_insts[q].net == Some(n));
        assert forall|q: usize| v.nets[n].pin_instances.contains(q) && qs.contains(q) implies gone.contains(q) by {
            if net_is_live(v.circuits, v.nets, n) {
                assert(pin_inst_is_live(v.instances, v.pin_insts, q));
            } else {
                assert(v.nets[n].pin_instances == Set::<usize>::empty());
                assert(!Set::<usize>::empty().contains(q));
            }
        }
        assert(v.nets[n].pin_instances.difference(gone) =~= v.nets[n].pin_instances.difference(qs));
    }
}

/// The view of the circuits after instance `i` of `template` in `parent` was removed.
pub open spec fn circuits_after_instance_removal(
    circuits: Map<u32, CircuitView>,
    parent: u32,
    template: u32,
    i: usize,
    name: Option<Seq<char>>,
) -> Map<u32, CircuitView> {
    let p = circuits[parent];
    let t = circuits[template];
    circuits.insert(parent, CircuitView {
        instances: p.instances.remove(i),
        instances_by_name: match name {
            Some(s) => p.instances_by_name.remove(s),
            None => p.instances_by_name,
        },
        dependencies: count_decremented(p.dependencies, template),
        ..p
    }).insert(template, CircuitView {
        references: t.references.remove(i),
        dependent_circuits: count_decremented(t.dependent_circuits, parent),
        ..t
    })
}

impl Chip {
    /// Remove a circuit instance after disconnecting it from the nets.
    /// Its pin instances stay in the pin instance table, disconnected.
    pub fn remove_circuit_instance(&mut self, circuit_inst_id: &CellInstId)
        requires
            old(self).wf(),
            old(self)@.instances.contains_key(circuit_inst_id@),
        ensures
            final(self).wf(),
            final(self).layers() == old(self).layers(),
            final(self).shapes_view() == old(self).shapes_view(),
            final(self)@.instances == old(self)@.instances.remove(circuit_inst_id@),
            final(self)@.circuits == circuits_after_instance_removal(old(self)@.circuits,
                old(self)@.instances[circuit_inst_id@].parent, old(self)@.instances[circuit_inst_id@].template,
                circuit_inst_id@, old(self)@.instances[circuit_inst_id@].name),
            final(self)@.nets == nets_after_disconnecting(old(self)@.nets, old(self)@.pin_insts,
                old(self)@.instances[circuit_inst_id@].pins.to_set()),
            forall|n: usize| #[trigger] old(self)@.nets.contains_key(n) ==> final(self)@.nets[n].pin_instances
                == old(self)@.nets[n].pin_instances.difference(old(self)@.instances[circuit_inst_id@].pins.to_set()),
            final(self)@.pin_insts.dom() == old(self)@.pin_insts.dom(),
            forall|q: usize| #[trigger] old(self)@.pin_insts.contains_key(q) ==> final(self)@.pin_insts[q] == (
                if old(self)@.instances[circuit_inst_id@].pins.contains(q) {
                    PinInstView { net: None, ..old(self)@.pin_insts[q] }
                } else {
                    old(self)@.pin_insts[q]
                }),
            final(self)@.circuits_by_name == old(self)@.circuits_by_name,
            final(self)@.pins == old(self)@.pins,
            final(self)@.next_circuit == old(self)@.next_circuit,
            final(self)@.next_inst == old(self)@.next_inst,
            final(self)@.next_pin == old(self)@.next_pin,
            final(self)@.next_pin_inst == old(self)@.next_pin_inst,
            final(self)@.next_net == old(self)@.next_net,
    {
        let ghost v0 = self@;
        let ghost x0 = v0.instances[circuit_inst_id@];
        proof {
            lemma_disconnecting_instance(v0, circuit_inst_id@);
        }
        // Remove the instance name.
        self.rename_cell_instance(circuit_inst_id, None);
        let ghost v1 = self@;
        // Disconnect all pins first.
        let num_pins = self.circuit_inst(circuit_inst_id).pins.len();
        let mut k: usize = 0;
        proof {
            assert(x0.pins.subrange(0, 0).to_set() =~= Set::empty());
            assert forall|n: usize| #[trigger] v0.nets.contains_key(n) implies
                nets_after_disconnecting(v0.nets, v0.pin_insts, x0.pins.subrange(0, 0).to_set())[n] == v0.nets[n] by {
                assert(v0.nets[n].pin_instances.difference(Set::new(|q: usize| x0.pins.subrange(0, 0).to_set().contains(q)
                    && v0.pin_insts[q].net == Some(n))) =~= v0.nets[n].pin_instances);
            }
            assert(nets_after_disconnecting(v0.nets, v0.pin_insts, x0.pins.subrange(0, 0).to_set()) =~= v0.nets);
        }
        while k < num_pins
            invariant
                self.layers() == old(self).layers(),
                self.shapes_view() == old(self).shapes_view(),
                self.wf(),
                v0.inv(),
                v0.instances.contains_key(circuit_inst_id@),
                x0 == v0.instances[circuit_inst_id@],
                num_pins == x0.pins.len(),
                k <= num_pins,
                self@.instances == v1.instances,
                v1.instances.contains_key(circuit_inst_id@),
                v1.instances[circuit_inst_id@].pins == x0.pins,
                self@.circuits == v1.circuits,
                self@.circuits_by_name == v0.circuits_by_name,
                self@.pins == v0.pins,
                self@.next_circuit == v0.next_circuit,
                self@.next_inst == v0.next_inst,
                self@.next_pin == v0.next_pin,
                self@.next_pin_inst == v0.next_pin_inst,
                self@.next_net == v0.next_net,
                self@.nets == nets_after_disconnecting(v0.nets, v0.pin_insts, x0.pins.subrange(0, k as int).to_set()),
                self@.pin_insts.dom() == v0.pin_insts.dom(),
                forall|q: usize| #[trigger] v0.pin_insts.contains_key(q) ==> self@.pin_insts[q] == (
                    if x0.pins.subrange(0, k as int).contains(q) {
                        PinInstView { net: None, ..v0.pin_insts[q] }
                    } else {
                        v0.pin_insts[q]
                    }),
            decreases num_pins - k,
        {
            let q = self.circuit_inst(circuit_inst_id).pins[k];
            let ghost w0 = self@;
            proof {
                assert(x0.pins[k as int] == q);
                assert(v0.pin_insts.contains_key(q));
                assert(!x0.pins.subrange(0, k as int).contains(q)) by {
                    if x0.pins.subrange(0, k as int).contains(q) {
                        let j = choose|j: int| 0 <= j < k && x0.pins.subrange(0, k as int)[j] == q;
                        assert(x0.pins[j] == x0.pins[k as int]);
                    }
                }
            }
            self.disconnect_pin_instance(&PinInstId(q));
            proof {
                let w1 = self@;
                let pre = x0.pins.subrange(0, k as int);
                let post = x0.pins.subrange(0, k + 1);
                assert(post == pre.push(q));
                assert forall|q2: usize| post.contains(q2) <==> pre.contains(q2) || q2 == q by {
                    if post.contains(q2) {
                        let j = choose|j: int| 0 <= j < post.len() && post[j] == q2;
                        if j < k {
                            assert(pre[j] == q2);
                        }
                    }
                    if pre.contains(q2) {
                        let j = choose|j: int| 0 <= j < pre.len() && pre[j] == q2;
                        assert(post[j] == q2);
                    }
                    if q2 == q {
                        assert(post[k as int] == q2);
                    }
                }
                assert(post.to_set() =~= pre.to_set().insert(q));
                assert(w1.nets =~= nets_after_disconnecting(v0.nets, v0.pin_insts, post.to_set())) by {
                    assert forall|n: usize| #[trigger] w1.nets.contains_key(n) implies w1.nets[n] == nets_after_disconnecting(v0.nets, v0.pin_insts, post.to_set())[n] by {
                        assert(w1.nets[n].pin_instances =~= v0.nets[n].pin_instances.difference(
                            Set::new(|q2: usize| post.to_set().contains(q2) && v0.pin_insts[q2].net == Some(n))));
                    }
                }
                assert forall|q2: usize| #[trigger] v0.pin_insts.contains_key(q2) implies w1.pin_insts[q2] == (
                    if post.contains(q2) {
                        PinInstView { net: None, ..v0.pin_insts[q2] }
                    } else {
                        v0.pin_insts[q2]
                    }) by {
                    assert(post.contains(q2) <==> pre.contains(q2) || q2 == q) by {
                        if post.contains(q2) {
                            let j = choose|j: int| 0 <= j < post.len() && post[j] == q2;
                            if j < k {
                                assert(pre[j] == q2);
                            }
                        }
                        if pre.contains(q2) {
                            let j = choose|j: int| 0 <= j < pre.len() && pre[j] == q2;
                            assert(post[j] == q2);
                        }
                        if q2 == q {
                            assert(post[k as int] == q2);
                        }
                    }
                }
            }
            k = k + 1;
        }
        let ghost v2 = self@;
        proof {
            assert(x0.pins.subrange(0, k as int) == x0.pins);
        }
        // Remove the instance and all references.
        let parent = self.circuit_inst(circuit_inst_id).parent_circuit_id;
        let template = self.circuit_inst(circuit_inst_id).template_circuit_id;
        fnv_map_remove(&mut self.circuit_instances, &circuit_inst_id.0);
        proof {
            assert(v2.circuits.contains_key(parent@));
            assert(v2.circuits[parent@].instances.contains(circuit_inst_id@));
            assert(v2.circuits[parent@].dependencies.contains_key(template@)) by {
                let f = |i: usize| v2.instances[i].template == template@;
                assert(v2.circuits[parent@].instances.filter(f).contains(circuit_inst_id@));
                v2.circuits[parent@].instances.lemma_len_filter(f);
                broadcast use vstd::set_lib::group_set_properties;
            }
            assert(v2.circuits[template@].dependent_circuits.contains_key(parent@)) by {
                let f = |i: usize| v2.instances[i].parent == parent@;
                assert(v2.circuits[template@].references.filter(f).contains(circuit_inst_id@));
                broadcast use vstd::set_lib::group_set_properties;
            }
        }
        // Remove dependency.
        let mut pc = fnv_map_remove(&mut self.circuits, &parent.0).unwrap();
        let count = *fnv_map_get(&pc.dependencies, &template.0).unwrap();
        if count <= 1 {
            fnv_map_remove(&mut pc.dependencies, &template.0);
        } else {
            fnv_map_insert(&mut pc.dependencies, template.0, count - 1);
        }
        fnv_set_remove(&mut pc.instances, &circuit_inst_id.0);
        fnv_map_insert(&mut self.circuits, parent.0, pc);
        // Remove dependency.
        let mut tc = fnv_map_remove(&mut self.circuits, &template.0).unwrap();
        let count = *fnv_map_get(&tc.dependent_circuits, &parent.0).unwrap();
        if count <= 1 {
            fnv_map_remove(&mut tc.dependent_circuits, &parent.0);
        } else {
            fnv_map_insert(&mut tc.dependent_circuits, parent.0, count - 1);
        }
        fnv_set_remove(&mut tc.references, &circuit_inst_id.0);
        fnv_map_insert(&mut self.circuits, template.0, tc);
        proof {
            let v3 = self@;
            let id = circuit_inst_id@;
            let p = parent@;
            let t = template@;
            assert(p != t);
            assert(v3.instances =~= v2.instances.remove(id));
            assert(v3.circuits =~= circuits_after_instance_removal(v2.circuits, p, t, id, None));
            assert(v3.circuits =~= circuits_after_instance_removal(v0.circuits, p, t, id, x0.name));
            assert(v3.nets =~= v2.nets);
            assert(v3.pins =~= v2.pins);
            assert(v3.pin_insts =~= v2.pin_insts);
            assert forall|n: usize| #[trigger] net_is_live(v3.circuits, v3.nets, n) <==> net_is_live(v2.circuits, v2.nets, n) by {}
            assert(inv_deps(v3.circuits, v3.instances)) by {
                assert forall|c: u32, t2: u32| #[trigger] v3.circuits.contains_key(c) implies {
                    &&& (#[trigger] v3.circuits[c].dependencies.contains_key(t2) <==> dep_count(v3.circuits, v3.instances, c, t2) > 0)
                    &&& (v3.circuits[c].dependencies.contains_key(t2) ==> v3.circuits[c].dependencies[t2] == dep_count(v3.circuits, v3.instances, c, t2))
                } by {
                    let f2 = |i: usize| v2.instances[i].template == t2;
                    let f3 = |i: usize| v3.instances[i].template == t2;
                    if c == p {
                        lemma_filter_remove(v2.circuits[c].instances, id, f2, f3);
                    } else {
                        assert(v3.circuits[c].instances.filter(f3) =~= v2.circuits[c].instances.filter(f2));
                    }
                }
                assert forall|t2: u32, p2: u32| #[trigger] v3.circuits.contains_key(t2) implies {
                    &&& (#[trigger] v3.circuits[t2].dependent_circuits.contains_key(p2) <==> ref_count(v3.circuits, v3.instances, t2, p2) > 0)
                    &&& (v3.circuits[t2].dependent_circuits.contains_key(p2) ==> v3.circuits[t2].dependent_circuits[p2] == ref_count(v3.circuits, v3.instances, t2, p2))
                } by {
                    let f2 = |i: usize| v2.instances[i].parent == p2;
                    let f3 = |i: usize| v3.instances[i].parent == p2;
                    if t2 == t {
                        lemma_filter_remove(v2.circuits[t2].references, id, f2, f3);
                    } else {
                        assert(v3.circuits[t2].references.filter(f3) =~= v2.circuits[t2].references.filter(f2));
                    }
                }
            }
            assert(inv_instances(v3.circuits, v3.instances, v3.pin_insts)) by {
                assert forall|c: u32, s: Seq<char>| #[trigger] v3.circuits.contains_key(c) && #[trigger] v3.circuits[c].instances_by_name.contains_key(s)
                    implies {
                        let i = v3.circuits[c].instances_by_name[s];
                        &&& v3.instances.contains_key(i)
                        &&& v3.instances[i].parent == c
                        &&& v3.instances[i].name == Some(s)
                    } by {
                    assert(v2.circuits[c].instances_by_name.contains_key(s));
                    let i = v2.circuits[c].instances_by_name[s];
                    assert(v2.instances[i].name == Some(s));
                    assert(i != id);
                }
                assert forall|i: usize| #[trigger] v3.instances.contains_key(i) implies {
                    let x = v3.instances[i];
                    &&& v3.circuits[x.parent].instances.contains(i)
                    &&& v3.circuits[x.template].references.contains(i)
                    &&& (x.name matches Some(s) ==> v3.circuits[x.parent].instances_by_name.contains_key(s)
                        && v3.circuits[x.parent].instances_by_name[s] == i)
                    &&& forall|k: int| 0 <= k < x.pins.len() ==> v3.pin_insts.contains_key(#[trigger] x.pins[k])
                        && v3.pin_insts[x.pins[k]].circuit_inst == i
                } by {
                    assert(v2.instances.contains_key(i));
                    let x = v2.instances[i];
                    assert forall|k: int| 0 <= k < x.pins.len() implies v3.pin_insts.contains_key(#[trigger] x.pins[k])
                        && v3.pin_insts[x.pins[k]].circuit_inst == i by {
                        assert(v2.pin_insts.contains_key(x.pins[k]));
                    }
                }
                assert forall|c: u32| #[trigger] v3.circuits.contains_key(c) implies
                    v3.circuits[c].instances.finite() && v3.circuits[c].references.finite() by {
                    broadcast use vstd::set_lib::group_set_properties;
                }
            }
            assert(inv_pin_insts(v3.circuits, v3.instances, v3.nets, v3.pin_insts)) by {
                assert forall|q: usize| #[trigger] v3.pin_insts.contains_key(q) implies {
                    let x = v3.pin_insts[q];
                    if v3.instances.contains_key(x.circuit_inst) {
                        &&& v3.instances[x.circuit_inst].pins.contains(q)
                        &&& (x.net matches Some(n) ==> net_is_live(v3.circuits, v3.nets, n)
                            && v3.nets[n].parent == v3.instances[x.circuit_inst].parent
                            && v3.nets[n].pin_instances.contains(q))
                    } else {
                        x.net is None
                    }
                } by {
                    assert(v2.pin_insts.contains_key(q));
                    let x = v2.pin_insts[q];
                    if x.circuit_inst == id {
                        assert(x0.pins.contains(q));
                    }
                }
                assert forall|n: usize, q: usize| #[trigger] net_is_live(v3.circuits, v3.nets, n) && #[trigger] v3.nets[n].pin_instances.contains(q)
                    implies pin_inst_is_live(v3.instances, v3.pin_insts, q) && v3.pin_insts[q].net == Some(n) by {
                    assert(pin_inst_is_live(v2.instances, v2.pin_insts, q));
                    if v2.pin_insts[q].circuit_inst == id {
                        assert(x0.pins.contains(q));
                    }
                }
            }
            assert(inv_pins(v3.circuits, v3.nets, v3.pins)) by {
                assert forall|c: u32| #[trigger] v3.circuits.contains_key(c) implies v3.circuits[c].pins == v2.circuits[c].pins by {}
            }
            assert(inv_nets(v3.circuits, v3.nets)) by {
                assert forall|c: u32| #[trigger] v3.circuits.contains_key(c) implies
                    v3.circuits[c].nets == v2.circuits[c].nets && v3.circuits[c].nets_by_name == v2.circuits[c].nets_by_name by {}
            }
            assert(inv_cell_names(v3.circuits, v3.circuits_by_name));
            lemma_acyclic_frame(v0.circuits, v3.circuits);
            assert(v3.inv_ids());
        }
    }
}

/// A frame fact used by the renaming operations: the invariant parts that do
/// not look at names carry over when only names change.
proof fn lemma_rename_frame(v0: ChipView, v1: ChipView)
    requires
        v0.inv(),
        v1.circuits.dom() == v0.circuits.dom(),
        forall|c: u32| #[trigger] v1.circuits.contains_key(c) ==> {
            &&& v1.circuits[c].id == v0.circuits[c].id
            &&& v1.circuits[c].instances == v0.circuits[c].instances
            &&& v1.circuits[c].references == v0.circuits[c].references
            &&& v1.circuits[c].dependencies == v0.circuits[c].dependencies
            &&& v1.circuits[c].dependent_circuits == v0.circuits[c].dependent_circuits
            &&& v1.circuits[c].pins == v0.circuits[c].pins
            &&& v1.circuits[c].nets == v0.circuits[c].nets
            &&& v1.circuits[c].net_low == v0.circuits[c].net_low
            &&& v1.circuits[c].net_high == v0.circuits[c].net_high
            &&& v1.circuits[c].instances_by_name == v0.circuits[c].instances_by_name
        },
        v1.instances == v0.instances,
        v1.pin_insts == v0.pin_insts,
        v1.nets.dom() == v0.nets.dom(),
        forall|n: usize| #[trigger] v1.nets.contains_key(n) ==> {
            &&& v1.nets[n].parent == v0.nets[n].parent
            &&& v1.nets[n].pins == v0.nets[n].pins
            &&& v1.nets[n].pin_instances == v0.nets[n].pin_instances
        },
        v1.pins.dom() == v0.pins.dom(),
        forall|p: u32| #[trigger] v1.pins.contains_key(p) ==> {
            &&& v1.pins[p].circuit == v0.pins[p].circuit
            &&& v1.pins[p].net == v0.pins[p].net
        },
        v1.next_circuit == v0.next_circuit,
        v1.next_inst == v0.next_inst,
        v1.next_pin == v0.next_pin,
        v1.next_pin_inst == v0.next_pin_inst,
        v1.next_net == v0.next_net,
    ensures
        v1.inv_ids(),
        inv_instances(v1.circuits, v1.instances, v1.pin_insts),
        inv_deps(v1.circuits, v1.instances),
        inv_pins(v1.circuits, v1.nets, v1.pins),
        inv_pin_insts(v1.circuits, v1.instances, v1.nets, v1.pin_insts),
        forall|n: usize| #[trigger] net_is_live(v1.circuits, v1.nets, n) <==> net_is_live(v0.circuits, v0.nets, n),
{
    lemma_counts_frame(v0, v1);
    assert forall|n: usize| #[trigger] net_is_live(v1.circuits, v1.nets, n) <==> net_is_live(v0.circuits, v0.nets, n) by {}
    assert(inv_pins(v1.circuits, v1.nets, v1.pins)) by {
        assert forall|p: u32| #[trigger] v1.pins.contains_key(p) implies {
            let x = v1.pins[p];
            &&& v1.circuits.contains_key(x.circuit)
            &&& v1.circuits[x.circuit].pins.contains(p)
            &&& (x.net matches Some(n) ==> net_is_live(v1.circuits, v1.nets, n) && v1.nets[n].parent == x.circuit
                && v1.nets[n].pins.contains(p))
        } by {
            assert(v0.pins.contains_key(p));
        }
        assert forall|c: u32| #[trigger] v1.circuits.contains_key(c) implies {
            &&& v1.circuits[c].pins.no_duplicates()
            &&& forall|k: int| 0 <= k < v1.circuits[c].pins.len() ==> v1.pins.contains_key(#[trigger] v1.circuits[c].pins[k])
                && v1.pins[v1.circuits[c].pins[k]].circuit == c
        } by {
            assert(v0.circuits.contains_key(c));
        }
        assert forall|n: usize, p: u32| #[trigger] net_is_live(v1.circuits, v1.nets, n) && #[trigger] v1.nets[n].pins.contains(p)
            implies v1.pins.contains_key(p) && v1.pins[p].net == Some(n) by {
            assert(net_is_live(v0.circuits, v0.nets, n));
        }
    }
    assert(inv_pin_insts(v1.circuits, v1.instances, v1.nets, v1.pin_insts)) by {
        assert forall|q: usize| #[trigger] v1.pin_insts.contains_key(q) implies {
            let x = v1.pin_insts[q];
            if v1.instances.contains_key(x.circuit_inst) {
                &&& v1.instances[x.circuit_inst].pins.contains(q)
                &&& (x.net matches Some(n) ==> net_is_live(v1.circuits, v1.nets, n)
                    && v1.nets[n].parent == v1.instances[x.circuit_inst].parent
                    && v1.nets[n].pin_instances.contains(q))
            } else {
                x.net is None
            }
        } by {
            assert(v0.pin_insts.contains_key(q));
        }
        assert forall|n: usize, q: usize| #[trigger] net_is_live(v1.circuits, v1.nets, n) && #[trigger] v1.nets[n].pin_instances.contains(q)
            implies pin_inst_is_live(v1.instances, v1.pin_insts, q) && v1.pin_insts[q].net == Some(n) by {
            assert(net_is_live(v0.circuits, v0.nets, n));
        }
    }
    assert(inv_instances(v1.circuits, v1.instances, v1.pin_insts)) by {
        assert forall|i: usize| #[trigger] v1.instances.contains_key(i) implies
            v1.circuits.contains_key(v1.instances[i].parent) && v1.circuits.contains_key(v1.instances[i].template) by {}
    }
}

impl Chip {
    /// Change the name of the cell.
    pub fn rename_cell(&mut self, cell: &CellId, name: String)
        requires
            old(self).wf(),
            old(self)@.circuits.contains_key(cell@),
            !old(self)@.circuits_by_name.contains_key(name@),
        ensures
            final(self).wf(),
            final(self).layers() == old(self).layers(),
            final(self).shapes_view() == old(self).shapes_view(),
            final(self)@.circuits == old(self)@.circuits.insert(cell@, CircuitView { name: name@, ..old(self)@.circuits[cell@] }),
            final(self)@.circuits_by_name == old(self)@.circuits_by_name.remove(old(self)@.circuits[cell@].name).insert(name@, cell@),
            final(self)@.instances == old(self)@.instances,
            final(self)@.nets == old(self)@.nets,
            final(self)@.pins == old(self)@.pins,
            final(self)@.pin_insts == old(self)@.pin_insts,
            final(self)@.next_circuit == old(self)@.next_circuit,
            final(self)@.next_inst == old(self)@.next_inst,
            final(self)@.next_pin == old(self)@.next_pin,
            final(self)@.next_pin_inst == old(self)@.next_pin_inst,
            final(self)@.next_net == old(self)@.next_net,
    {
        let ghost v0 = self@;
        let mut c = fnv_map_remove(&mut self.circuits, &cell.0).unwrap();
        // Remove old name.
        self.circuits_by_name.remove(c.name.as_str());
        // Set the new name.
        c.name = name.clone();
        fnv_map_insert(&mut self.circuits, cell.0, c);
        self.circuits_by_name.insert(name, cell.0);
        proof {
            let v1 = self@;
            assert(v1.circuits =~= v0.circuits.insert(cell@, CircuitView { name: name@, ..v0.circuits[cell@] }));
            assert(v1.circuits_by_name =~= v0.circuits_by_name.remove(v0.circuits[cell@].name).insert(name@, cell@));
            assert(v1.nets =~= v0.nets);
            assert(v1.pins =~= v0.pins);
            assert(v1.instances =~= v0.instances);
            assert(v1.pin_insts =~= v0.pin_insts);
            lemma_rename_frame(v0, v1);
            assert(inv_cell_names(v1.circuits, v1.circuits_by_name)) by {
                assert forall|s: Seq<char>| #[trigger] v1.circuits_by_name.contains_key(s) implies {
                    &&& v1.circuits.contains_key(v1.circuits_by_name[s])
                    &&& v1.circuits[v1.circuits_by_name[s]].name == s
                } by {
                    if s != name@ {
                        assert(v0.circuits_by_name.contains_key(s));
                    }
                }
            }
            assert(inv_nets(v1.circuits, v1.nets)) by {
                assert forall|n: usize| #[trigger] net_is_live(v1.circuits, v1.nets, n) implies net_is_live(v0.circuits, v0.nets, n) by {}
            }
            lemma_acyclic_frame(v0.circuits, v1.circuits);
        }
    }

    /// Change the name of the net, or remove it with `None`.
    /// Returns the previous name; when the net already has the new name, returns the new name.
    pub fn rename_net(&mut self, net_id: &NetId, new_name: Option<String>) -> (res: Option<String>)
        requires
            old(self).wf(),
            net_is_live(old(self)@.circuits, old(self)@.nets, net_id@),
            new_name matches Some(s) ==> {
                let names = old(self)@.circuits[old(self)@.nets[net_id@].parent].nets_by_name;
                names.contains_key(s@) ==> names[s@] == net_id@
            },
        ensures
            final(self).wf(),
            final(self).layers() == old(self).layers(),
            final(self).shapes_view() == old(self).shapes_view(),
            ({
                let p = old(self)@.nets[net_id@].parent;
                let unchanged = new_name matches Some(s) && old(self)@.circuits[p].nets_by_name.contains_key(s@);
                &&& unchanged ==> final(self)@ == old(self)@ && opt_name(res) == opt_name(new_name)
                &&& !unchanged ==> {
                    &&& opt_name(res) == old(self)@.nets[net_id@].name
                    &&& final(self)@.nets == old(self)@.nets.insert(net_id@, NetView { name: opt_name(new_name), ..old(self)@.nets[net_id@] })
                    &&& final(self)@.circuits == old(self)@.circuits.insert(p, CircuitView {
                        nets_by_name: names_after_rename(old(self)@.circuits[p].nets_by_name, net_id@,
                            old(self)@.nets[net_id@].name, opt_name(new_name)),
                        ..old(self)@.circuits[p]
                    })
                    &&& final(self)@.circuits_by_name == old(self)@.circuits_by_name
                    &&& final(self)@.instances == old(self)@.instances
                    &&& final(self)@.pins == old(self)@.pins
                    &&& final(self)@.pin_insts == old(self)@.pin_insts
                    &&& final(self)@.next_circuit == old(self)@.next_circuit
                    &&& final(self)@.next_inst == old(self)@.next_inst
                    &&& final(self)@.next_pin == old(self)@.next_pin
                    &&& final(self)@.next_pin_inst == old(self)@.next_pin_inst
                    &&& final(self)@.next_net == old(self)@.next_net
                }
            }),
    {
        let ghost v0 = self@;
        let parent_circuit = self.net(net_id).parent_id;
        // Check if a net with this name already exists.
        if let Some(name) = &new_name {
            if self.circuit(&parent_circuit).nets_by_name.contains_key(name.as_str()) {
                // Name is the same as before.
                return new_name;
            }
        }
        let mut n = fnv_map_remove(&mut self.nets, &net_id.0).unwrap();
        let maybe_old_name = n.name.take();
        n.name = Self::clone_name(&new_name);
        fnv_map_insert(&mut self.nets, net_id.0, n);
        let mut pc = fnv_map_remove(&mut self.circuits, &parent_circuit.0).unwrap();
        // Remove the old name mapping.
        if let Some(old_name) = &maybe_old_name {
            pc.nets_by_name.remove(old_name.as_str());
        }
        // Add the new name mapping.
        if let Some(new_name) = new_name {
            pc.nets_by_name.insert(new_name, net_id.0);
        }
        fnv_map_insert(&mut self.circuits, parent_circuit.0, pc);
        proof {
            let v1 = self@;
            let p = parent_circuit@;
            let om = v0.nets[net_id@].name;
            let nm = opt_name(new_name);
            assert(v1.nets =~= v0.nets.insert(net_id@, NetView { name: nm, ..v0.nets[net_id@] }));
            assert(v1.circuits =~= v0.circuits.insert(p, CircuitView {
                nets_by_name: names_after_rename(v0.circuits[p].nets_by_name, net_id@, om, nm),
                ..v0.circuits[p]
            }));
            assert(v1.pins =~= v0.pins);
            assert(v1.instances =~= v0.instances);
            assert(v1.pin_insts =~= v0.pin_insts);
            lemma_rename_frame(v0, v1);
            assert(inv_nets(v1.circuits, v1.nets)) by {
                assert forall|n: usize| #[trigger] net_is_live(v1.circuits, v1.nets, n) implies {
                    let x = v1.nets[n];
                    &&& v1.circuits[x.parent].nets.contains(n)
                    &&& (x.name matches Some(s) ==> v1.circuits[x.parent].nets_by_name.contains_key(s)
                        && v1.circuits[x.parent].nets_by_name[s] == n)
                } by {
                    assert(net_is_live(v0.circuits, v0.nets, n));
                    let x = v0.nets[n];
                    if n != net_id@ && x.parent == p {
                        if let Some(s) = x.name {
                            if let Some(s2) = om {
                                assert(s != s2);
                            }
                            if let Some(s2) = nm {
                                assert(s != s2);
                            }
                        }
                    }
                }
                assert forall|c: u32, s: Seq<char>| #[trigger] v1.circuits.contains_key(c) && #[trigger] v1.circuits[c].nets_by_name.contains_key(s)
                    implies {
                        let n = v1.circuits[c].nets_by_name[s];
                        &&& v1.nets.contains_key(n)
                        &&& v1.nets[n].parent == c
                        &&& v1.nets[n].name == Some(s)
                    } by {
                    if c == p && nm != Some(s) {
                        assert(v0.circuits[c].nets_by_name.contains_key(s));
                        let n = v0.circuits[c].nets_by_name[s];
                        if n == net_id@ {
                            assert(om == Some(s));
                        }
                    }
                }
            }
            assert(inv_cell_names(v1.circuits, v1.circuits_by_name));
            lemma_acyclic_frame(v0.circuits, v1.circuits);
        }
        maybe_old_name
    }
}

impl Chip {
    /// Find a pin of a circuit by its name: the first pin with this name.
    pub fn pin_by_name(&self, parent_circuit: &CellId, name: &str) -> (res: Option<PinId>)
        requires
            self.wf(),
            self@.circuits.contains_key(parent_circuit@),
        ensures
            match res {
                Some(p) => exists|k: int| {
                    &&& 0 <= k < self@.circuits[parent_circuit@].pins.len()
                    &&& self@.circuits[parent_circuit@].pins[k] == p@
                    &&& self@.pins[p@].name == name@
                    &&& forall|j: int| 0 <= j < k ==> self@.pins[#[trigger] self@.circuits[parent_circuit@].pins[j]].name != name@
                },
                None => forall|k: int| 0 <= k < self@.circuits[parent_circuit@].pins.len()
                    ==> self@.pins[#[trigger] self@.circuits[parent_circuit@].pins[k]].name != name@,
            },
    {
        let name_owned = name.to_owned();
        proof {
            assert(name_owned@ == name@);
        }
        let c = self.circuit(parent_circuit);
        proof {
            assert forall|j: int| 0 <= j < c@.pins.len() implies self@.pins.contains_key(#[trigger] c@.pins[j]) by {
                assert(self@.pins.contains_key(self@.circuits[parent_circuit@].pins[j]));
            }
        }
        let mut k: usize = 0;
        while k < c.pins.len()
            invariant
                self@.circuits.contains_key(parent_circuit@),
                forall|j: int| 0 <= j < c@.pins.len() ==> self@.pins.contains_key(#[trigger] c@.pins[j]),
                c@ == self@.circuits[parent_circuit@],
                name_owned@ == name@,
                k <= c@.pins.len(),
                forall|j: int| 0 <= j < k ==> self@.pins[#[trigger] self@.circuits[parent_circuit@].pins[j]].name != name_owned@,
            decreases c@.pins.len() - k,
        {
            let p = c.pins[k];
            if self.pin(&PinId(p)).name == name_owned {
                proof {
                    let kk = k as int;
                    assert(self@.circuits[parent_circuit@].pins[kk] == p);
                    assert(0 <= kk < self@.circuits[parent_circuit@].pins.len()
                        && self@.circuits[parent_circuit@].pins[kk] == PinId(p)@
                        && self@.pins[PinId(p)@].name == name_owned@
                        && forall|j: int| 0 <= j < kk ==> self@.pins[#[trigger] self@.circuits[parent_circuit@].pins[j]].name != name_owned@);
                    let r = PinId(p);
                    assert(exists|k2: int| {
                        &&& 0 <= k2 < self@.circuits[parent_circuit@].pins.len()
                        &&& self@.circuits[parent_circuit@].pins[k2] == r@
                        &&& self@.pins[r@].name == name_owned@
                        &&& forall|j: int| 0 <= j < k2 ==> self@.pins[#[trigger] self@.circuits[parent_circuit@].pins[j]].name != name_owned@
                    });
                }
                return Some(PinId(p));
            }
            k = k + 1;
        }
        None
    }

    /// Rename a pin and return the old name.
    pub fn rename_pin(&mut self, pin: &PinId, new_name: String) -> (res: String)
        requires
            old(self).wf(),
            old(self)@.pins.contains_key(pin@),
            forall|k: int| 0 <= k < old(self)@.circuits[old(self)@.pins[pin@].circuit].pins.len()
                ==> old(self)@.pins[#[trigger] old(self)@.circuits[old(self)@.pins[pin@].circuit].pins[k]].name != new_name@,
        ensures
            final(self).wf(),
            final(self).layers() == old(self).layers(),
            final(self).shapes_view() == old(self).shapes_view(),
            res@ == old(self)@.pins[pin@].name,
            final(self)@.pins == old(self)@.pins.insert(pin@, PinView { name: new_name@, ..old(self)@.pins[pin@] }),
            final(self)@.circuits == old(self)@.circuits,
            final(self)@.circuits_by_name == old(self)@.circuits_by_name,
            final(self)@.instances == old(self)@.instances,
            final(self)@.nets == old(self)@.nets,
            final(self)@.pin_insts == old(self)@.pin_insts,
            final(self)@.next_circuit == old(self)@.next_circuit,
            final(self)@.next_inst == old(self)@.next_inst,
            final(self)@.next_pin == old(self)@.next_pin,
            final(self)@.next_pin_inst == old(self)@.next_pin_inst,
            final(self)@.next_net == old(self)@.next_net,
    {
        let ghost v0 = self@;
        let mut p = fnv_map_remove(&mut self.pins, &pin.0).unwrap();
        let mut old_name = new_name;
        std::mem::swap(&mut p.name, &mut old_name);
        fnv_map_insert(&mut self.pins, pin.0, p);
        proof {
            let v1 = self@;
            assert(v1.pins =~= v0.pins.insert(pin@, PinView { name: new_name@, ..v0.pins[pin@] }));
            assert(v1.circuits =~= v0.circuits);
            assert(v1.nets =~= v0.nets);
            assert(v1.instances =~= v0.instances);
            assert(v1.pin_insts =~= v0.pin_insts);
            lemma_rename_frame(v0, v1);
            assert(inv_nets(v1.circuits, v1.nets));
            assert(inv_pin_templates(v1.instances, v1.pins, v1.pin_insts));
        }
        old_name
    }

    /// Remove a pin from its circuit and, with its pin instance, from every
    /// instance of the circuit, after disconnecting them all.
    pub fn remove_pin(&mut self, id: &PinId)
        requires
            old(self).wf(),
            old(self)@.pins.contains_key(id@),
        ensures
            final(self).wf(),
            final(self).layers() == old(self).layers(),
            final(self).shapes_view() == shapes_unlinked_from_pin(old(self).shapes_view(), id@,
                shapes_of_pin_spec(old(self).shapes_view().pin_shapes, id@)),
            ({
                let cell = old(self)@.pins[id@].circuit;
                let k = old(self)@.circuits[cell].pins.index_of(id@);
                final(self)@.circuits == old(self)@.circuits.insert(cell, CircuitView {
                    pins: old(self)@.circuits[cell].pins.remove(k),
                    ..old(self)@.circuits[cell]
                })
            }),
            final(self)@.pins == old(self)@.pins.remove(id@),
            ({
                let gone = first_pin_insts(old(self)@, old(self)@.circuits[old(self)@.pins[id@].circuit].references, id@);
                final(self)@.nets == nets_after_pin_move(nets_after_disconnecting(old(self)@.nets, old(self)@.pin_insts, gone),
                    id@, old(self)@.pins[id@].net, None)
            }),
            final(self)@.circuits_by_name == old(self)@.circuits_by_name,
            final(self)@.instances == instances_without_pin(old(self)@,
                old(self)@.circuits[old(self)@.pins[id@].circuit].references, id@),
            final(self)@.pin_insts == old(self)@.pin_insts.remove_keys(first_pin_insts(old(self)@,
                old(self)@.circuits[old(self)@.pins[id@].circuit].references, id@)),
            final(self)@.next_circuit == old(self)@.next_circuit,
            final(self)@.next_inst == old(self)@.next_inst,
            final(self)@.next_pin == old(self)@.next_pin,
            final(self)@.next_pin_inst == old(self)@.next_pin_inst,
            final(self)@.next_net == old(self)@.next_net,
    {
        // Remove all links from shapes to this pin.
        self.unlink_pin_shapes(id);
        // Disconnect and delete the pin instances of this pin in all instances of the cell.
        let ghost vp = self@;
        self.remove_pin_instances_of(id);
        let ghost v0 = self@;
        proof {
            lemma_no_pin_instance_left(vp, v0, id@);
        }
        let cell = self.pin(id).circuit;
        // Disconnect this pin from internal nets.
        self.disconnect_pin(id);
        let ghost v1 = self@;
        // Remove the pin from the cell.
        let mut c = fnv_map_remove(&mut self.circuits, &cell.0).unwrap();
        let mut k: usize = 0;
        while k < c.pins.len() && c.pins[k] != id.0
            invariant
                self.layers() == old(self).layers(),
                self.shapes_view() == shapes_unlinked_from_pin(old(self).shapes_view(), id@,
                    shapes_of_pin_spec(old(self).shapes_view().pin_shapes, id@)),
                c@ == v1.circuits[cell@],
                k <= c@.pins.len(),
                forall|j: int| 0 <= j < k ==> c@.pins[j] != id@,
            decreases c@.pins.len() - k,
        {
            k = k + 1;
        }
        proof {
            assert(v1.circuits[cell@].pins.contains(id@));
            if k == c@.pins.len() {
                let j = choose|j: int| 0 <= j < c@.pins.len() && c@.pins[j] == id@;
                assert(false);
            }
            assert(c@.pins.index_of(id@) == k) by {
                assert(c@.pins.no_duplicates());
            }
        }
        c.pins.remove(k);
        fnv_map_insert(&mut self.circuits, cell.0, c);
        // Delete the pin struct.
        fnv_map_remove(&mut self.pins, &id.0);
        proof {
            let v2 = self@;
            let cv = v1.circuits[cell@];
            assert(v2.circuits =~= v1.circuits.insert(cell@, CircuitView { pins: cv.pins.remove(k as int), ..cv }));
            assert(v2.pins =~= v1.pins.remove(id@));
            assert(v2.nets =~= v1.nets);
            assert(v2.instances =~= v1.instances);
            assert(v2.pin_insts =~= v1.pin_insts);
            lemma_counts_frame(v1, v2);
            assert forall|n: usize| #[trigger] net_is_live(v2.circuits, v2.nets, n) <==> net_is_live(v1.circuits, v1.nets, n) by {}
            assert(inv_pins(v2.circuits, v2.nets, v2.pins)) by {
                assert forall|c2: u32| #[trigger] v2.circuits.contains_key(c2) implies {
                    &&& v2.circuits[c2].pins.no_duplicates()
                    &&& forall|j: int| 0 <= j < v2.circuits[c2].pins.len() ==> v2.pins.contains_key(#[trigger] v2.circuits[c2].pins[j])
                        && v2.pins[v2.circuits[c2].pins[j]].circuit == c2
                } by {
                    if c2 == cell@ {
                        assert forall|j: int| 0 <= j < v2.circuits[c2].pins.len() implies v2.pins.contains_key(#[trigger] v2.circuits[c2].pins[j])
                            && v2.pins[v2.circuits[c2].pins[j]].circuit == c2 by {
                            if j < k {
                                assert(v2.circuits[c2].pins[j] == cv.pins[j]);
                            } else {
                                assert(v2.circuits[c2].pins[j] == cv.pins[j + 1]);
                                assert(cv.pins[j + 1] != cv.pins[k as int]);
                            }
                        }
                        assert forall|a: int, b: int| 0 <= a < b < v2.circuits[c2].pins.len() implies
                            v2.circuits[c2].pins[a] != v2.circuits[c2].pins[b] by {
                            let a1 = if a < k { a } else { a + 1 };
                            let b1 = if b < k { b } else { b + 1 };
                            assert(v2.circuits[c2].pins[a] == cv.pins[a1]);
                            assert(v2.circuits[c2].pins[b] == cv.pins[b1]);
                        }
                    }
                }
                assert forall|p: u32| #[trigger] v2.pins.contains_key(p) implies {
                    let x = v2.pins[p];
                    &&& v2.circuits.contains_key(x.circuit)
                    &&& v2.circuits[x.circuit].pins.contains(p)
                    &&& (x.net matches Some(n) ==> net_is_live(v2.circuits, v2.nets, n) && v2.nets[n].parent == x.circuit
                        && v2.nets[n].pins.contains(p))
                } by {
                    assert(v1.pins.contains_key(p));
                    let x = v1.pins[p];
                    if x.circuit == cell@ {
                        let j = choose|j: int| 0 <= j < cv.pins.len() && cv.pins[j] == p;
                        assert(j != k);
                        if j < k {
                            assert(v2.circuits[cell@].pins[j] == p);
                        } else {
                            assert(v2.circuits[cell@].pins[j - 1] == p);
                        }
                    }
                }
                assert forall|n: usize, p: u32| #[trigger] net_is_live(v2.circuits, v2.nets, n) && #[trigger] v2.nets[n].pins.contains(p)
                    implies v2.pins.contains_key(p) && v2.pins[p].net == Some(n) by {
                    assert(net_is_live(v1.circuits, v1.nets, n));
                    assert(v1.pins[p].net == Some(n));
                    assert(p != id@);
                }
            }
            assert(inv_pin_templates(v2.instances, v2.pins, v2.pin_insts));
            assert(inv_pin_inst_templates(v2.instances, v2.pins, v2.pin_insts)) by {
                assert forall|i: usize, j: int| #[trigger] v2.instances.contains_key(i) && 0 <= j < v2.instances[i].pins.len()
                    implies v2.pins.contains_key(#[trigger] v2.pin_insts[v2.instances[i].pins[j]].template_pin) by {
                    assert(v1.pins.contains_key(v1.pin_insts[v1.instances[i].pins[j]].template_pin));
                    assert(v0.pin_insts[v0.instances[i].pins[j]].template_pin != id@);
                }
            }
            assert(inv_nets(v2.circuits, v2.nets)) by {
                assert forall|c2: u32| #[trigger] v2.circuits.contains_key(c2) implies
                    v2.circuits[c2].nets == v1.circuits[c2].nets && v2.circuits[c2].nets_by_name == v1.circuits[c2].nets_by_name by {}
            }
            assert(inv_instances(v2.circuits, v2.instances, v2.pin_insts));
            assert(inv_pin_insts(v2.circuits, v2.instances, v2.nets, v2.pin_insts));
            assert(inv_cell_names(v2.circuits, v2.circuits_by_name));
            assert(inv_deps(v2.circuits, v2.instances));
            lemma_acyclic_frame(v0.circuits, v2.circuits);
            assert(v2.inv_ids());
            lemma_pin_order_after_pin_removal(vp, v2, id@);
        }
    }
}

impl Chip {
    /// Disconnect all connected terminals and remove the net.
    pub fn remove_net(&mut self, net: &NetId)
        requires
            old(self).wf(),
            net_is_live(old(self)@.circuits, old(self)@.nets, net@),
            net@ != old(self)@.circuits[old(self)@.nets[net@].parent].net_low,
            net@ != old(self)@.circuits[old(self)@.nets[net@].parent].net_high,
        ensures
            final(self).wf(),
            final(self).layers() == old(self).layers(),
            final(self).shapes_view() == shapes_unlinked_from_nets(old(self).shapes_view(), set![net@]),
            final(self)@.nets == old(self)@.nets.remove(net@),
            ({
                let p = old(self)@.nets[net@].parent;
                final(self)@.circuits == old(self)@.circuits.insert(p, CircuitView {
                    nets: old(self)@.circuits[p].nets.remove(net@),
                    nets_by_name: names_after_rename(old(self)@.circuits[p].nets_by_name, net@, old(self)@.nets[net@].name, None),
                    ..old(self)@.circuits[p]
                })
            }),
            final(self)@.pins.dom() == old(self)@.pins.dom(),
            forall|p: u32| #[trigger] old(self)@.pins.contains_key(p) ==> final(self)@.pins[p] == (
                if old(self)@.nets[net@].pins.contains(p) { PinView { net: None, ..old(self)@.pins[p] } } else { old(self)@.pins[p] }),
            final(self)@.pin_insts.dom() == old(self)@.pin_insts.dom(),
            forall|q: usize| #[trigger] old(self)@.pin_insts.contains_key(q) ==> final(self)@.pin_insts[q] == (
                if old(self)@.nets[net@].pin_instances.contains(q) { PinInstView { net: None, ..old(self)@.pin_insts[q] } } else { old(self)@.pin_insts[q] }),
            final(self)@.circuits_by_name == old(self)@.circuits_by_name,
            final(self)@.instances == old(self)@.instances,
            final(self)@.next_circuit == old(self)@.next_circuit,
            final(self)@.next_inst == old(self)@.next_inst,
            final(self)@.next_pin == old(self)@.next_pin,
            final(self)@.next_pin_inst == old(self)@.next_pin_inst,
            final(self)@.next_net == old(self)@.next_net,
    {
        // Remove all links from shapes to this net.
        self.unlink_net_shapes(net.0);
        let ghost sv = self.shapes_view();
        let ghost v0 = self@;
        let ghost x0 = v0.nets[net@];
        let parent_circuit = self.net(net).parent_id;
        // Remove all links to pins.
        let pins = fnv_set_to_vec(&self.net(net).pins);
        let pin_insts = fnv_set_to_vec(&self.net(net).pin_instances);
        proof {
            assert(pins@.subrange(0, 0).to_set() =~= Set::<u32>::empty());
            assert(x0.pins.difference(pins@.subrange(0, 0).to_set()) =~= x0.pins);
            assert(v0.nets.insert(net@, NetView { pins: x0.pins.difference(pins@.subrange(0, 0).to_set()), ..x0 }) =~= v0.nets);
        }
        let mut k: usize = 0;
        while k < pins.len()
            invariant
                self.layers() == old(self).layers(),
                self.shapes_view() == sv,
                self.wf(),
                v0.inv(),
                net_is_live(v0.circuits, v0.nets, net@),
                x0 == v0.nets[net@],
                pins@.no_duplicates(),
                pins@.to_set() == x0.pins,
                k <= pins@.len(),
                self@.nets == v0.nets.insert(net@, NetView { pins: x0.pins.difference(pins@.subrange(0, k as int).to_set()), ..x0 }),
                self@.pins.dom() == v0.pins.dom(),
                forall|p: u32| #[trigger] v0.pins.contains_key(p) ==> self@.pins[p] == (
                    if pins@.subrange(0, k as int).contains(p) { PinView { net: None, ..v0.pins[p] } } else { v0.pins[p] }),
                self@.circuits == v0.circuits,
                self@.circuits_by_name == v0.circuits_by_name,
                self@.instances == v0.instances,
                self@.pin_insts == v0.pin_insts,
                self@.next_circuit == v0.next_circuit,
                self@.next_inst == v0.next_inst,
                self@.next_pin == v0.next_pin,
                self@.next_pin_inst == v0.next_pin_inst,
                self@.next_net == v0.next_net,
            decreases pins@.len() - k,
        {
            let p = pins[k];
            let ghost w0 = self@;
            let ghost pre = pins@.subrange(0, k as int);
            let ghost post = pins@.subrange(0, k + 1);
            proof {
                assert(pins@.to_set().contains(p));
                assert(v0.pins.contains_key(p) && v0.pins[p].net == Some(net@));
                assert(post == pre.push(p));
                assert forall|p2: u32| post.contains(p2) <==> pre.contains(p2) || p2 == p by {
                    if post.contains(p2) {
                        let j = choose|j: int| 0 <= j < post.len() && post[j] == p2;
                        if j < k {
                            assert(pre[j] == p2);
                        }
                    }
                    if pre.contains(p2) {
                        let j = choose|j: int| 0 <= j < pre.len() && pre[j] == p2;
                        assert(post[j] == p2);
                    }
                    if p2 == p {
                        assert(post[k as int] == p2);
                    }
                }
                assert(!pre.contains(p)) by {
                    if pre.contains(p) {
                        let j = choose|j: int| 0 <= j < pre.len() && pre[j] == p;
                        assert(pins@[j] == pins@[k as int]);
                    }
                }
                assert(w0.pins[p].net == Some(net@));
            }
            self.disconnect_pin(&PinId(p));
            proof {
                assert(post.to_set() =~= pre.to_set().insert(p));
                assert(self@.nets =~= v0.nets.insert(net@, NetView { pins: x0.pins.difference(post.to_set()), ..x0 })) by {
                    assert(x0.pins.difference(pre.to_set()).remove(p) =~= x0.pins.difference(post.to_set()));
                }
            }
            k = k + 1;
        }
        let ghost v1 = self@;
        proof {
            assert(pins@.subrange(0, k as int) == pins@);
            assert(x0.pins.difference(pins@.to_set()) =~= Set::empty());
            assert(pin_insts@.subrange(0, 0).to_set() =~= Set::<usize>::empty());
            assert(x0.pin_instances.difference(pin_insts@.subrange(0, 0).to_set()) =~= x0.pin_instances);
            assert(self@.nets =~= v0.nets.insert(net@, NetView {
                pins: Set::empty(),
                pin_instances: x0.pin_instances.difference(pin_insts@.subrange(0, 0).to_set()),
                ..x0
            }));
            assert forall|p: u32| #[trigger] v0.pins.contains_key(p) implies (pins@.contains(p) <==> x0.pins.contains(p)) by {
                assert(pins@.to_set().contains(p) <==> pins@.contains(p));
            }
        }
        let mut k: usize = 0;
        while k < pin_insts.len()
            invariant
                self.layers() == old(self).layers(),
                self.shapes_view() == sv,
                self.wf(),
                v0.inv(),
                net_is_live(v0.circuits, v0.nets, net@),
                x0 == v0.nets[net@],
                pin_insts@.no_duplicates(),
                pin_insts@.to_set() == x0.pin_instances,
                k <= pin_insts@.len(),
                self@.nets == v0.nets.insert(net@, NetView {
                    pins: Set::empty(),
                    pin_instances: x0.pin_instances.difference(pin_insts@.subrange(0, k as int).to_set()),
                    ..x0
                }),
                self@.pin_insts.dom() == v0.pin_insts.dom(),
                forall|q: usize| #[trigger] v0.pin_insts.contains_key(q) ==> self@.pin_insts[q] == (
                    if pin_insts@.subrange(0, k as int).contains(q) { PinInstView { net: None, ..v0.pin_insts[q] } } else { v0.pin_insts[q] }),
                self@.pins == v1.pins,
                self@.circuits == v0.circuits,
                self@.circuits_by_name == v0.circuits_by_name,
                self@.instances == v0.instances,
                self@.next_circuit == v0.next_circuit,
                self@.next_inst == v0.next_inst,
                self@.next_pin == v0.next_pin,
                self@.next_pin_inst == v0.next_pin_inst,
                self@.next_net == v0.next_net,
            decreases pin_insts@.len() - k,
        {
            let q = pin_insts[k];
            let ghost w0 = self@;
            let ghost pre = pin_insts@.subrange(0, k as int);
            let ghost post = pin_insts@.subrange(0, k + 1);
            proof {
                assert(pin_insts@.to_set().contains(q));
                assert(v0.pin_insts.contains_key(q) && v0.pin_insts[q].net == Some(net@));
                assert(post == pre.push(q));
                assert forall|q2: usize| post.contains(q2) <==> pre.contains(q2) || q2 == q by {
                    if post.contains(q2) {
                        let j = choose|j: int| 0 <= j < post.len() && post[j] == q2;
                        if j < k {
                            assert(pre[j] == q2);
                        }
                    }
                    if pre.contains(q2) {
                        let j = choose|j: int| 0 <= j < pre.len() && pre[j] == q2;
                        assert(post[j] == q2);
                    }
                    if q2 == q {
                        assert(post[k as int] == q2);
                    }
                }
                assert(!pre.contains(q)) by {
                    if pre.contains(q) {
                        let j = choose|j: int| 0 <= j < pre.len() && pre[j] == q;
                        assert(pin_insts@[j] == pin_insts@[k as int]);
                    }
                }
                assert(w0.pin_insts[q].net == Some(net@));
            }
            self.disconnect_pin_instance(&PinInstId(q));
            proof {
                assert(post.to_set() =~= pre.to_set().insert(q));
                assert(self@.nets =~= v0.nets.insert(net@, NetView {
                    pins: Set::empty(),
                    pin_instances: x0.pin_instances.difference(post.to_set()),
                    ..x0
                })) by {
                    assert(x0.pin_instances.difference(pre.to_set()).remove(q) =~= x0.pin_instances.difference(post.to_set()));
                }
            }
            k = k + 1;
        }
        let ghost v2 = self@;
        proof {
            assert(pin_insts@.subrange(0, k as int) == pin_insts@);
            assert(x0.pin_instances.difference(pin_insts@.to_set()) =~= Set::empty());
            assert forall|q: usize| #[trigger] v0.pin_insts.contains_key(q) implies (pin_insts@.contains(q) <==> x0.pin_instances.contains(q)) by {
                assert(pin_insts@.to_set().contains(q) <==> pin_insts@.contains(q));
            }
        }
        let name = Self::clone_name(&self.net(net).name);
        let mut c = fnv_map_remove(&mut self.circuits, &parent_circuit.0).unwrap();
        fnv_set_remove(&mut c.nets, &net.0);
        if let Some(name) = &name {
            c.nets_by_name.remove(name.as_str());
        }
        fnv_map_insert(&mut self.circuits, parent_circuit.0, c);
        fnv_map_remove(&mut self.nets, &net.0);
        proof {
            let v3 = self@;
            let p = parent_circuit@;
            assert(v3.nets =~= v0.nets.remove(net@));
            assert(v3.circuits =~= v0.circuits.insert(p, CircuitView {
                nets: v0.circuits[p].nets.remove(net@),
                nets_by_name: names_after_rename(v0.circuits[p].nets_by_name, net@, x0.name, None),
                ..v0.circuits[p]
            }));
            assert(v3.pins =~= v2.pins);
            assert(v3.pin_insts =~= v2.pin_insts);
            assert(v3.instances =~= v2.instances);
            lemma_counts_frame(v2, v3);
            assert forall|n: usize| #[trigger] net_is_live(v3.circuits, v3.nets, n) <==> net_is_live(v2.circuits, v2.nets, n) && n != net@ by {}
            assert(inv_nets(v3.circuits, v3.nets)) by {
                assert forall|n: usize| #[trigger] net_is_live(v3.circuits, v3.nets, n) implies {
                    let x = v3.nets[n];
                    &&& v3.circuits[x.parent].nets.contains(n)
                    &&& (x.name matches Some(s) ==> v3.circuits[x.parent].nets_by_name.contains_key(s)
                        && v3.circuits[x.parent].nets_by_name[s] == n)
                } by {
                    assert(net_is_live(v0.circuits, v0.nets, n));
                    let x = v0.nets[n];
                    if x.parent == p {
                        if let Some(s) = x.name {
                            if let Some(s2) = x0.name {
                                assert(s != s2);
                            }
                        }
                    }
                }
                assert forall|c2: u32, s: Seq<char>| #[trigger] v3.circuits.contains_key(c2) && #[trigger] v3.circuits[c2].nets_by_name.contains_key(s)
                    implies {
                        let n = v3.circuits[c2].nets_by_name[s];
                        &&& v3.nets.contains_key(n)
                        &&& v3.nets[n].parent == c2
                        &&& v3.nets[n].name == Some(s)
                    } by {
                    assert(v0.circuits[c2].nets_by_name.contains_key(s));
                    let n = v0.circuits[c2].nets_by_name[s];
                    if n == net@ {
                        assert(x0.name == Some(s));
                    }
                }
                assert forall|c2: u32, n: usize| #[trigger] v3.circuits.contains_key(c2) && #[trigger] v3.circuits[c2].nets.contains(n)
                    implies v3.nets.contains_key(n) && v3.nets[n].parent == c2 by {
                    assert(v0.circuits[c2].nets.contains(n));
                    if c2 != p {
                        assert(n != net@);
                    }
                }
            }
            assert(inv_pins(v3.circuits, v3.nets, v3.pins)) by {
                assert forall|p2: u32| #[trigger] v3.pins.contains_key(p2) implies {
                    let x = v3.pins[p2];
                    &&& v3.circuits.contains_key(x.circuit)
                    &&& v3.circuits[x.circuit].pins.contains(p2)
                    &&& (x.net matches Some(n) ==> net_is_live(v3.circuits, v3.nets, n) && v3.nets[n].parent == x.circuit
                        && v3.nets[n].pins.contains(p2))
                } by {
                    assert(v2.pins.contains_key(p2));
                    if let Some(n) = v2.pins[p2].net {
                        assert(v2.nets[n].pins.contains(p2));
                    }
                }
                assert forall|c2: u32| #[trigger] v3.circuits.contains_key(c2) implies v3.circuits[c2].pins == v2.circuits[c2].pins by {}
            }
            assert(inv_pin_insts(v3.circuits, v3.instances, v3.nets, v3.pin_insts)) by {
                assert forall|q: usize| #[trigger] v3.pin_insts.contains_key(q) implies {
                    let x = v3.pin_insts[q];
                    if v3.instances.contains_key(x.circuit_inst) {
                        &&& v3.instances[x.circuit_inst].pins.contains(q)
                        &&& (x.net matches Some(n) ==> net_is_live(v3.circuits, v3.nets, n)
                            && v3.nets[n].parent == v3.instances[x.circuit_inst].parent
                            && v3.nets[n].pin_instances.contains(q))
                    } else {
                        x.net is None
                    }
                } by {
                    assert(v2.pin_insts.contains_key(q));
                    if let Some(n) = v2.pin_insts[q].net {
                        if v2.instances.contains_key(v2.pin_insts[q].circuit_inst) {
                            assert(v2.nets[n].pin_instances.contains(q));
                        }
                    }
                }
            }
            assert(inv_instances(v3.circuits, v3.instances, v3.pin_insts));
            assert(inv_cell_names(v3.circuits, v3.circuits_by_name));
            assert(inv_deps(v3.circuits, v3.instances));
            assert(inv_pin_templates(v3.instances, v3.pins, v3.pin_insts));
            lemma_acyclic_frame(v0.circuits, v3.circuits);
            assert(v3.inv_ids());
        }
    }
}

/// The parts of a circuit that removing instances and pins elsewhere does not touch.
pub open spec fn same_interface(a: CircuitView, b: CircuitView) -> bool {
    &&& a.id == b.id
    &&& a.name == b.name
    &&& a.pins == b.pins
    &&& a.nets == b.nets
    &&& a.nets_by_name == b.nets_by_name
    &&& a.net_low == b.net_low
    &&& a.net_high == b.net_high
}

impl Chip {
    /// Remove all instances inside the circuit, remove all instances of the circuit
    /// and remove finally the circuit itself with its pins.
    /// The nets of the circuit stay in the net table, dead.
    pub fn remove_circuit(&mut self, circuit_id: &CellId)
        requires
            old(self).wf(),
            old(self)@.circuits.contains_key(circuit_id@),
        ensures
            final(self).wf(),
            final(self).layers() == old(self).layers(),
            final(self).shapes_view() == shapes_without_cell(old(self).shapes_view(), circuit_id@),
            final(self)@.circuits.dom() == old(self)@.circuits.dom().remove(circuit_id@),
            forall|c: u32| #[trigger] final(self)@.circuits.contains_key(c) ==> same_interface(final(self)@.circuits[c], old(self)@.circuits[c]),
            final(self)@.circuits_by_name == old(self)@.circuits_by_name.remove(old(self)@.circuits[circuit_id@].name),
            final(self)@.instances == old(self)@.instances.remove_keys(
                old(self)@.circuits[circuit_id@].instances + old(self)@.circuits[circuit_id@].references),
            final(self)@.pins == old(self)@.pins.remove_keys(old(self)@.circuits[circuit_id@].pins.to_set()),
            final(self)@.nets.dom() == old(self)@.nets.dom(),
            forall|n: usize| #[trigger] final(self)@.nets.contains_key(n) ==>
                final(self)@.nets[n].name == old(self)@.nets[n].name && final(self)@.nets[n].parent == old(self)@.nets[n].parent
                && final(self)@.nets[n].pins == old(self)@.nets[n].pins,
            forall|n: usize| #[trigger] old(self)@.nets.contains_key(n) && !net_is_live(old(self)@.circuits, old(self)@.nets, n)
                ==> final(self)@.nets[n] == old(self)@.nets[n],
            final(self)@.pin_insts.dom() == old(self)@.pin_insts.dom(),
            forall|q: usize| #[trigger] old(self)@.pin_insts.contains_key(q) ==> final(self)@.pin_insts[q]
                == pin_inst_after_removal(old(self)@, old(self)@.circuits[circuit_id@].instances + old(self)@.circuits[circuit_id@].references, q),
            forall|n: usize| #[trigger] net_is_live(old(self)@.circuits, old(self)@.nets, n) ==> final(self)@.nets[n]
                == net_after_removal(old(self)@, old(self)@.circuits[circuit_id@].instances + old(self)@.circuits[circuit_id@].references, n),
            final(self)@.next_circuit == old(self)@.next_circuit,
            final(self)@.next_inst == old(self)@.next_inst,
            final(self)@.next_pin == old(self)@.next_pin,
            final(self)@.next_pin_inst == old(self)@.next_pin_inst,
            final(self)@.next_net == old(self)@.next_net,
    {
        let ghost v0 = self@;
        let ghost cid = circuit_id@;
        // Remove all instances inside this circuit.
        let instances = fnv_set_to_vec(&self.circuit(circuit_id).instances);
        let references = fnv_set_to_vec(&self.circuit(circuit_id).references);
        let ghost all = v0.circuits[cid].instances + v0.circuits[cid].references;
        proof {
            assert(v0.instances.remove_keys(instances@.subrange(0, 0).to_set()) =~= v0.instances);
            assert(instances@.subrange(0, 0).to_set() =~= Set::empty());
            assert forall|n: usize| #[trigger] net_is_live(v0.circuits, v0.nets, n) implies
                v0.nets[n] == net_after_removal(v0, Set::empty(), n) by {
                assert(v0.nets[n].pin_instances.filter(|q: usize| !Set::<usize>::empty().contains(v0.pin_insts[q].circuit_inst))
                    =~= v0.nets[n].pin_instances);
            }
        }
        let mut k: usize = 0;
        while k < instances.len()
            invariant
                self.layers() == old(self).layers(),
                self.shapes_view() == old(self).shapes_view(),
                self.wf(),
                v0.inv(),
                v0.circuits.contains_key(cid),
                instances@.no_duplicates(),
                instances@.to_set() == v0.circuits[cid].instances,
                k <= instances@.len(),
                self@.circuits.dom() == v0.circuits.dom(),
                forall|c: u32| #[trigger] self@.circuits.contains_key(c) ==> same_interface(self@.circuits[c], v0.circuits[c]),
                self@.circuits_by_name == v0.circuits_by_name,
                self@.instances == v0.instances.remove_keys(instances@.subrange(0, k as int).to_set()),
                self@.pins == v0.pins,
                self@.nets.dom() == v0.nets.dom(),
                forall|n: usize| #[trigger] self@.nets.contains_key(n) ==>
                    self@.nets[n].name == v0.nets[n].name && self@.nets[n].parent == v0.nets[n].parent
                    && self@.nets[n].pins == v0.nets[n].pins,
                self@.pin_insts.dom() == v0.pin_insts.dom(),
                forall|q: usize| #[trigger] v0.pin_insts.contains_key(q) ==> self@.pin_insts[q]
                    == pin_inst_after_removal(v0, instances@.subrange(0, k as int).to_set(), q),
                forall|n: usize| #[trigger] net_is_live(v0.circuits, v0.nets, n) ==> self@.nets[n]
                    == net_after_removal(v0, instances@.subrange(0, k as int).to_set(), n),
                self@.next_circuit == v0.next_circuit,
                self@.next_inst == v0.next_inst,
                self@.next_pin == v0.next_pin,
                self@.next_pin_inst == v0.next_pin_inst,
                self@.next_net == v0.next_net,
            decreases instances@.len() - k,
        {
            let i = instances[k];
            let ghost pre = instances@.subrange(0, k as int);
            let ghost post = instances@.subrange(0, k + 1);
            proof {
                assert(instances@.to_set().contains(i));
                assert(v0.instances.contains_key(i));
                assert(!pre.contains(i)) by {
                    if pre.contains(i) {
                        let j = choose|j: int| 0 <= j < pre.len() && pre[j] == i;
                        assert(instances@[j] == instances@[k as int]);
                    }
                }
                assert(!pre.to_set().contains(i));
                assert(self@.instances[i] == v0.instances[i]);
            }
            let ghost w0 = self@;
            self.remove_circuit_instance(&CellInstId(i));
            proof {
                lemma_instance_removal_step(v0, w0, self@, i, pre.to_set());
                assert(post == pre.push(i));
                assert(post.to_set() =~= pre.to_set().insert(i)) by {
                    assert forall|x: usize| post.contains(x) <==> pre.contains(x) || x == i by {
                        if post.contains(x) {
                            let j = choose|j: int| 0 <= j < post.len() && post[j] == x;
                            if j < k {
                                assert(pre[j] == x);
                            }
                        }
                        if pre.contains(x) {
                            let j = choose|j: int| 0 <= j < pre.len() && pre[j] == x;
                            assert(post[j] == x);
                        }
                        if x == i {
                            assert(post[k as int] == x);
                        }
                    }
                }
                assert(self@.instances =~= v0.instances.remove_keys(post.to_set()));
                assert(pre.to_set().insert(i) == post.to_set());
            }
            k = k + 1;
        }
        proof {
            assert(instances@.subrange(0, k as int) == instances@);
            assert(self@.instances =~= v0.instances.remove_keys(v0.circuits[cid].instances));
            assert(self@.circuits[cid].instances =~= Set::empty()) by {
                assert forall|i: usize| !(#[trigger] self@.circuits[cid].instances.contains(i)) by {
                    if self@.circuits[cid].instances.contains(i) {
                        assert(self@.instances.contains_key(i));
                    }
                }
            }
            assert forall|i: usize| #[trigger] v0.circuits[cid].references.contains(i) implies self@.instances.contains_key(i) by {
                assert(v0.instances[i].template == cid);
                assert(v0.instances[i].parent != cid);
                assert(!v0.circuits[cid].instances.contains(i));
            }
            assert(self@.instances.remove_keys(references@.subrange(0, 0).to_set()) =~= self@.instances);
            assert(v0.circuits[cid].instances + references@.subrange(0, 0).to_set() =~= instances@.subrange(0, k as int).to_set());
        }
        let ghost v1 = self@;
        // Remove all instances of this circuit.
        let mut k: usize = 0;
        while k < references.len()
            invariant
                self.layers() == old(self).layers(),
                self.shapes_view() == old(self).shapes_view(),
                self.wf(),
                v0.inv(),
                v0.circuits.contains_key(cid),
                references@.no_duplicates(),
                references@.to_set() == v0.circuits[cid].references,
                forall|i: usize| #[trigger] v0.circuits[cid].references.contains(i) ==> v1.instances.contains_key(i),
                v1.instances == v0.instances.remove_keys(v0.circuits[cid].instances),
                k <= references@.len(),
                self@.circuits.dom() == v0.circuits.dom(),
                forall|c: u32| #[trigger] self@.circuits.contains_key(c) ==> same_interface(self@.circuits[c], v0.circuits[c]),
                self@.circuits[cid].instances == Set::<usize>::empty(),
                self@.circuits_by_name == v0.circuits_by_name,
                self@.instances == v1.instances.remove_keys(references@.subrange(0, k as int).to_set()),
                self@.pins == v0.pins,
                self@.nets.dom() == v0.nets.dom(),
                forall|n: usize| #[trigger] self@.nets.contains_key(n) ==>
                    self@.nets[n].name == v0.nets[n].name && self@.nets[n].parent == v0.nets[n].parent
                    && self@.nets[n].pins == v0.nets[n].pins,
                self@.pin_insts.dom() == v0.pin_insts.dom(),
                forall|q: usize| #[trigger] v0.pin_insts.contains_key(q) ==> self@.pin_insts[q]
                    == pin_inst_after_removal(v0, v0.circuits[cid].instances + references@.subrange(0, k as int).to_set(), q),
                forall|n: usize| #[trigger] net_is_live(v0.circuits, v0.nets, n) ==> self@.nets[n]
                    == net_after_removal(v0, v0.circuits[cid].instances + references@.subrange(0, k as int).to_set(), n),
                self@.next_circuit == v0.next_circuit,
                self@.next_inst == v0.next_inst,
                self@.next_pin == v0.next_pin,
                self@.next_pin_inst == v0.next_pin_inst,
                self@.next_net == v0.next_net,
            decreases references@.len() - k,
        {
            let i = references[k];
            let ghost pre = references@.subrange(0, k as int);
            let ghost post = references@.subrange(0, k + 1);
            proof {
                assert(references@.to_set().contains(i));
                assert(v1.instances.contains_key(i));
                assert(!pre.contains(i)) by {
                    if pre.contains(i) {
                        let j = choose|j: int| 0 <= j < pre.len() && pre[j] == i;
                        assert(references@[j] == references@[k as int]);
                    }
                }
                assert(!pre.to_set().contains(i));
                assert(self@.instances.contains_key(i));
                assert(self@.instances[i].parent != cid);
                assert(!v0.circuits[cid].instances.contains(i));
                assert(self@.instances[i] == v0.instances[i]);
                assert(!(v0.circuits[cid].instances + pre.to_set()).contains(i));
            }
            let ghost w0 = self@;
            self.remove_circuit_instance(&CellInstId(i));
            proof {
                lemma_instance_removal_step(v0, w0, self@, i, v0.circuits[cid].instances + pre.to_set());
                assert(post == pre.push(i));
                assert(post.to_set() =~= pre.to_set().insert(i)) by {
                    assert forall|x: usize| post.contains(x) <==> pre.contains(x) || x == i by {
                        if post.contains(x) {
                            let j = choose|j: int| 0 <= j < post.len() && post[j] == x;
                            if j < k {
                                assert(pre[j] == x);
                            }
                        }
                        if pre.contains(x) {
                            let j = choose|j: int| 0 <= j < pre.len() && pre[j] == x;
                            assert(post[j] == x);
                        }
                        if x == i {
                            assert(post[k as int] == x);
                        }
                    }
                }
                assert(self@.instances =~= v1.instances.remove_keys(post.to_set()));
                assert((v0.circuits[cid].instances + pre.to_set()).insert(i) =~= v0.circuits[cid].instances + post.to_set());
                assert(self@.circuits[cid].instances =~= Set::<usize>::empty());
            }
            k = k + 1;
        }
        let ghost v2 = self@;
        proof {
            assert(references@.subrange(0, k as int) == references@);
            assert(v2.instances =~= v0.instances.remove_keys(all));
            assert(v0.circuits[cid].instances + references@.subrange(0, k as int).to_set() == all);
            assert(v2.circuits[cid].references =~= Set::empty()) by {
                assert forall|i: usize| !(#[trigger] v2.circuits[cid].references.contains(i)) by {
                    if v2.circuits[cid].references.contains(i) {
                        assert(v2.instances.contains_key(i));
                        assert(v0.instances.contains_key(i));
                        assert(v0.instances[i].template == cid);
                        assert(v0.circuits[cid].references.contains(i));
                    }
                }
            }
        }
        // Clean up pin definitions.
        let num_pins = self.circuit(circuit_id).pins.len();
        let mut k: usize = 0;
        while k < num_pins
            invariant
                self.layers() == old(self).layers(),
                self.shapes_view() == old(self).shapes_view(),
                cid == circuit_id@,
                v2.circuits.contains_key(cid),
                v2.circuits[cid].pins.no_duplicates(),
                num_pins == v2.circuits[cid].pins.len(),
                k <= num_pins,
                self@.circuits == v2.circuits,
                self@.circuits_by_name == v2.circuits_by_name,
                self@.instances == v2.instances,
                self@.nets == v2.nets,
                self@.pin_insts == v2.pin_insts,
                self@.pins == v2.pins.remove_keys(v2.circuits[cid].pins.subrange(0, k as int).to_set()),
                self@.next_circuit == v2.next_circuit,
                self@.next_inst == v2.next_inst,
                self@.next_pin == v2.next_pin,
                self@.next_pin_inst == v2.next_pin_inst,
                self@.next_net == v2.next_net,
            decreases num_pins - k,
        {
            let p = self.circuit(circuit_id).pins[k];
            let ghost before = self@;
            fnv_map_remove(&mut self.pins, &p);
            proof {
                assert(self@.pins =~= before.pins.remove(p));
                let pre = v2.circuits[cid].pins.subrange(0, k as int);
                let post = v2.circuits[cid].pins.subrange(0, k + 1);
                assert(p == v2.circuits[cid].pins[k as int]);
                assert(post =~= pre.push(p));
                assert(post.to_set() =~= pre.to_set().insert(p)) by {
                    assert forall|x: u32| post.contains(x) <==> pre.contains(x) || x == p by {
                        if post.contains(x) {
                            let j = choose|j: int| 0 <= j < post.len() && post[j] == x;
                            if j < k {
                                assert(pre[j] == x);
                            }
                        }
                        if pre.contains(x) {
                            let j = choose|j: int| 0 <= j < pre.len() && pre[j] == x;
                            assert(post[j] == x);
                        }
                        if x == p {
                            assert(post[k as int] == x);
                        }
                    }
                }
                assert(self@.pins =~= v2.pins.remove_keys(post.to_set()));
            }
            k = k + 1;
        }
        // Remove the circuit.
        let c = fnv_map_remove(&mut self.circuits, &circuit_id.0).unwrap();
        self.circuits_by_name.remove(c.name.as_str());
        proof {
            let v3 = self@;
            let cpins = v2.circuits[cid].pins;
            assert(cpins.subrange(0, k as int) == cpins);
            assert(cpins == v0.circuits[cid].pins);
            assert(v3.circuits =~= v2.circuits.remove(cid));
            assert(v3.pins =~= v2.pins.remove_keys(cpins.to_set()));
            assert(v3.circuits_by_name =~= v2.circuits_by_name.remove(v0.circuits[cid].name));
            assert forall|p: u32| #[trigger] v2.pins.contains_key(p) implies (cpins.to_set().contains(p) <==> v2.pins[p].circuit == cid) by {
                if v2.pins[p].circuit == cid {
                    assert(cpins.contains(p));
                }
                if cpins.to_set().contains(p) {
                    let j = choose|j: int| 0 <= j < cpins.len() && cpins[j] == p;
                    assert(v2.pins.contains_key(cpins[j]) && v2.pins[cpins[j]].circuit == cid);
                }
            }
            assert forall|n: usize| #[trigger] net_is_live(v3.circuits, v3.nets, n) <==> net_is_live(v2.circuits, v2.nets, n) && v2.nets[n].parent != cid by {}
            assert forall|c2: u32, t: u32|
                #![trigger dep_count(v3.circuits, v3.instances, c2, t)]
                #![trigger ref_count(v3.circuits, v3.instances, c2, t)]
                v3.circuits.contains_key(c2) implies
                dep_count(v3.circuits, v3.instances, c2, t) == dep_count(v2.circuits, v2.instances, c2, t)
                && ref_count(v3.circuits, v3.instances, c2, t) == ref_count(v2.circuits, v2.instances, c2, t) by {
                assert(v3.circuits[c2] == v2.circuits[c2]);
            }
            assert(inv_deps(v3.circuits, v3.instances)) by {
                assert forall|c2: u32, t: u32| #[trigger] v3.circuits.contains_key(c2) implies
                    (#[trigger] v3.circuits[c2].dependencies.contains_key(t) <==> dep_count(v3.circuits, v3.instances, c2, t) > 0) by {
                    assert(v2.circuits.contains_key(c2));
                }
                assert forall|t: u32, p: u32| #[trigger] v3.circuits.contains_key(t) implies
                    (#[trigger] v3.circuits[t].dependent_circuits.contains_key(p) <==> ref_count(v3.circuits, v3.instances, t, p) > 0) by {
                    assert(v2.circuits.contains_key(t));
                }
            }
            assert(inv_instances(v3.circuits, v3.instances, v3.pin_insts)) by {
                assert forall|i: usize| #[trigger] v3.instances.contains_key(i) implies {
                    let x = v3.instances[i];
                    &&& v3.circuits.contains_key(x.parent)
                    &&& v3.circuits.contains_key(x.template)
                } by {
                    let x = v2.instances[i];
                    if x.parent == cid {
                        assert(v2.circuits[cid].instances.contains(i));
                    }
                    if x.template == cid {
                        assert(v2.circuits[cid].references.contains(i));
                    }
                }
            }
            assert(inv_nets(v3.circuits, v3.nets)) by {
                assert forall|n: usize| #[trigger] net_is_live(v3.circuits, v3.nets, n) implies {
                    let x = v3.nets[n];
                    &&& v3.circuits[x.parent].nets.contains(n)
                    &&& (x.name matches Some(s) ==> v3.circuits[x.parent].nets_by_name.contains_key(s)
                        && v3.circuits[x.parent].nets_by_name[s] == n)
                } by {
                    assert(net_is_live(v2.circuits, v2.nets, n));
                }
            }
            assert(inv_pins(v3.circuits, v3.nets, v3.pins)) by {
                assert forall|p: u32| #[trigger] v3.pins.contains_key(p) implies {
                    let x = v3.pins[p];
                    &&& v3.circuits.contains_key(x.circuit)
                    &&& v3.circuits[x.circuit].pins.contains(p)
                    &&& (x.net matches Some(n) ==> net_is_live(v3.circuits, v3.nets, n) && v3.nets[n].parent == x.circuit
                        && v3.nets[n].pins.contains(p))
                } by {
                    assert(v2.pins.contains_key(p));
                    if let Some(n) = v2.pins[p].net {
                        assert(net_is_live(v2.circuits, v2.nets, n));
                    }
                }
                assert forall|n: usize, p: u32| #[trigger] net_is_live(v3.circuits, v3.nets, n) && #[trigger] v3.nets[n].pins.contains(p)
                    implies v3.pins.contains_key(p) && v3.pins[p].net == Some(n) by {
                    assert(net_is_live(v2.circuits, v2.nets, n));
                    assert(v2.pins[p].circuit == v2.nets[n].parent);
                }
                assert forall|c2: u32| #[trigger] v3.circuits.contains_key(c2) implies {
                    &&& v3.circuits[c2].pins.no_duplicates()
                    &&& forall|j: int| 0 <= j < v3.circuits[c2].pins.len() ==> v3.pins.contains_key(#[trigger] v3.circuits[c2].pins[j])
                        && v3.pins[v3.circuits[c2].pins[j]].circuit == c2
                } by {
                    assert(v2.circuits.contains_key(c2));
                    assert forall|j: int| 0 <= j < v3.circuits[c2].pins.len() implies v3.pins.contains_key(#[trigger] v3.circuits[c2].pins[j])
                        && v3.pins[v3.circuits[c2].pins[j]].circuit == c2 by {
                        assert(v2.pins.contains_key(v2.circuits[c2].pins[j]));
                    }
                }
            }
            assert(inv_pin_insts(v3.circuits, v3.instances, v3.nets, v3.pin_insts)) by {
                assert forall|q: usize| #[trigger] v3.pin_insts.contains_key(q) implies {
                    let x = v3.pin_insts[q];
                    if v3.instances.contains_key(x.circuit_inst) {
                        &&& v3.instances[x.circuit_inst].pins.contains(q)
                        &&& (x.net matches Some(n) ==> net_is_live(v3.circuits, v3.nets, n)
                            && v3.nets[n].parent == v3.instances[x.circuit_inst].parent
                            && v3.nets[n].pin_instances.contains(q))
                    } else {
                        x.net is None
                    }
                } by {
                    assert(v2.pin_insts.contains_key(q));
                    let x = v2.pin_insts[q];
                    if v2.instances.contains_key(x.circuit_inst) {
                        let i = x.circuit_inst;
                        if v2.instances[i].parent == cid {
                            assert(v2.circuits[cid].instances.contains(i));
                        }
                        if let Some(n) = x.net {
                            assert(net_is_live(v2.circuits, v2.nets, n));
                        }
                    }
                }
                assert forall|n: usize, q: usize| #[trigger] net_is_live(v3.circuits, v3.nets, n) && #[trigger] v3.nets[n].pin_instances.contains(q)
                    implies pin_inst_is_live(v3.instances, v3.pin_insts, q) && v3.pin_insts[q].net == Some(n) by {
                    assert(net_is_live(v2.circuits, v2.nets, n));
                }
            }
            assert(inv_pin_templates(v3.instances, v3.pins, v3.pin_insts));
            assert(inv_cell_names(v3.circuits, v3.circuits_by_name)) by {
                assert forall|s: Seq<char>| #[trigger] v3.circuits_by_name.contains_key(s) implies {
                    &&& v3.circuits.contains_key(v3.circuits_by_name[s])
                    &&& v3.circuits[v3.circuits_by_name[s]].name == s
                } by {
                    assert(v2.circuits_by_name.contains_key(s));
                }
            }
            assert(inv_dead_nets(v3.circuits, v3.nets)) by {
                assert forall|n: usize| #[trigger] v3.nets.contains_key(n) && !v3.circuits.contains_key(v3.nets[n].parent)
                    implies v3.nets[n].pin_instances == Set::<usize>::empty() by {
                    if v2.circuits.contains_key(v2.nets[n].parent) {
                        assert forall|q: usize| !v2.nets[n].pin_instances.contains(q) by {
                            if v2.nets[n].pin_instances.contains(q) {
                                assert(net_is_live(v2.circuits, v2.nets, n));
                                assert(pin_inst_is_live(v2.instances, v2.pin_insts, q));
                                let i = v2.pin_insts[q].circuit_inst;
                                assert(v2.instances[i].parent == cid);
                                assert(v2.circuits[cid].instances.contains(i));
                            }
                        }
                        assert(v2.nets[n].pin_instances =~= Set::<usize>::empty());
                    }
                }
            }
            lemma_acyclic_frame(v2.circuits, v3.circuits);
            assert(v3.inv_ids());
            assert(v3.pins =~= v0.pins.remove_keys(v0.circuits[cid].pins.to_set()));
        }
        // Remove the shapes of the cell together with their containers.
        self.remove_shapes_of_cell(circuit_id.0);
        proof {
            let vf = self@;
            assert forall|n: usize| #[trigger] v0.nets.contains_key(n) && !net_is_live(v0.circuits, v0.nets, n)
                implies vf.nets[n] == v0.nets[n] by {
                assert(!vf.circuits.contains_key(vf.nets[n].parent));
                assert(vf.nets[n].pin_instances =~= v0.nets[n].pin_instances);
            }
        }
    }
}

/// The shapes of `v` without the shapes and shape containers of cell `c`.
pub open spec fn shapes_without_cell(v: ShapesView, c: u32) -> ShapesView {
    ShapesView {
        shapes: Map::new(|s: u32| v.shapes.contains_key(s) && v.shapes[s].cell != c, |s: u32| v.shapes[s]),
        containers: v.containers.filter(|k: (u32, u16)| k.0 != c),
        ..v
    }
}

/// The shapes of `v` without the shapes and shape containers of the cells `cs`.
pub open spec fn shapes_without_cells(v: ShapesView, cs: Set<u32>) -> ShapesView {
    ShapesView {
        shapes: Map::new(|s: u32| v.shapes.contains_key(s) && !cs.contains(v.shapes[s].cell), |s: u32| v.shapes[s]),
        containers: v.containers.filter(|k: (u32, u16)| !cs.contains(k.0)),
        ..v
    }
}

/// Removing no cells keeps the shapes, and removing the shapes of one more cell
/// removes the shapes of the enlarged set of cells.
proof fn lemma_shapes_without_cells(v: ShapesView, d: Set<u32>, c: u32)
    ensures
        shapes_without_cells(v, Set::empty()) == v,
        shapes_without_cell(shapes_without_cells(v, d), c) == shapes_without_cells(v, d.insert(c)),
{
    let e = shapes_without_cells(v, Set::empty());
    assert(e.shapes =~= v.shapes);
    assert(e.containers =~= v.containers);
    let a = shapes_without_cell(shapes_without_cells(v, d), c);
    let b = shapes_without_cells(v, d.insert(c));
    assert(a.shapes =~= b.shapes);
    assert(a.containers =~= b.containers);
}

/// The cell of a container key is its quotient by the number of layers.
proof fn lemma_container_key_cell(c: u32, l: u16)
    ensures
        container_key(c, l) / 0x1_0000 == c,
{
    assert(c * 0x1_0000 + l < 0x1_0000_0000_0000) by (nonlinear_arith)
        requires c < 0x1_0000_0000, l < 0x1_0000;
    assert((c * 0x1_0000 + l) / 0x1_0000 == c) by (nonlinear_arith)
        requires 0 <= l < 0x1_0000, 0 <= c;
}

impl Chip {
    /// Remove the shapes of cell `cell` and its shape containers.
    fn remove_shapes_of_cell(&mut self, cell: u32)
        requires
            old(self).wf(),
        ensures
            final(self).wf(),
            final(self)@ == old(self)@,
            final(self).layers() == old(self).layers(),
            final(self).shapes_view() == shapes_without_cell(old(self).shapes_view(), cell),
    {
        let ghost v0 = self.shapes_view();
        let ghost p0 = self.shape_parents@;
        let ghost m0 = self.shapes@;
        let keys = fnv_map_keys(&self.shape_parents);
        let mut k: usize = 0;
        while k < keys.len()
            invariant
                self@ == old(self)@,
                self.layers() == old(self).layers(),
                old(self).wf(),
                v0 == old(self).shapes_view(),
                p0 == old(self).shape_parents@,
                m0 == old(self).shapes@,
                keys@.no_duplicates(),
                keys@.to_set() == p0.dom(),
                k <= keys.len(),
                self.shape_parents@ == p0.remove_keys(keys@.subrange(0, k as int).to_set().filter(|s: u32| p0[s].0@ == cell)),
                self.shapes@ == m0.remove_keys(keys@.subrange(0, k as int).to_set().filter(|s: u32| p0[s].0@ == cell)),
                self.shape_index_generator == old(self).shape_index_generator,
                self.shape_containers == old(self).shape_containers,
                self.net_shapes == old(self).net_shapes,
                self.pin_shapes == old(self).pin_shapes,
                self.instance_transforms == old(self).instance_transforms,
            decreases keys.len() - k,
        {
            let s = keys[k];
            let ghost done = keys@.subrange(0, k as int).to_set();
            proof {
                assert(keys@.to_set().contains(s));
                assert(!done.contains(s)) by {
                    if done.contains(s) {
                        let j = choose|j: int| 0 <= j < k && #[trigger] keys@.subrange(0, k as int)[j] == s;
                        assert(keys@[j] == keys@[k as int]);
                    }
                }
            }
            let parent = *fnv_map_get(&self.shape_parents, &s).unwrap();
            let ghost d1 = keys@.subrange(0, k + 1).to_set();
            proof {
                assert(d1 =~= done.insert(s)) by {
                    assert forall|x: u32| d1.contains(x) <==> done.insert(s).contains(x) by {
                        if d1.contains(x) {
                            let j = choose|j: int| 0 <= j < k + 1 && #[trigger] keys@.subrange(0, k + 1)[j] == x;
                            if j < k {
                                assert(keys@.subrange(0, k as int)[j] == x);
                            }
                        }
                        if done.contains(x) {
                            let j = choose|j: int| 0 <= j < k && #[trigger] keys@.subrange(0, k as int)[j] == x;
                            assert(keys@.subrange(0, k + 1)[j] == x);
                        }
                        if x == s {
                            assert(keys@.subrange(0, k + 1)[k as int] == x);
                        }
                    }
                }
                assert(parent == p0[s]);
            }
            if parent.0.0 == cell {
                fnv_map_remove(&mut self.shape_parents, &s);
                fnv_map_remove(&mut self.shapes, &s);
                proof {
                    assert(d1.filter(|x: u32| p0[x].0@ == cell) =~= done.filter(|x: u32| p0[x].0@ == cell).insert(s));
                    assert(self.shape_parents@ =~= p0.remove_keys(d1.filter(|x: u32| p0[x].0@ == cell)));
                    assert(self.shapes@ =~= m0.remove_keys(d1.filter(|x: u32| p0[x].0@ == cell)));
                }
            } else {
                proof {
                    assert(d1.filter(|x: u32| p0[x].0@ == cell) =~= done.filter(|x: u32| p0[x].0@ == cell));
                }
            }
            k = k + 1;
        }
        proof {
            assert(keys@.subrange(0, k as int) =~= keys@);
        }
        let ghost c0 = self.shape_containers@;
        let ckeys = fnv_set_to_vec(&self.shape_containers);
        let mut k: usize = 0;
        while k < ckeys.len()
            invariant
                self@ == old(self)@,
                self.layers() == old(self).layers(),
                c0 == old(self).shape_containers@,
                ckeys@.no_duplicates(),
                ckeys@.to_set() == c0,
                k <= ckeys.len(),
                self.shape_containers@ == c0.difference(ckeys@.subrange(0, k as int).to_set().filter(|x: u64| x / 0x1_0000 == cell)),
                self.shape_parents@ == p0.remove_keys(keys@.to_set().filter(|s: u32| p0[s].0@ == cell)),
                self.shapes@ == m0.remove_keys(keys@.to_set().filter(|s: u32| p0[s].0@ == cell)),
                self.shape_index_generator == old(self).shape_index_generator,
                self.net_shapes == old(self).net_shapes,
                self.pin_shapes == old(self).pin_shapes,
                self.instance_transforms == old(self).instance_transforms,
            decreases ckeys.len() - k,
        {
            let x = ckeys[k];
            let ghost done = ckeys@.subrange(0, k as int).to_set();
            let ghost d1 = ckeys@.subrange(0, k + 1).to_set();
            proof {
                assert(d1 =~= done.insert(x)) by {
                    assert forall|y: u64| d1.contains(y) <==> done.insert(x).contains(y) by {
                        if d1.contains(y) {
                            let j = choose|j: int| 0 <= j < k + 1 && #[trigger] ckeys@.subrange(0, k + 1)[j] == y;
                            if j < k {
                                assert(ckeys@.subrange(0, k as int)[j] == y);
                            }
                        }
                        if done.contains(y) {
                            let j = choose|j: int| 0 <= j < k && #[trigger] ckeys@.subrange(0, k as int)[j] == y;
                            assert(ckeys@.subrange(0, k + 1)[j] == y);
                        }
                        if y == x {
                            assert(ckeys@.subrange(0, k + 1)[k as int] == y);
                        }
                    }
                }
            }
            if x / 0x1_0000 == cell as u64 {
                fnv_set_remove(&mut self.shape_containers, &x);
                proof {
                    assert(d1.filter(|y: u64| y / 0x1_0000 == cell) =~= done.filter(|y: u64| y / 0x1_0000 == cell).insert(x));
                    assert(self.shape_containers@ =~= c0.difference(d1.filter(|y: u64| y / 0x1_0000 == cell)));
                }
            } else {
                proof {
                    assert(d1.filter(|y: u64| y / 0x1_0000 == cell) =~= done.filter(|y: u64| y / 0x1_0000 == cell));
                }
            }
            k = k + 1;
        }
        proof {
            assert(ckeys@.subrange(0, k as int) =~= ckeys@);
            let v1 = self.shapes_view();
            let e = shapes_without_cell(v0, cell);
            assert(v1.shapes =~= e.shapes);
            assert forall|q: (u32, u16)| v1.containers.contains(q) <==> e.containers.contains(q) by {
                lemma_container_key_cell(q.0, q.1);
            }
            assert(v1.containers =~= e.containers);
            assert(v1 == e);
        }
    }
}

/// The integer values of a sequence of circuit identifiers.
pub open spec fn cell_ids_view(s: Seq<CellId>) -> Seq<u32> {
    s.map_values(|c: CellId| c@)
}

/// The integer values of a sequence of circuit instance identifiers.
pub open spec fn inst_ids_view(s: Seq<CellInstId>) -> Seq<usize> {
    s.map_values(|c: CellInstId| c@)
}

/// The integer values of a sequence of pin identifiers.
pub open spec fn pin_ids_view(s: Seq<PinId>) -> Seq<u32> {
    s.map_values(|c: PinId| c@)
}

/// The integer values of a sequence of pin instance identifiers.
pub open spec fn pin_inst_ids_view(s: Seq<PinInstId>) -> Seq<usize> {
    s.map_values(|c: PinInstId| c@)
}

/// The integer values of a sequence of net identifiers.
pub open spec fn net_ids_view(s: Seq<NetId>) -> Seq<usize> {
    s.map_values(|c: NetId| c@)
}

/// Wrap integer values as circuit identifiers.
fn to_cell_ids(v: &Vec<u32>) -> (res: Vec<CellId>)
    ensures
        cell_ids_view(res@) == v@,
{
    let mut res: Vec<CellId> = Vec::new();
    let mut k: usize = 0;
    while k < v.len()
        invariant
            k <= v@.len(),
            res@.len() == k,
            forall|j: int| 0 <= j < k ==> #[trigger] res@[j]@ == v@[j],
        decreases v@.len() - k,
    {
        res.push(CellId(v[k]));
        k = k + 1;
    }
    assert(cell_ids_view(res@) =~= v@);
    res
}

/// Wrap integer values as circuit instance identifiers.
fn to_inst_ids(v: &Vec<usize>) -> (res: Vec<CellInstId>)
    ensures
        inst_ids_view(res@) == v@,
{
    let mut res: Vec<CellInstId> = Vec::new();
    let mut k: usize = 0;
    while k < v.len()
        invariant
            k <= v@.len(),
            res@.len() == k,
            forall|j: int| 0 <= j < k ==> #[trigger] res@[j]@ == v@[j],
        decreases v@.len() - k,
    {
        res.push(CellInstId(v[k]));
        k = k + 1;
    }
    assert(inst_ids_view(res@) =~= v@);
    res
}

/// Wrap integer values as pin identifiers.
fn to_pin_ids(v: &Vec<u32>) -> (res: Vec<PinId>)
    ensures
        pin_ids_view(res@) == v@,
{
    let mut res: Vec<PinId> = Vec::new();
    let mut k: usize = 0;
    while k < v.len()
        invariant
            k <= v@.len(),
            res@.len() == k,
            forall|j: int| 0 <= j < k ==> #[trigger] res@[j]@ == v@[j],
        decreases v@.len() - k,
    {
        res.push(PinId(v[k]));
        k = k + 1;
    }
    assert(pin_ids_view(res@) =~= v@);
    res
}

/// Wrap integer values as pin instance identifiers.
fn to_pin_inst_ids(v: &Vec<usize>) -> (res: Vec<PinInstId>)
    ensures
        pin_inst_ids_view(res@) == v@,
{
    let mut res: Vec<PinInstId> = Vec::new();
    let mut k: usize = 0;
    while k < v.len()
        invariant
            k <= v@.len(),
            res@.len() == k,
            forall|j: int| 0 <= j < k ==> #[trigger] res@[j]@ == v@[j],
        decreases v@.len() - k,
    {
        res.push(PinInstId(v[k]));
        k = k + 1;
    }
    assert(pin_inst_ids_view(res@) =~= v@);
    res
}

/// Wrap integer values as net identifiers.
fn to_net_ids(v: &Vec<usize>) -> (res: Vec<NetId>)
    ensures
        net_ids_view(res@) == v@,
{
    let mut res: Vec<NetId> = Vec::new();
    let mut k: usize = 0;
    while k < v.len()
        invariant
            k <= v@.len(),
            res@.len() == k,
            forall|j: int| 0 <= j < k ==> #[trigger] res@[j]@ == v@[j],
        decreases v@.len() - k,
    {
        res.push(NetId(v[k]));
        k = k + 1;
    }
    assert(net_ids_view(res@) =~= v@);
    res
}

impl Chip {
    /// Find a cell by its name.
    pub fn cell_by_name(&self, name: &str) -> (res: Option<CellId>)
        requires
            self.wf(),
        ensures
            match res {
                Some(c) => self@.circuits_by_name.contains_key(name@) && c@ == self@.circuits_by_name[name@],
                None => !self@.circuits_by_name.contains_key(name@),
            },
    {
        self.circuit_by_name(name)
    }

    /// Find a cell instance by its name inside the parent cell.
    pub fn cell_instance_by_name(&self, parent_circuit: &CellId, name: &str) -> (res: Option<CellInstId>)
        requires
            self.wf(),
            self@.circuits.contains_key(parent_circuit@),
        ensures
            match res {
                Some(i) => self@.circuits[parent_circuit@].instances_by_name.contains_key(name@)
                    && i@ == self@.circuits[parent_circuit@].instances_by_name[name@],
                None => !self@.circuits[parent_circuit@].instances_by_name.contains_key(name@),
            },
    {
        match self.circuit(parent_circuit).instances_by_name.get(name) {
            Some(i) => Some(CellInstId(*i)),
            None => None,
        }
    }

    /// Get the name of a cell.
    pub fn cell_name(&self, circuit: &CellId) -> (res: String)
        requires
            self@.circuits.contains_key(circuit@),
        ensures
            res@ == self@.circuits[circuit@].name,
    {
        self.circuit(circuit).name.clone()
    }

    /// Get the name of a cell instance, if it has one.
    pub fn cell_instance_name(&self, circuit_inst: &CellInstId) -> (res: Option<String>)
        requires
            self@.instances.contains_key(circuit_inst@),
        ensures
            opt_name(res) == self@.instances[circuit_inst@].name,
    {
        Self::clone_name(&self.circuit_inst(circuit_inst).name)
    }

    /// Get the cell that holds a cell instance.
    pub fn parent_cell(&self, circuit_instance: &CellInstId) -> (res: CellId)
        requires
            self@.instances.contains_key(circuit_instance@),
        ensures
            res@ == self@.instances[circuit_instance@].parent,
    {
        self.circuit_inst(circuit_instance).parent_circuit_id
    }

    /// Get the cell that a cell instance instantiates.
    pub fn template_cell(&self, circuit_instance: &CellInstId) -> (res: CellId)
        requires
            self@.instances.contains_key(circuit_instance@),
        ensures
            res@ == self@.instances[circuit_instance@].template,
    {
        self.circuit_inst(circuit_instance).template_circuit_id
    }

    /// Get all cells, each once, in no particular order.
    pub fn each_cell_vec(&self) -> (res: Vec<CellId>)
        ensures
            cell_ids_view(res@).no_duplicates(),
            cell_ids_view(res@).to_set() == self@.circuits.dom(),
    {
        let keys = fnv_map_keys(&self.circuits);
        proof {
            assert(self@.circuits.dom() =~= self.circuits@.dom());
        }
        to_cell_ids(&keys)
    }

    /// Get all instances inside a cell, each once, in no particular order.
    pub fn each_cell_instance_vec(&self, circuit: &CellId) -> (res: Vec<CellInstId>)
        requires
            self@.circuits.contains_key(circuit@),
        ensures
            inst_ids_view(res@).no_duplicates(),
            inst_ids_view(res@).to_set() == self@.circuits[circuit@].instances,
    {
        let v = fnv_set_to_vec(&self.circuit(circuit).instances);
        to_inst_ids(&v)
    }

    /// Get the cells instantiated inside a cell, each once, in no particular order.
    pub fn each_cell_dependency_vec(&self, circuit: &CellId) -> (res: Vec<CellId>)
        requires
            self@.circuits.contains_key(circuit@),
        ensures
            cell_ids_view(res@).no_duplicates(),
            cell_ids_view(res@).to_set() == self@.circuits[circuit@].dependencies.dom(),
    {
        let v = fnv_map_keys(&self.circuit(circuit).dependencies);
        to_cell_ids(&v)
    }

    /// Get the number of distinct cells instantiated inside a cell.
    pub fn num_cell_dependencies(&self, cell: &CellId) -> (res: usize)
        requires
            self@.circuits.contains_key(cell@),
        ensures
            res == self@.circuits[cell@].dependencies.len(),
    {
        fnv_map_len(&self.circuit(cell).dependencies)
    }

    /// Get the cells that instantiate a cell, each once, in no particular order.
    pub fn each_dependent_cell_vec(&self, circuit: &CellId) -> (res: Vec<CellId>)
        requires
            self@.circuits.contains_key(circuit@),
        ensures
            cell_ids_view(res@).no_duplicates(),
            cell_ids_view(res@).to_set() == self@.circuits[circuit@].dependent_circuits.dom(),
    {
        let v = fnv_map_keys(&self.circuit(circuit).dependent_circuits);
        to_cell_ids(&v)
    }

    /// Get the number of distinct cells that instantiate a cell.
    pub fn num_dependent_cells(&self, cell: &CellId) -> (res: usize)
        requires
            self@.circuits.contains_key(cell@),
        ensures
            res == self@.circuits[cell@].dependent_circuits.len(),
    {
        fnv_map_len(&self.circuit(cell).dependent_circuits)
    }

    /// Get all instances of a cell, each once, in no particular order.
    pub fn each_cell_reference_vec(&self, circuit: &CellId) -> (res: Vec<CellInstId>)
        requires
            self@.circuits.contains_key(circuit@),
        ensures
            inst_ids_view(res@).no_duplicates(),
            inst_ids_view(res@).to_set() == self@.circuits[circuit@].references,
    {
        let v = fnv_set_to_vec(&self.circuit(circuit).references);
        to_inst_ids(&v)
    }

    /// Get the number of instances of a cell.
    pub fn num_cell_references(&self, cell: &CellId) -> (res: usize)
        requires
            self@.circuits.contains_key(cell@),
        ensures
            res == self@.circuits[cell@].references.len(),
    {
        fnv_set_len(&self.circuit(cell).references)
    }

    /// Get the number of instances inside a cell.
    pub fn num_child_instances(&self, cell: &CellId) -> (res: usize)
        requires
            self@.circuits.contains_key(cell@),
        ensures
            res == self@.circuits[cell@].instances.len(),
    {
        fnv_set_len(&self.circuit(cell).instances)
    }

    /// Get the number of cells.
    pub fn num_cells(&self) -> (res: usize)
        ensures
            res == self@.circuits.len(),
    {
        proof {
            assert(self@.circuits.dom() =~= self.circuits@.dom());
        }
        fnv_map_len(&self.circuits)
    }
}

/// The nets connected to the pin instances `s`, in order, skipping unconnected ones.
pub open spec fn external_nets(pin_insts: Map<usize, PinInstView>, s: Seq<usize>) -> Seq<usize>
    decreases s.len(),
{
    if s.len() == 0 {
        Seq::empty()
    } else {
        let rest = external_nets(pin_insts, s.drop_last());
        match pin_insts[s.last()].net {
            Some(n) => rest.push(n),
            None => rest,
        }
    }
}

/// The nets of a single pin instance: its net if it is connected, else none.
pub proof fn law_external_nets_single(pin_insts: Map<usize, PinInstView>, q: usize)
    ensures
        external_nets(pin_insts, seq![q]) == (match pin_insts[q].net {
            Some(n) => seq![n],
            None => Seq::<usize>::empty(),
        }),
{
    let one = seq![q];
    assert(one.drop_last() =~= Seq::<usize>::empty());
    assert(one.last() == q);
    assert(external_nets(pin_insts, one.drop_last()) == Seq::<usize>::empty());
    if let Some(n) = pin_insts[q].net {
        assert(Seq::<usize>::empty().push(n) =~= seq![n]);
    }
}

/// The nets of two runs of pin instances are the nets of the first run followed
/// by those of the second: each connected pin instance gives its net, in order.
pub proof fn law_external_nets_concat(pin_insts: Map<usize, PinInstView>, a: Seq<usize>, b: Seq<usize>)
    ensures
        external_nets(pin_insts, a + b) == external_nets(pin_insts, a) + external_nets(pin_insts, b),
    decreases b.len(),
{
    let ab = a + b;
    if b.len() == 0 {
        assert(ab =~= a);
        assert(external_nets(pin_insts, a) + external_nets(pin_insts, b) =~= external_nets(pin_insts, a));
    } else {
        law_external_nets_concat(pin_insts, a, b.drop_last());
        assert(ab.drop_last() =~= a + b.drop_last());
        assert(ab.last() == b.last());
        assert(external_nets(pin_insts, ab) =~= external_nets(pin_insts, a) + external_nets(pin_insts, b));
    }
}

/// Every connected pin instance of `s` has its net among the nets of `s`, and
/// there is one net for each connected pin instance.
pub proof fn law_external_nets_members(pin_insts: Map<usize, PinInstView>, s: Seq<usize>)
    ensures
        forall|k: int| 0 <= k < s.len() && #[trigger] pin_insts[s[k]].net is Some
            ==> external_nets(pin_insts, s).contains(pin_insts[s[k]].net.unwrap()),
        external_nets(pin_insts, s).len() == s.filter(|q: usize| pin_insts[q].net is Some).len(),
    decreases s.len(),
{
    if s.len() > 0 {
        let s0 = s.drop_last();
        law_external_nets_members(pin_insts, s0);
        let rest = external_nets(pin_insts, s0);
        let r = external_nets(pin_insts, s);
        reveal(Seq::filter);
        assert(s.filter(|q: usize| pin_insts[q].net is Some) == {
            let f0 = s0.filter(|q: usize| pin_insts[q].net is Some);
            if pin_insts[s.last()].net is Some { f0.push(s.last()) } else { f0 }
        });
        assert forall|k: int| 0 <= k < s.len() && #[trigger] pin_insts[s[k]].net is Some
            implies r.contains(pin_insts[s[k]].net.unwrap()) by {
            let n = pin_insts[s[k]].net.unwrap();
            if k == s.len() - 1 {
                assert(r == rest.push(n));
                assert(r[rest.len() as int] == n);
            } else {
                assert(s0[k] == s[k]);
                assert(rest.contains(n));
                let m = choose|m: int| 0 <= m < rest.len() && rest[m] == n;
                assert(r[m] == n);
            }
        }
    }
}

/// The net of a terminal.
pub open spec fn net_of_terminal_spec(v: ChipView, t: TerminalId) -> Option<usize> {
    match t {
        TerminalId::Pin(p) => v.pins[p@].net,
        TerminalId::PinInst(q) => v.pin_insts[q@].net,
    }
}

impl Chip {
    /// Get the pin of the cell that a pin instance instantiates.
    pub fn template_pin(&self, pin_instance: &PinInstId) -> (res: PinId)
        requires
            self@.pin_insts.contains_key(pin_instance@),
        ensures
            res@ == self@.pin_insts[pin_instance@].template_pin,
    {
        self.pin_inst(pin_instance).template_pin_id
    }

    /// Get the signal direction of a pin.
    pub fn pin_direction(&self, pin: &PinId) -> (res: Direction)
        requires
            self@.pins.contains_key(pin@),
        ensures
            res == self@.pins[pin@].direction,
    {
        self.pin(pin).direction
    }

    /// Get the name of a pin.
    pub fn pin_name(&self, pin: &PinId) -> (res: String)
        requires
            self@.pins.contains_key(pin@),
        ensures
            res@ == self@.pins[pin@].name,
    {
        self.pin(pin).name.clone()
    }

    /// Get the cell that a pin belongs to.
    pub fn parent_cell_of_pin(&self, pin: &PinId) -> (res: CellId)
        requires
            self@.pins.contains_key(pin@),
        ensures
            res@ == self@.pins[pin@].circuit,
    {
        self.pin(pin).circuit
    }

    /// Get the cell instance that a pin instance belongs to.
    pub fn parent_of_pin_instance(&self, pin_inst: &PinInstId) -> (res: CellInstId)
        requires
            self@.pin_insts.contains_key(pin_inst@),
        ensures
            res@ == self@.pin_insts[pin_inst@].circuit_inst,
    {
        self.pin_inst(pin_inst).circuit_inst
    }

    /// Find the pin instance of `pin` in the cell instance `cell_inst`:
    /// the first of its pin instances whose template is `pin`.
    pub fn pin_instance(&self, cell_inst: &CellInstId, pin: &PinId) -> (res: PinInstId)
        requires
            self.wf(),
            self@.instances.contains_key(cell_inst@),
            exists|k: int| 0 <= k < self@.instances[cell_inst@].pins.len()
                && self@.pin_insts[#[trigger] self@.instances[cell_inst@].pins[k]].template_pin == pin@,
        ensures
            self@.pin_insts.contains_key(res@),
            self@.pin_insts[res@].template_pin == pin@,
            exists|k: int| {
                &&& 0 <= k < self@.instances[cell_inst@].pins.len()
                &&& self@.instances[cell_inst@].pins[k] == res@
                &&& forall|j: int| 0 <= j < k ==> self@.pin_insts[#[trigger] self@.instances[cell_inst@].pins[j]].template_pin != pin@
            },
    {
        let inst = self.circuit_inst(cell_inst);
        let ghost pins = inst@.pins;
        let mut k: usize = 0;
        while k < inst.pins.len()
            invariant
                self.wf(),
                inst@ == self@.instances[cell_inst@],
                self@.instances.contains_key(cell_inst@),
                pins == inst@.pins,
                k <= pins.len(),
                forall|j: int| 0 <= j < k ==> self@.pin_insts[#[trigger] pins[j]].template_pin != pin@,
                exists|j: int| 0 <= j < pins.len() && self@.pin_insts[#[trigger] pins[j]].template_pin == pin@,
            decreases pins.len() - k,
        {
            let q = inst.pins[k];
            proof {
                assert(self@.pin_insts.contains_key(pins[k as int]));
            }
            if self.pin_inst(&PinInstId(q)).template_pin_id.0 == pin.0 {
                return PinInstId(q);
            }
            k = k + 1;
        }
        proof {
            let j = choose|j: int| 0 <= j < pins.len() && self@.pin_insts[#[trigger] pins[j]].template_pin == pin@;
            assert(self@.pin_insts[pins[j]].template_pin != pin@);
        }
        PinInstId(0)
    }

    /// Get the cell that a net belongs to.
    pub fn parent_cell_of_net(&self, net: &NetId) -> (res: CellId)
        requires
            self@.nets.contains_key(net@),
        ensures
            res@ == self@.nets[net@].parent,
    {
        self.net(net).parent_id
    }

    /// Get the internal net attached to a pin.
    pub fn net_of_pin(&self, pin: &PinId) -> (res: Option<NetId>)
        requires
            self@.pins.contains_key(pin@),
        ensures
            opt_net(res) == self@.pins[pin@].net,
    {
        self.pin(pin).net
    }

    /// Get the external net attached to a pin instance.
    pub fn net_of_pin_instance(&self, pin_inst: &PinInstId) -> (res: Option<NetId>)
        requires
            self@.pin_insts.contains_key(pin_inst@),
        ensures
            opt_net(res) == self@.pin_insts[pin_inst@].net,
    {
        self.pin_inst(pin_inst).net
    }

    /// Get the net attached to a terminal.
    pub fn net_of_terminal(&self, terminal: &TerminalId) -> (res: Option<NetId>)
        requires
            match *terminal {
                TerminalId::Pin(p) => self@.pins.contains_key(p@),
                TerminalId::PinInst(q) => self@.pin_insts.contains_key(q@),
            },
        ensures
            opt_net(res) == net_of_terminal_spec(self@, *terminal),
    {
        match terminal {
            TerminalId::Pin(p) => self.net_of_pin(p),
            TerminalId::PinInst(q) => self.net_of_pin_instance(q),
        }
    }

    /// Get the net of the logical constant zero.
    pub fn net_zero(&self, parent_circuit: &CellId) -> (res: NetId)
        requires
            self@.circuits.contains_key(parent_circuit@),
        ensures
            res@ == self@.circuits[parent_circuit@].net_low,
    {
        self.circuit(parent_circuit).net_low
    }

    /// Get the net of the logical constant one.
    pub fn net_one(&self, parent_circuit: &CellId) -> (res: NetId)
        requires
            self@.circuits.contains_key(parent_circuit@),
        ensures
            res@ == self@.circuits[parent_circuit@].net_high,
    {
        self.circuit(parent_circuit).net_high
    }

    /// Find a net by its name inside the parent circuit.
    pub fn net_by_name(&self, parent_circuit: &CellId, name: &str) -> (res: Option<NetId>)
        requires
            self@.circuits.contains_key(parent_circuit@),
        ensures
            match res {
                Some(n) => self@.circuits[parent_circuit@].nets_by_name.contains_key(name@)
                    && n@ == self@.circuits[parent_circuit@].nets_by_name[name@],
                None => !self@.circuits[parent_circuit@].nets_by_name.contains_key(name@),
            },
    {
        match self.circuit(parent_circuit).nets_by_name.get(name) {
            Some(n) => Some(NetId(*n)),
            None => None,
        }
    }

    /// Get the name of a net, if it has one.
    pub fn net_name(&self, net: &NetId) -> (res: Option<String>)
        requires
            self@.nets.contains_key(net@),
        ensures
            opt_name(res) == self@.nets[net@].name,
    {
        Self::clone_name(&self.net(net).name)
    }

    /// Get the pins of a cell, in the order of their creation.
    pub fn each_pin_vec(&self, circuit: &CellId) -> (res: Vec<PinId>)
        requires
            self@.circuits.contains_key(circuit@),
        ensures
            pin_ids_view(res@) == self@.circuits[circuit@].pins,
    {
        to_pin_ids(&self.circuit(circuit).pins)
    }

    /// Get the pin instances of a cell instance, in the order of the pins of its template.
    pub fn each_pin_instance_vec(&self, circuit_instance: &CellInstId) -> (res: Vec<PinInstId>)
        requires
            self@.instances.contains_key(circuit_instance@),
        ensures
            pin_inst_ids_view(res@) == self@.instances[circuit_instance@].pins,
    {
        to_pin_inst_ids(&self.circuit_inst(circuit_instance).pins)
    }

    /// Get the nets connected to the pin instances of a cell instance.
    /// A net appears once for each pin instance connected to it.
    pub fn each_external_net_vec(&self, circuit_instance: &CellInstId) -> (res: Vec<NetId>)
        requires
            self.wf(),
            self@.instances.contains_key(circuit_instance@),
        ensures
            net_ids_view(res@) == external_nets(self@.pin_insts, self@.instances[circuit_instance@].pins),
    {
        let inst = self.circuit_inst(circuit_instance);
        let ghost pins = inst@.pins;
        let mut res: Vec<NetId> = Vec::new();
        let mut k: usize = 0;
        while k < inst.pins.len()
            invariant
                self.wf(),
                inst@ == self@.instances[circuit_instance@],
                self@.instances.contains_key(circuit_instance@),
                pins == inst@.pins,
                k <= pins.len(),
                net_ids_view(res@) == external_nets(self@.pin_insts, pins.subrange(0, k as int)),
            decreases pins.len() - k,
        {
            let q = inst.pins[k];
            proof {
                assert(self@.pin_insts.contains_key(pins[k as int]));
                assert(pins.subrange(0, k + 1).drop_last() =~= pins.subrange(0, k as int));
            }
            match self.pin_inst(&PinInstId(q)).net {
                Some(n) => {
                    res.push(n);
                    assert(net_ids_view(res@) =~= external_nets(self@.pin_insts, pins.subrange(0, k as int)).push(n@));
                },
                None => {},
            }
            k = k + 1;
        }
        proof {
            assert(pins.subrange(0, k as int) =~= pins);
        }
        res
    }

    /// Get the nets of a cell, each once, in no particular order.
    pub fn each_internal_net_vec(&self, circuit: &CellId) -> (res: Vec<NetId>)
        requires
            self@.circuits.contains_key(circuit@),
        ensures
            net_ids_view(res@).no_duplicates(),
            net_ids_view(res@).to_set() == self@.circuits[circuit@].nets,
    {
        let v = fnv_set_to_vec(&self.circuit(circuit).nets);
        to_net_ids(&v)
    }

    /// Get the number of nets of a cell.
    pub fn num_internal_nets(&self, circuit: &CellId) -> (res: usize)
        requires
            self@.circuits.contains_key(circuit@),
        ensures
            res == self@.circuits[circuit@].nets.len(),
    {
        fnv_set_len(&self.circuit(circuit).nets)
    }

    /// Get the number of pins of a cell.
    pub fn num_pins(&self, circuit: &CellId) -> (res: usize)
        requires
            self@.circuits.contains_key(circuit@),
        ensures
            res == self@.circuits[circuit@].pins.len(),
    {
        self.circuit(circuit).pins.len()
    }

    /// Get the pins connected to a net, each once, in no particular order.
    pub fn each_pin_of_net_vec(&self, net: &NetId) -> (res: Vec<PinId>)
        requires
            self@.nets.contains_key(net@),
        ensures
            pin_ids_view(res@).no_duplicates(),
            pin_ids_view(res@).to_set() == self@.nets[net@].pins,
    {
        let v = fnv_set_to_vec(&self.net(net).pins);
        to_pin_ids(&v)
    }

    /// Get the pin instances connected to a net, each once, in no particular order.
    pub fn each_pin_instance_of_net_vec(&self, net: &NetId) -> (res: Vec<PinInstId>)
        requires
            self@.nets.contains_key(net@),
        ensures
            pin_inst_ids_view(res@).no_duplicates(),
            pin_inst_ids_view(res@).to_set() == self@.nets[net@].pin_instances,
    {
        let v = fnv_set_to_vec(&self.net(net).pin_instances);
        to_pin_inst_ids(&v)
    }

    /// Get the number of pins connected to a net.
    pub fn num_net_pins(&self, net: &NetId) -> (res: usize)
        requires
            self@.nets.contains_key(net@),
        ensures
            res == self@.nets[net@].pins.len(),
    {
        fnv_set_len(&self.net(net).pins)
    }

    /// Get the number of pin instances connected to a net.
    pub fn num_net_pin_instances(&self, net: &NetId) -> (res: usize)
        requires
            self@.nets.contains_key(net@),
        ensures
            res == self@.nets[net@].pin_instances.len(),
    {
        fnv_set_len(&self.net(net).pin_instances)
    }

    /// Get the number of terminals (pins and pin instances) connected to a net.
    pub fn num_net_terminals(&self, net: &NetId) -> (res: usize)
        requires
            self@.nets.contains_key(net@),
            self@.nets[net@].pins.len() + self@.nets[net@].pin_instances.len() <= usize::MAX,
        ensures
            res == self@.nets[net@].pins.len() + self@.nets[net@].pin_instances.len(),
    {
        self.num_net_pins(net) + self.num_net_pin_instances(net)
    }

    /// Get the terminals connected to a net: first its pins, then its pin instances,
    /// each once, in no particular order within the two groups.
    pub fn each_terminal_of_net_vec(&self, net: &NetId) -> (res: Vec<TerminalId>)
        requires
            self@.nets.contains_key(net@),
        ensures
            res@.no_duplicates(),
            res@.len() == self@.nets[net@].pins.len() + self@.nets[net@].pin_instances.len(),
            forall|j: int| 0 <= j < self@.nets[net@].pins.len() ==>
                (#[trigger] res@[j] matches TerminalId::Pin(p) && self@.nets[net@].pins.contains(p@)),
            forall|j: int| self@.nets[net@].pins.len() <= j < res@.len() ==>
                (#[trigger] res@[j] matches TerminalId::PinInst(q) && self@.nets[net@].pin_instances.contains(q@)),
    {
        let n = self.net(net);
        let pins = fnv_set_to_vec(&n.pins);
        let insts = fnv_set_to_vec(&n.pin_instances);
        proof {
            pins@.unique_seq_to_set();
            insts@.unique_seq_to_set();
        }
        let mut res: Vec<TerminalId> = Vec::new();
        let mut k: usize = 0;
        while k < pins.len()
            invariant
                k <= pins@.len(),
                res@.len() == k,
                forall|j: int| 0 <= j < k ==> (#[trigger] res@[j] matches TerminalId::Pin(p) && p@ == pins@[j]),
            decreases pins@.len() - k,
        {
            res.push(TerminalId::Pin(PinId(pins[k])));
            k = k + 1;
        }
        let mut k: usize = 0;
        while k < insts.len()
            invariant
                k <= insts@.len(),
                res@.len() == pins@.len() + k,
                forall|j: int| 0 <= j < pins@.len() ==> (#[trigger] res@[j] matches TerminalId::Pin(p) && p@ == pins@[j]),
                forall|j: int| pins@.len() <= j < res@.len() ==>
                    (#[trigger] res@[j] matches TerminalId::PinInst(q) && q@ == insts@[j - pins@.len()]),
            decreases insts@.len() - k,
        {
            res.push(TerminalId::PinInst(PinInstId(insts[k])));
            k = k + 1;
        }
        proof {
            assert forall|j: int| 0 <= j < n@.pins.len() implies
                (#[trigger] res@[j] matches TerminalId::Pin(p) && n@.pins.contains(p@)) by {
                assert(pins@.to_set().contains(pins@[j]));
            }
            assert forall|j: int| n@.pins.len() <= j < res@.len() implies
                (#[trigger] res@[j] matches TerminalId::PinInst(q) && n@.pin_instances.contains(q@)) by {
                assert(insts@.to_set().contains(insts@[j - pins@.len()]));
            }
            assert forall|a: int, b: int| 0 <= a < res@.len() && 0 <= b < res@.len() && a != b implies res@[a] != res@[b] by {
                if a < pins@.len() && b < pins@.len() {
                    assert(pins@[a] != pins@[b]);
                } else if a >= pins@.len() && b >= pins@.len() {
                    assert(insts@[a - pins@.len()] != insts@[b - pins@.len()]);
                }
            }
        }
        res
    }

    /// Connect a terminal to a net, or disconnect it with `None`.
    /// Returns the net that was connected before.
    pub fn connect_terminal(&mut self, terminal: &TerminalId, net: Option<NetId>) -> (res: Option<NetId>)
        requires
            old(self).wf(),
            match *terminal {
                TerminalId::Pin(p) => old(self)@.pins.contains_key(p@)
                    && (net matches Some(n) ==> old(self)@.nets.contains_key(n@)
                        && old(self)@.nets[n@].parent == old(self)@.pins[p@].circuit),
                TerminalId::PinInst(q) => old(self)@.pin_insts.contains_key(q@)
                    && (net matches Some(n) ==> old(self)@.nets.contains_key(n@)
                        && old(self)@.instances.contains_key(old(self)@.pin_insts[q@].circuit_inst)
                        && old(self)@.nets[n@].parent == old(self)@.instances[old(self)@.pin_insts[q@].circuit_inst].parent),
            },
        ensures
            final(self).wf(),
            final(self).layers() == old(self).layers(),
            final(self).shapes_view() == old(self).shapes_view(),
            opt_net(res) == net_of_terminal_spec(old(self)@, *terminal),
            match *terminal {
                TerminalId::Pin(p) => {
                    &&& final(self)@.pins == old(self)@.pins.insert(p@, PinView { net: opt_net(net), ..old(self)@.pins[p@] })
                    &&& final(self)@.nets == nets_after_pin_move(old(self)@.nets, p@, old(self)@.pins[p@].net, opt_net(net))
                    &&& final(self)@.pin_insts == old(self)@.pin_insts
                },
                TerminalId::PinInst(q) => {
                    &&& final(self)@.pin_insts == old(self)@.pin_insts.insert(q@, PinInstView { net: opt_net(net), ..old(self)@.pin_insts[q@] })
                    &&& final(self)@.nets == nets_after_pin_inst_move(old(self)@.nets, q@, old(self)@.pin_insts[q@].net, opt_net(net))
                    &&& final(self)@.pins == old(self)@.pins
                },
            },
            final(self)@.circuits == old(self)@.circuits,
            final(self)@.circuits_by_name == old(self)@.circuits_by_name,
            final(self)@.instances == old(self)@.instances,
            final(self)@.next_circuit == old(self)@.next_circuit,
            final(self)@.next_inst == old(self)@.next_inst,
            final(self)@.next_pin == old(self)@.next_pin,
            final(self)@.next_pin_inst == old(self)@.next_pin_inst,
            final(self)@.next_net == old(self)@.next_net,
    {
        match terminal {
            TerminalId::Pin(p) => self.connect_pin(p, net),
            TerminalId::PinInst(q) => self.connect_pin_instance(q, net),
        }
    }

    /// Disconnect a terminal from its net and return the net that was connected.
    pub fn disconnect_terminal(&mut self, terminal: &TerminalId) -> (res: Option<NetId>)
        requires
            old(self).wf(),
            match *terminal {
                TerminalId::Pin(p) => old(self)@.pins.contains_key(p@),
                TerminalId::PinInst(q) => old(self)@.pin_insts.contains_key(q@),
            },
        ensures
            final(self).wf(),
            final(self).layers() == old(self).layers(),
            final(self).shapes_view() == old(self).shapes_view(),
            opt_net(res) == net_of_terminal_spec(old(self)@, *terminal),
            match *terminal {
                TerminalId::Pin(p) => {
                    &&& final(self)@.pins == old(self)@.pins.insert(p@, PinView { net: None, ..old(self)@.pins[p@] })
                    &&& final(self)@.nets == nets_after_pin_move(old(self)@.nets, p@, old(self)@.pins[p@].net, None)
                    &&& final(self)@.pin_insts == old(self)@.pin_insts
                },
                TerminalId::PinInst(q) => {
                    &&& final(self)@.pin_insts == old(self)@.pin_insts.insert(q@, PinInstView { net: None, ..old(self)@.pin_insts[q@] })
                    &&& final(self)@.nets == nets_after_pin_inst_move(old(self)@.nets, q@, old(self)@.pin_insts[q@].net, None)
                    &&& final(self)@.pins == old(self)@.pins
                },
            },
            final(self)@.circuits == old(self)@.circuits,
            final(self)@.circuits_by_name == old(self)@.circuits_by_name,
            final(self)@.instances == old(self)@.instances,
            final(self)@.next_circuit == old(self)@.next_circuit,
            final(self)@.next_inst == old(self)@.next_inst,
            final(self)@.next_pin == old(self)@.next_pin,
            final(self)@.next_pin_inst == old(self)@.next_pin_inst,
            final(self)@.next_net == old(self)@.next_net,
    {
        self.connect_terminal(terminal, None)
    }
}

impl Chip {
    /// Create a new and empty cell (a circuit without pins).
    pub fn create_cell(&mut self, name: String) -> (res: CellId)
        requires
            old(self).wf(),
            !old(self)@.circuits_by_name.contains_key(name@),
            old(self)@.next_circuit < u32::MAX,
            old(self)@.next_net + 2 < usize::MAX,
        ensures
            final(self).wf(),
            final(self).layers() == old(self).layers(),
            final(self).shapes_view() == old(self).shapes_view(),
            res@ == old(self)@.next_circuit,
            final(self)@.next_circuit == old(self)@.next_circuit + 1,
            final(self)@.circuits == old(self)@.circuits.insert(res@, new_circuit_view(
                res@,
                name@,
                Seq::<u32>::empty(),
                old(self)@.next_net,
                (old(self)@.next_net + 1) as usize,
            )),
            final(self)@.circuits_by_name == old(self)@.circuits_by_name.insert(name@, res@),
            final(self)@.nets == old(self)@.nets
                .insert(old(self)@.next_net, new_net_view(Some("__LOW__"@), res@))
                .insert((old(self)@.next_net + 1) as usize, new_net_view(Some("__HIGH__"@), res@)),
            final(self)@.next_net == old(self)@.next_net + 2,
            final(self)@.pins == old(self)@.pins,
            final(self)@.next_pin == old(self)@.next_pin,
            final(self)@.instances == old(self)@.instances,
            final(self)@.pin_insts == old(self)@.pin_insts,
            final(self)@.next_inst == old(self)@.next_inst,
            final(self)@.next_pin_inst == old(self)@.next_pin_inst,
    {
        let ghost v0 = self@;
        let res = self.create_circuit(name, Vec::new());
        proof {
            assert(Seq::new(0, |k: int| (v0.next_pin + k) as u32) =~= Seq::<u32>::empty());
            assert(self@.pins =~= v0.pins);
        }
        res
    }

    /// Remove a cell with all instances inside it and all instances of it.
    pub fn remove_cell(&mut self, cell_id: &CellId)
        requires
            old(self).wf(),
            old(self)@.circuits.contains_key(cell_id@),
        ensures
            final(self).wf(),
            final(self).layers() == old(self).layers(),
            final(self).shapes_view() == shapes_without_cell(old(self).shapes_view(), cell_id@),
            final(self)@.circuits.dom() == old(self)@.circuits.dom().remove(cell_id@),
            forall|c: u32| #[trigger] final(self)@.circuits.contains_key(c) ==> same_interface(final(self)@.circuits[c], old(self)@.circuits[c]),
            final(self)@.circuits_by_name == old(self)@.circuits_by_name.remove(old(self)@.circuits[cell_id@].name),
            final(self)@.instances == old(self)@.instances.remove_keys(
                old(self)@.circuits[cell_id@].instances + old(self)@.circuits[cell_id@].references),
            final(self)@.pins == old(self)@.pins.remove_keys(old(self)@.circuits[cell_id@].pins.to_set()),
            final(self)@.nets.dom() == old(self)@.nets.dom(),
            forall|n: usize| #[trigger] final(self)@.nets.contains_key(n) ==>
                final(self)@.nets[n].name == old(self)@.nets[n].name && final(self)@.nets[n].parent == old(self)@.nets[n].parent,
            final(self)@.pin_insts.dom() == old(self)@.pin_insts.dom(),
            forall|q: usize| #[trigger] old(self)@.pin_insts.contains_key(q) ==> final(self)@.pin_insts[q]
                == pin_inst_after_removal(old(self)@, old(self)@.circuits[cell_id@].instances + old(self)@.circuits[cell_id@].references, q),
            forall|n: usize| #[trigger] net_is_live(old(self)@.circuits, old(self)@.nets, n) ==> final(self)@.nets[n]
                == net_after_removal(old(self)@, old(self)@.circuits[cell_id@].instances + old(self)@.circuits[cell_id@].references, n),
            final(self)@.next_circuit == old(self)@.next_circuit,
            final(self)@.next_inst == old(self)@.next_inst,
            final(self)@.next_pin == old(self)@.next_pin,
            final(self)@.next_pin_inst == old(self)@.next_pin_inst,
            final(self)@.next_net == old(self)@.next_net,
    {
        self.remove_circuit(cell_id)
    }

    /// Create a new instance of `template_cell` in `parent_cell`.
    pub fn create_cell_instance(&mut self, parent_cell: &CellId, template_cell: &CellId, name: Option<String>) -> (res: CellInstId)
        requires
            old(self).wf(),
            old(self)@.circuits.contains_key(parent_cell@),
            old(self)@.circuits.contains_key(template_cell@),
            !is_ancestor_or_self(old(self)@.circuits, template_cell@, parent_cell@),
            old(self)@.next_inst < usize::MAX,
            old(self)@.next_pin_inst + old(self)@.circuits[template_cell@].pins.len() <= usize::MAX,
            name matches Some(s) ==> !old(self)@.circuits[parent_cell@].instances_by_name.contains_key(s@),
        ensures
            final(self).wf(),
            final(self).layers() == old(self).layers(),
            final(self).shapes_view() == old(self).shapes_view(),
            res@ == old(self)@.next_inst,
            final(self)@.next_inst == old(self)@.next_inst + 1,
            final(self)@.instances == old(self)@.instances.insert(res@, InstView {
                name: opt_name(name),
                template: template_cell@,
                parent: parent_cell@,
                pins: Seq::new(old(self)@.circuits[template_cell@].pins.len(), |k: int| (old(self)@.next_pin_inst + k) as usize),
            }),
            final(self)@.next_pin_inst == old(self)@.next_pin_inst + old(self)@.circuits[template_cell@].pins.len(),
            final(self)@.pin_insts.dom() =~= old(self)@.pin_insts.dom().union(Set::new(|q: usize|
                old(self)@.next_pin_inst <= q < final(self)@.next_pin_inst)),
            forall|q: usize| #[trigger] old(self)@.pin_insts.contains_key(q) ==> final(self)@.pin_insts[q] == old(self)@.pin_insts[q],
            forall|k: int| 0 <= k < old(self)@.circuits[template_cell@].pins.len() ==>
                #[trigger] final(self)@.pin_insts[(old(self)@.next_pin_inst + k) as usize] == (PinInstView {
                    template_pin: old(self)@.circuits[template_cell@].pins[k],
                    circuit_inst: res@,
                    net: None,
                }),
            final(self)@.circuits == circuits_after_instantiation(old(self)@.circuits, parent_cell@, template_cell@, res@, opt_name(name)),
            final(self)@.circuits_by_name == old(self)@.circuits_by_name,
            final(self)@.nets == old(self)@.nets,
            final(self)@.pins == old(self)@.pins,
            final(self)@.next_circuit == old(self)@.next_circuit,
            final(self)@.next_pin == old(self)@.next_pin,
            final(self)@.next_net == old(self)@.next_net,
    {
        self.create_circuit_instance(parent_cell, template_cell, name)
    }

    /// Remove a cell instance. Its pin instances stay in the table, disconnected.
    pub fn remove_cell_instance(&mut self, id: &CellInstId)
        requires
            old(self).wf(),
            old(self)@.instances.contains_key(id@),
        ensures
            final(self).wf(),
            final(self).layers() == old(self).layers(),
            final(self).shapes_view() == old(self).shapes_view(),
            final(self)@.instances == old(self)@.instances.remove(id@),
            final(self)@.circuits == circuits_after_instance_removal(old(self)@.circuits,
                old(self)@.instances[id@].parent, old(self)@.instances[id@].template,
                id@, old(self)@.instances[id@].name),
            final(self)@.nets == nets_after_disconnecting(old(self)@.nets, old(self)@.pin_insts,
                old(self)@.instances[id@].pins.to_set()),
            final(self)@.pin_insts.dom() == old(self)@.pin_insts.dom(),
            forall|q: usize| #[trigger] old(self)@.pin_insts.contains_key(q) ==> final(self)@.pin_insts[q] == (
                if old(self)@.instances[id@].pins.contains(q) {
                    PinInstView { net: None, ..old(self)@.pin_insts[q] }
                } else {
                    old(self)@.pin_insts[q]
                }),
            final(self)@.circuits_by_name == old(self)@.circuits_by_name,
            final(self)@.pins == old(self)@.pins,
            final(self)@.next_circuit == old(self)@.next_circuit,
            final(self)@.next_inst == old(self)@.next_inst,
            final(self)@.next_pin == old(self)@.next_pin,
            final(self)@.next_pin_inst == old(self)@.next_pin_inst,
            final(self)@.next_net == old(self)@.next_net,
    {
        self.remove_circuit_instance(id)
    }

    /// Check if a cell is a top level cell: no cell instantiates it.
    pub fn is_top_level_cell(&self, cell: &CellId) -> (res: bool)
        requires
            self@.circuits.contains_key(cell@),
        ensures
            res == (self@.circuits[cell@].dependent_circuits.len() == 0),
    {
        self.num_dependent_cells(cell) == 0
    }

    /// Check if a cell is a leaf cell: it instantiates no cell.
    pub fn is_leaf_cell(&self, cell: &CellId) -> (res: bool)
        requires
            self@.circuits.contains_key(cell@),
        ensures
            res == (self@.circuits[cell@].dependencies.len() == 0),
    {
        self.num_cell_dependencies(cell) == 0
    }

    /// Get the cells of `cells` that are top level cells (with `top`) or else
    /// leaf cells, in the order of `cells`.
    fn filter_cells(&self, cells: &Vec<CellId>, top: bool) -> (res: Vec<CellId>)
        requires
            forall|k: int| 0 <= k < cells@.len() ==> self@.circuits.contains_key(#[trigger] cells@[k]@),
        ensures
            cell_ids_view(res@) == cell_ids_view(cells@).filter(|c: u32| cell_selected(self@, top, c)),
    {
        let ghost f = |c: u32| cell_selected(self@, top, c);
        let mut res: Vec<CellId> = Vec::new();
        let mut k: usize = 0;
        while k < cells.len()
            invariant
                k <= cells@.len(),
                forall|j: int| 0 <= j < cells@.len() ==> self@.circuits.contains_key(#[trigger] cells@[j]@),
                f == (|c: u32| cell_selected(self@, top, c)),
                cell_ids_view(res@) == cell_ids_view(cells@.subrange(0, k as int)).filter(f),
            decreases cells@.len() - k,
        {
            let c = cells[k];
            let keep = if top { self.is_top_level_cell(&c) } else { self.is_leaf_cell(&c) };
            let ghost s0 = cell_ids_view(cells@.subrange(0, k as int));
            let ghost s1 = cell_ids_view(cells@.subrange(0, k + 1));
            proof {
                assert(s1 =~= s0.push(c@));
                s0.lemma_filter_push(c@, f);
                assert(keep == f(c@));
            }
            if keep {
                res.push(c);
                assert(cell_ids_view(res@) =~= s0.filter(f).push(c@));
            }
            assert(cell_ids_view(res@) == s1.filter(f));
            k = k + 1;
        }
        assert(cells@.subrange(0, k as int) =~= cells@);
        res
    }

    /// Get all top level cells (cells that no cell instantiates), each once, in no particular order.
    pub fn each_top_level_cell(&self) -> (res: Vec<CellId>)
        ensures
            cell_ids_view(res@).no_duplicates(),
            cell_ids_view(res@).to_set() == self@.circuits.dom().filter(|c: u32| cell_selected(self@, true, c)),
    {
        let all = self.each_cell_vec();
        proof {
            assert forall|k: int| 0 <= k < all@.len() implies self@.circuits.contains_key(#[trigger] all@[k]@) by {
                assert(cell_ids_view(all@)[k] == all@[k]@);
                assert(cell_ids_view(all@).to_set().contains(all@[k]@));
            }
        }
        let res = self.filter_cells(&all, true);
        proof {
            lemma_filter_to_set(cell_ids_view(all@), |c: u32| cell_selected(self@, true, c));
        }
        res
    }

    /// Get all leaf cells (cells that instantiate no cell), each once, in no particular order.
    pub fn each_leaf_cell(&self) -> (res: Vec<CellId>)
        ensures
            cell_ids_view(res@).no_duplicates(),
            cell_ids_view(res@).to_set() == self@.circuits.dom().filter(|c: u32| cell_selected(self@, false, c)),
    {
        let all = self.each_cell_vec();
        proof {
            assert forall|k: int| 0 <= k < all@.len() implies self@.circuits.contains_key(#[trigger] all@[k]@) by {
                assert(cell_ids_view(all@)[k] == all@[k]@);
                assert(cell_ids_view(all@).to_set().contains(all@[k]@));
            }
        }
        let res = self.filter_cells(&all, false);
        proof {
            lemma_filter_to_set(cell_ids_view(all@), |c: u32| cell_selected(self@, false, c));
        }
        res
    }
}

/// With `top`: `c` is a top level cell (no cell instantiates it); else: `c` is a
/// leaf cell (it instantiates no cell).
pub open spec fn cell_selected(v: ChipView, top: bool, c: u32) -> bool {
    if top {
        v.circuits[c].dependent_circuits.len() == 0
    } else {
        v.circuits[c].dependencies.len() == 0
    }
}

/// Filtering a sequence without duplicates filters its set of elements.
pub proof fn lemma_filter_to_set(s: Seq<u32>, f: spec_fn(u32) -> bool)
    requires
        s.no_duplicates(),
    ensures
        s.filter(f).no_duplicates(),
        s.filter(f).to_set() == s.to_set().filter(f),
    decreases s.len(),
{
    broadcast use vstd::seq_lib::group_filter_ensures;
    if s.len() == 0 {
        assert(s.filter(f) =~= Seq::<u32>::empty());
        assert(s.to_set().filter(f) =~= Set::<u32>::empty());
    } else {
        let s0 = s.drop_last();
        let x = s.last();
        assert(s =~= s0.push(x));
        assert(s0.no_duplicates()) by {
            assert forall|a: int, b: int| 0 <= a < s0.len() && 0 <= b < s0.len() && a != b implies s0[a] != s0[b] by {
                assert(s[a] != s[b]);
            }
        }
        lemma_filter_to_set(s0, f);
        s0.lemma_filter_push(x, f);
        assert(!s0.contains(x)) by {
            if s0.contains(x) {
                let j = choose|j: int| 0 <= j < s0.len() && s0[j] == x;
                assert(s[j] == s[s.len() - 1]);
            }
        }
        if f(x) {
            assert(!s0.filter(f).contains(x)) by {
                if s0.filter(f).contains(x) {
                    s0.lemma_filter_contains_rev(f, x);
                }
            }
            assert forall|a: int, b: int| 0 <= a < s.filter(f).len() && 0 <= b < s.filter(f).len() && a != b
                implies s.filter(f)[a] != s.filter(f)[b] by {
                let t = s0.filter(f);
                if a < t.len() && b < t.len() {
                } else if a == t.len() {
                    assert(t.contains(t[b]));
                } else {
                    assert(t.contains(t[a]));
                }
            }
        }
        assert forall|y: u32| s.filter(f).to_set().contains(y) <==> s.to_set().filter(f).contains(y) by {
            if s.to_set().filter(f).contains(y) {
                let j = choose|j: int| 0 <= j < s.len() && s[j] == y;
                if j < s0.len() {
                    assert(s0[j] == y);
                    assert(s0.to_set().contains(y));
                    assert(s0.to_set().filter(f).contains(y));
                    assert(s0.filter(f).to_set().contains(y));
                    let i = choose|i: int| 0 <= i < s0.filter(f).len() && s0.filter(f)[i] == y;
                    assert(s.filter(f)[i] == y);
                } else {
                    assert(y == x);
                    assert(s.filter(f)[s.filter(f).len() - 1] == x);
                }
            }
            if s.filter(f).to_set().contains(y) {
                let i = choose|i: int| 0 <= i < s.filter(f).len() && s.filter(f)[i] == y;
                if f(x) && i == s0.filter(f).len() {
                    assert(y == x);
                    assert(s[s.len() - 1] == x);
                } else {
                    assert(s0.filter(f)[i] == y);
                    assert(s0.filter(f).to_set().contains(y));
                    assert(s0.to_set().filter(f).contains(y));
                    let j = choose|j: int| 0 <= j < s0.len() && s0[j] == y;
                    assert(s[j] == y);
                }
            }
        }
        assert(s.filter(f).to_set() =~= s.to_set().filter(f));
    }
}

/// Connecting a pin that has no net to a net of its cell and disconnecting it
/// again gives back the nets and pins as they were.
pub proof fn law_connect_disconnect_pin(v: ChipView, p: u32, n: usize)
    requires
        v.inv(),
        v.pins.contains_key(p),
        v.pins[p].net is None,
        v.nets.contains_key(n),
        v.nets[n].parent == v.pins[p].circuit,
    ensures
        nets_after_pin_move(nets_after_pin_move(v.nets, p, None, Some(n)), p, Some(n), None) == v.nets,
        v.pins.insert(p, PinView { net: Some(n), ..v.pins[p] }).insert(p, PinView { net: None, ..v.pins[p] }) == v.pins,
{
    assert(v.circuits.contains_key(v.pins[p].circuit));
    assert(net_is_live(v.circuits, v.nets, n));
    assert(!v.nets[n].pins.contains(p)) by {
        if v.nets[n].pins.contains(p) {
            assert(v.pins[p].net == Some(n));
        }
    }
    assert(v.nets[n].pins.insert(p).remove(p) =~= v.nets[n].pins);
    assert(nets_after_pin_move(nets_after_pin_move(v.nets, p, None, Some(n)), p, Some(n), None) =~= v.nets);
    assert(v.pins.insert(p, PinView { net: Some(n), ..v.pins[p] }).insert(p, PinView { net: None, ..v.pins[p] }) =~= v.pins);
}

/// Connecting a pin instance that has no net to a net of the cell that holds
/// its instance and disconnecting it again gives back the nets and pin
/// instances as they were.
pub proof fn law_connect_disconnect_pin_instance(v: ChipView, q: usize, n: usize)
    requires
        v.inv(),
        v.pin_insts.contains_key(q),
        v.pin_insts[q].net is None,
        v.instances.contains_key(v.pin_insts[q].circuit_inst),
        v.nets.contains_key(n),
        v.nets[n].parent == v.instances[v.pin_insts[q].circuit_inst].parent,
    ensures
        nets_after_pin_inst_move(nets_after_pin_inst_move(v.nets, q, None, Some(n)), q, Some(n), None) == v.nets,
        v.pin_insts.insert(q, PinInstView { net: Some(n), ..v.pin_insts[q] })
            .insert(q, PinInstView { net: None, ..v.pin_insts[q] }) == v.pin_insts,
{
    assert(v.circuits.contains_key(v.instances[v.pin_insts[q].circuit_inst].parent));
    assert(net_is_live(v.circuits, v.nets, n));
    assert(!v.nets[n].pin_instances.contains(q)) by {
        if v.nets[n].pin_instances.contains(q) {
            assert(v.pin_insts[q].net == Some(n));
        }
    }
    assert(v.nets[n].pin_instances.insert(q).remove(q) =~= v.nets[n].pin_instances);
    assert(nets_after_pin_inst_move(nets_after_pin_inst_move(v.nets, q, None, Some(n)), q, Some(n), None) =~= v.nets);
    assert(v.pin_insts.insert(q, PinInstView { net: Some(n), ..v.pin_insts[q] })
        .insert(q, PinInstView { net: None, ..v.pin_insts[q] }) =~= v.pin_insts);
}

/// Removing a net right after creating it gives back the nets and cells as they were.
/// `v1` is the chip after `create_net(parent, name)` on `v0`, `v2` after
/// `remove_net` of the new net on `v1`, as their contracts state.
pub proof fn law_create_remove_net(v0: ChipView, v1: ChipView, v2: ChipView, parent: u32, name: Option<Seq<char>>)
    requires
        v0.inv(),
        v0.circuits.contains_key(parent),
        name matches Some(s) ==> !v0.circuits[parent].nets_by_name.contains_key(s),
        v1.nets == v0.nets.insert(v0.next_net, NetView {
            name: name,
            parent: parent,
            pins: Set::empty(),
            pin_instances: Set::empty(),
        }),
        v1.circuits == v0.circuits.insert(parent, CircuitView {
            nets: v0.circuits[parent].nets.insert(v0.next_net),
            nets_by_name: match name {
                Some(s) => v0.circuits[parent].nets_by_name.insert(s, v0.next_net),
                None => v0.circuits[parent].nets_by_name,
            },
            ..v0.circuits[parent]
        }),
        v2.nets == v1.nets.remove(v0.next_net),
        v2.circuits == v1.circuits.insert(parent, CircuitView {
            nets: v1.circuits[parent].nets.remove(v0.next_net),
            nets_by_name: names_after_rename(v1.circuits[parent].nets_by_name, v0.next_net, v1.nets[v0.next_net].name, None),
            ..v1.circuits[parent]
        }),
    ensures
        v2.nets == v0.nets,
        v2.circuits == v0.circuits,
{
    let n = v0.next_net;
    assert(!v0.nets.contains_key(n));
    assert(!v0.circuits[parent].nets.contains(n));
    assert(v2.nets =~= v0.nets);
    assert(v0.circuits[parent].nets.insert(n).remove(n) =~= v0.circuits[parent].nets);
    match name {
        Some(s) => {
            assert(v0.circuits[parent].nets_by_name.insert(s, n).remove(s) =~= v0.circuits[parent].nets_by_name);
        },
        None => {},
    }
    assert(v2.circuits =~= v0.circuits);
}

/// Renaming a net and renaming it back gives back the names of its cell.
pub proof fn law_rename_net_back(names: Map<Seq<char>, usize>, n: usize, a: Option<Seq<char>>, b: Option<Seq<char>>)
    requires
        a matches Some(s) ==> names.contains_key(s) && names[s] == n,
        b matches Some(s) ==> !names.contains_key(s),
    ensures
        names_after_rename(names_after_rename(names, n, a, b), n, b, a) == names,
{
    assert(names_after_rename(names_after_rename(names, n, a, b), n, b, a) =~= names);
}

impl Chip {
    /// Get the size of the data base unit.
    pub fn dbu(&self) -> (res: Coord)
        ensures
            res == self.layers().dbu,
    {
        self.dbu
    }

    /// Set the size of the data base unit.
    pub fn set_dbu(&mut self, dbu: Coord)
        requires
            old(self).wf(),
        ensures
            final(self).wf(),
            final(self)@ == old(self)@,
            final(self).layers() == (LayersView { dbu: dbu, ..old(self).layers() }),
    {
        self.dbu = dbu;
    }

    /// Get all layers, each once, in no particular order.
    pub fn each_layer(&self) -> (res: Vec<LayerId>)
        ensures
            res@.map_values(|l: LayerId| l@).no_duplicates(),
            res@.map_values(|l: LayerId| l@).to_set() == self.layers().info.dom(),
    {
        let keys = fnv_map_keys(&self.layer_info);
        let mut res: Vec<LayerId> = Vec::new();
        let mut k: usize = 0;
        while k < keys.len()
            invariant
                k <= keys@.len(),
                res@.len() == k,
                forall|j: int| 0 <= j < k ==> #[trigger] res@[j]@ == keys@[j],
            decreases keys@.len() - k,
        {
            res.push(Index::new(keys[k]));
            k = k + 1;
        }
        proof {
            assert(res@.map_values(|l: LayerId| l@) =~= keys@);
            assert(self.layers().info.dom() =~= self.layer_info@.dom());
        }
        res
    }

    /// Get the numbers and the name of a layer.
    pub fn layer_info(&self, layer: &LayerId) -> (res: LayerInfo<String>)
        requires
            self.layers().info.contains_key(layer@),
        ensures
            layer_view(res) == self.layers().info[layer@],
    {
        let info = fnv_map_get(&self.layer_info, &layer.value()).unwrap();
        LayerInfo { index: info.index, datatype: info.datatype, name: Self::clone_name(&info.name) }
    }

    /// Find a layer by its index and datatype numbers. If several layers have
    /// these numbers, this is the one created last.
    pub fn find_layer(&self, index: u32, datatype: u32) -> (res: Option<LayerId>)
        ensures
            match res {
                Some(l) => self.layers().by_index_datatype.contains_key((index, datatype))
                    && l@ == self.layers().by_index_datatype[(index, datatype)],
                None => !self.layers().by_index_datatype.contains_key((index, datatype)),
            },
    {
        match fnv_map_get(&self.layers_by_index_datatype, &layer_key(index, datatype)) {
            Some(l) => Some(Index::new(*l)),
            None => None,
        }
    }

    /// Find a layer by its name.
    pub fn layer_by_name(&self, name: &str) -> (res: Option<LayerId>)
        ensures
            match res {
                Some(l) => self.layers().by_name.contains_key(name@) && l@ == self.layers().by_name[name@],
                None => !self.layers().by_name.contains_key(name@),
            },
    {
        match self.layers_by_name.get(name) {
            Some(l) => Some(Index::new(*l)),
            None => None,
        }
    }

    /// Create a new layer with the given index and datatype numbers, without a name.
    /// A later lookup by these numbers finds this layer.
    pub fn create_layer(&mut self, index: u32, datatype: u32) -> (res: LayerId)
        requires
            old(self).wf(),
            old(self).layers().next_layer < u16::MAX,
        ensures
            final(self).wf(),
            final(self)@ == old(self)@,
            res@ == old(self).layers().next_layer,
            final(self).layers() == (LayersView {
                next_layer: (old(self).layers().next_layer + 1) as u16,
                info: old(self).layers().info.insert(res@, LayerView { index: index, datatype: datatype, name: None }),
                by_index_datatype: old(self).layers().by_index_datatype.insert((index, datatype), res@),
                ..old(self).layers()
            }),
    {
        let ghost l0 = self.layers();
        // Find the next free layer index.
        let layer_index = self.layer_index_generator.next();
        // Create new entries in the layer lookup tables.
        fnv_map_insert(&mut self.layers_by_index_datatype, layer_key(index, datatype), layer_index.value());
        let info = LayerInfo { index, datatype, name: None };
        fnv_map_insert(&mut self.layer_info, layer_index.value(), info);
        proof {
            let l1 = self.layers();
            let id = layer_index@;
            lemma_index_datatype_key(0);
            assert(l1.info =~= l0.info.insert(id, LayerView { index: index, datatype: datatype, name: None }));
            assert(l1.by_index_datatype =~= l0.by_index_datatype.insert((index, datatype), id));
            assert(!l0.info.contains_key(id));
            assert forall|l: u16| #[trigger] l1.info.contains_key(l) && l1.info[l].name is Some implies {
                &&& l1.by_name.contains_key(l1.info[l].name.unwrap())
                &&& l1.by_name[l1.info[l].name.unwrap()] == l
            } by {
                assert(l != id);
            }
            assert forall|k: (u32, u32)| #[trigger] l1.by_index_datatype.contains_key(k) implies {
                &&& l1.info.contains_key(l1.by_index_datatype[k])
                &&& l1.info[l1.by_index_datatype[k]].index == k.0
                &&& l1.info[l1.by_index_datatype[k]].datatype == k.1
            } by {
                if k != (index, datatype) {
                    assert(l0.by_index_datatype.contains_key(k));
                    assert(l0.by_index_datatype[k] != id);
                }
            }
            assert forall|l: u16| #[trigger] l1.info.contains_key(l)
                implies l1.by_index_datatype.contains_key((l1.info[l].index, l1.info[l].datatype)) by {
                if l != id {
                    assert(l0.by_index_datatype.contains_key((l0.info[l].index, l0.info[l].datatype)));
                }
            }
        }
        layer_index
    }

    /// Set the name of a layer, or remove it with `None`. Returns the previous
    /// name. If the layer already has this name, nothing changes and the name is returned.
    pub fn set_layer_name(&mut self, layer: &LayerId, name: Option<String>) -> (res: Option<String>)
        requires
            old(self).wf(),
            old(self).layers().info.contains_key(layer@),
            name matches Some(n) ==> !old(self).layers().by_name.contains_key(n@)
                || old(self).layers().by_name[n@] == layer@,
        ensures
            final(self).wf(),
            final(self)@ == old(self)@,
            match name {
                Some(n) if old(self).layers().by_name.contains_key(n@) => {
                    &&& opt_name(res) == Some(n@)
                    &&& final(self).layers() == old(self).layers()
                },
                _ => {
                    &&& opt_name(res) == old(self).layers().info[layer@].name
                    &&& final(self).layers() == (LayersView {
                        info: old(self).layers().info.insert(layer@, LayerView {
                            name: opt_name(name),
                            ..old(self).layers().info[layer@]
                        }),
                        by_name: names_after_rename(old(self).layers().by_name, layer@,
                            old(self).layers().info[layer@].name, opt_name(name)),
                        ..old(self).layers()
                    })
                },
            },
    {
        let ghost l0 = self.layers();
        if let Some(n) = &name {
            // Check that no other layer has this name.
            let existing = self.layers_by_name.get(n.as_str());
            if existing.is_some() {
                // The layer has this name already: nothing to be done.
                return Some(n.clone());
            }
        }
        // Remove the name.
        let mut info = fnv_map_remove(&mut self.layer_info, &layer.value()).unwrap();
        let mut previous_name: Option<String> = None;
        std::mem::swap(&mut info.name, &mut previous_name);
        if let Some(prev_name) = &previous_name {
            // Remove the name from the table.
            self.layers_by_name.remove(prev_name.as_str());
        }
        if let Some(n) = name {
            // Create the link from the name to the layer, and store the name.
            self.layers_by_name.insert(n.clone(), layer.value());
            info.name = Some(n);
        }
        fnv_map_insert(&mut self.layer_info, layer.value(), info);
        proof {
            let l1 = self.layers();
            let id = layer@;
            let x0 = l0.info[id];
            assert(l1.info =~= l0.info.insert(id, LayerView { name: opt_name(name), ..x0 }));
            assert(l1.by_name =~= names_after_rename(l0.by_name, id, x0.name, opt_name(name)));
            assert(l1.by_index_datatype =~= l0.by_index_datatype);
            assert forall|s: Seq<char>| #[trigger] l1.by_name.contains_key(s) implies {
                &&& l1.info.contains_key(l1.by_name[s])
                &&& l1.info[l1.by_name[s]].name == Some(s)
            } by {
                if opt_name(name) != Some(s) {
                    assert(l0.by_name.contains_key(s));
                    if l0.by_name[s] == id {
                        assert(x0.name == Some(s));
                    }
                }
            }
            assert forall|l: u16| #[trigger] l1.info.contains_key(l) && l1.info[l].name is Some implies {
                &&& l1.by_name.contains_key(l1.info[l].name.unwrap())
                &&& l1.by_name[l1.info[l].name.unwrap()] == l
            } by {
                if l != id {
                    let s = l0.info[l].name.unwrap();
                    assert(l0.by_name.contains_key(s) && l0.by_name[s] == l);
                    if x0.name == Some(s) {
                        assert(l0.by_name[s] == id);
                    }
                    if opt_name(name) == Some(s) {
                        assert(l0.by_name.contains_key(s));
                    }
                }
            }
            assert forall|k: (u32, u32)| #[trigger] l1.by_index_datatype.contains_key(k) implies {
                &&& l1.info.contains_key(l1.by_index_datatype[k])
                &&& l1.info[l1.by_index_datatype[k]].index == k.0
                &&& l1.info[l1.by_index_datatype[k]].datatype == k.1
            } by {
                assert(l0.by_index_datatype.contains_key(k));
            }
            assert forall|l: u16| #[trigger] l1.info.contains_key(l)
                implies l1.by_index_datatype.contains_key((l1.info[l].index, l1.info[l].datatype)) by {
                assert(l0.by_index_datatype.contains_key((l0.info[l].index, l0.info[l].datatype)));
            }
        }
        previous_name
    }
}

/// The cells of `cells` whose dependencies all come before them, in one pass:
/// a cell is taken if all the cells it instantiates were taken before it.
pub open spec fn bottom_to_top(v: ChipView, cells: Seq<u32>) -> Seq<u32>
    decreases cells.len(),
{
    if cells.len() == 0 {
        Seq::empty()
    } else {
        let prev = bottom_to_top(v, cells.drop_last());
        if forall|t: u32| #[trigger] v.circuits[cells.last()].dependencies.contains_key(t) ==> prev.contains(t) {
            prev.push(cells.last())
        } else {
            prev
        }
    }
}

/// The cell instances that a pin instance in `qs` belongs to.
pub open spec fn instances_on(v: ChipView, qs: Set<usize>) -> Set<usize> {
    Set::new(|i: usize| exists|q: usize| #[trigger] qs.contains(q) && v.pin_insts[q].circuit_inst == i)
}

/// Each cell of `s` comes after all the cells it instantiates.
pub open spec fn topologically_sorted(v: ChipView, s: Seq<u32>) -> bool {
    forall|i: int, t: u32| 0 <= i < s.len() && #[trigger] v.circuits[s[i]].dependencies.contains_key(t)
        ==> exists|j: int| 0 <= j < i && #[trigger] s[j] == t
}

impl Chip {
    /// Check whether the net is the constant LOW or HIGH net of its cell.
    pub fn is_constant_net(&self, net: &NetId) -> (res: bool)
        requires
            self.wf(),
            net_is_live(self@.circuits, self@.nets, net@),
        ensures
            res == (net@ == self@.circuits[self@.nets[net@].parent].net_low
                || net@ == self@.circuits[self@.nets[net@].parent].net_high),
    {
        let parent = self.parent_cell_of_net(net);
        net.0 == self.net_zero(&parent).0 || net.0 == self.net_one(&parent).0
    }

    /// Get the cell instances that have a pin instance connected to the net, each
    /// once, in no particular order.
    pub fn each_circuit_instance_of_net_vec(&self, net: &NetId) -> (res: Vec<CellInstId>)
        requires
            self.wf(),
            self@.nets.contains_key(net@),
            forall|q: usize| #[trigger] self@.nets[net@].pin_instances.contains(q) ==> self@.pin_insts.contains_key(q),
        ensures
            inst_ids_view(res@).no_duplicates(),
            inst_ids_view(res@).to_set() == instances_on(self@, self@.nets[net@].pin_instances),
    {
        let pins = fnv_set_to_vec(&self.net(net).pin_instances);
        let ghost ps = self@.nets[net@].pin_instances;
        let mut visited: FnvHashSet<usize> = FnvHashSet::default();
        let mut res: Vec<CellInstId> = Vec::new();
        let mut k: usize = 0;
        proof {
            assert(instances_on(self@, pins@.subrange(0, 0).to_set()) =~= Set::<usize>::empty());
            assert(inst_ids_view(res@).to_set() =~= Set::<usize>::empty());
        }
        while k < pins.len()
            invariant
                k <= pins@.len(),
                ps == self@.nets[net@].pin_instances,
                pins@.to_set() == ps,
                forall|q: usize| #[trigger] ps.contains(q) ==> self@.pin_insts.contains_key(q),
                inst_ids_view(res@).no_duplicates(),
                inst_ids_view(res@).to_set() == instances_on(self@, pins@.subrange(0, k as int).to_set()),
                visited@ == inst_ids_view(res@).to_set(),
            decreases pins@.len() - k,
        {
            let q = pins[k];
            proof {
                assert(pins@.to_set().contains(q));
            }
            let inst = self.parent_of_pin_instance(&PinInstId(q));
            let ghost r0 = inst_ids_view(res@);
            let ghost d0 = pins@.subrange(0, k as int).to_set();
            let ghost d1 = pins@.subrange(0, k + 1).to_set();
            proof {
                assert(d1 =~= d0.insert(q)) by {
                    assert forall|x: usize| d1.contains(x) <==> d0.insert(q).contains(x) by {
                        if d1.contains(x) {
                            let j = choose|j: int| 0 <= j < k + 1 && #[trigger] pins@.subrange(0, k + 1)[j] == x;
                            if j < k {
                                assert(pins@.subrange(0, k as int)[j] == x);
                            }
                        }
                        if d0.contains(x) {
                            let j = choose|j: int| 0 <= j < k && #[trigger] pins@.subrange(0, k as int)[j] == x;
                            assert(pins@.subrange(0, k + 1)[j] == x);
                        }
                        if x == q {
                            assert(pins@.subrange(0, k + 1)[k as int] == x);
                        }
                    }
                }
                assert(instances_on(self@, d1) =~= instances_on(self@, d0).insert(inst@)) by {
                    assert forall|i: usize| instances_on(self@, d1).contains(i) implies instances_on(self@, d0).insert(inst@).contains(i) by {
                        let x = choose|x: usize| #[trigger] d1.contains(x) && self@.pin_insts[x].circuit_inst == i;
                        if x != q {
                            assert(d0.contains(x));
                        }
                    }
                    assert forall|i: usize| instances_on(self@, d0).insert(inst@).contains(i) implies instances_on(self@, d1).contains(i) by {
                        if i == inst@ {
                            assert(self@.pin_insts[q].circuit_inst == i);
                            assert(d1.contains(q));
                        } else {
                            let x = choose|x: usize| #[trigger] d0.contains(x) && self@.pin_insts[x].circuit_inst == i;
                            assert(d1.contains(x));
                        }
                    }
                }
            }
            if !fnv_set_contains(&visited, &inst.0) {
                fnv_set_insert(&mut visited, inst.0);
                res.push(inst);
                proof {
                    assert(inst_ids_view(res@) =~= r0.push(inst@));
                    assert(!r0.contains(inst@)) by {
                        if r0.contains(inst@) {
                            assert(r0.to_set().contains(inst@));
                        }
                    }
                    assert forall|x: usize| inst_ids_view(res@).to_set().contains(x) <==> r0.to_set().insert(inst@).contains(x) by {
                        if inst_ids_view(res@).to_set().contains(x) {
                            let j = choose|j: int| 0 <= j < inst_ids_view(res@).len() && inst_ids_view(res@)[j] == x;
                            if j < r0.len() {
                                assert(r0[j] == x);
                            }
                        }
                        if r0.to_set().contains(x) {
                            let j = choose|j: int| 0 <= j < r0.len() && r0[j] == x;
                            assert(inst_ids_view(res@)[j] == x);
                        }
                        if x == inst@ {
                            assert(inst_ids_view(res@)[r0.len() as int] == x);
                        }
                    }
                    assert(inst_ids_view(res@).to_set() =~= r0.to_set().insert(inst@));
                }
            } else {
                proof {
                    assert(instances_on(self@, d1) =~= instances_on(self@, d0));
                }
            }
            k = k + 1;
        }
        proof {
            assert(pins@.subrange(0, k as int) =~= pins@);
        }
        res
    }

    /// Get the cells in an order where each cell comes after the cells it
    /// instantiates: one pass over all cells (in no particular order) that takes
    /// each cell whose dependencies were all taken before it.
    pub fn each_cell_bottom_to_top(&self) -> (res: Vec<CellId>)
        requires
            self.wf(),
        ensures
            cell_ids_view(res@).no_duplicates(),
            topologically_sorted(self@, cell_ids_view(res@)),
            forall|k: int| 0 <= k < res@.len() ==> self@.circuits.contains_key(#[trigger] res@[k]@),
            exists|s: Seq<u32>| #![trigger bottom_to_top(self@, s)] s.no_duplicates() && s.to_set() == self@.circuits.dom()
                && cell_ids_view(res@) == bottom_to_top(self@, s),
            forall|c: u32| #[trigger] self@.circuits.contains_key(c) && self@.circuits[c].dependencies.dom() == Set::<u32>::empty()
                ==> cell_ids_view(res@).contains(c),
    {
        let cells = self.each_cell_vec();
        proof {
            assert forall|k: int| 0 <= k < cells@.len() implies self@.circuits.contains_key(#[trigger] cells@[k]@) by {
                assert(cell_ids_view(cells@)[k] == cells@[k]@);
                assert(cell_ids_view(cells@).to_set().contains(cells@[k]@));
            }
        }
        let res = self.cells_bottom_to_top(&cells);
        proof {
            lemma_bottom_to_top(self@, cell_ids_view(cells@));
            lemma_bottom_to_top_leaves(self@, cell_ids_view(cells@));
            assert forall|c: u32| #[trigger] self@.circuits.contains_key(c) && self@.circuits[c].dependencies.dom() == Set::<u32>::empty()
                implies cell_ids_view(res@).contains(c) by {
                assert(cell_ids_view(cells@).to_set().contains(c));
            }
            assert forall|k: int| 0 <= k < res@.len() implies self@.circuits.contains_key(#[trigger] res@[k]@) by {
                assert(cell_ids_view(res@)[k] == res@[k]@);
                assert(cell_ids_view(res@).contains(res@[k]@));
                assert(cell_ids_view(cells@).contains(res@[k]@));
                assert(cell_ids_view(cells@).to_set().contains(res@[k]@));
            }
        }
        res
    }

    /// One pass over `cells` that takes each cell whose dependencies were all
    /// taken before it, in the order of `cells`.
    pub fn cells_bottom_to_top(&self, cells: &Vec<CellId>) -> (res: Vec<CellId>)
        requires
            self.wf(),
            forall|k: int| 0 <= k < cells@.len() ==> self@.circuits.contains_key(#[trigger] cells@[k]@),
        ensures
            cell_ids_view(res@) == bottom_to_top(self@, cell_ids_view(cells@)),
    {
        let ghost cv = cell_ids_view(cells@);
        let mut visited: FnvHashSet<u32> = FnvHashSet::default();
        let mut sorted: Vec<CellId> = Vec::new();
        let mut k: usize = 0;
        proof {
            assert(cv.subrange(0, 0) =~= Seq::<u32>::empty());
        }
        while k < cells.len()
            invariant
                self.wf(),
                cv == cell_ids_view(cells@),
                forall|j: int| 0 <= j < cells@.len() ==> self@.circuits.contains_key(#[trigger] cells@[j]@),
                k <= cells@.len(),
                cell_ids_view(sorted@) == bottom_to_top(self@, cv.subrange(0, k as int)),
                visited@ == cell_ids_view(sorted@).to_set(),
            decreases cells@.len() - k,
        {
            let c = cells[k];
            let deps = self.each_cell_dependency_vec(&c);
            let mut all_resolved = true;
            let mut j: usize = 0;
            while j < deps.len()
                invariant
                    j <= deps@.len(),
                    all_resolved == forall|m: int| 0 <= m < j ==> visited@.contains(#[trigger] deps@[m]@),
                decreases deps@.len() - j,
            {
                let found = fnv_set_contains(&visited, &deps[j].0);
                if !found {
                    all_resolved = false;
                }
                proof {
                    assert(found == visited@.contains(deps@[j as int]@));
                    if found {
                        assert((forall|m: int| 0 <= m < j + 1 ==> visited@.contains(#[trigger] deps@[m]@))
                            == (forall|m: int| 0 <= m < j ==> visited@.contains(#[trigger] deps@[m]@)));
                    }
                }
                j = j + 1;
            }
            proof {
                let pre = cv.subrange(0, k as int);
                assert(cv.subrange(0, k + 1).drop_last() =~= pre);
                assert(cv.subrange(0, k + 1).last() == c@);
                let prev = bottom_to_top(self@, pre);
                assert(all_resolved == forall|t: u32| #[trigger] self@.circuits[c@].dependencies.contains_key(t) ==> prev.contains(t)) by {
                    if all_resolved {
                        assert forall|t: u32| #[trigger] self@.circuits[c@].dependencies.contains_key(t) implies prev.contains(t) by {
                            assert(cell_ids_view(deps@).to_set().contains(t));
                            let m = choose|m: int| 0 <= m < deps@.len() && cell_ids_view(deps@)[m] == t;
                            assert(visited@.contains(deps@[m]@));
                        }
                    } else {
                        let m = choose|m: int| 0 <= m < deps@.len() && !visited@.contains(#[trigger] deps@[m]@);
                        assert(cell_ids_view(deps@)[m] == deps@[m]@);
                        assert(cell_ids_view(deps@).to_set().contains(deps@[m]@));
                        assert(self@.circuits[c@].dependencies.contains_key(deps@[m]@));
                    }
                }
            }
            if all_resolved {
                let ghost sorted0 = sorted@;
                let ghost vis0 = visited@;
                sorted.push(c);
                fnv_set_insert(&mut visited, c.0);
                proof {
                    assert(cell_ids_view(sorted@) =~= cell_ids_view(sorted0).push(c@));
                    assert(visited@ =~= cell_ids_view(sorted@).to_set()) by {
                        assert forall|x: u32| visited@.contains(x) <==> cell_ids_view(sorted@).to_set().contains(x) by {
                            let s0 = cell_ids_view(sorted0);
                            assert(vis0 == s0.to_set());
                            if visited@.contains(x) && x != c@ {
                                let m = choose|m: int| 0 <= m < s0.len() && s0[m] == x;
                                assert(cell_ids_view(sorted@)[m] == x);
                            }
                            if x == c@ {
                                assert(cell_ids_view(sorted@)[sorted@.len() - 1] == x);
                            }
                            if cell_ids_view(sorted@).to_set().contains(x) && x != c@ {
                                let m = choose|m: int| 0 <= m < sorted@.len() && cell_ids_view(sorted@)[m] == x;
                                assert(s0[m] == x);
                            }
                        }
                    }
                }
            }
            k = k + 1;
        }
        proof {
            assert(cv.subrange(0, k as int) =~= cv);
        }
        sorted
    }
}

/// The one pass misses no cell that it could take: a cell of `cells` each of
/// whose dependencies was taken, from an earlier place in `cells`, is taken too.
pub proof fn law_bottom_to_top_takes_ready(v: ChipView, cells: Seq<u32>)
    requires
        cells.no_duplicates(),
    ensures
        forall|k: int| #![trigger cells[k]] 0 <= k < cells.len()
            && (forall|t: u32| #[trigger] v.circuits[cells[k]].dependencies.contains_key(t)
                ==> bottom_to_top(v, cells).contains(t) && exists|j: int| 0 <= j < k && #[trigger] cells[j] == t)
            ==> bottom_to_top(v, cells).contains(cells[k]),
    decreases cells.len(),
{
    if cells.len() > 0 {
        let n = cells.len() as int;
        let c0 = cells.drop_last();
        let c = cells.last();
        assert(c0.no_duplicates()) by {
            assert forall|a: int, b: int| 0 <= a < c0.len() && 0 <= b < c0.len() && a != b implies c0[a] != c0[b] by {
                assert(cells[a] != cells[b]);
            }
        }
        law_bottom_to_top_takes_ready(v, c0);
        let prev = bottom_to_top(v, c0);
        let r = bottom_to_top(v, cells);
        assert(r == prev || r == prev.push(c));
        assert forall|k: int| #![trigger cells[k]] 0 <= k < cells.len()
            && (forall|t: u32| #[trigger] v.circuits[cells[k]].dependencies.contains_key(t)
                ==> r.contains(t) && exists|j: int| 0 <= j < k && #[trigger] cells[j] == t)
            implies r.contains(cells[k]) by {
            assert forall|t: u32| #[trigger] v.circuits[cells[k]].dependencies.contains_key(t)
                implies prev.contains(t) && exists|j: int| 0 <= j < k && #[trigger] c0[j] == t by {
                let j = choose|j: int| 0 <= j < k && #[trigger] cells[j] == t;
                assert(cells[j] != cells[n - 1]);
                assert(c0[j] == t);
                let m = choose|m: int| 0 <= m < r.len() && r[m] == t;
                if m < prev.len() {
                    assert(prev[m] == t);
                } else {
                    assert(r == prev.push(c));
                    assert(r[m] == c);
                }
            }
            if k == n - 1 {
                assert(cells[k] == c);
                assert(forall|t: u32| #[trigger] v.circuits[c].dependencies.contains_key(t) ==> prev.contains(t));
                assert(r == prev.push(c));
                assert(r[prev.len() as int] == c);
            } else {
                assert(c0[k] == cells[k]);
                assert(prev.contains(c0[k]));
                let m = choose|m: int| 0 <= m < prev.len() && prev[m] == cells[k];
                assert(r[m] == cells[k]);
            }
        }
    }
}

/// The one pass takes every cell that instantiates no cell.
pub proof fn lemma_bottom_to_top_leaves(v: ChipView, cells: Seq<u32>)
    ensures
        forall|x: u32| #[trigger] cells.contains(x) && v.circuits[x].dependencies.dom() == Set::<u32>::empty()
            ==> bottom_to_top(v, cells).contains(x),
    decreases cells.len(),
{
    if cells.len() > 0 {
        let c0 = cells.drop_last();
        let c = cells.last();
        lemma_bottom_to_top_leaves(v, c0);
        let prev = bottom_to_top(v, c0);
        assert forall|x: u32| #[trigger] cells.contains(x) && v.circuits[x].dependencies.dom() == Set::<u32>::empty()
            implies bottom_to_top(v, cells).contains(x) by {
            if x == c {
                assert forall|t: u32| #[trigger] v.circuits[c].dependencies.contains_key(t) implies prev.contains(t) by {
                    assert(v.circuits[c].dependencies.dom().contains(t));
                }
                assert(bottom_to_top(v, cells) == prev.push(c));
                assert(bottom_to_top(v, cells)[prev.len() as int] == c);
            } else {
                let j = choose|j: int| 0 <= j < cells.len() && cells[j] == x;
                assert(c0[j] == x);
                assert(c0.contains(x));
                let i = choose|i: int| 0 <= i < prev.len() && prev[i] == x;
                let r = bottom_to_top(v, cells);
                assert(r == prev || r == prev.push(c));
                assert(r[i] == x);
            }
        }
    }
}

/// The one-pass order takes cells of `cells` only, each at most once, and
/// every cell comes after the cells it instantiates.
#[verifier::spinoff_prover]
pub proof fn lemma_bottom_to_top(v: ChipView, cells: Seq<u32>)
    requires
        cells.no_duplicates(),
    ensures
        bottom_to_top(v, cells).no_duplicates(),
        topologically_sorted(v, bottom_to_top(v, cells)),
        forall|x: u32| #[trigger] bottom_to_top(v, cells).contains(x) ==> cells.contains(x),
    decreases cells.len(),
{
    if cells.len() > 0 {
        let c0 = cells.drop_last();
        let c = cells.last();
        assert(c0.no_duplicates()) by {
            assert forall|a: int, b: int| 0 <= a < c0.len() && 0 <= b < c0.len() && a != b implies c0[a] != c0[b] by {
                assert(cells[a] != cells[b]);
            }
        }
        lemma_bottom_to_top(v, c0);
        let prev = bottom_to_top(v, c0);
        let res = bottom_to_top(v, cells);
        assert forall|x: u32| #[trigger] res.contains(x) implies cells.contains(x) by {
            let m = choose|m: int| 0 <= m < res.len() && res[m] == x;
            if m < prev.len() {
                assert(prev[m] == x);
                assert(prev.contains(x));
                let j = choose|j: int| 0 <= j < c0.len() && c0[j] == x;
                assert(cells[j] == x);
            } else {
                assert(cells[cells.len() - 1] == x);
            }
        }
        if res.len() > prev.len() {
            assert(res == prev.push(c));
            assert(!prev.contains(c)) by {
                if prev.contains(c) {
                    assert(c0.contains(c));
                    let j = choose|j: int| 0 <= j < c0.len() && c0[j] == c;
                    assert(cells[j] == cells[cells.len() - 1]);
                }
            }
            assert forall|a: int, b: int| 0 <= a < res.len() && 0 <= b < res.len() && a != b implies res[a] != res[b] by {
                if a == prev.len() {
                    assert(prev.contains(res[b]));
                } else if b == prev.len() {
                    assert(prev.contains(res[a]));
                } else {
                    assert(res[a] == prev[a] && res[b] == prev[b]);
                }
            }
            assert forall|i: int, t: u32| 0 <= i < res.len() && #[trigger] v.circuits[res[i]].dependencies.contains_key(t)
                implies exists|j: int| 0 <= j < i && #[trigger] res[j] == t by {
                if i < prev.len() {
                    assert(res[i] == prev[i]);
                    assert(v.circuits[prev[i]].dependencies.contains_key(t));
                    assert(exists|j: int| 0 <= j < i && #[trigger] prev[j] == t);
                    let j = choose|j: int| 0 <= j < i && #[trigger] prev[j] == t;
                    assert(res[j] == t);
                } else {
                    assert(prev.contains(t));
                    let j = choose|j: int| 0 <= j < prev.len() && prev[j] == t;
                    assert(res[j] == t);
                }
            }
        }
    }
}

/// The cells that no cell instantiates.
pub open spec fn unused_cells(v: ChipView) -> Set<u32> {
    v.circuits.dom().filter(|c: u32| v.circuits[c].references.len() == 0)
}

/// The instances that lie in one of the cells `cells`.
pub open spec fn instances_in(v: ChipView, cells: Set<u32>) -> Set<usize> {
    Set::new(|i: usize| v.instances.contains_key(i) && cells.contains(v.instances[i].parent))
}

/// The pins of the cells `cells`.
pub open spec fn pins_of(v: ChipView, cells: Set<u32>) -> Set<u32> {
    Set::new(|p: u32| v.pins.contains_key(p) && cells.contains(v.pins[p].circuit))
}

/// The names of the cells `cells`.
pub open spec fn names_of(v: ChipView, cells: Set<u32>) -> Set<Seq<char>> {
    Set::new(|s: Seq<char>| v.circuits_by_name.contains_key(s) && cells.contains(v.circuits_by_name[s]))
}

impl Chip {
    /// Remove all cells that no cell instantiates, together with the instances
    /// inside them. Cells that become unused by this stay. Returns the number of
    /// removed cells.
    pub fn prune_cells(&mut self) -> (res: usize)
        requires
            old(self).wf(),
        ensures
            final(self).wf(),
            final(self).layers() == old(self).layers(),
            final(self).shapes_view() == shapes_without_cells(old(self).shapes_view(), unused_cells(old(self)@)),
            res == unused_cells(old(self)@).len(),
            final(self)@.circuits.dom() == old(self)@.circuits.dom().difference(unused_cells(old(self)@)),
            forall|c: u32| #[trigger] final(self)@.circuits.contains_key(c) ==> same_interface(final(self)@.circuits[c], old(self)@.circuits[c]),
            final(self)@.instances == old(self)@.instances.remove_keys(instances_in(old(self)@, unused_cells(old(self)@))),
            final(self)@.pins == old(self)@.pins.remove_keys(pins_of(old(self)@, unused_cells(old(self)@))),
            final(self)@.circuits_by_name == old(self)@.circuits_by_name.remove_keys(names_of(old(self)@, unused_cells(old(self)@))),
    {
        let ghost v0 = self@;
        let ghost u = unused_cells(v0);
        let ghost f = |c: u32| v0.circuits[c].references.len() == 0;
        let all = self.each_cell_vec();
        let mut unused: Vec<CellId> = Vec::new();
        let mut k: usize = 0;
        while k < all.len()
            invariant
                self.wf(),
                self@ == v0,
                f == (|c: u32| v0.circuits[c].references.len() == 0),
                cell_ids_view(all@).to_set() == v0.circuits.dom(),
                k <= all@.len(),
                cell_ids_view(unused@) == cell_ids_view(all@).subrange(0, k as int).filter(f),
            decreases all@.len() - k,
        {
            let c = all[k];
            proof {
                assert(cell_ids_view(all@)[k as int] == c@);
                assert(cell_ids_view(all@).to_set().contains(c@));
                cell_ids_view(all@).subrange(0, k as int).lemma_filter_push(c@, f);
                assert(cell_ids_view(all@).subrange(0, k + 1) =~= cell_ids_view(all@).subrange(0, k as int).push(c@));
            }
            if self.num_cell_references(&c) == 0 {
                unused.push(c);
                assert(cell_ids_view(unused@) =~= cell_ids_view(all@).subrange(0, k as int).filter(f).push(c@));
            }
            k = k + 1;
        }
        proof {
            assert(cell_ids_view(all@).subrange(0, k as int) =~= cell_ids_view(all@));
            lemma_filter_to_set(cell_ids_view(all@), f);
            assert(cell_ids_view(unused@).to_set() =~= u);
            cell_ids_view(unused@).unique_seq_to_set();
        }
        let ghost uv = cell_ids_view(unused@);
        let mut k: usize = 0;
        proof {
            assert(uv.subrange(0, 0).to_set() =~= Set::<u32>::empty());
            lemma_shapes_without_cells(old(self).shapes_view(), Set::<u32>::empty(), 0);
            assert(v0.circuits.dom().difference(Set::<u32>::empty()) =~= v0.circuits.dom());
            assert(v0.instances.remove_keys(instances_in(v0, Set::<u32>::empty())) =~= v0.instances);
            assert(v0.pins.remove_keys(pins_of(v0, Set::<u32>::empty())) =~= v0.pins);
            assert(v0.circuits_by_name.remove_keys(names_of(v0, Set::<u32>::empty())) =~= v0.circuits_by_name);
        }
        while k < unused.len()
            invariant
                self.wf(),
                self.layers() == old(self).layers(),
                self.shapes_view() == shapes_without_cells(old(self).shapes_view(), uv.subrange(0, k as int).to_set()),
                v0 == old(self)@,
                v0.inv(),
                uv == cell_ids_view(unused@),
                uv.no_duplicates(),
                uv.to_set() == u,
                u == unused_cells(v0),
                k <= uv.len(),
                self@.circuits.dom() == v0.circuits.dom().difference(uv.subrange(0, k as int).to_set()),
                forall|c: u32| #[trigger] self@.circuits.contains_key(c) ==> same_interface(self@.circuits[c], v0.circuits[c]),
                self@.instances == v0.instances.remove_keys(instances_in(v0, uv.subrange(0, k as int).to_set())),
                self@.pins == v0.pins.remove_keys(pins_of(v0, uv.subrange(0, k as int).to_set())),
                self@.circuits_by_name == v0.circuits_by_name.remove_keys(names_of(v0, uv.subrange(0, k as int).to_set())),
            decreases uv.len() - k,
        {
            let c = unused[k];
            let ghost done = uv.subrange(0, k as int).to_set();
            let ghost prev = self@;
            proof {
                assert(uv[k as int] == c@);
                assert(uv.to_set().contains(c@));
                assert(u.contains(c@));
                assert(!done.contains(c@)) by {
                    if done.contains(c@) {
                        let j = choose|j: int| 0 <= j < k && #[trigger] uv.subrange(0, k as int)[j] == c@;
                        assert(uv[j] == uv[k as int]);
                    }
                }
                assert(self@.circuits.contains_key(c@));
            }
            self.remove_cell(&c);
            proof {
                let d1 = uv.subrange(0, k + 1).to_set();
                assert(d1 =~= done.insert(c@)) by {
                    assert forall|x: u32| d1.contains(x) <==> done.insert(c@).contains(x) by {
                        if d1.contains(x) {
                            let j = choose|j: int| 0 <= j < k + 1 && #[trigger] uv.subrange(0, k + 1)[j] == x;
                            if j < k {
                                assert(uv.subrange(0, k as int)[j] == x);
                            }
                        }
                        if done.contains(x) {
                            let j = choose|j: int| 0 <= j < k && #[trigger] uv.subrange(0, k as int)[j] == x;
                            assert(uv.subrange(0, k + 1)[j] == x);
                        }
                        if x == c@ {
                            assert(uv.subrange(0, k + 1)[k as int] == x);
                        }
                    }
                }
                // No instance refers to the unused cell.
                assert(prev.circuits[c@].references =~= Set::<usize>::empty()) by {
                    assert forall|i: usize| !prev.circuits[c@].references.contains(i) by {
                        if prev.circuits[c@].references.contains(i) {
                            assert(prev.instances.contains_key(i) && prev.instances[i].template == c@);
                            assert(v0.instances.contains_key(i) && v0.instances[i] == prev.instances[i]);
                            assert(v0.circuits[c@].references.contains(i));
                            assert(v0.circuits[c@].references.len() == 0);
                            v0.circuits[c@].references.lemma_len0_is_empty();
                        }
                    }
                }
                assert(prev.circuits[c@].instances =~= Set::new(|i: usize| prev.instances.contains_key(i) && prev.instances[i].parent == c@));
                lemma_shapes_without_cells(old(self).shapes_view(), done, c@);
                assert(self@.instances =~= v0.instances.remove_keys(instances_in(v0, d1))) by {
                    assert forall|i: usize| self@.instances.contains_key(i) <==> v0.instances.remove_keys(instances_in(v0, d1)).contains_key(i) by {
                        if v0.instances.contains_key(i) && !instances_in(v0, done).contains(i) {
                            assert(prev.instances.contains_key(i));
                        }
                    }
                }
                let cp = prev.circuits[c@].pins;
                assert(cp == v0.circuits[c@].pins);
                assert(self@.pins =~= v0.pins.remove_keys(pins_of(v0, d1))) by {
                    assert forall|p: u32| self@.pins.contains_key(p) <==> v0.pins.remove_keys(pins_of(v0, d1)).contains_key(p) by {
                        if prev.pins.contains_key(p) && prev.pins[p].circuit == c@ {
                            assert(cp.contains(p));
                        }
                        if cp.to_set().contains(p) {
                            let j = choose|j: int| 0 <= j < cp.len() && cp[j] == p;
                            assert(prev.pins.contains_key(cp[j]) && prev.pins[cp[j]].circuit == c@);
                        }
                    }
                }
                assert(self@.circuits_by_name =~= v0.circuits_by_name.remove_keys(names_of(v0, d1))) by {
                    assert forall|s: Seq<char>| self@.circuits_by_name.contains_key(s) <==> v0.circuits_by_name.remove_keys(names_of(v0, d1)).contains_key(s) by {
                        if v0.circuits_by_name.contains_key(s) && v0.circuits_by_name[s] == c@ {
                            assert(v0.circuits[c@].name == s);
                            assert(prev.circuits[c@].name == s);
                        }
                        if prev.circuits_by_name.contains_key(s) && s == prev.circuits[c@].name {
                            assert(prev.circuits_by_name[s] == c@);
                        }
                    }
                }
                assert(self@.circuits.dom() =~= v0.circuits.dom().difference(d1));
            }
            k = k + 1;
        }
        proof {
            assert(uv.subrange(0, k as int) =~= uv);
        }
        unused.len()
    }
}

/// The identifiers below `n` form a finite set.
proof fn lemma_u32_below_finite(n: u32)
    ensures
        Set::new(|x: u32| x < n).finite(),
    decreases n,
{
    if n == 0 {
        assert(Set::new(|x: u32| x < n) =~= Set::<u32>::empty());
    } else {
        lemma_u32_below_finite((n - 1) as u32);
        assert(Set::new(|x: u32| x < n) =~= Set::new(|x: u32| x < (n - 1) as u32).insert((n - 1) as u32));
    }
}

/// The identifiers below `n` form a finite set.
proof fn lemma_usize_below_finite(n: usize)
    ensures
        Set::new(|x: usize| x < n).finite(),
        Set::new(|x: usize| x < n).len() == n,
    decreases n,
{
    if n == 0 {
        assert(Set::new(|x: usize| x < n) =~= Set::<usize>::empty());
    } else {
        lemma_usize_below_finite((n - 1) as usize);
        assert(Set::new(|x: usize| x < n) =~= Set::new(|x: usize| x < (n - 1) as usize).insert((n - 1) as usize));
    }
}

/// The pins and pin instances of a live net are finite sets, and the nets are.
proof fn lemma_net_sets_finite(v: ChipView, n: usize)
    requires
        v.inv(),
        net_is_live(v.circuits, v.nets, n),
    ensures
        v.nets[n].pins.finite(),
        v.nets[n].pin_instances.finite(),
        v.nets.dom().finite(),
{
    lemma_u32_below_finite(v.next_pin);
    lemma_usize_below_finite(v.next_pin_inst);
    lemma_usize_below_finite(v.next_net);
    assert(v.nets[n].pins.subset_of(Set::new(|x: u32| x < v.next_pin)));
    vstd::set_lib::lemma_set_subset_finite(Set::new(|x: u32| x < v.next_pin), v.nets[n].pins);
    assert(v.nets[n].pin_instances.subset_of(Set::new(|x: usize| x < v.next_pin_inst))) by {
        assert forall|q: usize| v.nets[n].pin_instances.contains(q) implies q < v.next_pin_inst by {
            assert(pin_inst_is_live(v.instances, v.pin_insts, q));
        }
    }
    vstd::set_lib::lemma_set_subset_finite(Set::new(|x: usize| x < v.next_pin_inst), v.nets[n].pin_instances);
    assert(v.nets.dom().subset_of(Set::new(|x: usize| x < v.next_net)));
    vstd::set_lib::lemma_set_subset_finite(Set::new(|x: usize| x < v.next_net), v.nets.dom());
}

/// The nets of `c` without terminals, other than the constant nets.
pub open spec fn floating_nets(v: ChipView, c: u32) -> Set<usize> {
    v.circuits[c].nets.filter(|n: usize| v.nets[n].pins.len() == 0 && v.nets[n].pin_instances.len() == 0
        && n != v.circuits[c].net_low && n != v.circuits[c].net_high)
}

/// The names in the net name table of `c` of the nets `ns`.
pub open spec fn net_names_of(v: ChipView, c: u32, ns: Set<usize>) -> Set<Seq<char>> {
    Set::new(|s: Seq<char>| v.circuits[c].nets_by_name.contains_key(s) && ns.contains(v.circuits[c].nets_by_name[s]))
}

/// The cell `c` of `v` after removing its nets `ns`.
pub open spec fn circuit_without_nets(v: ChipView, c: u32, ns: Set<usize>) -> CircuitView {
    CircuitView {
        nets: v.circuits[c].nets.difference(ns),
        nets_by_name: v.circuits[c].nets_by_name.remove_keys(net_names_of(v, c, ns)),
        ..v.circuits[c]
    }
}

/// The cells of `v` after removing the nets `ns` of `c`.
pub open spec fn circuits_without_nets(v: ChipView, c: u32, ns: Set<usize>) -> Map<u32, CircuitView> {
    v.circuits.insert(c, circuit_without_nets(v, c, ns))
}

impl Chip {
    /// Remove the nets of a cell that connect no terminal, except the constant
    /// LOW and HIGH nets. Returns the number of removed nets.
    pub fn purge_nets_in_circuit(&mut self, circuit_id: &CellId) -> (res: usize)
        requires
            old(self).wf(),
            old(self)@.circuits.contains_key(circuit_id@),
        ensures
            final(self).wf(),
            final(self).layers() == old(self).layers(),
            final(self).shapes_view() == shapes_unlinked_from_nets(old(self).shapes_view(), floating_nets(old(self)@, circuit_id@)),
            res == floating_nets(old(self)@, circuit_id@).len(),
            final(self)@.nets == old(self)@.nets.remove_keys(floating_nets(old(self)@, circuit_id@)),
            final(self)@.circuits == circuits_without_nets(old(self)@, circuit_id@, floating_nets(old(self)@, circuit_id@)),
            final(self)@.pins == old(self)@.pins,
            final(self)@.pin_insts == old(self)@.pin_insts,
            final(self)@.instances == old(self)@.instances,
            final(self)@.circuits_by_name == old(self)@.circuits_by_name,
            final(self)@.next_net == old(self)@.next_net,
            floating_nets(final(self)@, circuit_id@) == Set::<usize>::empty(),
    {
        let ghost v0 = self@;
        let ghost c = circuit_id@;
        let ghost f = |n: usize| v0.nets[n].pins.len() == 0 && v0.nets[n].pin_instances.len() == 0
            && n != v0.circuits[c].net_low && n != v0.circuits[c].net_high;
        let ghost fl = floating_nets(v0, c);
        let high = self.net_one(circuit_id);
        let low = self.net_zero(circuit_id);
        let nets = self.each_internal_net_vec(circuit_id);
        let ghost nv = net_ids_view(nets@);
        let mut unused: Vec<NetId> = Vec::new();
        let mut k: usize = 0;
        while k < nets.len()
            invariant
                self.wf(),
                self@ == v0,
                v0.circuits.contains_key(c),
                c == circuit_id@,
                high@ == v0.circuits[c].net_high,
                low@ == v0.circuits[c].net_low,
                f == (|n: usize| v0.nets[n].pins.len() == 0 && v0.nets[n].pin_instances.len() == 0
                    && n != v0.circuits[c].net_low && n != v0.circuits[c].net_high),
                nv == net_ids_view(nets@),
                nv.to_set() == v0.circuits[c].nets,
                k <= nv.len(),
                net_ids_view(unused@) == nv.subrange(0, k as int).filter(f),
            decreases nv.len() - k,
        {
            let n = nets[k];
            proof {
                assert(nv[k as int] == n@);
                assert(nv.to_set().contains(n@));
                assert(v0.nets.contains_key(n@));
                nv.subrange(0, k as int).lemma_filter_push(n@, f);
                assert(nv.subrange(0, k + 1) =~= nv.subrange(0, k as int).push(n@));
            }
            // Purge floating nets but keep the constant-value nets.
            if self.num_net_pins(&n) == 0 && self.num_net_pin_instances(&n) == 0 && n.0 != high.0 && n.0 != low.0 {
                unused.push(n);
                assert(net_ids_view(unused@) =~= nv.subrange(0, k as int).filter(f).push(n@));
            }
            k = k + 1;
        }
        proof {
            assert(nv.subrange(0, k as int) =~= nv);
            lemma_filter_to_set_usize(nv, f);
            assert(net_ids_view(unused@).to_set() =~= fl);
            net_ids_view(unused@).unique_seq_to_set();
        }
        let ghost uv = net_ids_view(unused@);
        let mut k: usize = 0;
        proof {
            let e = Set::<usize>::empty();
            assert(uv.subrange(0, 0).to_set() =~= e);
            assert(v0.nets.remove_keys(e) =~= v0.nets);
            assert(net_names_of(v0, c, e) =~= Set::<Seq<char>>::empty());
            assert(v0.circuits[c].nets.difference(e) =~= v0.circuits[c].nets);
            assert(v0.circuits[c].nets_by_name.remove_keys(Set::<Seq<char>>::empty()) =~= v0.circuits[c].nets_by_name);
            assert(circuits_without_nets(v0, c, e) =~= v0.circuits);
            lemma_shapes_unlinked_from_nets(old(self).shapes_view(), e, 0);
        }
        while k < unused.len()
            invariant
                self.wf(),
                self.layers() == old(self).layers(),
                self.shapes_view() == shapes_unlinked_from_nets(old(self).shapes_view(), uv.subrange(0, k as int).to_set()),
                v0 == old(self)@,
                v0.inv(),
                c == circuit_id@,
                v0.circuits.contains_key(c),
                fl == floating_nets(v0, c),
                uv == net_ids_view(unused@),
                uv.no_duplicates(),
                uv.to_set() == fl,
                k <= uv.len(),
                self@.nets == v0.nets.remove_keys(uv.subrange(0, k as int).to_set()),
                self@.circuits == circuits_without_nets(v0, c, uv.subrange(0, k as int).to_set()),
                self@.pins == v0.pins,
                self@.pin_insts == v0.pin_insts,
                self@.instances == v0.instances,
                self@.circuits_by_name == v0.circuits_by_name,
                self@.next_net == v0.next_net,
            decreases uv.len() - k,
        {
            let n = unused[k];
            let ghost done = uv.subrange(0, k as int).to_set();
            let ghost prev = self@;
            proof {
                assert(uv[k as int] == n@);
                assert(uv.to_set().contains(n@));
                assert(fl.contains(n@));
                assert(!done.contains(n@)) by {
                    if done.contains(n@) {
                        let j = choose|j: int| 0 <= j < k && #[trigger] uv.subrange(0, k as int)[j] == n@;
                        assert(uv[j] == uv[k as int]);
                    }
                }
                assert(v0.nets.contains_key(n@) && v0.nets[n@].parent == c);
                assert(prev.nets.contains_key(n@) && prev.nets[n@] == v0.nets[n@]);
                assert(net_is_live(prev.circuits, prev.nets, n@));
                lemma_net_sets_finite(v0, n@);
                v0.nets[n@].pins.lemma_len0_is_empty();
                v0.nets[n@].pin_instances.lemma_len0_is_empty();
            }
            self.remove_net(&n);
            proof {
                lemma_shapes_unlinked_from_nets(old(self).shapes_view(), done, n@);
                let d1 = uv.subrange(0, k + 1).to_set();
                assert(d1 =~= done.insert(n@)) by {
                    assert forall|x: usize| d1.contains(x) <==> done.insert(n@).contains(x) by {
                        if d1.contains(x) {
                            let j = choose|j: int| 0 <= j < k + 1 && #[trigger] uv.subrange(0, k + 1)[j] == x;
                            if j < k {
                                assert(uv.subrange(0, k as int)[j] == x);
                            }
                        }
                        if done.contains(x) {
                            let j = choose|j: int| 0 <= j < k && #[trigger] uv.subrange(0, k as int)[j] == x;
                            assert(uv.subrange(0, k + 1)[j] == x);
                        }
                        if x == n@ {
                            assert(uv.subrange(0, k + 1)[k as int] == x);
                        }
                    }
                }
                assert(self@.nets =~= v0.nets.remove_keys(d1));
                assert(self@.pins =~= v0.pins);
                assert(self@.pin_insts =~= v0.pin_insts);
                let nb0 = v0.circuits[c].nets_by_name;
                assert(names_after_rename(prev.circuits[c].nets_by_name, n@, prev.nets[n@].name, None)
                    =~= nb0.remove_keys(net_names_of(v0, c, d1))) by {
                    assert forall|s: Seq<char>| #[trigger] nb0.contains_key(s) && nb0[s] == n@ implies v0.nets[n@].name == Some(s) by {}
                    match v0.nets[n@].name {
                        Some(s) => {
                            assert(nb0.contains_key(s) && nb0[s] == n@);
                        },
                        None => {},
                    }
                }
                assert(prev.circuits[c].nets.remove(n@) =~= v0.circuits[c].nets.difference(d1));
                assert(prev.nets[n@].parent == c);
                assert(self@.circuits =~= circuits_without_nets(v0, c, d1));
            }
            k = k + 1;
        }
        proof {
            assert(uv.subrange(0, k as int) =~= uv);
            assert(floating_nets(self@, c) =~= Set::<usize>::empty()) by {
                assert forall|n: usize| !#[trigger] floating_nets(self@, c).contains(n) by {
                    if floating_nets(self@, c).contains(n) {
                        assert(v0.circuits[c].nets.contains(n) && !fl.contains(n));
                        assert(self@.nets[n] == v0.nets[n]);
                        assert(fl.contains(n));
                    }
                }
            }
        }
        unused.len()
    }
}

/// Filtering a sequence without duplicates filters its set of elements.
pub proof fn lemma_filter_to_set_usize(s: Seq<usize>, f: spec_fn(usize) -> bool)
    requires
        s.no_duplicates(),
    ensures
        s.filter(f).no_duplicates(),
        s.filter(f).to_set() == s.to_set().filter(f),
    decreases s.len(),
{
    broadcast use vstd::seq_lib::group_filter_ensures;
    if s.len() == 0 {
        assert(s.filter(f) =~= Seq::<usize>::empty());
        assert(s.to_set().filter(f) =~= Set::<usize>::empty());
    } else {
        let s0 = s.drop_last();
        let x = s.last();
        assert(s =~= s0.push(x));
        assert(s0.no_duplicates()) by {
            assert forall|a: int, b: int| 0 <= a < s0.len() && 0 <= b < s0.len() && a != b implies s0[a] != s0[b] by {
                assert(s[a] != s[b]);
            }
        }
        lemma_filter_to_set_usize(s0, f);
        s0.lemma_filter_push(x, f);
        assert(!s0.contains(x)) by {
            if s0.contains(x) {
                let j = choose|j: int| 0 <= j < s0.len() && s0[j] == x;
                assert(s[j] == s[s.len() - 1]);
            }
        }
        if f(x) {
            assert(!s0.filter(f).contains(x)) by {
                if s0.filter(f).contains(x) {
                    s0.lemma_filter_contains_rev(f, x);
                }
            }
            assert forall|a: int, b: int| 0 <= a < s.filter(f).len() && 0 <= b < s.filter(f).len() && a != b
                implies s.filter(f)[a] != s.filter(f)[b] by {
                let t = s0.filter(f);
                if a < t.len() && b < t.len() {
                } else if a == t.len() {
                    assert(t.contains(t[b]));
                } else {
                    assert(t.contains(t[a]));
                }
            }
        }
        assert forall|y: usize| s.filter(f).to_set().contains(y) <==> s.to_set().filter(f).contains(y) by {
            if s.to_set().filter(f).contains(y) {
                let j = choose|j: int| 0 <= j < s.len() && s[j] == y;
                if j < s0.len() {
                    assert(s0[j] == y);
                    assert(s0.to_set().contains(y));
                    assert(s0.to_set().filter(f).contains(y));
                    assert(s0.filter(f).to_set().contains(y));
                    let i = choose|i: int| 0 <= i < s0.filter(f).len() && s0.filter(f)[i] == y;
                    assert(s.filter(f)[i] == y);
                } else {
                    assert(y == x);
                    assert(s.filter(f)[s.filter(f).len() - 1] == x);
                }
            }
            if s.filter(f).to_set().contains(y) {
                let i = choose|i: int| 0 <= i < s.filter(f).len() && s.filter(f)[i] == y;
                if f(x) && i == s0.filter(f).len() {
                    assert(y == x);
                    assert(s[s.len() - 1] == x);
                } else {
                    assert(s0.filter(f)[i] == y);
                    assert(s0.filter(f).to_set().contains(y));
                    assert(s0.to_set().filter(f).contains(y));
                    let j = choose|j: int| 0 <= j < s0.len() && s0[j] == y;
                    assert(s[j] == y);
                }
            }
        }
        assert(s.filter(f).to_set() =~= s.to_set().filter(f));
    }
}

/// The floating nets of the cells in `cells`: the nets that connect no
/// terminal, other than the constant nets of their cell.
pub open spec fn floating_nets_in(v: ChipView, cells: Set<u32>) -> Set<usize> {
    Set::new(|n: usize| v.nets.contains_key(n) && cells.contains(v.nets[n].parent)
        && v.circuits.contains_key(v.nets[n].parent) && floating_nets(v, v.nets[n].parent).contains(n))
}

/// The cells of `v`, those in `cells` without their floating nets.
pub open spec fn circuits_purged_in(v: ChipView, cells: Set<u32>) -> Map<u32, CircuitView> {
    Map::new(|c: u32| v.circuits.contains_key(c), |c: u32|
        if cells.contains(c) { circuit_without_nets(v, c, floating_nets(v, c)) } else { v.circuits[c] })
}

impl Chip {
    /// Remove the floating nets of all cells: the nets that connect no terminal,
    /// other than the constant LOW and HIGH nets. Returns the number of removed nets.
    pub fn purge_nets(&mut self) -> (res: usize)
        requires
            old(self).wf(),
        ensures
            final(self).wf(),
            final(self).layers() == old(self).layers(),
            final(self).shapes_view() == shapes_unlinked_from_nets(old(self).shapes_view(), floating_nets_in(old(self)@, old(self)@.circuits.dom())),
            res == floating_nets_in(old(self)@, old(self)@.circuits.dom()).len(),
            final(self)@.nets == old(self)@.nets.remove_keys(floating_nets_in(old(self)@, old(self)@.circuits.dom())),
            final(self)@.circuits == circuits_purged_in(old(self)@, old(self)@.circuits.dom()),
            final(self)@.pins == old(self)@.pins,
            final(self)@.pin_insts == old(self)@.pin_insts,
            final(self)@.instances == old(self)@.instances,
            final(self)@.circuits_by_name == old(self)@.circuits_by_name,
            final(self)@.next_net == old(self)@.next_net,
            floating_nets_in(final(self)@, final(self)@.circuits.dom()) == Set::<usize>::empty(),
    {
        let ghost v0 = self@;
        let cells = self.each_cell_vec();
        let ghost cv = cell_ids_view(cells@);
        let mut total: usize = 0;
        let mut k: usize = 0;
        proof {
            let e = Set::<u32>::empty();
            assert(cv.subrange(0, 0).to_set() =~= e);
            assert(floating_nets_in(v0, e) =~= Set::<usize>::empty());
            assert(v0.nets.remove_keys(Set::<usize>::empty()) =~= v0.nets);
            assert(circuits_purged_in(v0, e) =~= v0.circuits);
            lemma_shapes_unlinked_from_nets(old(self).shapes_view(), Set::empty(), 0);
            lemma_usize_below_finite(v0.next_net);
            assert(v0.nets.dom().subset_of(Set::new(|x: usize| x < v0.next_net)));
            vstd::set_lib::lemma_len_subset(v0.nets.dom(), Set::new(|x: usize| x < v0.next_net));
        }
        while k < cells.len()
            invariant
                self.wf(),
                self.layers() == old(self).layers(),
                self.shapes_view() == shapes_unlinked_from_nets(old(self).shapes_view(), floating_nets_in(v0, cv.subrange(0, k as int).to_set())),
                v0 == old(self)@,
                v0.inv(),
                cv == cell_ids_view(cells@),
                cv.no_duplicates(),
                cv.to_set() == v0.circuits.dom(),
                k <= cv.len(),
                v0.nets.dom().finite(),
                v0.nets.dom().len() <= usize::MAX,
                floating_nets_in(v0, cv.subrange(0, k as int).to_set()).finite(),
                total == floating_nets_in(v0, cv.subrange(0, k as int).to_set()).len(),
                self@.nets == v0.nets.remove_keys(floating_nets_in(v0, cv.subrange(0, k as int).to_set())),
                self@.circuits == circuits_purged_in(v0, cv.subrange(0, k as int).to_set()),
                self@.pins == v0.pins,
                self@.pin_insts == v0.pin_insts,
                self@.instances == v0.instances,
                self@.circuits_by_name == v0.circuits_by_name,
                self@.next_net == v0.next_net,
            decreases cv.len() - k,
        {
            let c = cells[k];
            let ghost done = cv.subrange(0, k as int).to_set();
            let ghost s = self@;
            let ghost fl = floating_nets(v0, c@);
            proof {
                assert(cv[k as int] == c@);
                assert(cv.to_set().contains(c@));
                assert(!done.contains(c@)) by {
                    if done.contains(c@) {
                        let j = choose|j: int| 0 <= j < k && #[trigger] cv.subrange(0, k as int)[j] == c@;
                        assert(cv[j] == cv[k as int]);
                    }
                }
                assert(s.circuits[c@] == v0.circuits[c@]);
                assert forall|n: usize| #[trigger] v0.circuits[c@].nets.contains(n) implies
                    s.nets.contains_key(n) && s.nets[n] == v0.nets[n] by {
                    assert(v0.nets.contains_key(n) && v0.nets[n].parent == c@);
                    assert(!floating_nets_in(v0, done).contains(n));
                }
                assert(floating_nets(s, c@) =~= fl);
                assert(net_names_of(s, c@, fl) =~= net_names_of(v0, c@, fl));
            }
            let removed = self.purge_nets_in_circuit(&c);
            proof {
                let d1 = cv.subrange(0, k + 1).to_set();
                assert(d1 =~= done.insert(c@)) by {
                    assert forall|x: u32| d1.contains(x) <==> done.insert(c@).contains(x) by {
                        if d1.contains(x) {
                            let j = choose|j: int| 0 <= j < k + 1 && #[trigger] cv.subrange(0, k + 1)[j] == x;
                            if j < k {
                                assert(cv.subrange(0, k as int)[j] == x);
                            }
                        }
                        if done.contains(x) {
                            let j = choose|j: int| 0 <= j < k && #[trigger] cv.subrange(0, k as int)[j] == x;
                            assert(cv.subrange(0, k + 1)[j] == x);
                        }
                        if x == c@ {
                            assert(cv.subrange(0, k + 1)[k as int] == x);
                        }
                    }
                }
                let f0 = floating_nets_in(v0, done);
                assert(fl.subset_of(v0.circuits[c@].nets));
                assert(floating_nets_in(v0, d1) =~= f0 + fl) by {
                    assert forall|n: usize| fl.contains(n) implies floating_nets_in(v0, d1).contains(n) by {
                        assert(v0.nets.contains_key(n) && v0.nets[n].parent == c@);
                    }
                }
                assert(f0.disjoint(fl)) by {
                    assert forall|n: usize| fl.contains(n) implies !f0.contains(n) by {
                        assert(v0.nets[n].parent == c@);
                    }
                }
                lemma_net_sets_finite_dom(v0);
                vstd::set_lib::lemma_set_subset_finite(v0.circuits[c@].nets, fl);
                vstd::set_lib::lemma_set_disjoint_lens(f0, fl);
                assert(floating_nets_in(v0, d1).subset_of(v0.nets.dom()));
                vstd::set_lib::lemma_len_subset(floating_nets_in(v0, d1), v0.nets.dom());
                assert(self@.nets =~= v0.nets.remove_keys(floating_nets_in(v0, d1)));
                assert(self@.circuits =~= circuits_purged_in(v0, d1));
                lemma_shapes_unlinked_union(old(self).shapes_view(), f0, fl);
            }
            total = total + removed;
            k = k + 1;
        }
        proof {
            assert(cv.subrange(0, k as int) =~= cv);
            let v1 = self@;
            let all = floating_nets_in(v0, v0.circuits.dom());
            assert(floating_nets_in(v1, v1.circuits.dom()) =~= Set::<usize>::empty()) by {
                assert forall|n: usize| !#[trigger] floating_nets_in(v1, v1.circuits.dom()).contains(n) by {
                    if floating_nets_in(v1, v1.circuits.dom()).contains(n) {
                        let c = v1.nets[n].parent;
                        assert(v1.nets.contains_key(n) && !all.contains(n));
                        assert(v1.nets[n] == v0.nets[n]);
                        assert(v1.circuits[c] == circuit_without_nets(v0, c, floating_nets(v0, c)));
                        assert(floating_nets(v1, c).contains(n));
                        assert(v0.circuits[c].nets.contains(n));
                        assert(floating_nets(v0, c).contains(n));
                        assert(all.contains(n));
                    }
                }
            }
        }
        total
    }
}

/// The nets of every cell form a finite set.
proof fn lemma_net_sets_finite_dom(v: ChipView)
    requires
        v.inv(),
    ensures
        v.nets.dom().finite(),
        forall|c: u32| #[trigger] v.circuits.contains_key(c) ==> v.circuits[c].nets.finite(),
{
    lemma_usize_below_finite(v.next_net);
    assert(v.nets.dom().subset_of(Set::new(|x: usize| x < v.next_net)));
    vstd::set_lib::lemma_set_subset_finite(Set::new(|x: usize| x < v.next_net), v.nets.dom());
    assert forall|c: u32| #[trigger] v.circuits.contains_key(c) implies v.circuits[c].nets.finite() by {
        assert(v.circuits[c].nets.subset_of(v.nets.dom()));
        vstd::set_lib::lemma_set_subset_finite(v.nets.dom(), v.circuits[c].nets);
    }
}

impl Chip {
    /// Remove all child instances inside `cell`.
    pub fn clear_cell_instances(&mut self, cell: &CellId)
        requires
            old(self).wf(),
            old(self)@.circuits.contains_key(cell@),
        ensures
            final(self).wf(),
            final(self).layers() == old(self).layers(),
            final(self).shapes_view() == old(self).shapes_view(),
            final(self)@.instances == old(self)@.instances.remove_keys(old(self)@.circuits[cell@].instances),
            final(self)@.circuits.dom() == old(self)@.circuits.dom(),
            final(self)@.circuits[cell@].instances == Set::<usize>::empty(),
            forall|c: u32| #[trigger] final(self)@.circuits.contains_key(c) ==>
                same_interface(final(self)@.circuits[c], old(self)@.circuits[c]),
            final(self)@.circuits_by_name == old(self)@.circuits_by_name,
            final(self)@.pins == old(self)@.pins,
            final(self)@.pin_insts.dom() == old(self)@.pin_insts.dom(),
            forall|q: usize| #[trigger] old(self)@.pin_insts.contains_key(q) ==> final(self)@.pin_insts[q]
                == pin_inst_after_removal(old(self)@, old(self)@.circuits[cell@].instances, q),
            final(self)@.nets.dom() == old(self)@.nets.dom(),
            forall|n: usize| #[trigger] net_is_live(old(self)@.circuits, old(self)@.nets, n) ==> final(self)@.nets[n]
                == net_after_removal(old(self)@, old(self)@.circuits[cell@].instances, n),
    {
        let ghost v0 = self@;
        let ghost ci = cell@;
        let children = self.each_cell_instance_vec(cell);
        let ghost iv = inst_ids_view(children@);
        let mut k: usize = 0;
        proof {
            assert(iv.subrange(0, 0).to_set() =~= Set::<usize>::empty());
            assert(v0.instances.remove_keys(Set::<usize>::empty()) =~= v0.instances);
            assert(v0.circuits[ci].instances.difference(Set::<usize>::empty()) =~= v0.circuits[ci].instances);
            assert forall|n: usize| #[trigger] net_is_live(v0.circuits, v0.nets, n) implies
                v0.nets[n] == net_after_removal(v0, Set::empty(), n) by {
                assert(v0.nets[n].pin_instances.filter(|q: usize| !Set::<usize>::empty().contains(v0.pin_insts[q].circuit_inst))
                    =~= v0.nets[n].pin_instances);
            }
        }
        while k < children.len()
            invariant
                self.wf(),
                self.layers() == old(self).layers(),
                self.shapes_view() == old(self).shapes_view(),
                v0 == old(self)@,
                v0.inv(),
                ci == cell@,
                v0.circuits.contains_key(ci),
                iv == inst_ids_view(children@),
                iv.no_duplicates(),
                iv.to_set() == v0.circuits[ci].instances,
                k <= iv.len(),
                self@.instances == v0.instances.remove_keys(iv.subrange(0, k as int).to_set()),
                self@.circuits.dom() == v0.circuits.dom(),
                self@.circuits[ci].instances == v0.circuits[ci].instances.difference(iv.subrange(0, k as int).to_set()),
                forall|c: u32| #[trigger] self@.circuits.contains_key(c) ==> same_interface(self@.circuits[c], v0.circuits[c]),
                self@.circuits_by_name == v0.circuits_by_name,
                self@.pins == v0.pins,
                self@.pin_insts.dom() == v0.pin_insts.dom(),
                self@.nets.dom() == v0.nets.dom(),
                forall|q: usize| #[trigger] v0.pin_insts.contains_key(q) ==> self@.pin_insts[q]
                    == pin_inst_after_removal(v0, iv.subrange(0, k as int).to_set(), q),
                forall|n: usize| #[trigger] net_is_live(v0.circuits, v0.nets, n) ==> self@.nets[n]
                    == net_after_removal(v0, iv.subrange(0, k as int).to_set(), n),
            decreases iv.len() - k,
        {
            let child = children[k];
            let ghost done = iv.subrange(0, k as int).to_set();
            let ghost s = self@;
            proof {
                assert(iv[k as int] == child@);
                assert(iv.to_set().contains(child@));
                assert(!done.contains(child@)) by {
                    if done.contains(child@) {
                        let j = choose|j: int| 0 <= j < k && #[trigger] iv.subrange(0, k as int)[j] == child@;
                        assert(iv[j] == iv[k as int]);
                    }
                }
                assert(v0.instances.contains_key(child@) && v0.instances[child@].parent == ci);
                assert(s.instances.contains_key(child@) && s.instances[child@] == v0.instances[child@]);
            }
            self.remove_cell_instance(&child);
            proof {
                lemma_instance_removal_step(v0, s, self@, child@, done);
                let d1 = iv.subrange(0, k + 1).to_set();
                assert(d1 =~= done.insert(child@)) by {
                    assert forall|x: usize| d1.contains(x) <==> done.insert(child@).contains(x) by {
                        if d1.contains(x) {
                            let j = choose|j: int| 0 <= j < k + 1 && #[trigger] iv.subrange(0, k + 1)[j] == x;
                            if j < k {
                                assert(iv.subrange(0, k as int)[j] == x);
                            }
                        }
                        if done.contains(x) {
                            let j = choose|j: int| 0 <= j < k && #[trigger] iv.subrange(0, k as int)[j] == x;
                            assert(iv.subrange(0, k + 1)[j] == x);
                        }
                        if x == child@ {
                            assert(iv.subrange(0, k + 1)[k as int] == x);
                        }
                    }
                }
                assert(self@.instances =~= v0.instances.remove_keys(d1));
                assert(self@.circuits.dom() =~= v0.circuits.dom());
                assert(self@.circuits[ci].instances =~= v0.circuits[ci].instances.difference(d1));
            }
            k = k + 1;
        }
        proof {
            assert(iv.subrange(0, k as int) =~= iv);
            assert(self@.circuits[ci].instances =~= Set::<usize>::empty());
        }
    }

    /// Remove the cell instance, and its template cell if that is then not
    /// used anymore.
    pub fn prune_cell_instance(&mut self, inst: &CellInstId)
        requires
            old(self).wf(),
            old(self)@.instances.contains_key(inst@),
        ensures
            final(self).wf(),
            final(self).layers() == old(self).layers(),
            ({
                let v0 = old(self)@;
                let t = v0.instances[inst@].template;
                if v0.circuits[t].references.len() > 1 {
                    &&& final(self)@.instances == v0.instances.remove(inst@)
                    &&& final(self)@.circuits == circuits_after_instance_removal(v0.circuits,
                        v0.instances[inst@].parent, t, inst@, v0.instances[inst@].name)
                    &&& final(self)@.circuits_by_name == v0.circuits_by_name
                    &&& final(self)@.pins == v0.pins
                    &&& final(self).shapes_view() == old(self).shapes_view()
                } else {
                    &&& final(self)@.instances == v0.instances.remove(inst@).remove_keys(v0.circuits[t].instances)
                    &&& final(self)@.circuits.dom() == v0.circuits.dom().remove(t)
                    &&& final(self)@.circuits_by_name == v0.circuits_by_name.remove(v0.circuits[t].name)
                    &&& final(self)@.pins == v0.pins.remove_keys(v0.circuits[t].pins.to_set())
                    &&& final(self).shapes_view() == shapes_without_cell(old(self).shapes_view(), t)
                }
            }),
    {
        let ghost v0 = self@;
        let template = self.template_cell(inst);
        let ghost t = template@;
        proof {
            assert(v0.circuits[t].references.contains(inst@));
            assert(v0.circuits[t].references.finite());
        }
        self.remove_cell_instance(inst);
        let ghost s = self@;
        if self.num_cell_references(&template) == 0 {
            proof {
                assert(s.circuits[t].references == v0.circuits[t].references.remove(inst@));
                assert(s.circuits[t].instances == v0.circuits[t].instances);
                s.circuits[t].references.lemma_len0_is_empty();
                assert(s.circuits[t].instances + s.circuits[t].references =~= v0.circuits[t].instances);
            }
            // The cell is now not used anymore.
            self.remove_cell(&template);
            proof {
                assert(self@.instances =~= v0.instances.remove(inst@).remove_keys(v0.circuits[t].instances));
            }
        }
    }
}

/// Cell `t` is instantiated, and only inside cell `c`.
pub open spec fn used_only_in(v: ChipView, t: u32, c: u32) -> bool {
    &&& exists|i: usize| #[trigger] v.instances.contains_key(i) && v.instances[i].parent == c && v.instances[i].template == t
    &&& forall|i: usize| #[trigger] v.instances.contains_key(i) && v.instances[i].template == t ==> v.instances[i].parent == c
}

/// One step of pruning, the removal of the child `iv[k]` of cell `ci` with its
/// template `t` where that was used by the child alone, keeps the children
/// visited so far removed, and keeps a cell used only inside `ci` and still
/// present the template of a child not visited yet.
proof fn lemma_prune_step_children(v0: ChipView, s: ChipView, s1: ChipView, ci: u32, iv: Seq<usize>, k: int, t: u32)
    requires
        v0.inv(),
        s.inv(),
        v0.circuits.contains_key(ci),
        iv.no_duplicates(),
        iv.to_set() == v0.circuits[ci].instances,
        0 <= k < iv.len(),
        s.instances.contains_key(iv[k]),
        v0.instances[iv[k]].template == t,
        s.instances.dom().subset_of(v0.instances.dom()),
        forall|i: usize| #[trigger] s.instances.contains_key(i) ==> s.instances[i] == v0.instances[i],
        forall|j: int| 0 <= j < k ==> !s.instances.contains_key(#[trigger] iv[j]),
        forall|u: u32| #[trigger] used_only_in(v0, u, ci) && s.circuits.contains_key(u)
            ==> exists|j: int| #![trigger iv[j]] k <= j < iv.len() && v0.instances[iv[j]].template == u,
        s.circuits[t].references.len() > 1 ==> s1.instances == s.instances.remove(iv[k])
            && s1.circuits.dom() == s.circuits.dom(),
        s.circuits[t].references.len() <= 1 ==> s1.instances == s.instances.remove(iv[k]).remove_keys(s.circuits[t].instances)
            && s1.circuits.dom() == s.circuits.dom().remove(t),
    ensures
        forall|j: int| 0 <= j < k + 1 ==> !s1.instances.contains_key(#[trigger] iv[j]),
        forall|u: u32| #[trigger] used_only_in(v0, u, ci) && s1.circuits.contains_key(u)
            ==> exists|j: int| #![trigger iv[j]] k + 1 <= j < iv.len() && v0.instances[iv[j]].template == u,
{
    let child = iv[k];
    let refs = s.circuits[t].references;
    assert(s.instances[child] == v0.instances[child]);
    assert(refs.contains(child));
    assert(refs.finite());
    assert forall|j: int| 0 <= j < k + 1 implies !s1.instances.contains_key(#[trigger] iv[j]) by {
        if j < k {
            assert(!s.instances.contains_key(iv[j]));
        }
    }
    assert forall|u: u32| #[trigger] used_only_in(v0, u, ci) && s1.circuits.contains_key(u)
        implies exists|j: int| #![trigger iv[j]] k + 1 <= j < iv.len() && v0.instances[iv[j]].template == u by {
        assert(s.circuits.contains_key(u));
        let j0 = choose|j: int| #![trigger iv[j]] k <= j < iv.len() && v0.instances[iv[j]].template == u;
        if j0 == k {
            assert(u == t);
            assert(refs.len() > 1);
            assert(refs.remove(child).len() > 0);
            let i = refs.remove(child).choose();
            assert(refs.remove(child).contains(i));
            assert(s.instances.contains_key(i) && s.instances[i].template == t);
            assert(v0.instances.contains_key(i));
            assert(v0.instances[i].template == u);
            assert(v0.instances[i].parent == ci);
            assert(v0.circuits[ci].instances.contains(i));
            assert(iv.to_set().contains(i));
            let j1 = choose|j: int| 0 <= j < iv.len() && iv[j] == i;
            assert(j1 != k);
            if j1 < k {
                assert(!s.instances.contains_key(iv[j1]));
            }
            assert(v0.instances[iv[j1]].template == u);
        }
    }
}

/// One step of pruning, the removal of child `child` of cell `ci` with its
/// template `t` where that was used by `child` alone, keeps what pruning owes:
/// a removed template had all its instances in removed cells or in `ci`, a
/// removed instance lay in `ci` or in a removed cell, and an instance outside
/// `ci` whose cells stay is kept.
proof fn lemma_prune_step(v0: ChipView, s: ChipView, s1: ChipView, ci: u32, child: usize, t: u32)
    requires
        s.inv(),
        s.instances.contains_key(child),
        s.instances[child].parent == ci,
        s.instances[child].template == t,
        t != ci,
        s.circuits.contains_key(ci),
        forall|i: usize| #[trigger] s.instances.contains_key(i) ==> s.instances[i] == v0.instances[i],
        forall|i: usize| #[trigger] v0.instances.contains_key(i)
            && !s.circuits.contains_key(v0.instances[i].template) && v0.instances[i].template != ci
            ==> v0.instances[i].parent == ci || !s.circuits.contains_key(v0.instances[i].parent),
        forall|i: usize| #[trigger] v0.instances.contains_key(i) && !s.instances.contains_key(i)
            ==> v0.instances[i].parent == ci || !s.circuits.contains_key(v0.instances[i].parent),
        forall|i: usize| #[trigger] v0.instances.contains_key(i) && v0.instances[i].parent != ci
            && s.circuits.contains_key(v0.instances[i].parent)
            && s.circuits.contains_key(v0.instances[i].template)
            ==> s.instances.contains_key(i),
        s.circuits[t].references.len() > 1 ==> s1.instances == s.instances.remove(child)
            && s1.circuits.dom() == s.circuits.dom(),
        s.circuits[t].references.len() <= 1 ==> s1.instances == s.instances.remove(child).remove_keys(s.circuits[t].instances)
            && s1.circuits.dom() == s.circuits.dom().remove(t),
    ensures
        forall|i: usize| #[trigger] v0.instances.contains_key(i)
            && !s1.circuits.contains_key(v0.instances[i].template) && v0.instances[i].template != ci
            ==> v0.instances[i].parent == ci || !s1.circuits.contains_key(v0.instances[i].parent),
        forall|i: usize| #[trigger] v0.instances.contains_key(i) && !s1.instances.contains_key(i)
            ==> v0.instances[i].parent == ci || !s1.circuits.contains_key(v0.instances[i].parent),
        forall|i: usize| #[trigger] v0.instances.contains_key(i) && v0.instances[i].parent != ci
            && s1.circuits.contains_key(v0.instances[i].parent)
            && s1.circuits.contains_key(v0.instances[i].template)
            ==> s1.instances.contains_key(i),
{
    let refs = s.circuits[t].references;
    assert(refs.contains(child));
    assert(refs.finite());
    assert forall|i: usize| #[trigger] v0.instances.contains_key(i)
        && !s1.circuits.contains_key(v0.instances[i].template) && v0.instances[i].template != ci
        implies v0.instances[i].parent == ci || !s1.circuits.contains_key(v0.instances[i].parent) by {
        let x = v0.instances[i];
        if s.circuits.contains_key(x.template) {
            assert(x.template == t && refs.len() <= 1);
            if s.instances.contains_key(i) {
                assert(s.instances[i] == x);
                assert(refs.contains(i));
                if i != child {
                    assert(refs.remove(child).contains(i));
                    assert(refs.remove(child).len() > 0);
                }
            }
        }
    }
    assert forall|i: usize| #[trigger] v0.instances.contains_key(i) && !s1.instances.contains_key(i)
        implies v0.instances[i].parent == ci || !s1.circuits.contains_key(v0.instances[i].parent) by {
        if s.instances.contains_key(i) && i != child {
            assert(refs.len() <= 1 && s.circuits[t].instances.contains(i));
            assert(s.instances[i].parent == t);
        }
    }
    assert forall|i: usize| #[trigger] v0.instances.contains_key(i) && v0.instances[i].parent != ci
        && s1.circuits.contains_key(v0.instances[i].parent)
        && s1.circuits.contains_key(v0.instances[i].template)
        implies s1.instances.contains_key(i) by {
        assert(s.instances.contains_key(i));
        assert(s.instances[i] == v0.instances[i]);
        if refs.len() <= 1 && s.circuits[t].instances.contains(i) {
            assert(s.instances[i].parent == t);
        }
    }
}

impl Chip {
    /// Remove the cell, and the cells it instantiates that are then not used
    /// anymore. Which of those go can depend on the order in which the child
    /// instances are visited.
    pub fn prune_cell(&mut self, cell: &CellId)
        requires
            old(self).wf(),
            old(self)@.circuits.contains_key(cell@),
        ensures
            final(self).wf(),
            final(self).layers() == old(self).layers(),
            final(self).shapes_view() == shapes_without_cells(old(self).shapes_view(),
                old(self)@.circuits.dom().difference(final(self)@.circuits.dom())),
            !final(self)@.circuits.contains_key(cell@),
            final(self)@.circuits.dom().subset_of(old(self)@.circuits.dom()),
            forall|c: u32| old(self)@.circuits.contains_key(c) && !final(self)@.circuits.contains_key(c) && c != cell@
                ==> #[trigger] old(self)@.circuits[cell@].dependencies.contains_key(c),
            final(self)@.instances.dom().subset_of(old(self)@.instances.dom()),
            forall|i: usize| #[trigger] final(self)@.instances.contains_key(i) ==> final(self)@.instances[i] == old(self)@.instances[i]
                && final(self)@.instances[i].parent != cell@ && final(self)@.instances[i].template != cell@,
            forall|i: usize| #[trigger] old(self)@.instances.contains_key(i)
                && !final(self)@.circuits.contains_key(old(self)@.instances[i].template)
                && old(self)@.instances[i].template != cell@
                ==> !final(self)@.circuits.contains_key(old(self)@.instances[i].parent),
            forall|i: usize| #[trigger] old(self)@.instances.contains_key(i)
                && final(self)@.circuits.contains_key(old(self)@.instances[i].parent)
                && final(self)@.circuits.contains_key(old(self)@.instances[i].template)
                ==> final(self)@.instances.contains_key(i),
            forall|t: u32| #[trigger] used_only_in(old(self)@, t, cell@) ==> !final(self)@.circuits.contains_key(t),
    {
        let ghost v0 = self@;
        let ghost ci = cell@;
        let children = self.each_cell_instance_vec(cell);
        let ghost iv = inst_ids_view(children@);
        let mut k: usize = 0;
        proof {
            assert forall|j: int| 0 <= j < iv.len() implies #[trigger] self@.instances.contains_key(iv[j]) by {
                assert(iv.to_set().contains(iv[j]));
            }
            assert(v0.circuits.dom().difference(self@.circuits.dom()) =~= Set::<u32>::empty());
            lemma_shapes_without_cells(old(self).shapes_view(), Set::<u32>::empty(), 0);
            assert forall|t: u32| #[trigger] used_only_in(v0, t, ci) && self@.circuits.contains_key(t)
                implies exists|j: int| #![trigger iv[j]] 0 <= j < iv.len() && v0.instances[iv[j]].template == t by {
                let i = choose|i: usize| #[trigger] v0.instances.contains_key(i) && v0.instances[i].parent == ci
                    && v0.instances[i].template == t;
                assert(v0.circuits[ci].instances.contains(i));
                assert(iv.to_set().contains(i));
                let j = choose|j: int| 0 <= j < iv.len() && iv[j] == i;
                assert(v0.instances[iv[j]].template == t);
            }
        }
        while k < children.len()
            invariant
                self.wf(),
                self.layers() == old(self).layers(),
                self.shapes_view() == shapes_without_cells(old(self).shapes_view(), v0.circuits.dom().difference(self@.circuits.dom())),
                v0 == old(self)@,
                v0.inv(),
                ci == cell@,
                v0.circuits.contains_key(ci),
                self@.circuits.contains_key(ci),
                iv == inst_ids_view(children@),
                iv.no_duplicates(),
                iv.to_set() == v0.circuits[ci].instances,
                k <= iv.len(),
                forall|j: int| k <= j < iv.len() ==> #[trigger] self@.instances.contains_key(iv[j]),
                self@.circuits.dom().subset_of(v0.circuits.dom()),
                forall|c: u32| v0.circuits.contains_key(c) && !self@.circuits.contains_key(c) && c != ci
                    ==> #[trigger] v0.circuits[ci].dependencies.contains_key(c),
                self@.instances.dom().subset_of(v0.instances.dom()),
                forall|i: usize| #[trigger] self@.instances.contains_key(i) ==> self@.instances[i] == v0.instances[i],
                forall|i: usize| #[trigger] v0.instances.contains_key(i)
                    && !self@.circuits.contains_key(v0.instances[i].template) && v0.instances[i].template != ci
                    ==> v0.instances[i].parent == ci || !self@.circuits.contains_key(v0.instances[i].parent),
                forall|i: usize| #[trigger] v0.instances.contains_key(i) && !self@.instances.contains_key(i)
                    ==> v0.instances[i].parent == ci || !self@.circuits.contains_key(v0.instances[i].parent),
                forall|i: usize| #[trigger] v0.instances.contains_key(i) && v0.instances[i].parent != ci
                    && self@.circuits.contains_key(v0.instances[i].parent)
                    && self@.circuits.contains_key(v0.instances[i].template)
                    ==> self@.instances.contains_key(i),
                forall|j: int| 0 <= j < k ==> !self@.instances.contains_key(#[trigger] iv[j]),
                forall|t: u32| #[trigger] used_only_in(v0, t, ci) && self@.circuits.contains_key(t)
                    ==> exists|j: int| #![trigger iv[j]] k <= j < iv.len() && v0.instances[iv[j]].template == t,
            decreases iv.len() - k,
        {
            let child = children[k];
            let ghost s = self@;
            let ghost t = v0.instances[child@].template;
            proof {
                assert(iv[k as int] == child@);
                assert(iv.to_set().contains(child@));
                assert(s.instances.contains_key(child@));
                assert(v0.instances[child@].parent == ci);
                assert(s.instances[child@].template == t);
                assert(t != ci);
                assert(v0.circuits[ci].dependencies.contains_key(t)) by {
                    let f = v0.circuits[ci].instances.filter(|i: usize| v0.instances[i].template == t);
                    assert(f.contains(child@));
                    lemma_member_len(f, child@);
                    assert(dep_count(v0.circuits, v0.instances, ci, t) > 0);
                }
                assert(s.circuits[t].references.contains(child@));
            }
            self.prune_cell_instance(&child);
            proof {
                assert forall|j: int| k + 1 <= j < iv.len() implies #[trigger] self@.instances.contains_key(iv[j]) by {
                    assert(s.instances.contains_key(iv[j]));
                    assert(iv[j] != child@) by {
                        assert(iv[j] != iv[k as int]);
                    }
                    assert(iv.to_set().contains(iv[j]));
                    assert(s.instances[iv[j]].parent == ci);
                    if s.circuits[t].references.len() <= 1 {
                        assert(!s.circuits[t].instances.contains(iv[j]));
                    }
                }
                assert(self@.circuits.dom().subset_of(v0.circuits.dom()));
                let d = v0.circuits.dom().difference(s.circuits.dom());
                lemma_shapes_without_cells(old(self).shapes_view(), d, t);
                if s.circuits[t].references.len() <= 1 {
                    assert(d.insert(t) =~= v0.circuits.dom().difference(self@.circuits.dom()));
                } else {
                    assert(d =~= v0.circuits.dom().difference(self@.circuits.dom()));
                }
                if s.circuits[t].references.len() > 1 {
                    assert(self@.circuits.dom() =~= s.circuits.dom());
                }
                lemma_prune_step(v0, s, self@, ci, child@, t);
                lemma_prune_step_children(v0, s, self@, ci, iv, k as int, t);
            }
            k = k + 1;
        }
        let ghost s = self@;
        self.remove_cell(cell);
        proof {
            assert forall|i: usize| #[trigger] v0.instances.contains_key(i)
                && self@.circuits.contains_key(v0.instances[i].parent)
                && self@.circuits.contains_key(v0.instances[i].template)
                implies self@.instances.contains_key(i) by {
                assert(s.instances.contains_key(i));
                assert(s.instances[i] == v0.instances[i]);
                assert(!s.circuits[ci].instances.contains(i));
                assert(!s.circuits[ci].references.contains(i));
            }
            assert forall|t: u32| #[trigger] used_only_in(v0, t, ci) implies !self@.circuits.contains_key(t) by {
                if s.circuits.contains_key(t) {
                    let j = choose|j: int| #![trigger iv[j]] iv.len() <= j < iv.len() && v0.instances[iv[j]].template == t;
                }
            }
            let d = v0.circuits.dom().difference(s.circuits.dom());
            lemma_shapes_without_cells(old(self).shapes_view(), d, ci);
            assert(d.insert(ci) =~= v0.circuits.dom().difference(self@.circuits.dom()));
            assert forall|i: usize| #[trigger] self@.instances.contains_key(i) implies
                self@.instances[i].parent != ci && self@.instances[i].template != ci by {
                assert(self@.circuits.contains_key(self@.instances[i].parent));
                assert(self@.circuits.contains_key(self@.instances[i].template));
            }
        }
    }
}

/// The nets after all terminals of net `o` moved to net `n` and `o` was removed.
pub open spec fn nets_after_replacing(nets: Map<usize, NetView>, o: usize, n: usize) -> Map<usize, NetView> {
    nets.remove(o).insert(n, NetView {
        pins: nets[n].pins + nets[o].pins,
        pin_instances: nets[n].pin_instances + nets[o].pin_instances,
        ..nets[n]
    })
}

/// The pins after the pins in `ps` were connected to net `n`.
pub open spec fn pins_moved_to(pins: Map<u32, PinView>, ps: Set<u32>, n: usize) -> Map<u32, PinView> {
    Map::new(|p: u32| pins.contains_key(p), |p: u32| if ps.contains(p) { PinView { net: Some(n), ..pins[p] } } else { pins[p] })
}

/// The pin instances after those in `qs` were connected to net `n`.
pub open spec fn pin_insts_moved_to(pin_insts: Map<usize, PinInstView>, qs: Set<usize>, n: usize) -> Map<usize, PinInstView> {
    Map::new(|q: usize| pin_insts.contains_key(q), |q: usize|
        if qs.contains(q) { PinInstView { net: Some(n), ..pin_insts[q] } } else { pin_insts[q] })
}

impl Chip {
    /// Connect all terminals of `old_net` to `new_net` instead, and remove `old_net`.
    /// Nothing happens when the two are the same net.
    pub fn replace_net(&mut self, old_net: &NetId, new_net: &NetId)
        requires
            old(self).wf(),
            old_net@ != new_net@ ==> {
                let v = old(self)@;
                &&& net_is_live(v.circuits, v.nets, old_net@)
                &&& net_is_live(v.circuits, v.nets, new_net@)
                &&& v.nets[old_net@].parent == v.nets[new_net@].parent
                &&& old_net@ != v.circuits[v.nets[old_net@].parent].net_low
                &&& old_net@ != v.circuits[v.nets[old_net@].parent].net_high
            },
        ensures
            final(self).wf(),
            final(self).layers() == old(self).layers(),
            old_net@ == new_net@ ==> final(self).shapes_view() == old(self).shapes_view(),
            old_net@ != new_net@ ==> final(self).shapes_view() == shapes_unlinked_from_nets(old(self).shapes_view(), set![old_net@]),
            old_net@ == new_net@ ==> final(self)@ == old(self)@,
            old_net@ != new_net@ ==> {
                let v = old(self)@;
                let o = old_net@;
                let n = new_net@;
                let p = v.nets[o].parent;
                &&& final(self)@.nets == nets_after_replacing(v.nets, o, n)
                &&& final(self)@.pins == pins_moved_to(v.pins, v.nets[o].pins, n)
                &&& final(self)@.pin_insts == pin_insts_moved_to(v.pin_insts, v.nets[o].pin_instances, n)
                &&& final(self)@.circuits == v.circuits.insert(p, CircuitView {
                    nets: v.circuits[p].nets.remove(o),
                    nets_by_name: names_after_rename(v.circuits[p].nets_by_name, o, v.nets[o].name, None),
                    ..v.circuits[p]
                })
                &&& final(self)@.instances == v.instances
                &&& final(self)@.next_inst == v.next_inst
                &&& final(self)@.next_net == v.next_net
                &&& final(self)@.next_pin_inst == v.next_pin_inst
                &&& final(self)@.circuits_by_name == v.circuits_by_name
            },
    {
        if old_net.0 == new_net.0 {
            // Nothing needs to be done.
            return;
        }
        let ghost v0 = self@;
        let ghost o = old_net@;
        let ghost n = new_net@;
        let terminals = self.each_pin_of_net_vec(old_net);
        let ghost pv = pin_ids_view(terminals@);
        let mut k: usize = 0;
        proof {
            let e = Set::<u32>::empty();
            assert(pv.subrange(0, 0).to_set() =~= e);
            assert(v0.nets[o].pins.difference(e) =~= v0.nets[o].pins);
            assert(v0.nets[n].pins + e =~= v0.nets[n].pins);
            assert(v0.nets.insert(o, NetView { pins: v0.nets[o].pins.difference(e), ..v0.nets[o] })
                .insert(n, NetView { pins: v0.nets[n].pins + e, ..v0.nets[n] }) =~= v0.nets);
            assert(pins_moved_to(v0.pins, e, n) =~= v0.pins);
        }
        while k < terminals.len()
            invariant
                self.wf(),
                self.layers() == old(self).layers(),
                self.shapes_view() == old(self).shapes_view(),
                v0 == old(self)@,
                v0.inv(),
                o == old_net@,
                n == new_net@,
                o != n,
                net_is_live(v0.circuits, v0.nets, o),
                net_is_live(v0.circuits, v0.nets, n),
                v0.nets[o].parent == v0.nets[n].parent,
                pv == pin_ids_view(terminals@),
                pv.no_duplicates(),
                pv.to_set() == v0.nets[o].pins,
                k <= pv.len(),
                self@.nets == v0.nets.insert(o, NetView { pins: v0.nets[o].pins.difference(pv.subrange(0, k as int).to_set()), ..v0.nets[o] })
                    .insert(n, NetView { pins: v0.nets[n].pins + pv.subrange(0, k as int).to_set(), ..v0.nets[n] }),
                self@.pins == pins_moved_to(v0.pins, pv.subrange(0, k as int).to_set(), n),
                self@.pin_insts == v0.pin_insts,
                self@.circuits == v0.circuits,
                self@.instances == v0.instances,
                self@.next_inst == v0.next_inst,
                self@.next_net == v0.next_net,
                self@.next_pin_inst == v0.next_pin_inst,
                self@.circuits_by_name == v0.circuits_by_name,
            decreases pv.len() - k,
        {
            let pin = terminals[k];
            let ghost done = pv.subrange(0, k as int).to_set();
            let ghost s = self@;
            proof {
                assert(pv[k as int] == pin@);
                assert(pv.to_set().contains(pin@));
                assert(!done.contains(pin@)) by {
                    if done.contains(pin@) {
                        let j = choose|j: int| 0 <= j < k && #[trigger] pv.subrange(0, k as int)[j] == pin@;
                        assert(pv[j] == pv[k as int]);
                    }
                }
                assert(v0.pins.contains_key(pin@) && v0.pins[pin@].net == Some(o));
                assert(s.pins[pin@] == v0.pins[pin@]);
            }
            self.connect_pin(&pin, Some(new_net.clone()));
            proof {
                let d1 = pv.subrange(0, k + 1).to_set();
                assert(d1 =~= done.insert(pin@)) by {
                    assert forall|x: u32| d1.contains(x) <==> done.insert(pin@).contains(x) by {
                        if d1.contains(x) {
                            let j = choose|j: int| 0 <= j < k + 1 && #[trigger] pv.subrange(0, k + 1)[j] == x;
                            if j < k {
                                assert(pv.subrange(0, k as int)[j] == x);
                            }
                        }
                        if done.contains(x) {
                            let j = choose|j: int| 0 <= j < k && #[trigger] pv.subrange(0, k as int)[j] == x;
                            assert(pv.subrange(0, k + 1)[j] == x);
                        }
                        if x == pin@ {
                            assert(pv.subrange(0, k + 1)[k as int] == x);
                        }
                    }
                }
                assert(v0.nets[o].pins.difference(done).remove(pin@) =~= v0.nets[o].pins.difference(d1));
                assert((v0.nets[n].pins + done).insert(pin@) =~= v0.nets[n].pins + d1);
                assert(self@.nets =~= v0.nets.insert(o, NetView { pins: v0.nets[o].pins.difference(d1), ..v0.nets[o] })
                    .insert(n, NetView { pins: v0.nets[n].pins + d1, ..v0.nets[n] }));
                assert(self@.pins =~= pins_moved_to(v0.pins, d1, n));
            }
            k = k + 1;
        }
        proof {
            assert(pv.subrange(0, k as int) =~= pv);
        }
        let ghost v1 = self@;
        let terminals = self.each_pin_instance_of_net_vec(old_net);
        let ghost qv = pin_inst_ids_view(terminals@);
        let mut k: usize = 0;
        proof {
            let e = Set::<usize>::empty();
            assert(qv.subrange(0, 0).to_set() =~= e);
            assert(v1.nets[o].pin_instances == v0.nets[o].pin_instances);
            assert(v1.nets[o].pin_instances.difference(e) =~= v1.nets[o].pin_instances);
            assert(v1.nets[n].pin_instances + e =~= v1.nets[n].pin_instances);
            assert(v1.nets.insert(o, NetView { pin_instances: v1.nets[o].pin_instances.difference(e), ..v1.nets[o] })
                .insert(n, NetView { pin_instances: v1.nets[n].pin_instances + e, ..v1.nets[n] }) =~= v1.nets);
            assert(pin_insts_moved_to(v0.pin_insts, e, n) =~= v0.pin_insts);
        }
        while k < terminals.len()
            invariant
                self.wf(),
                self.layers() == old(self).layers(),
                self.shapes_view() == old(self).shapes_view(),
                v0 == old(self)@,
                v0.inv(),
                o == old_net@,
                n == new_net@,
                o != n,
                net_is_live(v0.circuits, v0.nets, o),
                net_is_live(v0.circuits, v0.nets, n),
                v0.nets[o].parent == v0.nets[n].parent,
                v1.nets.contains_key(o) && v1.nets.contains_key(n),
                v1.nets[o].parent == v0.nets[o].parent,
                v1.nets[n].parent == v0.nets[n].parent,
                v1.nets[o].pin_instances == v0.nets[o].pin_instances,
                qv == pin_inst_ids_view(terminals@),
                qv.no_duplicates(),
                qv.to_set() == v0.nets[o].pin_instances,
                k <= qv.len(),
                self@.nets == v1.nets.insert(o, NetView { pin_instances: v1.nets[o].pin_instances.difference(qv.subrange(0, k as int).to_set()), ..v1.nets[o] })
                    .insert(n, NetView { pin_instances: v1.nets[n].pin_instances + qv.subrange(0, k as int).to_set(), ..v1.nets[n] }),
                self@.pin_insts == pin_insts_moved_to(v0.pin_insts, qv.subrange(0, k as int).to_set(), n),
                self@.pins == v1.pins,
                self@.circuits == v0.circuits,
                self@.instances == v0.instances,
                self@.next_inst == v0.next_inst,
                self@.next_net == v0.next_net,
                self@.next_pin_inst == v0.next_pin_inst,
                self@.circuits_by_name == v0.circuits_by_name,
            decreases qv.len() - k,
        {
            let pin = terminals[k];
            let ghost done = qv.subrange(0, k as int).to_set();
            let ghost s = self@;
            proof {
                assert(qv[k as int] == pin@);
                assert(qv.to_set().contains(pin@));
                assert(!done.contains(pin@)) by {
                    if done.contains(pin@) {
                        let j = choose|j: int| 0 <= j < k && #[trigger] qv.subrange(0, k as int)[j] == pin@;
                        assert(qv[j] == qv[k as int]);
                    }
                }
                assert(pin_inst_is_live(v0.instances, v0.pin_insts, pin@) && v0.pin_insts[pin@].net == Some(o));
                assert(s.pin_insts[pin@] == v0.pin_insts[pin@]);
            }
            self.connect_pin_instance(&pin, Some(new_net.clone()));
            proof {
                let d1 = qv.subrange(0, k + 1).to_set();
                assert(d1 =~= done.insert(pin@)) by {
                    assert forall|x: usize| d1.contains(x) <==> done.insert(pin@).contains(x) by {
                        if d1.contains(x) {
                            let j = choose|j: int| 0 <= j < k + 1 && #[trigger] qv.subrange(0, k + 1)[j] == x;
                            if j < k {
                                assert(qv.subrange(0, k as int)[j] == x);
                            }
                        }
                        if done.contains(x) {
                            let j = choose|j: int| 0 <= j < k && #[trigger] qv.subrange(0, k as int)[j] == x;
                            assert(qv.subrange(0, k + 1)[j] == x);
                        }
                        if x == pin@ {
                            assert(qv.subrange(0, k + 1)[k as int] == x);
                        }
                    }
                }
                assert(v1.nets[o].pin_instances.difference(done).remove(pin@) =~= v1.nets[o].pin_instances.difference(d1));
                assert((v1.nets[n].pin_instances + done).insert(pin@) =~= v1.nets[n].pin_instances + d1);
                assert(self@.nets =~= v1.nets.insert(o, NetView { pin_instances: v1.nets[o].pin_instances.difference(d1), ..v1.nets[o] })
                    .insert(n, NetView { pin_instances: v1.nets[n].pin_instances + d1, ..v1.nets[n] }));
                assert(self@.pin_insts =~= pin_insts_moved_to(v0.pin_insts, d1, n));
            }
            k = k + 1;
        }
        let ghost v2 = self@;
        proof {
            assert(qv.subrange(0, k as int) =~= qv);
            assert(v2.nets[o].pins =~= Set::<u32>::empty());
            assert(v2.nets[o].pin_instances =~= Set::<usize>::empty());
            assert(v2.nets[o].parent == v0.nets[o].parent);
            assert(v2.nets[o].name == v0.nets[o].name);
        }
        // Remove the now unused old net.
        self.remove_net(old_net);
        proof {
            assert(self@.nets =~= nets_after_replacing(v0.nets, o, n));
            assert(self@.pins =~= pins_moved_to(v0.pins, v0.nets[o].pins, n));
            assert(self@.pin_insts =~= pin_insts_moved_to(v0.pin_insts, v0.nets[o].pin_instances, n));
        }
    }
}

/// The integer values of a sequence of shape identifiers.
pub open spec fn shape_ids_view(s: Seq<ShapeId>) -> Seq<u32> {
    s.map_values(|x: ShapeId| x@)
}

/// Wrap integer values as shape identifiers.
fn to_shape_ids(v: &Vec<u32>) -> (res: Vec<ShapeId>)
    ensures
        shape_ids_view(res@) == v@,
{
    let mut res: Vec<ShapeId> = Vec::new();
    let mut k: usize = 0;
    while k < v.len()
        invariant
            k <= v@.len(),
            res@.len() == k,
            forall|j: int| 0 <= j < k ==> #[trigger] res@[j]@ == v@[j],
        decreases v@.len() - k,
    {
        res.push(Index::new(v[k]));
        k = k + 1;
    }
    assert(shape_ids_view(res@) =~= v@);
    res
}

/// The links from nets to shapes after shape `s` moved from net `from` to net `to`.
pub open spec fn net_links_moved(links: Map<usize, Set<u32>>, s: u32, from: Option<usize>, to: Option<usize>) -> Map<usize, Set<u32>> {
    let l1 = match from {
        Some(o) => links.insert(o, shapes_of(links, o).remove(s)),
        None => links,
    };
    match to {
        Some(n) => l1.insert(n, shapes_of(l1, n).insert(s)),
        None => l1,
    }
}

/// The shapes after shape `s` was linked to net `net`, or unlinked with `None`.
pub open spec fn shapes_with_net(v: ShapesView, s: u32, net: Option<usize>) -> ShapesView {
    if v.shapes[s].net == net {
        v
    } else {
        ShapesView {
            shapes: v.shapes.insert(s, ShapeView { net: net, ..v.shapes[s] }),
            net_shapes: net_links_moved(v.net_shapes, s, v.shapes[s].net, net),
            ..v
        }
    }
}

/// The links from pins to shapes after shape `s` moved from pin `from` to pin `to`.
pub open spec fn pin_links_moved(links: Map<u32, Set<u32>>, s: u32, from: Option<u32>, to: Option<u32>) -> Map<u32, Set<u32>> {
    let l1 = match from {
        Some(o) => links.insert(o, shapes_of_pin_spec(links, o).remove(s)),
        None => links,
    };
    match to {
        Some(n) => l1.insert(n, shapes_of_pin_spec(l1, n).insert(s)),
        None => l1,
    }
}

/// The shapes of `v` after shape `s` was removed and unlinked from its net and pin.
pub open spec fn shapes_after_removal(v: ShapesView, s: u32) -> ShapesView {
    ShapesView {
        shapes: v.shapes.remove(s),
        net_shapes: net_links_moved(v.net_shapes, s, v.shapes[s].net, None),
        pin_shapes: pin_links_moved(v.pin_shapes, s, v.shapes[s].pin, None),
        ..v
    }
}

impl Chip {
    /// Create a new shape with the geometry in a layer of a cell.
    pub fn insert_shape(&mut self, parent_cell: &CellId, layer: &LayerId, geometry: Geometry<Coord>) -> (res: ShapeId)
        requires
            old(self).wf(),
            old(self)@.circuits.contains_key(parent_cell@),
            old(self).shapes_view().next_shape < u32::MAX,
        ensures
            final(self).wf(),
            final(self)@ == old(self)@,
            final(self).layers() == old(self).layers(),
            res@ == old(self).shapes_view().next_shape,
            final(self).shapes_view() == (ShapesView {
                next_shape: (old(self).shapes_view().next_shape + 1) as u32,
                shapes: old(self).shapes_view().shapes.insert(res@, ShapeView {
                    geometry: geometry,
                    cell: parent_cell@,
                    layer: layer@,
                    net: None,
                    pin: None,
                }),
                containers: old(self).shapes_view().containers.insert((parent_cell@, layer@)),
                ..old(self).shapes_view()
            }),
    {
        let ghost v0 = self.shapes_view();
        let ghost g = geometry;
        let shape_id = self.shape_index_generator.next();
        let shape = Shape { geometry, net: None, pin: None };
        fnv_map_insert(&mut self.shape_parents, shape_id.value(), (*parent_cell, *layer));
        fnv_map_insert(&mut self.shapes, shape_id.value(), shape);
        let key = shape_container_key(parent_cell.0, layer.value());
        fnv_set_insert(&mut self.shape_containers, key);
        proof {
            lemma_container_key(key);
            let v1 = self.shapes_view();
            let e = ShapesView {
                next_shape: (v0.next_shape + 1) as u32,
                shapes: v0.shapes.insert(shape_id@, ShapeView { geometry: g, cell: parent_cell@, layer: layer@, net: None, pin: None }),
                containers: v0.containers.insert((parent_cell@, layer@)),
                ..v0
            };
            assert(v1.shapes =~= e.shapes);
            assert(v1.containers =~= e.containers);
            assert(v1 == e);
            assert(!v0.shapes.contains_key(shape_id@));
            assert forall|n: usize, x: u32| #[trigger] shapes_of(v1.net_shapes, n).contains(x) && #[trigger] v1.shapes.contains_key(x)
                implies v1.shapes[x].net == Some(n) by {
                assert(x != shape_id@);
            }
            assert forall|n: u32, x: u32| #[trigger] shapes_of_pin_spec(v1.pin_shapes, n).contains(x) && #[trigger] v1.shapes.contains_key(x)
                implies v1.shapes[x].pin == Some(n) by {
                assert(x != shape_id@);
            }
        }
        shape_id
    }

    /// Remove a shape, unlinked from its net and its pin, and hand back its geometry.
    pub fn remove_shape(&mut self, shape_id: &ShapeId) -> (res: Option<Geometry<Coord>>)
        requires
            old(self).wf(),
            old(self).shapes_view().shapes.contains_key(shape_id@),
        ensures
            final(self).wf(),
            final(self)@ == old(self)@,
            final(self).layers() == old(self).layers(),
            res == Some(old(self).shapes_view().shapes[shape_id@].geometry),
            final(self).shapes_view() == shapes_after_removal(old(self).shapes_view(), shape_id@),
    {
        let ghost v0 = self.shapes_view();
        let sid = shape_id.value();
        let shape = fnv_map_get(&self.shapes, &sid).unwrap();
        let net = shape.net;
        let pin = shape.pin;
        // Remove all links to this shape.
        if let Some(n) = net {
            let mut links = fnv_map_remove(&mut self.net_shapes, &n.0).unwrap();
            fnv_set_remove(&mut links, &sid);
            fnv_map_insert(&mut self.net_shapes, n.0, links);
        }
        if let Some(p) = pin {
            let mut links = fnv_map_remove(&mut self.pin_shapes, &p.0).unwrap();
            fnv_set_remove(&mut links, &sid);
            fnv_map_insert(&mut self.pin_shapes, p.0, links);
        }
        fnv_map_remove(&mut self.shape_parents, &sid);
        let removed = fnv_map_remove(&mut self.shapes, &sid);
        proof {
            let v1 = self.shapes_view();
            let e = shapes_after_removal(v0, sid);
            assert(v1.shapes =~= e.shapes);
            assert(v1.net_shapes =~= e.net_shapes);
            assert(v1.pin_shapes =~= e.pin_shapes);
            assert(v1 == e);
            assert forall|x: u32| #[trigger] v1.shapes.contains_key(x) && v1.shapes[x].net is Some
                implies shapes_of(v1.net_shapes, v1.shapes[x].net.unwrap()).contains(x) by {
                assert(shapes_of(v0.net_shapes, v0.shapes[x].net.unwrap()).contains(x));
            }
            assert forall|x: u32| #[trigger] v1.shapes.contains_key(x) && v1.shapes[x].pin is Some
                implies shapes_of_pin_spec(v1.pin_shapes, v1.shapes[x].pin.unwrap()).contains(x) by {
                assert(shapes_of_pin_spec(v0.pin_shapes, v0.shapes[x].pin.unwrap()).contains(x));
            }
            assert forall|n: usize, x: u32| #[trigger] shapes_of(v1.net_shapes, n).contains(x) && #[trigger] v1.shapes.contains_key(x)
                implies v1.shapes[x].net == Some(n) by {
                assert(shapes_of(v0.net_shapes, n).contains(x));
            }
            assert forall|n: u32, x: u32| #[trigger] shapes_of_pin_spec(v1.pin_shapes, n).contains(x) && #[trigger] v1.shapes.contains_key(x)
                implies v1.shapes[x].pin == Some(n) by {
                assert(shapes_of_pin_spec(v0.pin_shapes, n).contains(x));
            }
            assert forall|n: usize, x: u32| #[trigger] shapes_of(v1.net_shapes, n).contains(x) implies x < v1.next_shape by {
                assert(shapes_of(v0.net_shapes, n).contains(x));
            }
            assert forall|n: u32, x: u32| #[trigger] shapes_of_pin_spec(v1.pin_shapes, n).contains(x) implies x < v1.next_shape by {
                assert(shapes_of_pin_spec(v0.pin_shapes, n).contains(x));
            }
        }
        match removed {
            Some(x) => Some(x.geometry),
            None => None,
        }
    }

    /// Replace the geometry of a shape and hand back the previous geometry.
    pub fn replace_shape(&mut self, shape_id: &ShapeId, geometry: Geometry<Coord>) -> (res: Geometry<Coord>)
        requires
            old(self).wf(),
            old(self).shapes_view().shapes.contains_key(shape_id@),
        ensures
            final(self).wf(),
            final(self)@ == old(self)@,
            final(self).layers() == old(self).layers(),
            res == old(self).shapes_view().shapes[shape_id@].geometry,
            final(self).shapes_view() == (ShapesView {
                shapes: old(self).shapes_view().shapes.insert(shape_id@, ShapeView {
                    geometry: geometry,
                    ..old(self).shapes_view().shapes[shape_id@]
                }),
                ..old(self).shapes_view()
            }),
    {
        let ghost v0 = self.shapes_view();
        let ghost g = geometry;
        let sid = shape_id.value();
        let shape = fnv_map_remove(&mut self.shapes, &sid).unwrap();
        let Shape { geometry: previous, net, pin } = shape;
        fnv_map_insert(&mut self.shapes, sid, Shape { geometry, net, pin });
        proof {
            let v1 = self.shapes_view();
            let e = ShapesView {
                shapes: v0.shapes.insert(sid, ShapeView { geometry: g, ..v0.shapes[sid] }),
                ..v0
            };
            assert(v1.shapes =~= e.shapes);
            assert(v1 == e);
        }
        previous
    }

    /// Get the geometry of a shape.
    pub fn shape_geometry(&self, shape_id: &ShapeId) -> (res: &Geometry<Coord>)
        requires
            self.shapes_view().shapes.contains_key(shape_id@),
        ensures
            *res == self.shapes_view().shapes[shape_id@].geometry,
    {
        let shape = fnv_map_get(&self.shapes, &shape_id.value()).unwrap();
        &shape.geometry
    }

    /// Get the cell and the layer of a shape.
    pub fn parent_of_shape(&self, shape_id: &ShapeId) -> (res: (CellId, LayerId))
        requires
            self.shapes_view().shapes.contains_key(shape_id@),
        ensures
            res.0@ == self.shapes_view().shapes[shape_id@].cell,
            res.1@ == self.shapes_view().shapes[shape_id@].layer,
    {
        *fnv_map_get(&self.shape_parents, &shape_id.value()).unwrap()
    }

    /// Get the net of a shape.
    pub fn get_net_of_shape(&self, shape_id: &ShapeId) -> (res: Option<NetId>)
        requires
            self.shapes_view().shapes.contains_key(shape_id@),
        ensures
            opt_net(res) == self.shapes_view().shapes[shape_id@].net,
    {
        fnv_map_get(&self.shapes, &shape_id.value()).unwrap().net
    }

    /// Get the pin of a shape.
    pub fn get_pin_of_shape(&self, shape_id: &ShapeId) -> (res: Option<PinId>)
        requires
            self.shapes_view().shapes.contains_key(shape_id@),
        ensures
            opt_pin(res) == self.shapes_view().shapes[shape_id@].pin,
    {
        fnv_map_get(&self.shapes, &shape_id.value()).unwrap().pin
    }

    /// Get the shapes linked to a net, each once, in no particular order.
    pub fn shapes_of_net_vec(&self, net_id: &NetId) -> (res: Vec<ShapeId>)
        requires
            self@.nets.contains_key(net_id@),
        ensures
            shape_ids_view(res@).no_duplicates(),
            shape_ids_view(res@).to_set() == shapes_of(self.shapes_view().net_shapes, net_id@),
    {
        match fnv_map_get(&self.net_shapes, &net_id.0) {
            Some(links) => to_shape_ids(&fnv_set_to_vec(links)),
            None => {
                let res: Vec<ShapeId> = Vec::new();
                assert(shape_ids_view(res@).to_set() =~= Set::<u32>::empty());
                res
            },
        }
    }

    /// Get the shapes linked to a pin, each once, in no particular order.
    pub fn shapes_of_pin_vec(&self, pin_id: &PinId) -> (res: Vec<ShapeId>)
        requires
            self@.pins.contains_key(pin_id@),
        ensures
            shape_ids_view(res@).no_duplicates(),
            shape_ids_view(res@).to_set() == shapes_of_pin_spec(self.shapes_view().pin_shapes, pin_id@),
    {
        match fnv_map_get(&self.pin_shapes, &pin_id.0) {
            Some(links) => to_shape_ids(&fnv_set_to_vec(links)),
            None => {
                let res: Vec<ShapeId> = Vec::new();
                assert(shape_ids_view(res@).to_set() =~= Set::<u32>::empty());
                res
            },
        }
    }
}

impl Chip {
    /// Link a shape to a net, or unlink it with `None`. Returns the net the shape
    /// was linked to before. Nothing changes when the shape already is on that net.
    pub fn set_net_of_shape(&mut self, shape_id: &ShapeId, net: Option<NetId>) -> (res: Option<NetId>)
        requires
            old(self).wf(),
            old(self).shapes_view().shapes.contains_key(shape_id@),
            net matches Some(n) ==> old(self)@.nets.contains_key(n@),
        ensures
            final(self).wf(),
            final(self)@ == old(self)@,
            final(self).layers() == old(self).layers(),
            opt_net(res) == old(self).shapes_view().shapes[shape_id@].net,
            final(self).shapes_view() == shapes_with_net(old(self).shapes_view(), shape_id@, opt_net(net)),
    {
        let ghost v0 = self.shapes_view();
        let sid = shape_id.value();
        // Create the link from the net to the shape.
        if let Some(n) = net {
            let mut links = match fnv_map_remove(&mut self.net_shapes, &n.0) {
                Some(x) => x,
                None => FnvHashSet::default(),
            };
            let not_yet_present = fnv_set_insert(&mut links, sid);
            fnv_map_insert(&mut self.net_shapes, n.0, links);
            if !not_yet_present {
                // The shape is already linked to this net.
                proof {
                    assert(shapes_of(v0.net_shapes, n@).contains(sid));
                    assert(v0.net_shapes.contains_key(n@));
                    assert(self.net_shapes@[n@]@ =~= v0.net_shapes[n@]);
                    assert(self.net_shapes@.map_values(|x: FnvHashSet<u32>| x@) =~= v0.net_shapes);
                    assert(self.shapes_view() == v0);
                }
                return Some(n);
            }
            proof {
                assert(!shapes_of(v0.net_shapes, n@).contains(sid));
                assert(v0.shapes[sid].net != opt_net(net));
            }
        }
        // Link the shape to the net.
        let mut shape = fnv_map_remove(&mut self.shapes, &sid).unwrap();
        let previous = shape.net;
        shape.net = net;
        fnv_map_insert(&mut self.shapes, sid, shape);
        // Remove the link from the previous net.
        if let Some(p) = previous {
            let mut links = fnv_map_remove(&mut self.net_shapes, &p.0).unwrap();
            fnv_set_remove(&mut links, &sid);
            fnv_map_insert(&mut self.net_shapes, p.0, links);
        }
        proof {
            let v1 = self.shapes_view();
            let e = ShapesView {
                shapes: v0.shapes.insert(sid, ShapeView { net: opt_net(net), ..v0.shapes[sid] }),
                net_shapes: net_links_moved(v0.net_shapes, sid, v0.shapes[sid].net, opt_net(net)),
                ..v0
            };
            assert(v1.shapes =~= e.shapes);
            assert(v1.net_shapes =~= e.net_shapes);
            if v0.shapes[sid].net == opt_net(net) {
                assert(v1.shapes =~= v0.shapes);
                assert(v1.net_shapes =~= v0.net_shapes);
                assert(v1 == v0);
            } else {
                assert(v1 == e);
            }
            assert forall|x: u32| #[trigger] v1.shapes.contains_key(x) && v1.shapes[x].net is Some
                implies shapes_of(v1.net_shapes, v1.shapes[x].net.unwrap()).contains(x) by {
                if x != sid {
                    assert(shapes_of(v0.net_shapes, v0.shapes[x].net.unwrap()).contains(x));
                }
            }
            assert forall|n: usize, x: u32| #[trigger] shapes_of(v1.net_shapes, n).contains(x) && #[trigger] v1.shapes.contains_key(x)
                implies v1.shapes[x].net == Some(n) by {
                if x != sid {
                    assert(shapes_of(v0.net_shapes, n).contains(x));
                } else if opt_net(net) != Some(n) && v0.shapes[sid].net != Some(n) {
                    assert(shapes_of(v0.net_shapes, n).contains(x));
                }
            }
            assert forall|n: usize, x: u32| #[trigger] shapes_of(v1.net_shapes, n).contains(x) implies x < v1.next_shape by {
                if x != sid {
                    assert(shapes_of(v0.net_shapes, n).contains(x));
                }
            }
        }
        previous
    }
}

impl Chip {
    /// Link a shape to a pin, or unlink it with `None`. Returns the pin the shape
    /// was linked to before. Nothing changes when the shape already is on that pin.
    pub fn set_pin_of_shape(&mut self, shape_id: &ShapeId, pin: Option<PinId>) -> (res: Option<PinId>)
        requires
            old(self).wf(),
            old(self).shapes_view().shapes.contains_key(shape_id@),
            pin matches Some(n) ==> old(self)@.pins.contains_key(n@),
        ensures
            final(self).wf(),
            final(self)@ == old(self)@,
            final(self).layers() == old(self).layers(),
            opt_pin(res) == old(self).shapes_view().shapes[shape_id@].pin,
            ({
                let v = old(self).shapes_view();
                let s = shape_id@;
                final(self).shapes_view() == if v.shapes[s].pin == opt_pin(pin) {
                    v
                } else {
                    ShapesView {
                        shapes: v.shapes.insert(s, ShapeView { pin: opt_pin(pin), ..v.shapes[s] }),
                        pin_shapes: pin_links_moved(v.pin_shapes, s, v.shapes[s].pin, opt_pin(pin)),
                        ..v
                    }
                }
            }),
    {
        let ghost v0 = self.shapes_view();
        let sid = shape_id.value();
        // Create the link from the pin to the shape.
        if let Some(n) = pin {
            let mut links = match fnv_map_remove(&mut self.pin_shapes, &n.0) {
                Some(x) => x,
                None => FnvHashSet::default(),
            };
            let not_yet_present = fnv_set_insert(&mut links, sid);
            fnv_map_insert(&mut self.pin_shapes, n.0, links);
            if !not_yet_present {
                // The shape is already linked to this pin.
                proof {
                    assert(shapes_of_pin_spec(v0.pin_shapes, n@).contains(sid));
                    assert(v0.pin_shapes.contains_key(n@));
                    assert(self.pin_shapes@[n@]@ =~= v0.pin_shapes[n@]);
                    assert(self.pin_shapes@.map_values(|x: FnvHashSet<u32>| x@) =~= v0.pin_shapes);
                    assert(self.shapes_view() == v0);
                }
                return Some(n);
            }
            proof {
                assert(!shapes_of_pin_spec(v0.pin_shapes, n@).contains(sid));
                assert(v0.shapes[sid].pin != opt_pin(pin));
            }
        }
        // Link the shape to the pin.
        let mut shape = fnv_map_remove(&mut self.shapes, &sid).unwrap();
        let previous = shape.pin;
        shape.pin = pin;
        fnv_map_insert(&mut self.shapes, sid, shape);
        // Remove the link from the previous pin.
        if let Some(p) = previous {
            let mut links = fnv_map_remove(&mut self.pin_shapes, &p.0).unwrap();
            fnv_set_remove(&mut links, &sid);
            fnv_map_insert(&mut self.pin_shapes, p.0, links);
        }
        proof {
            let v1 = self.shapes_view();
            let e = ShapesView {
                shapes: v0.shapes.insert(sid, ShapeView { pin: opt_pin(pin), ..v0.shapes[sid] }),
                pin_shapes: pin_links_moved(v0.pin_shapes, sid, v0.shapes[sid].pin, opt_pin(pin)),
                ..v0
            };
            assert(v1.shapes =~= e.shapes);
            assert(v1.pin_shapes =~= e.pin_shapes);
            if v0.shapes[sid].pin == opt_pin(pin) {
                assert(v1.shapes =~= v0.shapes);
                assert(v1.pin_shapes =~= v0.pin_shapes);
                assert(v1 == v0);
            } else {
                assert(v1 == e);
            }
            assert forall|x: u32| #[trigger] v1.shapes.contains_key(x) && v1.shapes[x].pin is Some
                implies shapes_of_pin_spec(v1.pin_shapes, v1.shapes[x].pin.unwrap()).contains(x) by {
                if x != sid {
                    assert(shapes_of_pin_spec(v0.pin_shapes, v0.shapes[x].pin.unwrap()).contains(x));
                }
            }
            assert forall|n: u32, x: u32| #[trigger] shapes_of_pin_spec(v1.pin_shapes, n).contains(x) && #[trigger] v1.shapes.contains_key(x)
                implies v1.shapes[x].pin == Some(n) by {
                if x != sid {
                    assert(shapes_of_pin_spec(v0.pin_shapes, n).contains(x));
                } else if opt_pin(pin) != Some(n) && v0.shapes[sid].pin != Some(n) {
                    assert(shapes_of_pin_spec(v0.pin_shapes, n).contains(x));
                }
            }
            assert forall|n: u32, x: u32| #[trigger] shapes_of_pin_spec(v1.pin_shapes, n).contains(x) implies x < v1.next_shape by {
                if x != sid {
                    assert(shapes_of_pin_spec(v0.pin_shapes, n).contains(x));
                }
            }
        }
        previous
    }
}

/// The shapes in layer `layer` of cell `cell`.
pub open spec fn shapes_in(v: ShapesView, cell: u32, layer: u16) -> Set<u32> {
    v.shapes.dom().filter(|s: u32| v.shapes[s].cell == cell && v.shapes[s].layer == layer)
}

impl Chip {
    /// Get the shapes in a layer of a cell, each once, in no particular order.
    pub fn each_shape_id_vec(&self, cell: &CellId, layer: &LayerId) -> (res: Vec<ShapeId>)
        requires
            self@.circuits.contains_key(cell@),
            self.shapes_view().containers.contains((cell@, layer@)),
        ensures
            shape_ids_view(res@).no_duplicates(),
            shape_ids_view(res@).to_set() == shapes_in(self.shapes_view(), cell@, layer@),
    {
        let ghost v = self.shapes_view();
        let keys = fnv_map_keys(&self.shape_parents);
        let ghost f = |s: u32| self.shapes@.contains_key(s) && self.shape_parents@[s].0@ == cell@
            && self.shape_parents@[s].1@ == layer@;
        let mut ids: Vec<u32> = Vec::new();
        let mut k: usize = 0;
        while k < keys.len()
            invariant
                keys@.no_duplicates(),
                keys@.to_set() == self.shape_parents@.dom(),
                k <= keys@.len(),
                f == (|s: u32| self.shapes@.contains_key(s) && self.shape_parents@[s].0@ == cell@
                    && self.shape_parents@[s].1@ == layer@),
                ids@ == keys@.subrange(0, k as int).filter(f),
            decreases keys@.len() - k,
        {
            let s = keys[k];
            proof {
                keys@.subrange(0, k as int).lemma_filter_push(s, f);
                assert(keys@.subrange(0, k + 1) =~= keys@.subrange(0, k as int).push(s));
                assert(keys@.to_set().contains(s));
            }
            let parent = fnv_map_get(&self.shape_parents, &s).unwrap();
            if parent.0.0 == cell.0 && parent.1.value() == layer.value() && fnv_map_contains_key(&self.shapes, &s) {
                ids.push(s);
            }
            k = k + 1;
        }
        proof {
            assert(keys@.subrange(0, k as int) =~= keys@);
            lemma_filter_to_set(keys@, f);
            assert(keys@.to_set().filter(f) =~= shapes_in(v, cell@, layer@));
        }
        to_shape_ids(&ids)
    }
}

/// The shapes of `v` after every shape of pin `p` was unlinked from it.
pub open spec fn shapes_unlinked_from_pin(v: ShapesView, p: u32, done: Set<u32>) -> ShapesView {
    ShapesView {
        shapes: Map::new(|s: u32| v.shapes.contains_key(s), |s: u32|
            if done.contains(s) { ShapeView { pin: None, ..v.shapes[s] } } else { v.shapes[s] }),
        pin_shapes: if v.pin_shapes.contains_key(p) { v.pin_shapes.insert(p, v.pin_shapes[p].difference(done)) } else { v.pin_shapes },
        ..v
    }
}

impl Chip {
    /// Unlink all shapes of a pin from it.
    fn unlink_pin_shapes(&mut self, pin: &PinId)
        requires
            old(self).wf(),
            old(self)@.pins.contains_key(pin@),
        ensures
            final(self).wf(),
            final(self)@ == old(self)@,
            final(self).layers() == old(self).layers(),
            final(self).shapes_view() == shapes_unlinked_from_pin(old(self).shapes_view(), pin@,
                shapes_of_pin_spec(old(self).shapes_view().pin_shapes, pin@)),
    {
        let ghost v0 = self.shapes_view();
        let ghost p = pin@;
        let ghost all = shapes_of_pin_spec(v0.pin_shapes, p);
        let links = match fnv_map_get(&self.pin_shapes, &pin.0) {
            Some(x) => fnv_set_to_vec(x),
            None => Vec::new(),
        };
        proof {
            assert(links@.to_set() =~= all);
            let e = shapes_unlinked_from_pin(v0, p, links@.subrange(0, 0).to_set());
            assert(links@.subrange(0, 0).to_set() =~= Set::<u32>::empty());
            assert(e.shapes =~= v0.shapes);
            if v0.pin_shapes.contains_key(p) {
                assert(v0.pin_shapes[p].difference(Set::<u32>::empty()) =~= v0.pin_shapes[p]);
            }
            assert(e.pin_shapes =~= v0.pin_shapes);
        }
        let mut k: usize = 0;
        while k < links.len()
            invariant
                self.wf(),
                self@ == old(self)@,
                self.layers() == old(self).layers(),
                v0 == old(self).shapes_view(),
                v0.inv(),
                p == pin@,
                self@.pins.contains_key(p),
                all == shapes_of_pin_spec(v0.pin_shapes, p),
                links@.no_duplicates(),
                links@.to_set() == all,
                k <= links@.len(),
                self.shapes_view() == shapes_unlinked_from_pin(v0, p, links@.subrange(0, k as int).to_set()),
            decreases links@.len() - k,
        {
            let x = links[k];
            let ghost done = links@.subrange(0, k as int).to_set();
            let ghost cur = self.shapes_view();
            proof {
                assert(links@.to_set().contains(x));
                assert(!done.contains(x)) by {
                    if done.contains(x) {
                        let j = choose|j: int| 0 <= j < k && #[trigger] links@.subrange(0, k as int)[j] == x;
                        assert(links@[j] == links@[k as int]);
                    }
                }
            }
            if fnv_map_contains_key(&self.shapes, &x) && fnv_map_contains_key(&self.shape_parents, &x) {
                proof {
                    assert(cur.shapes.contains_key(x));
                    assert(v0.shapes[x].pin == Some(p));
                    assert(cur.shapes[x].pin == Some(p));
                }
                self.set_pin_of_shape(&Index::new(x), None);
            } else {
                // A link to a shape that is gone: drop it.
                proof {
                    assert(!cur.shapes.contains_key(x));
                    assert(v0.pin_shapes.contains_key(p));
                    assert(cur.pin_shapes.contains_key(p));
                    assert(self.pin_shapes@.contains_key(p));
                }
                let mut ls = fnv_map_remove(&mut self.pin_shapes, &pin.0).unwrap();
                fnv_set_remove(&mut ls, &x);
                fnv_map_insert(&mut self.pin_shapes, pin.0, ls);
                proof {
                    let v1 = self.shapes_view();
                    assert(v1.shapes =~= cur.shapes);
                    assert(v1.pin_shapes =~= cur.pin_shapes.insert(p, cur.pin_shapes[p].remove(x)));
                    assert(v1.net_shapes =~= cur.net_shapes);
                    assert forall|q: u32, y: u32| #[trigger] shapes_of_pin_spec(v1.pin_shapes, q).contains(y)
                        implies shapes_of_pin_spec(cur.pin_shapes, q).contains(y) by {}
                    assert forall|y: u32| #[trigger] v1.shapes.contains_key(y) && v1.shapes[y].pin is Some
                        implies shapes_of_pin_spec(v1.pin_shapes, v1.shapes[y].pin.unwrap()).contains(y) by {
                        assert(shapes_of_pin_spec(cur.pin_shapes, cur.shapes[y].pin.unwrap()).contains(y));
                    }
                }
            }
            proof {
                let d1 = links@.subrange(0, k + 1).to_set();
                assert(d1 =~= done.insert(x)) by {
                    assert forall|y: u32| d1.contains(y) <==> done.insert(x).contains(y) by {
                        if d1.contains(y) {
                            let j = choose|j: int| 0 <= j < k + 1 && #[trigger] links@.subrange(0, k + 1)[j] == y;
                            if j < k {
                                assert(links@.subrange(0, k as int)[j] == y);
                            }
                        }
                        if done.contains(y) {
                            let j = choose|j: int| 0 <= j < k && #[trigger] links@.subrange(0, k as int)[j] == y;
                            assert(links@.subrange(0, k + 1)[j] == y);
                        }
                        if y == x {
                            assert(links@.subrange(0, k + 1)[k as int] == y);
                        }
                    }
                }
                let v1 = self.shapes_view();
                let e = shapes_unlinked_from_pin(v0, p, d1);
                assert(v0.pin_shapes.contains_key(p));
                assert(v1.shapes =~= e.shapes);
                assert(v0.pin_shapes[p].difference(done).remove(x) =~= v0.pin_shapes[p].difference(d1));
                assert(v1.pin_shapes =~= e.pin_shapes);
                assert(v1 == e);
            }
            k = k + 1;
        }
        proof {
            assert(links@.subrange(0, k as int) =~= links@);
        }
    }
}

/// The character of a decimal digit.
pub open spec fn digit_char(d: nat) -> char {
    if d == 0 { '0' } else if d == 1 { '1' } else if d == 2 { '2' } else if d == 3 { '3' } else if d == 4 { '4' }
    else if d == 5 { '5' } else if d == 6 { '6' } else if d == 7 { '7' } else if d == 8 { '8' } else { '9' }
}

/// The decimal representation of a number, without leading zeros.
pub open spec fn decimal(n: nat) -> Seq<char>
    decreases n,
{
    if n < 10 {
        seq![digit_char(n)]
    } else {
        decimal(n / 10).push(digit_char(n % 10))
    }
}

/// The name made of `prefix` and the decimal representation of `j`.
pub open spec fn numbered_name(prefix: Seq<char>, j: nat) -> Seq<char> {
    prefix + decimal(j)
}

/// Decimal representations have at least one digit, and two digits from ten on.
proof fn lemma_decimal_len(n: nat)
    ensures
        decimal(n).len() >= 1,
        n >= 10 ==> decimal(n).len() >= 2,
    decreases n,
{
    if n >= 10 {
        lemma_decimal_len(n / 10);
    }
}

/// Different digits have different characters.
proof fn lemma_digit_char_injective(a: nat, b: nat)
    requires
        a < 10,
        b < 10,
        digit_char(a) == digit_char(b),
    ensures
        a == b,
{
    assert(digit_char(a) as u32 == 48 + a);
    assert(digit_char(b) as u32 == 48 + b);
}

/// Different numbers have different decimal representations.
pub proof fn lemma_decimal_injective(a: nat, b: nat)
    requires
        decimal(a) == decimal(b),
    ensures
        a == b,
    decreases a,
{
    lemma_decimal_len(a);
    lemma_decimal_len(b);
    if a >= 10 && b >= 10 {
        let da = decimal(a);
        let db = decimal(b);
        assert(da.last() == digit_char(a % 10));
        assert(db.last() == digit_char(b % 10));
        lemma_digit_char_injective(a % 10, b % 10);
        assert(da.drop_last() =~= decimal(a / 10));
        assert(db.drop_last() =~= decimal(b / 10));
        lemma_decimal_injective(a / 10, b / 10);
        assert(a == 10 * (a / 10) + a % 10) by (nonlinear_arith);
        assert(b == 10 * (b / 10) + b % 10) by (nonlinear_arith);
    } else if a < 10 && b < 10 {
        assert(decimal(a) == seq![digit_char(a)]);
        assert(decimal(b) == seq![digit_char(b)]);
        assert(decimal(a)[0] == digit_char(a));
        assert(decimal(b)[0] == digit_char(b));
        lemma_digit_char_injective(a, b);
    } else {
        assert(decimal(a).len() != decimal(b).len());
    }
}

/// Different numbers give different numbered names.
pub proof fn lemma_numbered_name_injective(prefix: Seq<char>, a: nat, b: nat)
    requires
        numbered_name(prefix, a) == numbered_name(prefix, b),
    ensures
        a == b,
{
    let na = numbered_name(prefix, a);
    assert(na.subrange(prefix.len() as int, na.len() as int) =~= decimal(a));
    assert(na.subrange(prefix.len() as int, na.len() as int) =~= decimal(b));
    lemma_decimal_injective(a, b);
}

/// The text of a decimal digit.
fn digit_str(d: usize) -> (res: &'static str)
    requires
        d < 10,
    ensures
        res@ == seq![digit_char(d as nat)],
{
    if d == 0 {
        proof { reveal_strlit("0"); }
        "0"
    } else if d == 1 {
        proof { reveal_strlit("1"); }
        "1"
    } else if d == 2 {
        proof { reveal_strlit("2"); }
        "2"
    } else if d == 3 {
        proof { reveal_strlit("3"); }
        "3"
    } else if d == 4 {
        proof { reveal_strlit("4"); }
        "4"
    } else if d == 5 {
        proof { reveal_strlit("5"); }
        "5"
    } else if d == 6 {
        proof { reveal_strlit("6"); }
        "6"
    } else if d == 7 {
        proof { reveal_strlit("7"); }
        "7"
    } else if d == 8 {
        proof { reveal_strlit("8"); }
        "8"
    } else {
        proof { reveal_strlit("9"); }
        "9"
    }
}

/// Append the decimal representation of `n` to `s`.
fn append_decimal(s: &mut String, n: usize)
    ensures
        final(s)@ == old(s)@ + decimal(n as nat),
    decreases n,
{
    if n < 10 {
        s.append(digit_str(n));
    } else {
        append_decimal(s, n / 10);
        s.append(digit_str(n % 10));
        proof {
            assert(old(s)@ + decimal((n / 10) as nat) + seq![digit_char((n % 10) as nat)] =~= old(s)@ + decimal(n as nat));
        }
    }
}

/// The name made of `prefix` and the decimal representation of `j`.
pub fn make_numbered_name(prefix: &str, j: usize) -> (res: String)
    ensures
        res@ == numbered_name(prefix@, j as nat),
{
    let mut name = prefix.to_owned();
    append_decimal(&mut name, j);
    name
}

/// While the numbered names below `cur` all name nets of cell `c` and the net `u`
/// of `c` has no name, fewer than the nets of `c` were tried.
proof fn lemma_tried_names_bound(v: ChipView, c: u32, prefix: Seq<char>, cur: nat, u: usize)
    requires
        v.inv(),
        v.circuits.contains_key(c),
        v.circuits[c].nets.contains(u),
        v.nets[u].name is None,
        forall|k: nat| k < cur ==> #[trigger] v.circuits[c].nets_by_name.contains_key(numbered_name(prefix, k)),
    ensures
        cur < v.circuits[c].nets.len(),
        v.circuits[c].nets.len() <= usize::MAX,
{
    let names = v.circuits[c].nets_by_name;
    let tn = Seq::new(cur, |k: int| names[numbered_name(prefix, k as nat)]);
    assert forall|i: int, j: int| 0 <= i < tn.len() && 0 <= j < tn.len() && i != j implies tn[i] != tn[j] by {
        assert(names.contains_key(numbered_name(prefix, i as nat)));
        assert(names.contains_key(numbered_name(prefix, j as nat)));
        if tn[i] == tn[j] {
            assert(v.nets[tn[i]].name == Some(numbered_name(prefix, i as nat)));
            assert(v.nets[tn[j]].name == Some(numbered_name(prefix, j as nat)));
            lemma_numbered_name_injective(prefix, i as nat, j as nat);
        }
    }
    let others = v.circuits[c].nets.remove(u);
    assert(tn.to_set().subset_of(others)) by {
        assert forall|n: usize| tn.to_set().contains(n) implies others.contains(n) by {
            let i = choose|i: int| 0 <= i < tn.len() && tn[i] == n;
            assert(names.contains_key(numbered_name(prefix, i as nat)));
            assert(v.nets[n].parent == c);
            assert(net_is_live(v.circuits, v.nets, n));
            assert(v.nets[n].name is Some);
        }
    }
    lemma_net_sets_finite_dom(v);
    tn.unique_seq_to_set();
    vstd::set_lib::lemma_len_subset(tn.to_set(), others);
    lemma_usize_below_finite(v.next_net);
    assert(v.circuits[c].nets.subset_of(Set::new(|x: usize| x < v.next_net))) by {
        assert forall|n: usize| v.circuits[c].nets.contains(n) implies n < v.next_net by {
            assert(v.nets.contains_key(n));
        }
    }
    vstd::set_lib::lemma_len_subset(v.circuits[c].nets, Set::new(|x: usize| x < v.next_net));
}

impl Chip {
    /// Find the first numbered name from `start` on that no net of `cell` has.
    /// Returns the name and its number.
    fn fresh_net_name(&self, cell: &CellId, prefix: &str, start: usize, u: &NetId) -> (res: (String, usize))
        requires
            self.wf(),
            self@.circuits.contains_key(cell@),
            self@.circuits[cell@].nets.contains(u@),
            self@.nets[u@].name is None,
            forall|k: nat| k < start ==> #[trigger] self@.circuits[cell@].nets_by_name.contains_key(numbered_name(prefix@, k)),
        ensures
            res.1 >= start,
            res.0@ == numbered_name(prefix@, res.1 as nat),
            !self@.circuits[cell@].nets_by_name.contains_key(res.0@),
            forall|k: nat| k < res.1 ==> #[trigger] self@.circuits[cell@].nets_by_name.contains_key(numbered_name(prefix@, k)),
            res.1 < self@.circuits[cell@].nets.len(),
            self@.circuits[cell@].nets.len() <= usize::MAX,
    {
        let mut j = start;
        proof {
            lemma_tried_names_bound(self@, cell@, prefix@, j as nat, u@);
        }
        loop
            invariant
                self.wf(),
                self@.circuits.contains_key(cell@),
                self@.circuits[cell@].nets.contains(u@),
                self@.nets[u@].name is None,
                j >= start,
                forall|k: nat| k < j ==> #[trigger] self@.circuits[cell@].nets_by_name.contains_key(numbered_name(prefix@, k)),
                j < self@.circuits[cell@].nets.len(),
                self@.circuits[cell@].nets.len() <= usize::MAX,
            decreases self@.circuits[cell@].nets.len() - j,
        {
            let name = make_numbered_name(prefix, j);
            if self.net_by_name(cell, name.as_str()).is_none() {
                return (name, j);
            }
            proof {
                assert forall|k: nat| k < j + 1 implies #[trigger] self@.circuits[cell@].nets_by_name.contains_key(numbered_name(prefix@, k)) by {
                    if k == j {
                        assert(name@ == numbered_name(prefix@, k));
                    }
                }
                lemma_tried_names_bound(self@, cell@, prefix@, (j + 1) as nat, u@);
            }
            j = j + 1;
        }
    }

    /// Give each unnamed net of a cell a name made of `prefix` and a number,
    /// the smallest numbers whose names are free, in the order in which the nets
    /// are visited (which is not specified).
    pub fn create_net_names_in_circuit(&mut self, circuit_id: &CellId, prefix: &str)
        requires
            old(self).wf(),
            old(self)@.circuits.contains_key(circuit_id@),
        ensures
            final(self).wf(),
            final(self).layers() == old(self).layers(),
            final(self).shapes_view() == old(self).shapes_view(),
            final(self)@.nets.dom() == old(self)@.nets.dom(),
            forall|n: usize| #[trigger] old(self)@.nets.contains_key(n) ==> {
                let x = old(self)@.nets[n];
                let y = final(self)@.nets[n];
                &&& y == NetView { name: y.name, ..x }
                &&& x.name is Some ==> y.name == x.name
                &&& x.name is None && !old(self)@.circuits[circuit_id@].nets.contains(n) ==> y.name is None
                &&& x.name is None && old(self)@.circuits[circuit_id@].nets.contains(n)
                    ==> exists|j: nat| y.name == Some(#[trigger] numbered_name(prefix@, j))
            },
            forall|n: usize, j: nat| #[trigger] named_with_number(old(self)@, final(self)@, circuit_id@, prefix@, n, j) ==> {
                &&& !old(self)@.circuits[circuit_id@].nets_by_name.contains_key(numbered_name(prefix@, j))
                &&& forall|k: nat| k < j ==> old(self)@.circuits[circuit_id@].nets_by_name.contains_key(#[trigger] numbered_name(prefix@, k))
                    || exists|n2: usize| #[trigger] named_with_number(old(self)@, final(self)@, circuit_id@, prefix@, n2, k)
            },
            final(self)@.circuits == old(self)@.circuits.insert(circuit_id@, CircuitView {
                nets_by_name: final(self)@.circuits[circuit_id@].nets_by_name,
                ..old(self)@.circuits[circuit_id@]
            }),
            final(self)@.pins == old(self)@.pins,
            final(self)@.pin_insts == old(self)@.pin_insts,
            final(self)@.instances == old(self)@.instances,
            final(self)@.circuits_by_name == old(self)@.circuits_by_name,
    {
        let ghost v0 = self@;
        let ghost c = circuit_id@;
        let all_nets = self.each_internal_net_vec(circuit_id);
        let ghost av = net_ids_view(all_nets@);
        let ghost f = |n: usize| v0.nets[n].name is None;
        let mut unnamed: Vec<NetId> = Vec::new();
        let mut k: usize = 0;
        while k < all_nets.len()
            invariant
                self@ == v0,
                self.wf(),
                v0.circuits.contains_key(c),
                c == circuit_id@,
                f == (|n: usize| v0.nets[n].name is None),
                av == net_ids_view(all_nets@),
                av.to_set() == v0.circuits[c].nets,
                k <= av.len(),
                net_ids_view(unnamed@) == av.subrange(0, k as int).filter(f),
            decreases av.len() - k,
        {
            let n = all_nets[k];
            proof {
                assert(av[k as int] == n@);
                assert(av.to_set().contains(n@));
                av.subrange(0, k as int).lemma_filter_push(n@, f);
                assert(av.subrange(0, k + 1) =~= av.subrange(0, k as int).push(n@));
            }
            if self.net_name(&n).is_none() {
                unnamed.push(n);
                assert(net_ids_view(unnamed@) =~= av.subrange(0, k as int).filter(f).push(n@));
            }
            k = k + 1;
        }
        proof {
            assert(av.subrange(0, k as int) =~= av);
            lemma_filter_to_set_usize(av, f);
        }
        let ghost uv = net_ids_view(unnamed@);
        let mut counter: usize = 0;
        let mut k: usize = 0;
        while k < unnamed.len()
            invariant
                self.wf(),
                self.layers() == old(self).layers(),
                self.shapes_view() == old(self).shapes_view(),
                v0 == old(self)@,
                v0.inv(),
                v0.circuits.contains_key(c),
                c == circuit_id@,
                uv == net_ids_view(unnamed@),
                uv.no_duplicates(),
                uv.to_set() == v0.circuits[c].nets.filter(|n: usize| v0.nets[n].name is None),
                k <= uv.len(),
                forall|kk: nat| kk < counter ==> #[trigger] self@.circuits[c].nets_by_name.contains_key(numbered_name(prefix@, kk)),
                self@.nets.dom() == v0.nets.dom(),
                forall|n: usize| #[trigger] v0.nets.contains_key(n) ==> {
                    let x = v0.nets[n];
                    let y = self@.nets[n];
                    &&& y == NetView { name: y.name, ..x }
                    &&& !uv.subrange(0, k as int).contains(n) ==> y.name == x.name
                    &&& uv.subrange(0, k as int).contains(n) ==> exists|j: nat| y.name == Some(#[trigger] numbered_name(prefix@, j))
                },
                self@.circuits == v0.circuits.insert(c, CircuitView {
                    nets_by_name: self@.circuits[c].nets_by_name,
                    ..v0.circuits[c]
                }),
                self@.pins == v0.pins,
                self@.pin_insts == v0.pin_insts,
                self@.instances == v0.instances,
                self@.circuits_by_name == v0.circuits_by_name,
                forall|t: Seq<char>| #[trigger] v0.circuits[c].nets_by_name.contains_key(t) ==> self@.circuits[c].nets_by_name.contains_key(t),
                forall|n: usize, j: nat| #[trigger] named_with_number(v0, self@, c, prefix@, n, j) ==> {
                    &&& !v0.circuits[c].nets_by_name.contains_key(numbered_name(prefix@, j))
                    &&& forall|kk: nat| kk < j ==> v0.circuits[c].nets_by_name.contains_key(#[trigger] numbered_name(prefix@, kk))
                        || exists|n2: usize| #[trigger] named_with_number(v0, self@, c, prefix@, n2, kk)
                },
            decreases uv.len() - k,
        {
            let u = unnamed[k];
            let ghost s = self@;
            proof {
                assert(uv[k as int] == u@);
                assert(uv.to_set().contains(u@));
                assert(!uv.subrange(0, k as int).contains(u@)) by {
                    if uv.subrange(0, k as int).contains(u@) {
                        let j = choose|j: int| 0 <= j < k && #[trigger] uv.subrange(0, k as int)[j] == u@;
                        assert(uv[j] == uv[k as int]);
                    }
                }
                assert(v0.nets.contains_key(u@));
                assert(s.nets[u@].name is None);
                assert(s.circuits[c].nets.contains(u@));
            }
            let (name, j) = self.fresh_net_name(circuit_id, prefix, counter, &u);
            let ghost name_v = name@;
            self.rename_net(&u, Some(name));
            proof {
                assert(s.nets[u@].parent == c);
                assert(uv.subrange(0, k + 1) =~= uv.subrange(0, k as int).push(u@));
                assert forall|kk: nat| kk < j + 1 implies #[trigger] self@.circuits[c].nets_by_name.contains_key(numbered_name(prefix@, kk)) by {
                    assert(s.circuits[c].nets_by_name.contains_key(numbered_name(prefix@, kk)) || kk == j);
                }
                assert forall|n: usize| #[trigger] v0.nets.contains_key(n) implies {
                    let x = v0.nets[n];
                    let y = self@.nets[n];
                    &&& y == NetView { name: y.name, ..x }
                    &&& !uv.subrange(0, k + 1).contains(n) ==> y.name == x.name
                    &&& uv.subrange(0, k + 1).contains(n) ==> exists|jj: nat| y.name == Some(#[trigger] numbered_name(prefix@, jj))
                } by {
                    if n == u@ {
                        assert(!s.circuits[c].nets_by_name.contains_key(name_v));
                        assert(self@.nets[n] == NetView { name: Some(name_v), ..s.nets[n] });
                        assert(self@.nets[n].name == Some(numbered_name(prefix@, j as nat)));
                        assert(uv.subrange(0, k + 1).contains(n)) by {
                            assert(uv.subrange(0, k + 1)[k as int] == n);
                        }
                    } else {
                        assert(self@.nets[n] == s.nets[n]);
                        if uv.subrange(0, k + 1).contains(n) {
                            let i = choose|i: int| 0 <= i < k + 1 && #[trigger] uv.subrange(0, k + 1)[i] == n;
                            assert(i < k);
                            assert(uv.subrange(0, k as int)[i] == n);
                        }
                        if uv.subrange(0, k as int).contains(n) {
                            let i = choose|i: int| 0 <= i < k && #[trigger] uv.subrange(0, k as int)[i] == n;
                            assert(uv.subrange(0, k + 1)[i] == n);
                        }
                    }
                }
                assert(self@.circuits =~= v0.circuits.insert(c, CircuitView {
                    nets_by_name: self@.circuits[c].nets_by_name,
                    ..v0.circuits[c]
                }));
                let w = self@;
                assert(w.circuits[c].nets_by_name == s.circuits[c].nets_by_name.insert(name_v, u@));
                assert forall|t: Seq<char>| #[trigger] v0.circuits[c].nets_by_name.contains_key(t)
                    implies w.circuits[c].nets_by_name.contains_key(t) by {
                    assert(s.circuits[c].nets_by_name.contains_key(t));
                }
                assert forall|n: usize, jn: nat| #[trigger] named_with_number(v0, w, c, prefix@, n, jn) implies {
                    &&& !v0.circuits[c].nets_by_name.contains_key(numbered_name(prefix@, jn))
                    &&& forall|kk: nat| kk < jn ==> v0.circuits[c].nets_by_name.contains_key(#[trigger] numbered_name(prefix@, kk))
                        || exists|n2: usize| #[trigger] named_with_number(v0, w, c, prefix@, n2, kk)
                } by {
                    if n == u@ {
                        lemma_numbered_name_injective(prefix@, j as nat, jn);
                        assert(jn == j);
                        if v0.circuits[c].nets_by_name.contains_key(numbered_name(prefix@, jn)) {
                            assert(s.circuits[c].nets_by_name.contains_key(name_v));
                        }
                        assert forall|kk: nat| kk < jn implies v0.circuits[c].nets_by_name.contains_key(#[trigger] numbered_name(prefix@, kk))
                            || exists|n2: usize| #[trigger] named_with_number(v0, w, c, prefix@, n2, kk) by {
                            let t = numbered_name(prefix@, kk);
                            assert(s.circuits[c].nets_by_name.contains_key(t));
                            let n2 = s.circuits[c].nets_by_name[t];
                            assert(s.nets.contains_key(n2) && s.nets[n2].parent == c && s.nets[n2].name == Some(t));
                            assert(net_is_live(s.circuits, s.nets, n2));
                            assert(s.circuits[c].nets.contains(n2));
                            assert(n2 != u@);
                            assert(w.nets[n2] == s.nets[n2]);
                            assert(v0.nets.contains_key(n2));
                            if v0.nets[n2].name is None {
                                assert(named_with_number(v0, w, c, prefix@, n2, kk));
                            } else {
                                if uv.subrange(0, k as int).contains(n2) {
                                    let i = choose|i: int| 0 <= i < k && #[trigger] uv.subrange(0, k as int)[i] == n2;
                                    assert(uv[i] == n2);
                                    assert(uv.to_set().contains(n2));
                                }
                                assert(v0.nets[n2].name == Some(t));
                                assert(net_is_live(v0.circuits, v0.nets, n2));
                            }
                        }
                    } else {
                        assert(w.nets[n] == s.nets[n]);
                        assert(named_with_number(v0, s, c, prefix@, n, jn));
                        assert forall|kk: nat| kk < jn implies v0.circuits[c].nets_by_name.contains_key(#[trigger] numbered_name(prefix@, kk))
                            || exists|n2: usize| #[trigger] named_with_number(v0, w, c, prefix@, n2, kk) by {
                            if !v0.circuits[c].nets_by_name.contains_key(numbered_name(prefix@, kk)) {
                                let n2 = choose|n2: usize| #[trigger] named_with_number(v0, s, c, prefix@, n2, kk);
                                assert(n2 != u@);
                                assert(w.nets[n2] == s.nets[n2]);
                                assert(named_with_number(v0, w, c, prefix@, n2, kk));
                            }
                        }
                    }
                }
            }
            counter = j + 1;
            k = k + 1;
        }
        proof {
            assert(uv.subrange(0, k as int) =~= uv);
            assert forall|n: usize| #[trigger] v0.nets.contains_key(n) implies
                (uv.contains(n) <==> (v0.nets[n].name is None && v0.circuits[c].nets.contains(n))) by {
                if uv.contains(n) {
                    assert(uv.to_set().contains(n));
                }
                if v0.nets[n].name is None && v0.circuits[c].nets.contains(n) {
                    assert(uv.to_set().contains(n));
                }
            }
        }
    }
}

/// Net `n` of cell `c`, unnamed in `v0`, bears in `v` the name made of
/// `prefix` and the number `j`.
pub open spec fn named_with_number(v0: ChipView, v: ChipView, c: u32, prefix: Seq<char>, n: usize, j: nat) -> bool {
    &&& v0.nets.contains_key(n)
    &&& v0.nets[n].name is None
    &&& v0.circuits[c].nets.contains(n)
    &&& v.nets[n].name == Some(numbered_name(prefix, j))
}

/// Inserting a shape and removing it again gives back the shapes and the links
/// of nets and pins; only the identifier counter and the new container stay.
pub proof fn law_insert_remove_shape(v: ShapesView, g: Geometry<Coord>, cell: u32, layer: u16)
    requires
        v.inv(),
    ensures
        ({
            let s = v.next_shape;
            let v1 = ShapesView {
                next_shape: (v.next_shape + 1) as u32,
                shapes: v.shapes.insert(s, ShapeView { geometry: g, cell: cell, layer: layer, net: None, pin: None }),
                containers: v.containers.insert((cell, layer)),
                ..v
            };
            let v2 = shapes_after_removal(v1, s);
            &&& v2.shapes == v.shapes
            &&& v2.net_shapes == v.net_shapes
            &&& v2.pin_shapes == v.pin_shapes
        }),
{
    let s = v.next_shape;
    let v1 = ShapesView {
        next_shape: (v.next_shape + 1) as u32,
        shapes: v.shapes.insert(s, ShapeView { geometry: g, cell: cell, layer: layer, net: None, pin: None }),
        containers: v.containers.insert((cell, layer)),
        ..v
    };
    assert(!v.shapes.contains_key(s));
    assert(shapes_after_removal(v1, s).shapes =~= v.shapes);
}

/// Linking a shape to a net, or unlinking it, keeps the links between shapes and
/// nets consistent: afterwards the shape lies among the shapes of exactly that
/// net, and every other shape keeps its data and the nets it lies among.
pub proof fn law_set_net_of_shape(v: ShapesView, s: u32, net: Option<usize>)
    requires
        v.inv(),
        v.shapes.contains_key(s),
    ensures
        ({
            let w = shapes_with_net(v, s, net);
            &&& w.inv()
            &&& w.shapes == v.shapes.insert(s, ShapeView { net: net, ..v.shapes[s] })
            &&& forall|m: usize| #[trigger] shapes_of(w.net_shapes, m).contains(s) <==> net == Some(m)
            &&& forall|m: usize, x: u32| x != s ==>
                (#[trigger] shapes_of(w.net_shapes, m).contains(x) <==> shapes_of(v.net_shapes, m).contains(x))
            &&& w.pin_shapes == v.pin_shapes
        }),
{
    let w = shapes_with_net(v, s, net);
    if v.shapes[s].net == net {
        assert(v.shapes.insert(s, ShapeView { net: net, ..v.shapes[s] }) =~= v.shapes);
    } else {
        assert forall|m: usize| #[trigger] shapes_of(w.net_shapes, m).contains(s) <==> net == Some(m) by {
            if v.shapes[s].net != Some(m) && net != Some(m) {
                if shapes_of(v.net_shapes, m).contains(s) {
                    assert(v.shapes[s].net == Some(m));
                }
            }
        }
        assert(w.inv()) by {
            assert forall|n: usize, x: u32| #[trigger] shapes_of(w.net_shapes, n).contains(x) && #[trigger] w.shapes.contains_key(x)
                implies w.shapes[x].net == Some(n) by {
                if x != s {
                    assert(shapes_of(v.net_shapes, n).contains(x));
                }
            }
            assert forall|x: u32| #[trigger] w.shapes.contains_key(x) && w.shapes[x].net is Some
                implies shapes_of(w.net_shapes, w.shapes[x].net.unwrap()).contains(x) by {
                if x != s {
                    assert(shapes_of(v.net_shapes, v.shapes[x].net.unwrap()).contains(x));
                }
            }
            assert forall|n: usize, x: u32| #[trigger] shapes_of(w.net_shapes, n).contains(x) implies x < w.next_shape by {
                if x != s {
                    assert(shapes_of(v.net_shapes, n).contains(x));
                }
            }
        }
    }
}

/// Removing a shape takes it out of the shapes and out of the shapes of every net
/// and pin; every other shape keeps its data and the nets and pins it lies among.
pub proof fn law_remove_shape(v: ShapesView, s: u32)
    requires
        v.inv(),
        v.shapes.contains_key(s),
    ensures
        ({
            let w = shapes_after_removal(v, s);
            &&& w.inv()
            &&& w.shapes == v.shapes.remove(s)
            &&& forall|m: usize| !(#[trigger] shapes_of(w.net_shapes, m).contains(s))
            &&& forall|p: u32| !(#[trigger] shapes_of_pin_spec(w.pin_shapes, p).contains(s))
            &&& forall|m: usize, x: u32| x != s ==>
                (#[trigger] shapes_of(w.net_shapes, m).contains(x) <==> shapes_of(v.net_shapes, m).contains(x))
            &&& forall|p: u32, x: u32| x != s ==>
                (#[trigger] shapes_of_pin_spec(w.pin_shapes, p).contains(x) <==> shapes_of_pin_spec(v.pin_shapes, p).contains(x))
        }),
{
    let w = shapes_after_removal(v, s);
    assert forall|m: usize| !(#[trigger] shapes_of(w.net_shapes, m).contains(s)) by {
        if v.shapes[s].net != Some(m) && shapes_of(v.net_shapes, m).contains(s) {
            assert(v.shapes[s].net == Some(m));
        }
    }
    assert forall|p: u32| !(#[trigger] shapes_of_pin_spec(w.pin_shapes, p).contains(s)) by {
        if v.shapes[s].pin != Some(p) && shapes_of_pin_spec(v.pin_shapes, p).contains(s) {
            assert(v.shapes[s].pin == Some(p));
        }
    }
    assert(w.inv()) by {
        assert forall|n: usize, x: u32| #[trigger] shapes_of(w.net_shapes, n).contains(x) && #[trigger] w.shapes.contains_key(x)
            implies w.shapes[x].net == Some(n) by {
            assert(shapes_of(v.net_shapes, n).contains(x));
        }
        assert forall|x: u32| #[trigger] w.shapes.contains_key(x) && w.shapes[x].net is Some
            implies shapes_of(w.net_shapes, w.shapes[x].net.unwrap()).contains(x) by {
            assert(shapes_of(v.net_shapes, v.shapes[x].net.unwrap()).contains(x));
        }
        assert forall|n: usize, x: u32| #[trigger] shapes_of(w.net_shapes, n).contains(x) implies x < w.next_shape by {
            assert(shapes_of(v.net_shapes, n).contains(x));
        }
        assert forall|p: u32, x: u32| #[trigger] shapes_of_pin_spec(w.pin_shapes, p).contains(x) && #[trigger] w.shapes.contains_key(x)
            implies w.shapes[x].pin == Some(p) by {
            assert(shapes_of_pin_spec(v.pin_shapes, p).contains(x));
        }
        assert forall|x: u32| #[trigger] w.shapes.contains_key(x) && w.shapes[x].pin is Some
            implies shapes_of_pin_spec(w.pin_shapes, w.shapes[x].pin.unwrap()).contains(x) by {
            assert(shapes_of_pin_spec(v.pin_shapes, v.shapes[x].pin.unwrap()).contains(x));
        }
        assert forall|p: u32, x: u32| #[trigger] shapes_of_pin_spec(w.pin_shapes, p).contains(x) implies x < w.next_shape by {
            assert(shapes_of_pin_spec(v.pin_shapes, p).contains(x));
        }
    }
}

/// Moving a shape to another net and back to its previous net gives back the
/// shapes and the shapes of every net.
pub proof fn law_move_shape_to_net_and_back(v: ShapesView, s: u32, n: usize)
    requires
        v.inv(),
        v.shapes.contains_key(s),
        v.shapes[s].net != Some(n),
    ensures
        ({
            let prev = v.shapes[s].net;
            let v1 = ShapesView {
                shapes: v.shapes.insert(s, ShapeView { net: Some(n), ..v.shapes[s] }),
                net_shapes: net_links_moved(v.net_shapes, s, prev, Some(n)),
                ..v
            };
            let v2 = ShapesView {
                shapes: v1.shapes.insert(s, ShapeView { net: prev, ..v1.shapes[s] }),
                net_shapes: net_links_moved(v1.net_shapes, s, Some(n), prev),
                ..v1
            };
            &&& v2.shapes == v.shapes
            &&& forall|m: usize| #[trigger] shapes_of(v2.net_shapes, m) == shapes_of(v.net_shapes, m)
        }),
{
    let prev = v.shapes[s].net;
    let v1 = ShapesView {
        shapes: v.shapes.insert(s, ShapeView { net: Some(n), ..v.shapes[s] }),
        net_shapes: net_links_moved(v.net_shapes, s, prev, Some(n)),
        ..v
    };
    let v2 = ShapesView {
        shapes: v1.shapes.insert(s, ShapeView { net: prev, ..v1.shapes[s] }),
        net_shapes: net_links_moved(v1.net_shapes, s, Some(n), prev),
        ..v1
    };
    assert(v2.shapes =~= v.shapes);
    assert(!shapes_of(v.net_shapes, n).contains(s));
    assert forall|m: usize| #[trigger] shapes_of(v2.net_shapes, m) == shapes_of(v.net_shapes, m) by {
        if m == n {
            assert(shapes_of(v2.net_shapes, m) =~= shapes_of(v.net_shapes, m));
        } else if prev == Some(m) {
            assert(shapes_of(v.net_shapes, m).contains(s));
            assert(shapes_of(v2.net_shapes, m) =~= shapes_of(v.net_shapes, m));
        } else {
            assert(shapes_of(v2.net_shapes, m) =~= shapes_of(v.net_shapes, m));
        }
    }
}

/// The name of an instance copied out of instance `a` from its instance `b`.
pub open spec fn copied_instance_name(a: Seq<char>, b: Seq<char>) -> Seq<char> {
    a + ":"@ + b
}

/// While the name `base` and the numbered names below `cur` made of `base` and
/// "_" all name instances of cell `c`, fewer than the instances of `c` were tried.
proof fn lemma_tried_instance_names_bound(v: ChipView, c: u32, base: Seq<char>, cur: nat)
    requires
        v.inv(),
        v.circuits.contains_key(c),
        v.circuits[c].instances_by_name.contains_key(base),
        forall|k: nat| k < cur ==> #[trigger] v.circuits[c].instances_by_name.contains_key(numbered_name(base + "_"@, k)),
    ensures
        cur < v.circuits[c].instances.len(),
        v.circuits[c].instances.len() <= usize::MAX,
{
    let names = v.circuits[c].instances_by_name;
    let pre = base + "_"@;
    let tn = Seq::new(cur, |k: int| names[numbered_name(pre, k as nat)]).push(names[base]);
    let nm = |k: int| if k < cur { numbered_name(pre, k as nat) } else { base };
    assert forall|i: int| 0 <= i < tn.len() implies names.contains_key(nm(i)) && tn[i] == names[nm(i)]
        && v.instances[tn[i]].name == Some(nm(i)) by {
        if i < cur {
            assert(names.contains_key(numbered_name(pre, i as nat)));
        }
    }
    assert forall|i: int, j: int| 0 <= i < tn.len() && 0 <= j < tn.len() && i != j implies tn[i] != tn[j] by {
        if tn[i] == tn[j] {
            assert(nm(i) == nm(j));
            if i < cur && j < cur {
                lemma_numbered_name_injective(pre, i as nat, j as nat);
            } else {
                let k = if i < cur { i } else { j };
                lemma_decimal_len(k as nat);
                assert(numbered_name(pre, k as nat).len() > base.len());
            }
        }
    }
    let all = v.circuits[c].instances;
    assert(tn.to_set().subset_of(all)) by {
        assert forall|i: usize| tn.to_set().contains(i) implies all.contains(i) by {
            let j = choose|j: int| 0 <= j < tn.len() && tn[j] == i;
            assert(names.contains_key(nm(j)));
        }
    }
    tn.unique_seq_to_set();
    vstd::set_lib::lemma_len_subset(tn.to_set(), all);
    lemma_usize_below_finite(v.next_inst);
    assert(all.subset_of(Set::new(|x: usize| x < v.next_inst))) by {
        assert forall|i: usize| all.contains(i) implies i < v.next_inst by {
            assert(v.instances.contains_key(i));
        }
    }
    vstd::set_lib::lemma_len_subset(all, Set::new(|x: usize| x < v.next_inst));
}

impl Chip {
    /// A name for an instance of cell `cell` that is copied out of instance `a`
    /// from its instance `b`: "a:b" if that is free, otherwise "a:b_i" with the
    /// smallest number `i` whose name is free.
    fn fresh_instance_name(&self, cell: &CellId, a: &str, b: &str) -> (res: String)
        requires
            self.wf(),
            self@.circuits.contains_key(cell@),
        ensures
            !self@.circuits[cell@].instances_by_name.contains_key(res@),
            res@ == copied_instance_name(a@, b@) || exists|i: nat| res@ == #[trigger] numbered_name(copied_instance_name(a@, b@) + "_"@, i),
            first_free_copy_name(self@.circuits[cell@].instances_by_name, a@, b@, res@),
    {
        let mut base = a.to_owned();
        proof { reveal_strlit(":"); }
        base.append(":");
        base.append(b);
        let ghost bv = base@;
        assert(bv == copied_instance_name(a@, b@));
        if self.cell_instance_by_name(cell, base.as_str()).is_none() {
            return base;
        }
        let mut prefix = base.clone();
        proof { reveal_strlit("_"); }
        prefix.append("_");
        assert(prefix@ == bv + "_"@);
        let mut i: usize = 0;
        proof {
            lemma_tried_instance_names_bound(self@, cell@, bv, 0);
        }
        loop
            invariant
                self.wf(),
                self@.circuits.contains_key(cell@),
                self@.circuits[cell@].instances_by_name.contains_key(bv),
                bv == copied_instance_name(a@, b@),
                prefix@ == bv + "_"@,
                forall|k: nat| k < i ==> #[trigger] self@.circuits[cell@].instances_by_name.contains_key(numbered_name(prefix@, k)),
                i < self@.circuits[cell@].instances.len(),
                self@.circuits[cell@].instances.len() <= usize::MAX,
            decreases self@.circuits[cell@].instances.len() - i,
        {
            let name = make_numbered_name(prefix.as_str(), i);
            if self.cell_instance_by_name(cell, name.as_str()).is_none() {
                proof {
                    assert(name@ == numbered_name(copied_instance_name(a@, b@) + "_"@, i as nat));
                    assert forall|j: nat| j < i implies self@.circuits[cell@].instances_by_name.contains_key(
                        #[trigger] numbered_name(copied_instance_name(a@, b@) + "_"@, j)) by {
                        assert(numbered_name(prefix@, j) == numbered_name(copied_instance_name(a@, b@) + "_"@, j));
                    }
                }
                return name;
            }
            proof {
                assert forall|k: nat| k < i + 1 implies #[trigger] self@.circuits[cell@].instances_by_name.contains_key(numbered_name(prefix@, k)) by {
                    if k == i {
                        assert(name@ == numbered_name(prefix@, k));
                    }
                }
                lemma_tried_instance_names_bound(self@, cell@, bv, (i + 1) as nat);
            }
            i = i + 1;
        }
    }
}

/// The nets of template `t` in `m` have copies in cell `p`, created from the
/// net counter of `v0` on, one per entry of `m`.
pub open spec fn net_copies_ok(v0: ChipView, v: ChipView, t: u32, p: u32, m: Map<usize, usize>) -> bool {
    &&& m.dom().subset_of(v0.circuits[t].nets)
    &&& v.next_net == v0.next_net + m.dom().len()
    &&& forall|n: usize| #[trigger] m.contains_key(n) ==> v0.next_net <= m[n] && v.nets.contains_key(m[n])
        && v.nets[m[n]].parent == p && v.nets[m[n]].name == copy_net_name(v0, p, n)
    &&& forall|a: usize, b: usize| #[trigger] m.contains_key(a) && #[trigger] m.contains_key(b) && a != b ==> m[a] != m[b]
    &&& forall|x: usize| #[trigger] v.nets.contains_key(x) && !v0.nets.contains_key(x)
        ==> exists|n: usize| #[trigger] m.contains_key(n) && m[n] == x
    &&& forall|n: usize| #[trigger] v0.nets.contains_key(n) ==> v.nets.contains_key(n)
        && v.nets[n].name == v0.nets[n].name && v.nets[n].parent == v0.nets[n].parent
}

/// The name of the copy in cell `p` of net `n`: the name of `n`, unless that
/// name is taken in `p`.
pub open spec fn copy_net_name(v0: ChipView, p: u32, n: usize) -> Option<Seq<char>> {
    match v0.nets[n].name {
        Some(s) => if v0.circuits[p].nets_by_name.contains_key(s) { None } else { Some(s) },
        None => None,
    }
}

impl Chip {
    /// The copy in cell `parent` of net `old_net` of template `t`: the one in
    /// `m`, or a new net, named as `old_net` unless that name is taken in `parent`.
    fn map_net(&mut self, m: &mut FnvHashMap<usize, usize>, parent: &CellId, old_net: &NetId,
        Ghost(v0): Ghost<ChipView>, Ghost(t): Ghost<u32>) -> (res: NetId)
        requires
            old(self).wf(),
            v0.inv(),
            v0.circuits.contains_key(t),
            v0.circuits.contains_key(parent@),
            old(self)@.circuits.contains_key(parent@),
            old(self)@.nets.contains_key(old_net@),
            v0.circuits[t].nets.contains(old_net@),
            v0.next_net + v0.circuits[t].nets.len() <= usize::MAX,
            net_copies_ok(v0, old(self)@, t, parent@, old(m)@),
        ensures
            final(self).wf(),
            final(self).layers() == old(self).layers(),
            final(self).shapes_view() == old(self).shapes_view(),
            final(m)@.contains_key(old_net@),
            final(m)@[old_net@] == res@,
            old(m)@.contains_key(old_net@) ==> final(m)@ == old(m)@,
            final(m)@.dom() == old(m)@.dom().insert(old_net@),
            forall|n: usize| #[trigger] old(m)@.contains_key(n) ==> final(m)@[n] == old(m)@[n],
            net_copies_ok(v0, final(self)@, t, parent@, final(m)@),
            final(self)@.instances == old(self)@.instances,
            final(self)@.pins == old(self)@.pins,
            final(self)@.pin_insts == old(self)@.pin_insts,
            final(self)@.circuits_by_name == old(self)@.circuits_by_name,
            final(self)@.circuits.dom() == old(self)@.circuits.dom(),
            forall|c: u32| #[trigger] old(self)@.circuits.contains_key(c) && c != parent@ ==> final(self)@.circuits[c] == old(self)@.circuits[c],
            final(self)@.circuits[parent@] == (CircuitView {
                nets: final(self)@.circuits[parent@].nets,
                nets_by_name: final(self)@.circuits[parent@].nets_by_name,
                ..old(self)@.circuits[parent@]
            }),
            old(self)@.nets.dom().subset_of(final(self)@.nets.dom()),
            forall|n: usize| #[trigger] old(self)@.nets.contains_key(n) ==> final(self)@.nets[n] == old(self)@.nets[n],
            final(self)@.nets.dom() == old(self)@.nets.dom().insert(res@),
            final(self)@.nets[res@].parent == parent@,
            final(self)@.next_inst == old(self)@.next_inst,
            final(self)@.next_pin_inst == old(self)@.next_pin_inst,
    {
        let ghost s = self@;
        match fnv_map_get(m, &old_net.0) {
            Some(n) => {
                let res = NetId(*n);
                proof {
                    assert(m@.dom() =~= m@.dom().insert(old_net@));
                    assert(self@.nets.dom() =~= self@.nets.dom().insert(res@));
                }
                res
            },
            None => {
                // Keep the name of the net unless it is taken in the parent cell.
                let name = match self.net_name(old_net) {
                    Some(name) => {
                        if self.net_by_name(parent, name.as_str()).is_some() {
                            None
                        } else {
                            Some(name)
                        }
                    },
                    None => None,
                };
                proof {
                    assert(m@.dom().insert(old_net@).subset_of(v0.circuits[t].nets));
                    lemma_net_sets_finite_dom(v0);
                    vstd::set_lib::lemma_len_subset(m@.dom().insert(old_net@), v0.circuits[t].nets);
                    assert(v0.nets.contains_key(old_net@) && v0.nets[old_net@].parent == t);
                    assert(s.nets[old_net@].name == v0.nets[old_net@].name);
                    if let Some(sn) = v0.nets[old_net@].name {
                        let p = parent@;
                        assert(s.circuits[p].nets_by_name.contains_key(sn) <==> v0.circuits[p].nets_by_name.contains_key(sn)) by {
                            if v0.circuits[p].nets_by_name.contains_key(sn) {
                                let x = v0.circuits[p].nets_by_name[sn];
                                assert(v0.nets.contains_key(x) && v0.nets[x].parent == p && v0.nets[x].name == Some(sn));
                                assert(net_is_live(s.circuits, s.nets, x));
                            }
                            if s.circuits[p].nets_by_name.contains_key(sn) {
                                let x = s.circuits[p].nets_by_name[sn];
                                assert(s.nets.contains_key(x) && s.nets[x].parent == p && s.nets[x].name == Some(sn));
                                if v0.nets.contains_key(x) {
                                    assert(net_is_live(v0.circuits, v0.nets, x));
                                } else {
                                    let n2 = choose|n2: usize| #[trigger] old(m)@.contains_key(n2) && old(m)@[n2] == x;
                                    assert(copy_net_name(v0, p, n2) == Some(sn));
                                    assert(v0.nets[n2].name == Some(sn));
                                    assert(v0.circuits[t].nets.contains(n2));
                                    assert(net_is_live(v0.circuits, v0.nets, n2));
                                    assert(net_is_live(v0.circuits, v0.nets, old_net@));
                                    assert(v0.circuits[t].nets_by_name[sn] == n2);
                                    assert(v0.circuits[t].nets_by_name[sn] == old_net@);
                                }
                            }
                        }
                    }
                    assert(opt_name(name) == copy_net_name(v0, parent@, old_net@));
                }
                let new_net = self.create_net(parent, name);
                fnv_map_insert(m, old_net.0, new_net.0);
                proof {
                    let m1 = m@;
                    assert(m1.dom() =~= old(m)@.dom().insert(old_net@));
                    assert forall|n: usize| #[trigger] m1.contains_key(n) implies v0.next_net <= m1[n]
                        && self@.nets.contains_key(m1[n]) && self@.nets[m1[n]].parent == parent@
                        && self@.nets[m1[n]].name == copy_net_name(v0, parent@, n) by {
                        if n != old_net@ {
                            assert(old(m)@.contains_key(n));
                        }
                    }
                    assert forall|a: usize, b: usize| #[trigger] m1.contains_key(a) && #[trigger] m1.contains_key(b) && a != b
                        implies m1[a] != m1[b] by {
                        if a != old_net@ && b != old_net@ {
                            assert(old(m)@.contains_key(a) && old(m)@.contains_key(b));
                        } else if a == old_net@ {
                            assert(s.nets.contains_key(m1[b]));
                        } else {
                            assert(s.nets.contains_key(m1[a]));
                        }
                    }
                    assert forall|x: usize| #[trigger] self@.nets.contains_key(x) && !v0.nets.contains_key(x)
                        implies exists|n: usize| #[trigger] m1.contains_key(n) && m1[n] == x by {
                        if x == new_net@ {
                            assert(m1.contains_key(old_net@));
                        } else {
                            let n2 = choose|n2: usize| #[trigger] old(m)@.contains_key(n2) && old(m)@[n2] == x;
                            assert(m1.contains_key(n2));
                        }
                    }
                    assert forall|n: usize| #[trigger] v0.nets.contains_key(n) implies self@.nets.contains_key(n)
                        && self@.nets[n].name == v0.nets[n].name && self@.nets[n].parent == v0.nets[n].parent by {
                        assert(s.nets.contains_key(n));
                    }
                    assert(self@.circuits.dom() =~= s.circuits.dom());
                    assert(s.nets.dom().subset_of(self@.nets.dom()));
                    assert(self@.nets.dom() =~= s.nets.dom().insert(new_net@));
                }
                new_net
            },
        }
    }
}

/// The template of an instance inside the template of instance `ci` does not
/// contain the parent of `ci`, directly or through other cells.
proof fn lemma_flatten_no_cycle(v: ChipView, ci: usize, sub: usize)
    requires
        v.inv(),
        v.instances.contains_key(ci),
        v.instances.contains_key(sub),
        v.instances[sub].parent == v.instances[ci].template,
    ensures
        !is_ancestor_or_self(v.circuits, v.instances[sub].template, v.instances[ci].parent),
{
    let p = v.instances[ci].parent;
    let t = v.instances[ci].template;
    let st = v.instances[sub].template;
    lemma_instance_edge(v, ci);
    lemma_instance_edge(v, sub);
    if is_ancestor_or_self(v.circuits, st, p) {
        lemma_ancestor_edge(v.circuits, t, p);
        lemma_ancestor_trans(v.circuits, st, p, t);
        assert(!is_ancestor_or_self(v.circuits, st, t));
    }
}

/// A cell has at most as many pins as the chip.
proof fn lemma_cell_pins_bound(v: ChipView, c: u32)
    requires
        v.inv(),
        v.circuits.contains_key(c),
    ensures
        v.circuits[c].pins.len() <= v.pins.dom().len(),
        v.pins.dom().finite(),
{
    lemma_u32_below_finite(v.next_pin);
    assert(v.pins.dom().subset_of(Set::new(|x: u32| x < v.next_pin)));
    vstd::set_lib::lemma_set_subset_finite(Set::new(|x: u32| x < v.next_pin), v.pins.dom());
    let ps = v.circuits[c].pins;
    assert(ps.to_set().subset_of(v.pins.dom())) by {
        assert forall|x: u32| ps.to_set().contains(x) implies v.pins.contains_key(x) by {
            let k = choose|k: int| 0 <= k < ps.len() && ps[k] == x;
        }
    }
    ps.unique_seq_to_set();
    vstd::set_lib::lemma_len_subset(ps.to_set(), v.pins.dom());
}

/// Map net `k` to net `v` in the association list `keys`/`vals`: overwrite the
/// value of `k` if it is listed, else append the pair.
fn assoc_set(keys: &mut Vec<NetId>, vals: &mut Vec<NetId>, k: NetId, v: NetId)
    requires
        old(keys)@.len() == old(vals)@.len(),
        net_ids_view(old(keys)@).no_duplicates(),
    ensures
        final(keys)@.len() == final(vals)@.len(),
        net_ids_view(final(keys)@).no_duplicates(),
        final(keys)@.len() == old(keys)@.len() || final(keys)@.len() == old(keys)@.len() + 1,
        net_ids_view(final(keys)@).contains(k@),
        forall|i: int| 0 <= i < final(keys)@.len() ==> (#[trigger] final(keys)@[i]@ == k@ && final(vals)@[i]@ == v@)
            || (i < old(keys)@.len() && final(keys)@[i]@ == old(keys)@[i]@ && final(vals)@[i]@ == old(vals)@[i]@),
        forall|i: int| 0 <= i < old(keys)@.len() ==> #[trigger] final(keys)@[i] == old(keys)@[i],
        forall|i: int| 0 <= i < final(keys)@.len() && #[trigger] final(keys)@[i]@ == k@ ==> final(vals)@[i]@ == v@,
{
    let mut i: usize = 0;
    while i < keys.len() && keys[i].0 != k.0
        invariant
            keys@ == old(keys)@,
            vals@ == old(vals)@,
            keys@.len() == vals@.len(),
            i <= keys@.len(),
            forall|j: int| 0 <= j < i ==> #[trigger] keys@[j]@ != k@,
        decreases keys@.len() - i,
    {
        i = i + 1;
    }
    if i < keys.len() {
        vals.set(i, v);
        proof {
            assert(net_ids_view(keys@)[i as int] == k@);
            assert forall|j: int| 0 <= j < keys@.len() && #[trigger] keys@[j]@ == k@ implies vals@[j]@ == v@ by {
                if j != i {
                    assert(net_ids_view(keys@)[j] == net_ids_view(keys@)[i as int]);
                }
            }
        }
    } else {
        keys.push(k);
        vals.push(v);
        proof {
            assert(net_ids_view(keys@) =~= net_ids_view(old(keys)@).push(k@));
            assert(!net_ids_view(old(keys)@).contains(k@)) by {
                if net_ids_view(old(keys)@).contains(k@) {
                    let j = choose|j: int| 0 <= j < old(keys)@.len() && net_ids_view(old(keys)@)[j] == k@;
                    assert(old(keys)@[j]@ == k@);
                }
            }
            assert(net_ids_view(keys@)[keys@.len() - 1] == k@);
        }
    }
}

/// `n` is the name that a copy of instance `b` out of instance `a` takes where
/// the names `names` are taken: "a:b", or else "a:b_i" for a number `i` such that
/// "a:b" and the names "a:b_j" with `j` below `i` are all taken.
pub open spec fn first_free_copy_name(names: Map<Seq<char>, usize>, a: Seq<char>, b: Seq<char>, n: Seq<char>) -> bool {
    ||| n == copied_instance_name(a, b)
    ||| names.contains_key(copied_instance_name(a, b)) && exists|i: nat| n == #[trigger] numbered_name(copied_instance_name(a, b) + "_"@, i)
        && forall|j: nat| j < i ==> names.contains_key(#[trigger] numbered_name(copied_instance_name(a, b) + "_"@, j))
}

/// The name `n` of a copy of instance `b` out of instance `a` is the first free
/// one among "a:b", "a:b_0", "a:b_1", ... where `names` are taken, when both have names.
pub open spec fn copy_named_first_free(names: Map<Seq<char>, usize>, a: Option<Seq<char>>, b: Option<Seq<char>>,
    n: Option<Seq<char>>) -> bool {
    match (a, b) {
        (Some(a), Some(b)) => n matches Some(x) && first_free_copy_name(names, a, b, x),
        _ => true,
    }
}

/// A name that is first free among the names `names` stays so among more names.
proof fn lemma_first_free_more_names(names: Map<Seq<char>, usize>, more: Map<Seq<char>, usize>,
    a: Option<Seq<char>>, b: Option<Seq<char>>, n: Option<Seq<char>>)
    requires
        copy_named_first_free(names, a, b, n),
        forall|x: Seq<char>| #[trigger] names.contains_key(x) ==> more.contains_key(x),
    ensures
        copy_named_first_free(more, a, b, n),
{
    if let (Some(a), Some(b)) = (a, b) {
        let x = n->Some_0;
        if x != copied_instance_name(a, b) {
            let i = choose|i: nat| x == #[trigger] numbered_name(copied_instance_name(a, b) + "_"@, i)
                && forall|j: nat| j < i ==> names.contains_key(#[trigger] numbered_name(copied_instance_name(a, b) + "_"@, j));
            assert forall|j: nat| j < i implies more.contains_key(#[trigger] numbered_name(copied_instance_name(a, b) + "_"@, j)) by {
                assert(names.contains_key(numbered_name(copied_instance_name(a, b) + "_"@, j)));
            }
        }
    }
}

/// A name that is first free among the names `names` stays so when the name
/// `a` of the instance that the copies come out of is taken away.
proof fn lemma_first_free_without_source(names: Map<Seq<char>, usize>, a: Seq<char>, b: Option<Seq<char>>, n: Option<Seq<char>>)
    requires
        copy_named_first_free(names, Some(a), b, n),
    ensures
        copy_named_first_free(names.remove(a), Some(a), b, n),
{
    reveal_strlit(":");
    reveal_strlit("_");
    if let Some(b) = b {
        let c = copied_instance_name(a, b);
        assert(c.len() > a.len());
        assert forall|j: nat| #[trigger] numbered_name(c + "_"@, j).len() > a.len() by {}
        let x = n->Some_0;
        if x != c {
            let i = choose|i: nat| x == #[trigger] numbered_name(c + "_"@, i)
                && forall|j: nat| j < i ==> names.contains_key(#[trigger] numbered_name(c + "_"@, j));
            assert(names.remove(a).contains_key(c));
            assert forall|j: nat| j < i implies names.remove(a).contains_key(#[trigger] numbered_name(c + "_"@, j)) by {
                assert(names.contains_key(numbered_name(c + "_"@, j)));
                assert(numbered_name(c + "_"@, j) != a);
            }
        }
    }
}

/// The copies keep following their templates, and their names stay first free,
/// from state `a` to state `b` when `b` keeps them and the template pins of
/// their pin instances, and keeps the names of instances of cell `p` except
/// the name of the instance `ci` that they come out of.
proof fn lemma_copies_follow_frame(v0: ChipView, a: ChipView, b: ChipView, first: int, s: Seq<usize>, n: int, ci: usize, p: u32)
    requires
        0 <= n <= s.len(),
        a.inv(),
        forall|j: int| 0 <= j < n ==> #[trigger] copy_follows_template(v0, a, (first + j) as usize, v0.instances[s[j]].template),
        forall|j: int| 0 <= j < n ==> #[trigger] copy_named_first_free(a.circuits[p].instances_by_name,
            v0.instances[ci].name, v0.instances[s[j]].name, a.instances[(first + j) as usize].name),
        forall|j: int| 0 <= j < n ==> #[trigger] a.instances.contains_key((first + j) as usize),
        forall|i: usize| #[trigger] a.instances.contains_key(i) && i != ci ==> b.instances.contains_key(i) && b.instances[i] == a.instances[i],
        ci < first,
        first + n <= usize::MAX,
        forall|q: usize| #[trigger] a.pin_insts.contains_key(q) ==> b.pin_insts.contains_key(q)
            && b.pin_insts[q].template_pin == a.pin_insts[q].template_pin,
        forall|x: Seq<char>| #[trigger] a.circuits[p].instances_by_name.contains_key(x) && Some(x) != v0.instances[ci].name
            ==> b.circuits[p].instances_by_name.contains_key(x),
    ensures
        forall|j: int| 0 <= j < n ==> #[trigger] copy_follows_template(v0, b, (first + j) as usize, v0.instances[s[j]].template),
        forall|j: int| 0 <= j < n ==> #[trigger] copy_named_first_free(b.circuits[p].instances_by_name,
            v0.instances[ci].name, v0.instances[s[j]].name, b.instances[(first + j) as usize].name),
{
    let an = a.circuits[p].instances_by_name;
    let bn = b.circuits[p].instances_by_name;
    assert forall|j: int| 0 <= j < n implies #[trigger] copy_follows_template(v0, b, (first + j) as usize, v0.instances[s[j]].template) by {
        let i = (first + j) as usize;
        assert(i as int == first + j);
        assert(i != ci);
        assert(a.instances.contains_key(i));
        assert(copy_follows_template(v0, a, i, v0.instances[s[j]].template));
        assert forall|kk: int| 0 <= kk < a.instances[i].pins.len() implies
            #[trigger] b.pin_insts[a.instances[i].pins[kk]].template_pin == a.pin_insts[a.instances[i].pins[kk]].template_pin by {
            assert(a.pin_insts.contains_key(a.instances[i].pins[kk]));
        }
    }
    assert forall|j: int| 0 <= j < n implies #[trigger] copy_named_first_free(bn,
        v0.instances[ci].name, v0.instances[s[j]].name, b.instances[(first + j) as usize].name) by {
        let i = (first + j) as usize;
        assert(i as int == first + j);
        assert(i != ci);
        assert(a.instances.contains_key(i));
        assert(copy_named_first_free(an, v0.instances[ci].name, v0.instances[s[j]].name, a.instances[i].name));
        match v0.instances[ci].name {
            Some(x) => {
                lemma_first_free_without_source(an, x, v0.instances[s[j]].name, a.instances[i].name);
                assert forall|y: Seq<char>| #[trigger] an.remove(x).contains_key(y) implies bn.contains_key(y) by {}
                lemma_first_free_more_names(an.remove(x), bn, v0.instances[ci].name, v0.instances[s[j]].name, a.instances[i].name);
            },
            None => {},
        }
    }
}

/// Copy `i` has the pin instances of a fresh instance of template `t`: one for
/// each pin of `t`, in the order of the pins.
pub open spec fn copy_follows_template(v0: ChipView, v: ChipView, i: usize, t: u32) -> bool {
    &&& v.instances[i].pins.len() == v0.circuits[t].pins.len()
    &&& forall|kk: int| 0 <= kk < v0.circuits[t].pins.len()
        ==> #[trigger] v.pin_insts[v.instances[i].pins[kk]].template_pin == v0.circuits[t].pins[kk]
}

/// The name of a copy of instance `b` taken out of instance `a`: "a:b", or
/// "a:b_" followed by a number, when both have names; none otherwise.
pub open spec fn copy_name_ok(name: Option<Seq<char>>, a: Option<Seq<char>>, b: Option<Seq<char>>) -> bool {
    match (a, b) {
        (Some(a), Some(b)) => name matches Some(n) && (n == copied_instance_name(a, b)
            || exists|i: nat| n == #[trigger] numbered_name(copied_instance_name(a, b) + "_"@, i)),
        _ => name is None,
    }
}

/// The instances of `v` numbered from `first` on are copies in cell `p` of the
/// instances `s` of `v0`, one each and in that order, taken out of instance `ci`.
pub open spec fn copies_of(v0: ChipView, v: ChipView, ci: usize, p: u32, first: int, s: Seq<usize>) -> bool {
    forall|j: int| 0 <= j < s.len() ==> {
        &&& #[trigger] v.instances.contains_key((first + j) as usize)
        &&& v.instances[(first + j) as usize].parent == p
        &&& v.instances[(first + j) as usize].template == v0.instances[s[j]].template
        &&& copy_name_ok(v.instances[(first + j) as usize].name, v0.instances[ci].name, v0.instances[s[j]].name)
    }
}

/// The net that `n` maps to under `m`, where `n` is a net.
pub open spec fn opt_image(m: Map<usize, usize>, n: Option<usize>) -> Option<usize> {
    match n {
        Some(x) => Some(m[x]),
        None => None,
    }
}

/// The pin instances of the copies in `v`, numbered from `first` on, of the
/// instances `s` of `v0` are connected, pin by pin, to the images under `m` of
/// the nets that the pin instances of their sources are connected to.
pub open spec fn copies_connected(v0: ChipView, v: ChipView, first: int, s: Seq<usize>, m: Map<usize, usize>) -> bool {
    forall|j: int, jj: int| 0 <= j < s.len() && 0 <= jj < v0.instances[s[j]].pins.len()
        && 0 <= jj < v.instances[(first + j) as usize].pins.len() ==> {
        &&& (v0.pin_insts[v0.instances[s[j]].pins[jj]].net matches Some(n) ==> m.contains_key(n))
        &&& #[trigger] v.pin_insts[v.instances[(first + j) as usize].pins[jj]].net
            == opt_image(m, v0.pin_insts[v0.instances[s[j]].pins[jj]].net)
    }
}

/// The connections of the copies stay while their pin instances keep their nets
/// and the net map only grows.
proof fn lemma_copies_connected_frame(v0: ChipView, v: ChipView, w: ChipView, first: int, s: Seq<usize>,
    m: Map<usize, usize>, m2: Map<usize, usize>, excl: usize)
    requires
        v.inv(),
        copies_connected(v0, v, first, s, m),
        forall|j: int| 0 <= j < s.len() ==> #[trigger] v.instances.contains_key((first + j) as usize)
            && w.instances.contains_key((first + j) as usize)
            && w.instances[(first + j) as usize] == v.instances[(first + j) as usize]
            && (first + j) as usize != excl,
        forall|q: usize| #[trigger] v.pin_insts.contains_key(q) && v.pin_insts[q].circuit_inst != excl
            ==> w.pin_insts.contains_key(q) && w.pin_insts[q].net == v.pin_insts[q].net,
        forall|n: usize| #[trigger] m.contains_key(n) ==> m2.contains_key(n) && m2[n] == m[n],
    ensures
        copies_connected(v0, w, first, s, m2),
{
    assert forall|j: int, jj: int| 0 <= j < s.len() && 0 <= jj < v0.instances[s[j]].pins.len()
        && 0 <= jj < w.instances[(first + j) as usize].pins.len() implies {
        &&& (v0.pin_insts[v0.instances[s[j]].pins[jj]].net matches Some(n) ==> m2.contains_key(n))
        &&& #[trigger] w.pin_insts[w.instances[(first + j) as usize].pins[jj]].net
            == opt_image(m2, v0.pin_insts[v0.instances[s[j]].pins[jj]].net)
    } by {
        let i = (first + j) as usize;
        assert(v.instances.contains_key(i));
        let q = v.instances[i].pins[jj];
        assert(v.pin_insts.contains_key(q) && v.pin_insts[q].circuit_inst == i);
        assert(v.pin_insts[v.instances[i].pins[jj]].net == opt_image(m, v0.pin_insts[v0.instances[s[j]].pins[jj]].net));
    }
}

/// Replacing net `a` with net `b` replaces `a` with `b` in the images of the net map.
proof fn lemma_copies_connected_replace(v0: ChipView, w0: ChipView, w1: ChipView, first: int, s: Seq<usize>,
    nm: Map<usize, usize>, a: usize, b: usize)
    requires
        w0.inv(),
        copies_connected(v0, w0, first, s, nm),
        forall|j: int| 0 <= j < s.len() ==> #[trigger] w0.instances.contains_key((first + j) as usize),
        net_is_live(w0.circuits, w0.nets, a),
        w1.instances == w0.instances,
        w1.pin_insts == pin_insts_moved_to(w0.pin_insts, w0.nets[a].pin_instances, b),
    ensures
        copies_connected(v0, w1, first, s, nm.map_values(|x: usize| if x == a { b } else { x })),
{
    let nm2 = nm.map_values(|x: usize| if x == a { b } else { x });
    assert forall|j: int, jj: int| 0 <= j < s.len() && 0 <= jj < v0.instances[s[j]].pins.len()
        && 0 <= jj < w1.instances[(first + j) as usize].pins.len() implies {
        &&& (v0.pin_insts[v0.instances[s[j]].pins[jj]].net matches Some(n) ==> nm2.contains_key(n))
        &&& #[trigger] w1.pin_insts[w1.instances[(first + j) as usize].pins[jj]].net
            == opt_image(nm2, v0.pin_insts[v0.instances[s[j]].pins[jj]].net)
    } by {
        let i = (first + j) as usize;
        assert(w0.instances.contains_key(i));
        let q = w0.instances[i].pins[jj];
        assert(w0.pin_insts.contains_key(q) && w0.pin_insts[q].circuit_inst == i);
        assert(pin_inst_is_live(w0.instances, w0.pin_insts, q));
        assert(w0.pin_insts[w0.instances[i].pins[jj]].net == opt_image(nm, v0.pin_insts[v0.instances[s[j]].pins[jj]].net));
        if w0.nets[a].pin_instances.contains(q) {
            assert(w0.pin_insts[q].net == Some(a));
        }
    }
}

/// The instances of `v` numbered from `first` on are copies, in the parent of
/// instance `r` of cell `c` of `v0`, of the instances of `c`, one each, and
/// their pin instances are connected as those of their sources, through one map
/// from the nets of `c` to live nets of that parent.
pub open spec fn copied_content(v0: ChipView, v: ChipView, c: u32, r: usize, first: int) -> bool {
    let p = v0.instances[r].parent;
    exists|s: Seq<usize>, nm: Map<usize, usize>| s.len() == v0.circuits[c].instances.len() && s.no_duplicates()
        && s.to_set() == v0.circuits[c].instances
        && #[trigger] copies_of(v0, v, r, p, first, s)
        && #[trigger] copies_connected(v0, v, first, s, nm)
        && nm.dom().subset_of(v0.circuits[c].nets)
        && (forall|n: usize| #[trigger] nm.contains_key(n) ==> net_is_live(v.circuits, v.nets, nm[n]) && v.nets[nm[n]].parent == p)
        && net_map_merged(v0, r, nm)
}

/// The nets that pin `k` of instance `r` joins: the net of the template pin
/// inside and the net of the pin instance outside, if both are connected.
pub open spec fn pin_link(v0: ChipView, r: usize, k: int) -> Option<(usize, usize)> {
    let q = v0.instances[r].pins[k];
    match (v0.pins[v0.pin_insts[q].template_pin].net, v0.pin_insts[q].net) {
        (Some(inner), Some(outer)) => Some((inner, outer)),
        _ => None,
    }
}

/// The outer net that the last of the first `k` pins of instance `r` whose
/// template pin is on net `n` is connected to.
pub open spec fn outer_net_upto(v0: ChipView, r: usize, n: usize, k: int) -> Option<usize>
    decreases k,
{
    if k <= 0 {
        None
    } else {
        match pin_link(v0, r, k - 1) {
            Some(l) => if l.0 == n { Some(l.1) } else { outer_net_upto(v0, r, n, k - 1) },
            None => outer_net_upto(v0, r, n, k - 1),
        }
    }
}

/// The net of the parent of instance `r` that net `n` of its template merges
/// into when `r` is flattened: the constant nets of the parent for the constant
/// nets of the template, else the outer net of the last pin of `r` whose
/// template pin is on `n`, if there is one.
pub open spec fn merge_target(v0: ChipView, r: usize, n: usize) -> Option<usize> {
    let t = v0.instances[r].template;
    let p = v0.instances[r].parent;
    if n == v0.circuits[t].net_low {
        Some(v0.circuits[p].net_low)
    } else if n == v0.circuits[t].net_high {
        Some(v0.circuits[p].net_high)
    } else {
        outer_net_upto(v0, r, n, v0.instances[r].pins.len() as int)
    }
}

/// The net map `nm` of a flattening of instance `r`: every net of the template
/// that merges into an outer net maps to it, and the other mapped nets map one
/// to one onto nets that did not exist before.
pub open spec fn net_map_merged(v0: ChipView, r: usize, nm: Map<usize, usize>) -> bool {
    &&& forall|n: usize| #[trigger] merge_target(v0, r, n) is Some ==> nm.contains_key(n)
    &&& forall|n: usize| #[trigger] nm.contains_key(n) ==> match merge_target(v0, r, n) {
        Some(o) => nm[n] == o,
        None => !v0.nets.contains_key(nm[n]),
    }
    &&& forall|a: usize, b: usize| #[trigger] nm.contains_key(a) && #[trigger] nm.contains_key(b) && a != b
        && merge_target(v0, r, a) is None && merge_target(v0, r, b) is None ==> nm[a] != nm[b]
}

/// The new nets of `nm` carry the names of their sources where these are free
/// in the parent of instance `r`, and no name otherwise.
pub open spec fn net_copies_named(v0: ChipView, v: ChipView, r: usize, nm: Map<usize, usize>) -> bool {
    forall|n: usize| #[trigger] nm.contains_key(n) && merge_target(v0, r, n) is None
        ==> v.nets[nm[n]].name == copy_net_name(v0, v0.instances[r].parent, n)
}

/// `copied_content` with the net map fixed: the nets of the template merge into
/// the outer nets as `merge_target` gives them, and the other copies are new
/// nets named as `copy_net_name` gives them.
pub open spec fn flattened_content(v0: ChipView, v: ChipView, c: u32, r: usize, first: int) -> bool {
    let p = v0.instances[r].parent;
    exists|s: Seq<usize>, nm: Map<usize, usize>| s.len() == v0.circuits[c].instances.len() && s.no_duplicates()
        && s.to_set() == v0.circuits[c].instances
        && #[trigger] copies_of(v0, v, r, p, first, s)
        && #[trigger] copies_connected(v0, v, first, s, nm)
        && nm.dom().subset_of(v0.circuits[c].nets)
        && (forall|n: usize| #[trigger] nm.contains_key(n) ==> net_is_live(v.circuits, v.nets, nm[n]) && v.nets[nm[n]].parent == p)
        && net_map_merged(v0, r, nm)
        && net_copies_named(v0, v, r, nm)
        && (forall|j: int| 0 <= j < s.len() ==> #[trigger] copy_follows_template(v0, v, (first + j) as usize, v0.instances[s[j]].template))
        && (forall|j: int| 0 <= j < s.len() ==> #[trigger] copy_named_first_free(v.circuits[p].instances_by_name,
            v0.instances[r].name, v0.instances[s[j]].name, v.instances[(first + j) as usize].name))
        && (forall|j: int| 0 <= j < s.len() ==> #[trigger] v.instances[(first + j) as usize].pins.len() == v0.instances[s[j]].pins.len())
}

/// The nets that flattening instance `r` merges into stay while the instance,
/// its pin instances, the pins of its template and the constant nets stay.
proof fn lemma_merge_target_same(s: ChipView, v0: ChipView, r: usize)
    requires
        s.instances[r] == v0.instances[r],
        forall|k: int| 0 <= k < v0.instances[r].pins.len() ==> {
            let q = #[trigger] v0.instances[r].pins[k];
            &&& s.pin_insts[q] == v0.pin_insts[q]
            &&& s.pins[v0.pin_insts[q].template_pin].net == v0.pins[v0.pin_insts[q].template_pin].net
        },
        s.circuits[v0.instances[r].template].net_low == v0.circuits[v0.instances[r].template].net_low,
        s.circuits[v0.instances[r].template].net_high == v0.circuits[v0.instances[r].template].net_high,
        s.circuits[v0.instances[r].parent].net_low == v0.circuits[v0.instances[r].parent].net_low,
        s.circuits[v0.instances[r].parent].net_high == v0.circuits[v0.instances[r].parent].net_high,
    ensures
        forall|n: usize| #[trigger] merge_target(s, r, n) == merge_target(v0, r, n),
{
    assert forall|n: usize| #[trigger] merge_target(s, r, n) == merge_target(v0, r, n) by {
        lemma_outer_net_same(s, v0, r, n, v0.instances[r].pins.len() as int);
    }
}

proof fn lemma_outer_net_same(s: ChipView, v0: ChipView, r: usize, n: usize, k: int)
    requires
        s.instances[r] == v0.instances[r],
        k <= v0.instances[r].pins.len(),
        forall|k: int| 0 <= k < v0.instances[r].pins.len() ==> {
            let q = #[trigger] v0.instances[r].pins[k];
            &&& s.pin_insts[q] == v0.pin_insts[q]
            &&& s.pins[v0.pin_insts[q].template_pin].net == v0.pins[v0.pin_insts[q].template_pin].net
        },
    ensures
        outer_net_upto(s, r, n, k) == outer_net_upto(v0, r, n, k),
    decreases k,
{
    if k > 0 {
        lemma_outer_net_same(s, v0, r, n, k - 1);
        let q = v0.instances[r].pins[k - 1];
        assert(pin_link(s, r, k - 1) == pin_link(v0, r, k - 1));
    }
}

/// Flattened content is copied content.
proof fn lemma_flattened_content_copied(v0: ChipView, v: ChipView, c: u32, r: usize, first: int)
    requires
        flattened_content(v0, v, c, r, first),
    ensures
        copied_content(v0, v, c, r, first),
{
    let p = v0.instances[r].parent;
    let (sq, nm) = choose|sq: Seq<usize>, nm: Map<usize, usize>| sq.len() == v0.circuits[c].instances.len() && sq.no_duplicates()
        && sq.to_set() == v0.circuits[c].instances
        && #[trigger] copies_of(v0, v, r, p, first, sq)
        && #[trigger] copies_connected(v0, v, first, sq, nm)
        && nm.dom().subset_of(v0.circuits[c].nets)
        && (forall|n: usize| #[trigger] nm.contains_key(n) ==> net_is_live(v.circuits, v.nets, nm[n]) && v.nets[nm[n]].parent == p)
        && net_map_merged(v0, r, nm)
        && net_copies_named(v0, v, r, nm)
        && (forall|j: int| 0 <= j < sq.len() ==> #[trigger] copy_follows_template(v0, v, (first + j) as usize, v0.instances[sq[j]].template))
        && (forall|j: int| 0 <= j < sq.len() ==> #[trigger] copy_named_first_free(v.circuits[p].instances_by_name,
            v0.instances[r].name, v0.instances[sq[j]].name, v.instances[(first + j) as usize].name))
        && (forall|j: int| 0 <= j < sq.len() ==> #[trigger] v.instances[(first + j) as usize].pins.len() == v0.instances[sq[j]].pins.len());
    assert(copies_of(v0, v, r, p, first, sq));
    assert(copies_connected(v0, v, first, sq, nm));
}

/// The image of `x` under the association list `fs`/`ts` after its first `k`
/// pairs were applied one after the other.
pub open spec fn assoc_lookup(fs: Seq<usize>, ts: Seq<usize>, x: usize, k: int) -> usize
    decreases k,
{
    if k <= 0 {
        x
    } else if fs[k - 1] == x {
        ts[k - 1]
    } else {
        assoc_lookup(fs, ts, x, k - 1)
    }
}

proof fn lemma_assoc_lookup(fs: Seq<usize>, ts: Seq<usize>, x: usize, k: int)
    requires
        fs.no_duplicates(),
        0 <= k <= fs.len(),
        fs.len() == ts.len(),
    ensures
        !fs.subrange(0, k).contains(x) ==> assoc_lookup(fs, ts, x, k) == x,
        forall|i: int| 0 <= i < k && fs[i] == x ==> assoc_lookup(fs, ts, x, k) == ts[i],
        assoc_lookup(fs, ts, x, k) == x || exists|i: int| 0 <= i < k && assoc_lookup(fs, ts, x, k) == ts[i],
    decreases k,
{
    if k > 0 {
        lemma_assoc_lookup(fs, ts, x, k - 1);
        if !fs.subrange(0, k).contains(x) {
            assert(fs.subrange(0, k)[k - 1] == fs[k - 1]);
            assert forall|j: int| #![trigger fs.subrange(0, k - 1)[j]] 0 <= j < k - 1 implies fs.subrange(0, k - 1)[j] != x by {
                assert(fs.subrange(0, k)[j] == fs[j]);
            }
        }
        assert forall|i: int| 0 <= i < k && fs[i] == x implies assoc_lookup(fs, ts, x, k) == ts[i] by {
            if i < k - 1 {
                assert(fs[k - 1] != fs[i]);
            }
        }
        if fs[k - 1] == x {
            assert(assoc_lookup(fs, ts, x, k) == ts[k - 1]);
        }
    }
}

/// For the instances `rs` of cell `c` of `v0`, in this order, `v` holds a copy of
/// the content of `c` in the parent of each, numbered from the instance counter
/// of `v0` on, one block of instances after the other.
pub open spec fn flattened_copies(v0: ChipView, v: ChipView, c: u32, rs: Seq<usize>) -> bool {
    forall|k: int| #![trigger rs[k]] 0 <= k < rs.len()
        ==> copied_content(v0, v, c, rs[k], v0.next_inst + k * v0.circuits[c].instances.len())
}

/// Copied content stays while the instances, pin instances and nets outside cell
/// `c` and its instances stay.
#[verifier::spinoff_prover]
proof fn lemma_copied_content_frame(v0: ChipView, u: ChipView, u2: ChipView, c: u32, r: usize, first: int)
    requires
        v0.inv(),
        v0.instances.contains_key(r),
        v0.instances[r].template == c,
        u.inv(),
        copied_content(v0, u, c, r, first),
        forall|i: usize| #[trigger] u.instances.contains_key(i) && u.instances[i].parent != c && u.instances[i].template != c
            ==> u2.instances.contains_key(i) && u2.instances[i] == u.instances[i],
        forall|q: usize| #[trigger] u.pin_insts.contains_key(q) && u.instances.contains_key(u.pin_insts[q].circuit_inst)
            && u.instances[u.pin_insts[q].circuit_inst].parent != c && u.instances[u.pin_insts[q].circuit_inst].template != c
            ==> u2.pin_insts.contains_key(q) && u2.pin_insts[q].net == u.pin_insts[q].net,
        forall|n: usize| #[trigger] u.nets.contains_key(n) && u.nets[n].parent != c
            ==> u2.nets.contains_key(n) && u2.nets[n].parent == u.nets[n].parent,
        forall|cc: u32| #[trigger] u.circuits.contains_key(cc) && cc != c ==> u2.circuits.contains_key(cc),
    ensures
        copied_content(v0, u2, c, r, first),
{
    let p = v0.instances[r].parent;
    let (sq, nm) = choose|sq: Seq<usize>, nm: Map<usize, usize>| sq.len() == v0.circuits[c].instances.len() && sq.no_duplicates()
        && sq.to_set() == v0.circuits[c].instances
        && #[trigger] copies_of(v0, u, r, p, first, sq)
        && #[trigger] copies_connected(v0, u, first, sq, nm)
        && nm.dom().subset_of(v0.circuits[c].nets)
        && (forall|n: usize| #[trigger] nm.contains_key(n) ==> net_is_live(u.circuits, u.nets, nm[n]) && u.nets[nm[n]].parent == p)
        && net_map_merged(v0, r, nm);
    assert(p != c);
    assert(v0.circuits.contains_key(c));
    assert forall|j: int| 0 <= j < sq.len() implies #[trigger] u2.instances.contains_key((first + j) as usize)
        && u2.instances[(first + j) as usize] == u.instances[(first + j) as usize] by {
        let i = (first + j) as usize;
        assert(u.instances.contains_key(i));
        assert(sq.to_set().contains(sq[j]));
        assert(v0.circuits[c].instances.contains(sq[j]));
        assert(v0.instances.contains_key(sq[j]));
        assert(v0.instances[sq[j]].parent == c);
    }
    assert forall|j: int| 0 <= j < sq.len() implies {
        &&& #[trigger] u2.instances.contains_key((first + j) as usize)
        &&& u2.instances[(first + j) as usize].parent == p
        &&& u2.instances[(first + j) as usize].template == v0.instances[sq[j]].template
        &&& copy_name_ok(u2.instances[(first + j) as usize].name, v0.instances[r].name, v0.instances[sq[j]].name)
    } by {
        assert(u.instances.contains_key((first + j) as usize));
    }
    assert(copies_of(v0, u2, r, p, first, sq));
    assert forall|j: int, jj: int| 0 <= j < sq.len() && 0 <= jj < v0.instances[sq[j]].pins.len()
        && 0 <= jj < u2.instances[(first + j) as usize].pins.len() implies {
        &&& (v0.pin_insts[v0.instances[sq[j]].pins[jj]].net matches Some(n) ==> nm.contains_key(n))
        &&& #[trigger] u2.pin_insts[u2.instances[(first + j) as usize].pins[jj]].net
            == opt_image(nm, v0.pin_insts[v0.instances[sq[j]].pins[jj]].net)
    } by {
        let i = (first + j) as usize;
        assert(u.instances.contains_key(i));
        assert(sq.to_set().contains(sq[j]));
        assert(v0.circuits[c].instances.contains(sq[j]));
        assert(v0.instances.contains_key(sq[j]));
        assert(v0.instances[sq[j]].parent == c);
        assert(u.instances[i].parent != c && u.instances[i].template != c);
        assert(u2.instances.contains_key(i) && u2.instances[i] == u.instances[i]);
        let q = u.instances[i].pins[jj];
        assert(u.pin_insts.contains_key(q) && u.pin_insts[q].circuit_inst == i);
        assert(u.pin_insts[u.instances[i].pins[jj]].net == opt_image(nm, v0.pin_insts[v0.instances[sq[j]].pins[jj]].net));
    }
    assert(copies_connected(v0, u2, first, sq, nm));
    assert forall|n: usize| #[trigger] nm.contains_key(n) implies net_is_live(u2.circuits, u2.nets, nm[n])
        && u2.nets[nm[n]].parent == p by {
        assert(u.nets.contains_key(nm[n]));
    }
}

/// Copies described against a later state `s` of `v0` that kept the sources
/// are described as well against `v0`.
proof fn lemma_copies_of_base(v0: ChipView, s: ChipView, w: ChipView, r: usize, p: u32, first: int, sq: Seq<usize>)
    requires
        copies_of(s, w, r, p, first, sq),
        s.instances[r] == v0.instances[r],
        forall|j: int| 0 <= j < sq.len() ==> #[trigger] s.instances[sq[j]] == v0.instances[sq[j]],
    ensures
        copies_of(v0, w, r, p, first, sq),
{
    assert forall|j: int| 0 <= j < sq.len() implies {
        &&& #[trigger] w.instances.contains_key((first + j) as usize)
        &&& w.instances[(first + j) as usize].parent == p
        &&& w.instances[(first + j) as usize].template == v0.instances[sq[j]].template
        &&& copy_name_ok(w.instances[(first + j) as usize].name, v0.instances[r].name, v0.instances[sq[j]].name)
    } by {
        assert(s.instances[sq[j]] == v0.instances[sq[j]]);
        assert(w.instances.contains_key((first + j) as usize));
    }
}

/// Copied content described against a later state `s` of `v0` is described as
/// well against `v0`, where `s` kept cell `c`, its instance `r` and the instances
/// inside `c` with the nets of their pin instances.
proof fn lemma_copied_content_base(v0: ChipView, s: ChipView, w: ChipView, c: u32, r: usize, first: int)
    requires
        copied_content(s, w, c, r, first),
        s.instances.contains_key(r),
        s.instances[r] == v0.instances[r],
        s.circuits[c].instances == v0.circuits[c].instances,
        s.circuits[c].nets == v0.circuits[c].nets,
        forall|i: usize| #[trigger] v0.circuits[c].instances.contains(i) ==> s.instances[i] == v0.instances[i],
        forall|i: usize, jj: int| #[trigger] v0.circuits[c].instances.contains(i) && 0 <= jj < v0.instances[i].pins.len()
            ==> #[trigger] s.pin_insts[v0.instances[i].pins[jj]].net == v0.pin_insts[v0.instances[i].pins[jj]].net,
        forall|n: usize| #[trigger] merge_target(s, r, n) == merge_target(v0, r, n),
        forall|x: usize| #[trigger] v0.nets.contains_key(x) ==> s.nets.contains_key(x),
    ensures
        copied_content(v0, w, c, r, first),
{
    let p = s.instances[r].parent;
    let (sq, nm) = choose|sq: Seq<usize>, nm: Map<usize, usize>| sq.len() == s.circuits[c].instances.len() && sq.no_duplicates()
        && sq.to_set() == s.circuits[c].instances
        && #[trigger] copies_of(s, w, r, p, first, sq)
        && #[trigger] copies_connected(s, w, first, sq, nm)
        && nm.dom().subset_of(s.circuits[c].nets)
        && (forall|n: usize| #[trigger] nm.contains_key(n) ==> net_is_live(w.circuits, w.nets, nm[n]) && w.nets[nm[n]].parent == p)
        && net_map_merged(s, r, nm);
    assert(net_map_merged(v0, r, nm)) by {
        assert forall|n: usize| #[trigger] merge_target(v0, r, n) is Some implies nm.contains_key(n) by {
            assert(merge_target(s, r, n) == merge_target(v0, r, n));
        }
        assert forall|n: usize| #[trigger] nm.contains_key(n) implies match merge_target(v0, r, n) {
            Some(o) => nm[n] == o,
            None => !v0.nets.contains_key(nm[n]),
        } by {
            assert(merge_target(s, r, n) == merge_target(v0, r, n));
        }
        assert forall|a: usize, b: usize| #[trigger] nm.contains_key(a) && #[trigger] nm.contains_key(b) && a != b
            && merge_target(v0, r, a) is None && merge_target(v0, r, b) is None implies nm[a] != nm[b] by {
            assert(merge_target(s, r, a) == merge_target(v0, r, a));
            assert(merge_target(s, r, b) == merge_target(v0, r, b));
        }
    }
    assert forall|j: int| 0 <= j < sq.len() implies v0.circuits[c].instances.contains(#[trigger] sq[j]) by {
        assert(sq.to_set().contains(sq[j]));
    }
    assert forall|j: int| 0 <= j < sq.len() implies #[trigger] s.instances[sq[j]] == v0.instances[sq[j]] by {
        assert(v0.circuits[c].instances.contains(sq[j]));
    }
    lemma_copies_of_base(v0, s, w, r, p, first, sq);
    assert forall|j: int, jj: int| 0 <= j < sq.len() && 0 <= jj < v0.instances[sq[j]].pins.len()
        && 0 <= jj < w.instances[(first + j) as usize].pins.len() implies {
        &&& (v0.pin_insts[v0.instances[sq[j]].pins[jj]].net matches Some(n) ==> nm.contains_key(n))
        &&& #[trigger] w.pin_insts[w.instances[(first + j) as usize].pins[jj]].net
            == opt_image(nm, v0.pin_insts[v0.instances[sq[j]].pins[jj]].net)
    } by {
        assert(v0.circuits[c].instances.contains(sq[j]));
        assert(s.pin_insts[v0.instances[sq[j]].pins[jj]].net == v0.pin_insts[v0.instances[sq[j]].pins[jj]].net);
        assert(w.pin_insts[w.instances[(first + j) as usize].pins[jj]].net == opt_image(nm, s.pin_insts[s.instances[sq[j]].pins[jj]].net));
    }
    assert(copies_connected(v0, w, first, sq, nm));
}

/// What flattening an instance of template `t` in cell `p` keeps of `v0` while
/// it copies the content of `t` into `p`.
pub open spec fn flatten_frame(v0: ChipView, v: ChipView, t: u32, p: u32) -> bool {
    &&& v.circuits.dom() == v0.circuits.dom()
    &&& v.circuits[t] == v0.circuits[t]
    &&& v.circuits[p].net_low == v0.circuits[p].net_low
    &&& v.circuits[p].net_high == v0.circuits[p].net_high
    &&& forall|c: u32| #[trigger] v0.circuits.contains_key(c) ==> v.circuits[c].pins == v0.circuits[c].pins
        && v.circuits[c].net_low == v0.circuits[c].net_low && v.circuits[c].net_high == v0.circuits[c].net_high
    &&& forall|i: usize| #[trigger] v0.instances.contains_key(i) ==> v.instances.contains_key(i) && v.instances[i] == v0.instances[i]
    &&& forall|q: usize| #[trigger] v0.pin_insts.contains_key(q) ==> v.pin_insts.contains_key(q) && v.pin_insts[q] == v0.pin_insts[q]
    &&& v.pins == v0.pins
    &&& v.circuits_by_name == v0.circuits_by_name
    &&& v.next_inst >= v0.next_inst
    &&& v.next_pin_inst >= v0.next_pin_inst
    &&& v0.nets.dom().subset_of(v.nets.dom())
    &&& forall|n: usize| #[trigger] v0.nets.contains_key(n) ==> v.nets[n].parent == v0.nets[n].parent
    &&& forall|n: usize| #[trigger] v.nets.contains_key(n) && !v0.nets.contains_key(n) ==> v.nets[n].parent == p
}

impl Chip {
    /// Replace the cell instance with its content: copies of the instances of its
    /// template, connected to copies of the nets of the template, which are then
    /// merged with the nets that the instance is connected to. Remove the
    /// instance afterwards. Does not purge nets nor unconnected instances.
    ///
    /// Net copies keep the names of the template's nets where these are free in
    /// the parent cell. An instance copy of a named instance inside a named
    /// instance gets the name "instance:sub-instance", with "_" and a number
    /// appended if that name is taken.
    #[verifier::spinoff_prover]
    #[verifier::rlimit(100)]
    pub fn flatten_circuit_instance(&mut self, circuit_instance: &CellInstId)
        requires
            old(self).wf(),
            old(self)@.instances.contains_key(circuit_instance@),
            ({
                let v = old(self)@;
                let t = v.instances[circuit_instance@].template;
                &&& v.next_net + v.circuits[t].nets.len() <= usize::MAX
                &&& v.next_inst + v.circuits[t].instances.len() <= usize::MAX
                &&& v.next_pin_inst + v.circuits[t].instances.len() * v.pins.dom().len() <= usize::MAX
            }),
        ensures
            final(self).wf(),
            final(self).layers() == old(self).layers(),
            final(self).shapes_view() == old(self).shapes_view(),
            ({
                let v = old(self)@;
                let t = v.instances[circuit_instance@].template;
                let p = v.instances[circuit_instance@].parent;
                let m = v.circuits[t].instances.len();
                &&& !final(self)@.instances.contains_key(circuit_instance@)
                &&& forall|i: usize| #[trigger] v.instances.contains_key(i) && i != circuit_instance@
                    ==> final(self)@.instances.contains_key(i) && final(self)@.instances[i] == v.instances[i]
                &&& final(self)@.next_inst == v.next_inst + m
                &&& flattened_content(v, final(self)@, t, circuit_instance@, v.next_inst as int)
                &&& final(self)@.circuits.dom() == v.circuits.dom()
                &&& final(self)@.circuits_by_name == v.circuits_by_name
                &&& v.nets.dom().subset_of(final(self)@.nets.dom())
                &&& forall|n: usize| #[trigger] final(self)@.nets.contains_key(n) && !v.nets.contains_key(n)
                    ==> final(self)@.nets[n].parent == p
                &&& final(self)@.circuits[t].nets == v.circuits[t].nets
                &&& final(self)@.circuits[t].instances == v.circuits[t].instances
                &&& final(self)@.circuits[t].references == v.circuits[t].references.remove(circuit_instance@)
                &&& final(self)@.next_net <= v.next_net + v.circuits[t].nets.len()
                &&& final(self)@.next_pin_inst <= v.next_pin_inst + m * v.pins.dom().len()
                &&& final(self)@.pins.dom() == v.pins.dom()
                &&& forall|q: usize| #[trigger] v.pin_insts.contains_key(q) ==> final(self)@.pin_insts.contains_key(q)
                    && final(self)@.pin_insts[q].template_pin == v.pin_insts[q].template_pin
                &&& forall|q: usize| #[trigger] v.pin_insts.contains_key(q) && v.pin_insts[q].circuit_inst != circuit_instance@
                    ==> final(self)@.pin_insts[q] == v.pin_insts[q]
                &&& forall|n: usize| #[trigger] v.nets.contains_key(n) ==> final(self)@.nets[n].parent == v.nets[n].parent
                &&& forall|x: u32| #[trigger] v.pins.contains_key(x) && v.pins[x].circuit != p ==> final(self)@.pins[x] == v.pins[x]
                &&& forall|cc: u32| #[trigger] v.circuits.contains_key(cc) ==> final(self)@.circuits[cc].net_low == v.circuits[cc].net_low
                    && final(self)@.circuits[cc].net_high == v.circuits[cc].net_high
            }),
    {
        let ghost v0 = self@;
        proof {
            lemma_templates_present(v0);
        }
        let ghost ci = circuit_instance@;
        let template = self.template_cell(circuit_instance);
        let parent = self.parent_cell(circuit_instance);
        let ghost t = template@;
        let ghost p = parent@;
        let ghost pp = v0.pins.dom().len();
        proof {
            lemma_instance_edge(v0, ci);
            lemma_net_sets_finite_dom(v0);
        }
        // Mapping from nets of the template to their copies.
        let mut net_mapping: FnvHashMap<usize, usize> = FnvHashMap::default();
        proof {
            assert(net_mapping@.dom() =~= Set::<usize>::empty());
        }
        // The constant nets of the template are copied like the others; their
        // copies are merged with the constant nets of the parent below.
        let low_t = self.net_zero(&template);
        let new_net_zero = self.map_net(&mut net_mapping, &parent, &low_t, Ghost(v0), Ghost(t));
        proof {
            assert(self@.nets.dom().subset_of(v0.nets.dom().insert(new_net_zero@)));
            assert(flatten_frame(v0, self@, t, p));
        }
        let ghost s0 = self@;
        let high_t = self.net_one(&template);
        let new_net_one = self.map_net(&mut net_mapping, &parent, &high_t, Ghost(v0), Ghost(t));
        proof {
            assert forall|n: usize| #[trigger] self@.nets.contains_key(n) && !v0.nets.contains_key(n)
                implies self@.nets[n].parent == p by {
                if n != new_net_one@ {
                    assert(s0.nets.contains_key(n));
                }
            }
            assert(flatten_frame(v0, self@, t, p));
        }
        // Copy all instances of the template into the parent and connect them to
        // the copies of their nets.
        let all_instances = self.each_cell_instance_vec(&template);
        let ghost iv = inst_ids_view(all_instances@);
        proof {
            iv.unique_seq_to_set();
            assert(0 * pp == 0) by (nonlinear_arith);
            assert(iv.subrange(0, 0).len() == 0);
        }
        let mut k: usize = 0;
        while k < all_instances.len()
            invariant
                self.wf(),
                self.layers() == old(self).layers(),
                self.shapes_view() == old(self).shapes_view(),
                v0 == old(self)@,
                v0.inv(),
                v0.instances.contains_key(ci),
                ci == circuit_instance@,
                t == v0.instances[ci].template,
                p == v0.instances[ci].parent,
                template@ == t,
                parent@ == p,
                t != p,
                v0.circuits.contains_key(t),
                v0.circuits.contains_key(p),
                pp == v0.pins.dom().len(),
                v0.next_net + v0.circuits[t].nets.len() <= usize::MAX,
                v0.next_inst + v0.circuits[t].instances.len() <= usize::MAX,
                v0.next_pin_inst + v0.circuits[t].instances.len() * pp <= usize::MAX,
                iv == inst_ids_view(all_instances@),
                iv.no_duplicates(),
                iv.to_set() == v0.circuits[t].instances,
                iv.len() == v0.circuits[t].instances.len(),
                k <= iv.len(),
                flatten_frame(v0, self@, t, p),
                net_copies_ok(v0, self@, t, p, net_mapping@),
                net_mapping@.contains_key(low_t@) && net_mapping@[low_t@] == new_net_zero@,
                net_mapping@.contains_key(high_t@) && net_mapping@[high_t@] == new_net_one@,
                self@.next_inst == v0.next_inst + k,
                self@.next_pin_inst <= v0.next_pin_inst + k * pp,
                copies_connected(v0, self@, v0.next_inst as int, iv.subrange(0, k as int), net_mapping@),
                forall|j: int| 0 <= j < k ==> {
                    &&& #[trigger] self@.instances.contains_key((v0.next_inst + j) as usize)
                    &&& self@.instances[(v0.next_inst + j) as usize].parent == p
                    &&& self@.instances[(v0.next_inst + j) as usize].template == v0.instances[iv[j]].template
                    &&& copy_name_ok(self@.instances[(v0.next_inst + j) as usize].name, v0.instances[ci].name, v0.instances[iv[j]].name)
                },
                forall|j: int| 0 <= j < k ==> #[trigger] copy_follows_template(v0, self@, (v0.next_inst + j) as usize, v0.instances[iv[j]].template),
                forall|j: int| 0 <= j < k ==> #[trigger] copy_named_first_free(self@.circuits[p].instances_by_name,
                    v0.instances[ci].name, v0.instances[iv[j]].name, self@.instances[(v0.next_inst + j) as usize].name),
            decreases iv.len() - k,
        {
            let sub = all_instances[k];
            let ghost s1 = self@;
            let ghost mk = net_mapping@;
            proof {
                assert(iv[k as int] == sub@);
                assert(iv.to_set().contains(sub@));
                assert(v0.instances.contains_key(sub@) && v0.instances[sub@].parent == t);
                lemma_flatten_no_cycle(s1, ci, sub@);
                lemma_cell_pins_bound(v0, v0.instances[sub@].template);
                assert((k + 1) * pp == k * pp + pp) by (nonlinear_arith);
                assert((k + 1) * pp <= v0.circuits[t].instances.len() * pp) by (nonlinear_arith)
                    requires k + 1 <= v0.circuits[t].instances.len();
            }
            let sub_template = self.template_cell(&sub);
            // Name of the copy: INSTANCE:SUB_INSTANCE, made unique with a number.
            let sub_name = self.cell_instance_name(&sub);
            let inst_name = self.cell_instance_name(circuit_instance);
            let new_name = match (sub_name, inst_name) {
                (Some(sub_name), Some(inst_name)) => Some(self.fresh_instance_name(&parent, inst_name.as_str(), sub_name.as_str())),
                _ => None,
            };
            proof {
                assert(copy_name_ok(opt_name(new_name), v0.instances[ci].name, v0.instances[sub@].name));
            }
            proof {
                assert(copy_named_first_free(s1.circuits[p].instances_by_name, v0.instances[ci].name,
                    v0.instances[sub@].name, opt_name(new_name)));
            }
            let new_inst = self.create_cell_instance(&parent, &sub_template, new_name);
            let ghost s2 = self@;
            proof {
                assert(s2.circuits.dom() =~= s1.circuits.dom());
                assert(flatten_frame(v0, s2, t, p));
                assert forall|x: Seq<char>| #[trigger] s1.circuits[p].instances_by_name.contains_key(x)
                    implies s2.circuits[p].instances_by_name.contains_key(x) by {}
                lemma_first_free_more_names(s1.circuits[p].instances_by_name, s2.circuits[p].instances_by_name,
                    v0.instances[ci].name, v0.instances[sub@].name, opt_name(new_name));
                lemma_copies_follow_frame(v0, s1, s2, v0.next_inst as int, iv, k as int, ci, p);
                assert(copy_follows_template(v0, s2, new_inst@, sub_template@));
            }
            // Connect the pins of the copy to copies of the source nets.
            let old_pins = self.each_pin_instance_vec(&sub);
            let new_pins = self.each_pin_instance_vec(&new_inst);
            proof {
                assert(s2.instances[new_inst@].pins == Seq::new(s1.circuits[sub_template@].pins.len(),
                    |kk: int| (s1.next_pin_inst + kk) as usize));
                assert(s1.next_pin_inst >= v0.next_pin_inst);
                assert forall|jj: int| 0 <= jj < new_pins@.len() implies #[trigger] new_pins@[jj]@ >= v0.next_pin_inst by {
                    assert(pin_inst_ids_view(new_pins@)[jj] == new_pins@[jj]@);
                    assert(s2.instances[new_inst@].pins[jj] == (s1.next_pin_inst + jj) as usize);
                    assert(s1.next_pin_inst >= v0.next_pin_inst);
                }
                assert forall|jj: int| 0 <= jj < new_pins@.len() implies !s1.pin_insts.contains_key(#[trigger] new_pins@[jj]@)
                    && s2.pin_insts[new_pins@[jj]@].net is None by {
                    assert(pin_inst_ids_view(new_pins@)[jj] == new_pins@[jj]@);
                    assert(s2.instances[new_inst@].pins[jj] == (s1.next_pin_inst + jj) as usize);
                }
            }
            let mut j: usize = 0;
            while j < old_pins.len() && j < new_pins.len()
                invariant
                    self.wf(),
                    self.layers() == old(self).layers(),
                    self.shapes_view() == old(self).shapes_view(),
                    v0 == old(self)@,
                    v0.inv(),
                    v0.instances.contains_key(ci),
                    t == v0.instances[ci].template,
                    p == v0.instances[ci].parent,
                    parent@ == p,
                    t != p,
                    v0.circuits.contains_key(t),
                    v0.next_net + v0.circuits[t].nets.len() <= usize::MAX,
                    v0.instances.contains_key(sub@),
                    v0.instances[sub@].parent == t,
                    pin_inst_ids_view(old_pins@) == v0.instances[sub@].pins,
                    new_inst@ == s1.next_inst,
                    !v0.instances.contains_key(new_inst@),
                    self@.instances.contains_key(new_inst@),
                    self@.instances[new_inst@] == s2.instances[new_inst@],
                    s2.instances[new_inst@].parent == p,
                    pin_inst_ids_view(new_pins@) == s2.instances[new_inst@].pins,
                    forall|jj: int| 0 <= jj < new_pins@.len() ==> #[trigger] new_pins@[jj]@ >= v0.next_pin_inst,
                    flatten_frame(v0, self@, t, p),
                    net_copies_ok(v0, self@, t, p, net_mapping@),
                    net_mapping@.contains_key(low_t@) && net_mapping@[low_t@] == new_net_zero@,
                    net_mapping@.contains_key(high_t@) && net_mapping@[high_t@] == new_net_one@,
                    self@.next_inst == s2.next_inst,
                    self@.next_pin_inst == s2.next_pin_inst,
                    forall|i: usize| #[trigger] s2.instances.contains_key(i) ==> self@.instances.contains_key(i) && self@.instances[i] == s2.instances[i],
                    s1.inv(),
                    forall|q: usize| #[trigger] s1.pin_insts.contains_key(q) ==> self@.pin_insts.contains_key(q)
                        && self@.pin_insts[q] == s1.pin_insts[q],
                    forall|n: usize| #[trigger] mk.contains_key(n) ==> net_mapping@.contains_key(n) && net_mapping@[n] == mk[n],
                    forall|jj: int| 0 <= jj < new_pins@.len() ==> !s1.pin_insts.contains_key(#[trigger] new_pins@[jj]@),
                    j <= old_pins@.len(),
                    j <= new_pins@.len(),
                    forall|jj: int| 0 <= jj < j ==> {
                        &&& (v0.pin_insts[v0.instances[sub@].pins[jj]].net matches Some(n) ==> net_mapping@.contains_key(n))
                        &&& #[trigger] self@.pin_insts[new_pins@[jj]@].net == opt_image(net_mapping@, v0.pin_insts[v0.instances[sub@].pins[jj]].net)
                    },
                    forall|jj: int| j <= jj < new_pins@.len() ==> #[trigger] self@.pin_insts[new_pins@[jj]@].net is None,
                    self@.circuits[p].instances_by_name == s2.circuits[p].instances_by_name,
                    forall|q: usize| #[trigger] s2.pin_insts.contains_key(q) ==> self@.pin_insts.contains_key(q)
                        && self@.pin_insts[q].template_pin == s2.pin_insts[q].template_pin,
                decreases old_pins.len() - j,
            {
                let old_pin = old_pins[j];
                let new_pin = new_pins[j];
                let ghost s3 = self@;
                let ghost s3_m = net_mapping@;
                proof {
                    assert(pin_inst_ids_view(old_pins@)[j as int] == old_pin@);
                    assert(pin_inst_ids_view(new_pins@)[j as int] == new_pin@);
                    assert(v0.pin_insts.contains_key(old_pin@));
                    assert(s3.pin_insts.contains_key(new_pin@));
                    assert(s3.pin_insts[new_pin@].circuit_inst == new_inst@);
                    assert(!v0.pin_insts.contains_key(new_pin@));
                }
                proof {
                    assert(v0.instances[sub@].pins[j as int] == old_pin@);
                    assert(s3.pin_insts[old_pin@] == v0.pin_insts[old_pin@]);
                    assert(s2.instances[new_inst@].pins.no_duplicates());
                    assert forall|jj: int| 0 <= jj < new_pins@.len() && jj != j implies new_pins@[jj]@ != new_pin@ by {
                        assert(pin_inst_ids_view(new_pins@)[jj] == new_pins@[jj]@);
                    }
                }
                if let Some(old_net) = self.net_of_pin_instance(&old_pin) {
                    proof {
                        assert(v0.pin_insts[old_pin@].net == Some(old_net@));
                        assert(pin_inst_is_live(v0.instances, v0.pin_insts, old_pin@));
                        assert(net_is_live(v0.circuits, v0.nets, old_net@));
                        assert(v0.circuits[t].nets.contains(old_net@));
                    }
                    let new_net = self.map_net(&mut net_mapping, &parent, &old_net, Ghost(v0), Ghost(t));
                    let ghost s4 = self@;
                    proof {
                        assert(s4.circuits.dom() =~= s3.circuits.dom());
                        assert(s4.pin_insts.contains_key(new_pin@));
                        assert(s4.instances[new_inst@].parent == p);
                    }
                    self.connect_pin_instance(&new_pin, Some(new_net));
                    proof {
                        assert forall|jj: int| 0 <= jj < j + 1 implies {
                            &&& (v0.pin_insts[v0.instances[sub@].pins[jj]].net matches Some(n) ==> net_mapping@.contains_key(n))
                            &&& #[trigger] self@.pin_insts[new_pins@[jj]@].net == opt_image(net_mapping@, v0.pin_insts[v0.instances[sub@].pins[jj]].net)
                        } by {
                            if jj < j {
                                assert(s3.pin_insts[new_pins@[jj]@].net == opt_image(s3_m, v0.pin_insts[v0.instances[sub@].pins[jj]].net));
                            }
                        }
                        assert(self@.nets.dom() =~= s4.nets.dom());
                        assert forall|n: usize| #[trigger] self@.nets.contains_key(n) implies self@.nets[n].parent == s4.nets[n].parent by {}
                        assert forall|n: usize| #[trigger] self@.nets.contains_key(n) && !v0.nets.contains_key(n)
                            implies self@.nets[n].parent == p by {
                            assert(s4.nets.contains_key(n));
                        }
                        assert(flatten_frame(v0, self@, t, p));
                    }
                }
                j = j + 1;
            }
            proof {
                let sk = iv.subrange(0, k as int);
                let sk1 = iv.subrange(0, k + 1);
                assert forall|jx: int| 0 <= jx < sk.len() implies #[trigger] s1.instances.contains_key((v0.next_inst + jx) as usize)
                    && self@.instances.contains_key((v0.next_inst + jx) as usize)
                    && self@.instances[(v0.next_inst + jx) as usize] == s1.instances[(v0.next_inst + jx) as usize]
                    && (v0.next_inst + jx) as usize != new_inst@ by {
                    assert(s2.instances.contains_key((v0.next_inst + jx) as usize));
                }
                lemma_copies_connected_frame(v0, s1, self@, v0.next_inst as int, sk, mk, net_mapping@, new_inst@);
                assert forall|jx: int, jj: int| 0 <= jx < sk1.len() && 0 <= jj < v0.instances[sk1[jx]].pins.len()
                    && 0 <= jj < self@.instances[(v0.next_inst + jx) as usize].pins.len() implies {
                    &&& (v0.pin_insts[v0.instances[sk1[jx]].pins[jj]].net matches Some(n) ==> net_mapping@.contains_key(n))
                    &&& #[trigger] self@.pin_insts[self@.instances[(v0.next_inst + jx) as usize].pins[jj]].net
                        == opt_image(net_mapping@, v0.pin_insts[v0.instances[sk1[jx]].pins[jj]].net)
                } by {
                    if jx < k {
                        assert(sk1[jx] == sk[jx]);
                        assert(self@.pin_insts[self@.instances[(v0.next_inst + jx) as usize].pins[jj]].net
                            == opt_image(net_mapping@, v0.pin_insts[v0.instances[sk[jx]].pins[jj]].net));
                    } else {
                        assert(sk1[jx] == sub@);
                        assert((v0.next_inst + jx) as usize == new_inst@);
                        assert(pin_inst_ids_view(new_pins@)[jj] == new_pins@[jj]@);
                        assert(self@.instances[new_inst@].pins[jj] == new_pins@[jj]@);
                        assert(pin_inst_ids_view(old_pins@).len() == v0.instances[sub@].pins.len());
                        assert(jj < j);
                    }
                }
                assert(copies_connected(v0, self@, v0.next_inst as int, sk1, net_mapping@));
                assert forall|jj: int| 0 <= jj < k + 1 implies {
                    &&& #[trigger] self@.instances.contains_key((v0.next_inst + jj) as usize)
                    &&& self@.instances[(v0.next_inst + jj) as usize].parent == p
                    &&& self@.instances[(v0.next_inst + jj) as usize].template == v0.instances[iv[jj]].template
                    &&& copy_name_ok(self@.instances[(v0.next_inst + jj) as usize].name, v0.instances[ci].name, v0.instances[iv[jj]].name)
                } by {
                    let i = (v0.next_inst + jj) as usize;
                    if jj < k {
                        assert(s1.instances.contains_key(i));
                        assert(s2.instances.contains_key(i));
                    } else {
                        assert(i == new_inst@);
                    }
                }
                assert forall|j2: int| 0 <= j2 < k + 1 implies #[trigger] copy_follows_template(v0, s2, (v0.next_inst + j2) as usize,
                    v0.instances[iv[j2]].template) by {
                    if j2 == k {
                        assert((v0.next_inst + j2) as usize == new_inst@);
                    }
                }
                assert forall|j2: int| 0 <= j2 < k + 1 implies #[trigger] copy_named_first_free(s2.circuits[p].instances_by_name,
                    v0.instances[ci].name, v0.instances[iv[j2]].name, s2.instances[(v0.next_inst + j2) as usize].name) by {
                    if j2 == k {
                        assert((v0.next_inst + j2) as usize == new_inst@);
                    }
                }
                assert forall|j2: int| 0 <= j2 < k + 1 implies #[trigger] s2.instances.contains_key((v0.next_inst + j2) as usize) by {
                    if j2 < k {
                        assert(s1.instances.contains_key((v0.next_inst + j2) as usize));
                    }
                }
                lemma_copies_follow_frame(v0, s2, self@, v0.next_inst as int, iv, k + 1, ci, p);
            }
            k = k + 1;
        }
        // Merge the copies of the nets connected to the pins of the template with
        // the nets connected to the pins of the instance: collect the pairs first,
        // for several pins can be connected to the same net.
        let ghost sc = self@;
        let ghost mc = net_mapping@;
        proof {
            assert(iv.subrange(0, k as int) == iv);
            assert(copies_of(v0, sc, ci, p, v0.next_inst as int, iv));
        }
        let ci_pins = self.each_pin_instance_vec(circuit_instance);
        let ghost qv = pin_inst_ids_view(ci_pins@);
        let mut from: Vec<NetId> = Vec::new();
        let mut to: Vec<NetId> = Vec::new();
        proof {
            assert(net_ids_view(from@) =~= Seq::<usize>::empty());
        }
        let mut k: usize = 0;
        while k < ci_pins.len()
            invariant
                self.wf(),
                self.layers() == old(self).layers(),
                self.shapes_view() == old(self).shapes_view(),
                v0 == old(self)@,
                v0.inv(),
                v0.instances.contains_key(ci),
                ci == circuit_instance@,
                t == v0.instances[ci].template,
                p == v0.instances[ci].parent,
                parent@ == p,
                template@ == t,
                t != p,
                v0.circuits.contains_key(t),
                v0.circuits.contains_key(p),
                v0.next_net + v0.circuits[t].nets.len() <= usize::MAX,
                forall|kk: int| 0 <= kk < v0.instances[ci].pins.len()
                    ==> v0.pins.contains_key(#[trigger] v0.pin_insts[v0.instances[ci].pins[kk]].template_pin),
                qv == pin_inst_ids_view(ci_pins@),
                qv == v0.instances[ci].pins,
                k <= qv.len(),
                flatten_frame(v0, self@, t, p),
                net_copies_ok(v0, self@, t, p, net_mapping@),
                net_mapping@.contains_key(low_t@) && net_mapping@[low_t@] == new_net_zero@,
                net_mapping@.contains_key(high_t@) && net_mapping@[high_t@] == new_net_one@,
                self@.instances == sc.instances,
                self@.next_inst == sc.next_inst,
                self@.next_pin_inst == sc.next_pin_inst,
                self@.pin_insts == sc.pin_insts,
                self@.circuits[p].instances_by_name == sc.circuits[p].instances_by_name,
                forall|n: usize| #[trigger] mc.contains_key(n) ==> net_mapping@.contains_key(n) && net_mapping@[n] == mc[n],
                from@.len() == to@.len(),
                net_ids_view(from@).no_duplicates(),
                forall|i: int| 0 <= i < from@.len() ==> v0.next_net <= #[trigger] from@[i]@ && self@.nets.contains_key(from@[i]@)
                    && self@.nets[from@[i]@].parent == p,
                forall|i: int| 0 <= i < to@.len() ==> v0.nets.contains_key(#[trigger] to@[i]@) && v0.nets[to@[i]@].parent == p,
                forall|i: int| #![trigger from@[i]] 0 <= i < from@.len() ==> exists|n: usize| #[trigger] net_mapping@.contains_key(n)
                    && net_mapping@[n] == from@[i]@ && outer_net_upto(v0, ci, n, k as int) == Some(to@[i]@),
                forall|n: usize| #[trigger] outer_net_upto(v0, ci, n, k as int) is Some
                    ==> net_mapping@.contains_key(n) && net_ids_view(from@).contains(net_mapping@[n]),
            decreases qv.len() - k,
        {
            let q = ci_pins[k];
            let ghost mk0 = net_mapping@;
            let ghost fk0 = from@;
            let ghost tk0 = to@;
            proof {
                assert(qv[k as int] == q@);
                assert(v0.pin_insts.contains_key(q@) && v0.pin_insts[q@].circuit_inst == ci);
            }
            let outer = self.net_of_pin_instance(&q);
            let tp = self.template_pin(&q);
            proof {
                assert(v0.pins.contains_key(tp@));
            }
            let inner_old = self.net_of_pin(&tp);
            proof {
                assert(q@ == v0.instances[ci].pins[k as int]);
                assert(self@.pin_insts[q@] == v0.pin_insts[q@]);
                assert(pin_link(v0, ci, k as int) == match (opt_net(inner_old), opt_net(outer)) {
                    (Some(inner), Some(o)) => Some((inner, o)),
                    _ => None,
                });
            }
            match (outer, inner_old) {
                (Some(o), Some(io)) => {
                    let ghost s6 = self@;
                    proof {
                        assert(net_is_live(v0.circuits, v0.nets, o@) && v0.nets[o@].parent == p);
                        assert(v0.pins[tp@].circuit == t);
                        assert(net_is_live(v0.circuits, v0.nets, io@) && v0.nets[io@].parent == t);
                        assert(v0.circuits[t].nets.contains(io@));
                    }
                    // The copy of the inner net.
                    let inner_new = self.map_net(&mut net_mapping, &parent, &io, Ghost(v0), Ghost(t));
                    proof {
                        assert forall|n: usize| #[trigger] self@.nets.contains_key(n) && !v0.nets.contains_key(n)
                            implies self@.nets[n].parent == p by {
                            if n != inner_new@ {
                                assert(s6.nets.contains_key(n));
                            }
                        }
                        assert(flatten_frame(v0, self@, t, p));
                        assert(o@ < v0.next_net);
                    }
                    if inner_new.0 != o.0 {
                        let ghost f0 = from@;
                        let ghost t0 = to@;
                        assoc_set(&mut from, &mut to, inner_new, o);
                        proof {
                            assert(pin_link(v0, ci, k as int) == Some((io@, o@)));
                            assert forall|i: int| #![trigger from@[i]] 0 <= i < from@.len() implies exists|n: usize| #[trigger] net_mapping@.contains_key(n)
                                && net_mapping@[n] == from@[i]@ && outer_net_upto(v0, ci, n, k + 1) == Some(to@[i]@) by {
                                if from@[i]@ == inner_new@ {
                                    assert(net_mapping@.contains_key(io@));
                                } else {
                                    let n = choose|n: usize| #[trigger] mk0.contains_key(n)
                                        && mk0[n] == f0[i]@ && outer_net_upto(v0, ci, n, k as int) == Some(t0[i]@);
                                    assert(net_mapping@.contains_key(n) && net_mapping@[n] == mk0[n]);
                                    assert(n != io@);
                                }
                            }
                            assert forall|n: usize| #[trigger] outer_net_upto(v0, ci, n, k + 1) is Some
                                implies net_mapping@.contains_key(n) && net_ids_view(from@).contains(net_mapping@[n]) by {
                                if n == io@ {
                                    assert(net_mapping@[n] == inner_new@);
                                } else {
                                    assert(outer_net_upto(v0, ci, n, k as int) is Some);
                                    assert(net_ids_view(fk0).contains(mk0[n]));
                                    let j = choose|j: int| 0 <= j < fk0.len() && net_ids_view(fk0)[j] == mk0[n];
                                    assert(from@[j] == fk0[j]);
                                    assert(net_ids_view(from@)[j] == mk0[n]);
                                }
                            }
                            assert forall|i: int| 0 <= i < from@.len() implies v0.next_net <= #[trigger] from@[i]@
                                && self@.nets.contains_key(from@[i]@) && self@.nets[from@[i]@].parent == p by {
                                if from@[i]@ != inner_new@ {
                                    assert(f0[i]@ == from@[i]@);
                                    assert(s6.nets.contains_key(f0[i]@));
                                }
                            }
                            assert forall|i: int| 0 <= i < to@.len() implies v0.nets.contains_key(#[trigger] to@[i]@)
                                && v0.nets[to@[i]@].parent == p by {
                                if !(from@[i]@ == inner_new@ && to@[i]@ == o@) {
                                    assert(t0[i]@ == to@[i]@);
                                }
                            }
                        }
                    } else {
                        proof {
                            assert(net_mapping@[io@] == inner_new@);
                            assert(false);
                        }
                    }
                },
                _ => {
                    proof {
                        assert forall|n: usize| #[trigger] outer_net_upto(v0, ci, n, k + 1) == outer_net_upto(v0, ci, n, k as int) by {}
                    }
                },
            }
            k = k + 1;
        }
        // The copies of the constant nets merge with the constant nets of the parent.
        let low_p = self.net_zero(&parent);
        let high_p = self.net_one(&parent);
        proof {
            assert(v0.circuits[p].nets.contains(low_p@) && v0.circuits[p].nets.contains(high_p@));
            assert(v0.nets.contains_key(low_p@) && v0.nets[low_p@].parent == p);
            assert(v0.nets.contains_key(high_p@) && v0.nets[high_p@].parent == p);
        }
        let ghost f1 = from@;
        let ghost t1 = to@;
        assoc_set(&mut from, &mut to, new_net_zero, low_p);
        let ghost f2 = from@;
        let ghost t2 = to@;
        assoc_set(&mut from, &mut to, new_net_one, high_p);
        proof {
            assert forall|i: int| 0 <= i < from@.len() implies v0.next_net <= #[trigger] from@[i]@
                && self@.nets.contains_key(from@[i]@) && self@.nets[from@[i]@].parent == p by {
                if from@[i]@ != new_net_one@ {
                    assert(f2[i]@ == from@[i]@);
                    if f2[i]@ != new_net_zero@ {
                        assert(f1[i]@ == f2[i]@);
                    }
                }
            }
            assert forall|i: int| 0 <= i < to@.len() implies v0.nets.contains_key(#[trigger] to@[i]@)
                && v0.nets[to@[i]@].parent == p by {
                if !(from@[i]@ == new_net_one@ && to@[i]@ == high_p@) {
                    assert(t2[i]@ == to@[i]@);
                    if !(f2[i]@ == new_net_zero@ && t2[i]@ == low_p@) {
                        assert(t1[i]@ == t2[i]@);
                    }
                }
            }
        }
        let ghost mf = net_mapping@;
        let ghost fvs = net_ids_view(from@);
        let ghost tvs = net_ids_view(to@);
        proof {
            let lt = v0.circuits[t].net_low;
            let ht = v0.circuits[t].net_high;
            assert(low_t@ == lt && high_t@ == ht);
            assert(lt != ht);
            assert(mf[lt] == new_net_zero@ && mf[ht] == new_net_one@);
            assert(new_net_zero@ != new_net_one@);
            assert(k == qv.len());
            assert forall|i: int| #![trigger fvs[i]] 0 <= i < fvs.len() implies exists|n: usize| #[trigger] mf.contains_key(n)
                && mf[n] == fvs[i] && merge_target(v0, ci, n) == Some(tvs[i]) by {
                if fvs[i] == new_net_one@ {
                    assert(mf.contains_key(ht));
                    assert(tvs[i] == high_p@);
                } else {
                    assert(from@[i]@ != new_net_one@);
                    assert(i < f2.len() && from@[i]@ == f2[i]@ && to@[i]@ == t2[i]@);
                    if f2[i]@ == new_net_zero@ {
                        assert(t2[i]@ == low_p@);
                        assert(mf.contains_key(lt));
                    } else {
                        assert(i < f1.len() && f2[i]@ == f1[i]@ && t2[i]@ == t1[i]@);
                        let n = choose|n: usize| #[trigger] mf.contains_key(n)
                            && mf[n] == f1[i]@ && outer_net_upto(v0, ci, n, k as int) == Some(t1[i]@);
                        assert(n != lt && n != ht);
                    }
                }
            }
            assert forall|n: usize| #[trigger] merge_target(v0, ci, n) is Some implies mf.contains_key(n) && fvs.contains(mf[n]) by {
                if n == lt {
                    assert(net_ids_view(f2).contains(new_net_zero@));
                    let j = choose|j: int| 0 <= j < f2.len() && net_ids_view(f2)[j] == new_net_zero@;
                    assert(from@[j] == f2[j]);
                    assert(fvs[j] == mf[n]);
                } else if n == ht {
                    assert(fvs.contains(new_net_one@));
                } else {
                    assert(outer_net_upto(v0, ci, n, k as int) is Some);
                    assert(net_ids_view(f1).contains(mf[n]));
                    let j = choose|j: int| 0 <= j < f1.len() && net_ids_view(f1)[j] == mf[n];
                    assert(f2[j] == f1[j]);
                    assert(from@[j] == f2[j]);
                    assert(fvs[j] == mf[n]);
                }
            }
            assert forall|i: int| 0 <= i < tvs.len() implies #[trigger] tvs[i] < v0.next_net by {
                assert(v0.nets.contains_key(to@[i]@));
            }
        }
        // Make the net replacement.
        let ghost sd = self@;
        let ghost mut nm = mf;
        proof {
            assert(sc.inv());
            assert forall|jx: int| 0 <= jx < iv.len() implies #[trigger] sc.instances.contains_key((v0.next_inst + jx) as usize)
                && sd.instances.contains_key((v0.next_inst + jx) as usize)
                && sd.instances[(v0.next_inst + jx) as usize] == sc.instances[(v0.next_inst + jx) as usize]
                && (v0.next_inst + jx) as usize != ci by {
                assert(v0.instances.contains_key(ci));
            }
            lemma_copies_connected_frame(v0, sc, sd, v0.next_inst as int, iv, mc, mf, ci);
            assert forall|n: usize| #[trigger] nm.contains_key(n) implies nm[n] == assoc_lookup(fvs, tvs, mf[n], 0) by {}
            assert forall|n: usize| #[trigger] nm.contains_key(n) implies sd.nets.contains_key(nm[n])
                && sd.nets[nm[n]].parent == p && !v0.nets.contains_key(nm[n]) by {
                assert(net_mapping@.contains_key(n));
            }
            assert(net_mapping@.dom().subset_of(v0.circuits[t].nets));
            vstd::set_lib::lemma_len_subset(net_mapping@.dom(), v0.circuits[t].nets);
            assert(sd.next_net <= v0.next_net + v0.circuits[t].nets.len());
        }
        let mut k: usize = 0;
        while k < from.len()
            invariant
                self.wf(),
                self.layers() == old(self).layers(),
                self.shapes_view() == old(self).shapes_view(),
                v0 == old(self)@,
                old(self).wf(),
                v0.inv(),
                v0.instances.contains_key(ci),
                ci == circuit_instance@,
                p == v0.instances[ci].parent,
                v0.circuits.contains_key(p),
                self@.circuits.dom() == v0.circuits.dom(),
                self@.circuits[p].net_low == v0.circuits[p].net_low,
                self@.circuits[p].net_high == v0.circuits[p].net_high,
                self@.circuits_by_name == v0.circuits_by_name,
                self@.instances == sd.instances,
                self@.next_inst == sd.next_inst,
                self@.next_net == sd.next_net,
                self@.next_pin_inst == sd.next_pin_inst,
                t == v0.instances[ci].template,
                t != p,
                self@.circuits[t] == v0.circuits[t],
                self@.pins.dom() == v0.pins.dom(),
                forall|q: usize| #[trigger] v0.pin_insts.contains_key(q) ==> self@.pin_insts.contains_key(q)
                    && self@.pin_insts[q] == v0.pin_insts[q],
                v0.nets.dom().subset_of(self@.nets.dom()),
                forall|n: usize| #[trigger] v0.nets.contains_key(n) ==> self@.nets[n].parent == v0.nets[n].parent,
                forall|n: usize| #[trigger] self@.nets.contains_key(n) && !v0.nets.contains_key(n) ==> self@.nets[n].parent == p,
                from@.len() == to@.len(),
                net_ids_view(from@).no_duplicates(),
                k <= from@.len(),
                forall|i: int| k <= i < from@.len() ==> v0.next_net <= #[trigger] from@[i]@ && self@.nets.contains_key(from@[i]@)
                    && self@.nets[from@[i]@].parent == p,
                forall|i: int| 0 <= i < to@.len() ==> v0.nets.contains_key(#[trigger] to@[i]@) && v0.nets[to@[i]@].parent == p,
                copies_connected(v0, self@, v0.next_inst as int, iv, nm),
                copies_of(v0, sc, ci, p, v0.next_inst as int, iv),
                self@.instances == sc.instances,
                nm.dom() == mf.dom(),
                mf.dom().subset_of(v0.circuits[t].nets),
                fvs == net_ids_view(from@),
                tvs == net_ids_view(to@),
                forall|n: usize| #[trigger] mf.contains_key(n) ==> v0.next_net <= mf[n],
                forall|a: usize, b: usize| #[trigger] mf.contains_key(a) && #[trigger] mf.contains_key(b) && a != b ==> mf[a] != mf[b],
                forall|i: int| #![trigger fvs[i]] 0 <= i < fvs.len() ==> exists|n: usize| #[trigger] mf.contains_key(n)
                    && mf[n] == fvs[i] && merge_target(v0, ci, n) == Some(tvs[i]),
                forall|n: usize| #[trigger] merge_target(v0, ci, n) is Some ==> mf.contains_key(n) && fvs.contains(mf[n]),
                forall|i: int| 0 <= i < tvs.len() ==> #[trigger] tvs[i] < v0.next_net,
                forall|n: usize| #[trigger] nm.contains_key(n) ==> nm[n] == assoc_lookup(fvs, tvs, mf[n], k as int),
                self@.circuits[p].instances_by_name == sc.circuits[p].instances_by_name,
                forall|q: usize| #[trigger] sc.pin_insts.contains_key(q) ==> self@.pin_insts.contains_key(q)
                    && self@.pin_insts[q].template_pin == sc.pin_insts[q].template_pin,
                forall|x: u32| #[trigger] v0.pins.contains_key(x) && v0.pins[x].circuit != p ==> self@.pins[x] == v0.pins[x],
                forall|cc: u32| #[trigger] v0.circuits.contains_key(cc) ==> self@.circuits[cc].net_low == v0.circuits[cc].net_low
                    && self@.circuits[cc].net_high == v0.circuits[cc].net_high,
                forall|n: usize| #[trigger] mf.contains_key(n) && !fvs.contains(mf[n])
                    ==> self@.nets.contains_key(mf[n]) && self@.nets[mf[n]].name == copy_net_name(v0, p, n),
                forall|n: usize| #[trigger] nm.contains_key(n) ==> self@.nets.contains_key(nm[n])
                    && self@.nets[nm[n]].parent == p && (v0.nets.contains_key(nm[n]) ==> v0.nets[nm[n]].parent == p),
            decreases from@.len() - k,
        {
            let a = from[k];
            let b = to[k];
            let ghost s7 = self@;
            proof {
                assert(!old(self).shapes_view().net_shapes.contains_key(a@));
                lemma_shapes_unlink_absent(old(self).shapes_view(), a@);
                assert(v0.nets.contains_key(b@) && b@ < v0.next_net);
                assert(v0.circuits[p].nets.contains(v0.circuits[p].net_low));
                assert(v0.circuits[p].nets.contains(v0.circuits[p].net_high));
                assert(v0.circuits[p].net_low < v0.next_net);
                assert(v0.circuits[p].net_high < v0.next_net);
                assert(s7.circuits.contains_key(p));
                assert(s7.inv());
                assert(net_is_live(s7.circuits, s7.nets, a@));
            }
            self.replace_net(&a, &b);
            proof {
                assert(self@.nets.dom() =~= s7.nets.dom().remove(a@));
                assert forall|jx: int| 0 <= jx < iv.len() implies #[trigger] s7.instances.contains_key((v0.next_inst + jx) as usize) by {
                    assert(sc.instances.contains_key((v0.next_inst + jx) as usize));
                }
                lemma_copies_connected_replace(v0, s7, self@, v0.next_inst as int, iv, nm, a@, b@);
                assert forall|q: usize| #[trigger] v0.pin_insts.contains_key(q) implies self@.pin_insts.contains_key(q)
                    && self@.pin_insts[q] == v0.pin_insts[q] by {
                    if s7.nets[a@].pin_instances.contains(q) {
                        assert(s7.pin_insts[q].net == Some(a@));
                        if v0.instances.contains_key(v0.pin_insts[q].circuit_inst) {
                            assert(v0.nets.contains_key(a@));
                        }
                    }
                }
                let nm2 = nm.map_values(|x: usize| if x == a@ { b@ } else { x });
                assert forall|n: usize| #[trigger] nm2.contains_key(n) implies self@.nets.contains_key(nm2[n])
                    && self@.nets[nm2[n]].parent == p && (v0.nets.contains_key(nm2[n]) ==> v0.nets[nm2[n]].parent == p) by {
                    assert(nm.contains_key(n));
                    assert(v0.nets.contains_key(b@));
                }
                assert(fvs[k as int] == a@ && tvs[k as int] == b@);
                assert(v0.next_net <= a@);
                assert forall|n: usize| #[trigger] nm2.contains_key(n) implies nm2[n] == assoc_lookup(fvs, tvs, mf[n], k + 1) by {
                    assert(nm.contains_key(n));
                    lemma_assoc_lookup(fvs, tvs, mf[n], k as int);
                    if fvs[k as int] == mf[n] {
                        assert(!fvs.subrange(0, k as int).contains(mf[n])) by {
                            if fvs.subrange(0, k as int).contains(mf[n]) {
                                let j = choose|j: int| 0 <= j < k && fvs.subrange(0, k as int)[j] == mf[n];
                                assert(fvs[j] == fvs[k as int]);
                            }
                        }
                    } else {
                        if nm[n] != mf[n] {
                            let i = choose|i: int| 0 <= i < k && assoc_lookup(fvs, tvs, mf[n], k as int) == tvs[i];
                            assert(tvs[i] < v0.next_net);
                        }
                        assert(nm[n] != a@);
                    }
                }
                assert forall|x: u32| #[trigger] v0.pins.contains_key(x) && v0.pins[x].circuit != p implies self@.pins[x] == v0.pins[x] by {
                    if s7.nets[a@].pins.contains(x) {
                        assert(s7.pins[x].net == Some(a@));
                        assert(s7.pins[x].circuit == s7.nets[a@].parent);
                    }
                }
                assert forall|n: usize| #[trigger] mf.contains_key(n) && !fvs.contains(mf[n])
                    implies self@.nets.contains_key(mf[n]) && self@.nets[mf[n]].name == copy_net_name(v0, p, n) by {
                    assert(fvs[k as int] != mf[n]);
                    assert(tvs[k as int] < v0.next_net);
                    assert(s7.nets.contains_key(mf[n]));
                }
                nm = nm2;
                assert(self@.pins.dom() =~= s7.pins.dom());
                assert forall|i: int| k + 1 <= i < from@.len() implies v0.next_net <= #[trigger] from@[i]@
                    && self@.nets.contains_key(from@[i]@) && self@.nets[from@[i]@].parent == p by {
                    assert(net_ids_view(from@)[i] != net_ids_view(from@)[k as int]);
                }
                assert forall|n: usize| #[trigger] self@.nets.contains_key(n) && !v0.nets.contains_key(n)
                    implies self@.nets[n].parent == p by {
                    assert(s7.nets.contains_key(n));
                }
            }
            k = k + 1;
        }
        let ghost s5 = self@;
        // Remove the old instance.
        self.remove_cell_instance(circuit_instance);
        proof {
            let v = self@;
            assert(v.circuits.dom() =~= s5.circuits.dom());
            assert(v.pins.dom() =~= s5.pins.dom());
            assert(v.nets.dom() =~= s5.nets.dom());
            assert forall|i: usize| #[trigger] v0.instances.contains_key(i) && i != ci
                implies v.instances.contains_key(i) && v.instances[i] == v0.instances[i] by {
                assert(sc.instances.contains_key(i));
            }
            assert forall|n: usize| #[trigger] v.nets.contains_key(n) && !v0.nets.contains_key(n)
                implies v.nets[n].parent == p by {
                assert(s5.nets.contains_key(n));
            }
            assert forall|j: int| 0 <= j < iv.len() implies {
                &&& #[trigger] v.instances.contains_key((v0.next_inst + j) as usize)
                &&& v.instances[(v0.next_inst + j) as usize].parent == p
                &&& v.instances[(v0.next_inst + j) as usize].template == v0.instances[iv[j]].template
                &&& copy_name_ok(v.instances[(v0.next_inst + j) as usize].name, v0.instances[ci].name, v0.instances[iv[j]].name)
            } by {
                assert(s5.instances.contains_key((v0.next_inst + j) as usize));
            }
            assert(copies_of(v0, v, ci, p, v0.next_inst as int, iv));
            assert(s5.inv());
            assert forall|jx: int| 0 <= jx < iv.len() implies #[trigger] s5.instances.contains_key((v0.next_inst + jx) as usize)
                && v.instances.contains_key((v0.next_inst + jx) as usize)
                && v.instances[(v0.next_inst + jx) as usize] == s5.instances[(v0.next_inst + jx) as usize]
                && (v0.next_inst + jx) as usize != ci by {
                assert(sc.instances.contains_key((v0.next_inst + jx) as usize));
            }
            assert forall|q: usize| #[trigger] s5.pin_insts.contains_key(q) && s5.pin_insts[q].circuit_inst != ci
                implies v.pin_insts.contains_key(q) && v.pin_insts[q].net == s5.pin_insts[q].net by {
                if s5.instances[ci].pins.contains(q) {
                    let jq = choose|jq: int| 0 <= jq < s5.instances[ci].pins.len() && s5.instances[ci].pins[jq] == q;
                    assert(s5.pin_insts[s5.instances[ci].pins[jq]].circuit_inst == ci);
                }
            }
            lemma_copies_connected_frame(v0, s5, v, v0.next_inst as int, iv, nm, nm, ci);
            assert forall|q: usize| #[trigger] v0.pin_insts.contains_key(q) && v0.pin_insts[q].circuit_inst != ci
                implies v.pin_insts[q] == v0.pin_insts[q] by {
                assert(s5.pin_insts.contains_key(q));
            }
            assert forall|n: usize| #[trigger] nm.contains_key(n) implies net_is_live(v.circuits, v.nets, nm[n])
                && v.nets[nm[n]].parent == p by {
                assert(s5.nets.contains_key(nm[n]));
            }
            assert(nm.dom().subset_of(v0.circuits[t].nets));
            assert(fvs.subrange(0, fvs.len() as int) =~= fvs);
            assert forall|n: usize| #[trigger] nm.contains_key(n) && merge_target(v0, ci, n) is None
                implies nm[n] == mf[n] && !fvs.contains(mf[n]) by {
                lemma_assoc_lookup(fvs, tvs, mf[n], fvs.len() as int);
                if fvs.contains(mf[n]) {
                    let j = choose|j: int| 0 <= j < fvs.len() && fvs[j] == mf[n];
                    let n2 = choose|n2: usize| #[trigger] mf.contains_key(n2) && mf[n2] == fvs[j] && merge_target(v0, ci, n2) == Some(tvs[j]);
                    assert(n2 == n);
                }
            }
            assert(net_map_merged(v0, ci, nm)) by {
                assert forall|n: usize| #[trigger] nm.contains_key(n) implies match merge_target(v0, ci, n) {
                    Some(o) => nm[n] == o,
                    None => !v0.nets.contains_key(nm[n]),
                } by {
                    match merge_target(v0, ci, n) {
                        Some(o) => {
                            let j = choose|j: int| 0 <= j < fvs.len() && fvs[j] == mf[n];
                            let n2 = choose|n2: usize| #[trigger] mf.contains_key(n2) && mf[n2] == fvs[j] && merge_target(v0, ci, n2) == Some(tvs[j]);
                            assert(n2 == n);
                            lemma_assoc_lookup(fvs, tvs, mf[n], fvs.len() as int);
                        },
                        None => {
                            assert(v0.next_net <= mf[n]);
                            if v0.nets.contains_key(mf[n]) {
                                assert(mf[n] < v0.next_net);
                            }
                        },
                    }
                }
            }
            assert forall|j2: int| 0 <= j2 < iv.len() implies #[trigger] sc.instances.contains_key((v0.next_inst + j2) as usize) by {}
            assert forall|x: Seq<char>| #[trigger] sc.circuits[p].instances_by_name.contains_key(x) && Some(x) != v0.instances[ci].name
                implies v.circuits[p].instances_by_name.contains_key(x) by {
                assert(s5.circuits[p].instances_by_name.contains_key(x));
            }
            lemma_copies_follow_frame(v0, sc, v, v0.next_inst as int, iv, iv.len() as int, ci, p);
            assert forall|jx: int| 0 <= jx < iv.len() implies #[trigger] v.instances[(v0.next_inst + jx) as usize].pins.len()
                == v0.instances[iv[jx]].pins.len() by {
                assert(copy_follows_template(v0, v, (v0.next_inst + jx) as usize, v0.instances[iv[jx]].template));
                assert(iv.to_set().contains(iv[jx]));
                assert(v0.instances.contains_key(iv[jx]));
            }
            assert(net_copies_named(v0, v, ci, nm)) by {
                assert forall|n: usize| #[trigger] nm.contains_key(n) && merge_target(v0, ci, n) is None
                    implies v.nets[nm[n]].name == copy_net_name(v0, v0.instances[ci].parent, n) by {
                    assert(s5.nets.contains_key(mf[n]));
                }
            }
        }
    }
}

impl Chip {
    /// Flatten all instances of the cell by replacing them with its content, then
    /// remove the cell. For a top level cell this is removing it.
    pub fn flatten_circuit(&mut self, circuit: &CellId)
        requires
            old(self).wf(),
            old(self)@.circuits.contains_key(circuit@),
            ({
                let v = old(self)@;
                let c = v.circuits[circuit@];
                let r = c.references.len();
                &&& v.next_net + r * c.nets.len() <= usize::MAX
                &&& v.next_inst + r * c.instances.len() <= usize::MAX
                &&& v.next_pin_inst + r * (c.instances.len() * v.pins.dom().len()) <= usize::MAX
            }),
        ensures
            final(self).wf(),
            final(self).layers() == old(self).layers(),
            final(self).shapes_view() == shapes_without_cell(old(self).shapes_view(), circuit@),
            final(self)@.circuits.dom() == old(self)@.circuits.dom().remove(circuit@),
            final(self)@.circuits_by_name == old(self)@.circuits_by_name.remove(old(self)@.circuits[circuit@].name),
            forall|i: usize| #[trigger] old(self)@.instances.contains_key(i)
                && !old(self)@.circuits[circuit@].references.contains(i)
                && !old(self)@.circuits[circuit@].instances.contains(i)
                ==> final(self)@.instances.contains_key(i) && final(self)@.instances[i] == old(self)@.instances[i],
            final(self)@.next_inst == old(self)@.next_inst
                + old(self)@.circuits[circuit@].references.len() * old(self)@.circuits[circuit@].instances.len(),
            exists|rs: Seq<usize>| rs.len() == old(self)@.circuits[circuit@].references.len() && rs.no_duplicates()
                && rs.to_set() == old(self)@.circuits[circuit@].references
                && #[trigger] flattened_copies(old(self)@, final(self)@, circuit@, rs),
    {
        let ghost v0 = self@;
        proof {
            lemma_templates_present(v0);
        }
        let ghost c = circuit@;
        let ghost nn = v0.circuits[c].nets.len();
        let ghost ni = v0.circuits[c].instances.len();
        let ghost pp = v0.pins.dom().len();
        let refs = self.each_cell_reference_vec(circuit);
        let ghost rv = inst_ids_view(refs@);
        proof {
            rv.unique_seq_to_set();
            assert(0 * nn == 0 && 0 * ni == 0 && 0 * (ni * pp) == 0) by (nonlinear_arith);
            assert(v0.circuits[c].references.difference(rv.subrange(0, 0).to_set()) =~= v0.circuits[c].references);
        }
        let mut k: usize = 0;
        while k < refs.len()
            invariant
                self.wf(),
                self.layers() == old(self).layers(),
                self.shapes_view() == old(self).shapes_view(),
                v0 == old(self)@,
                v0.inv(),
                c == circuit@,
                v0.circuits.contains_key(c),
                nn == v0.circuits[c].nets.len(),
                ni == v0.circuits[c].instances.len(),
                pp == v0.pins.dom().len(),
                rv == inst_ids_view(refs@),
                rv.no_duplicates(),
                rv.to_set() == v0.circuits[c].references,
                rv.len() == v0.circuits[c].references.len(),
                k <= rv.len(),
                v0.next_net + rv.len() * nn <= usize::MAX,
                v0.next_inst + rv.len() * ni <= usize::MAX,
                v0.next_pin_inst + rv.len() * (ni * pp) <= usize::MAX,
                forall|i: usize, kk: int| #[trigger] v0.circuits[c].references.contains(i) && 0 <= kk < v0.instances[i].pins.len()
                    ==> v0.pins.contains_key(#[trigger] v0.pin_insts[v0.instances[i].pins[kk]].template_pin),
                self@.circuits.dom() == v0.circuits.dom(),
                self@.circuits_by_name == v0.circuits_by_name,
                self@.circuits[c].nets == v0.circuits[c].nets,
                self@.circuits[c].instances == v0.circuits[c].instances,
                self@.circuits[c].references == v0.circuits[c].references.difference(rv.subrange(0, k as int).to_set()),
                self@.next_net <= v0.next_net + k * nn,
                self@.next_inst == v0.next_inst + k * ni,
                self@.next_pin_inst <= v0.next_pin_inst + k * (ni * pp),
                self@.pins.dom() == v0.pins.dom(),
                forall|q: usize| #[trigger] v0.pin_insts.contains_key(q) ==> self@.pin_insts.contains_key(q)
                    && self@.pin_insts[q].template_pin == v0.pin_insts[q].template_pin,
                forall|i: usize| #[trigger] v0.instances.contains_key(i) && !rv.subrange(0, k as int).contains(i)
                    ==> self@.instances.contains_key(i) && self@.instances[i] == v0.instances[i],
                flattened_copies(v0, self@, c, rv.subrange(0, k as int)),
                forall|q: usize| #[trigger] v0.pin_insts.contains_key(q) && !rv.subrange(0, k as int).contains(v0.pin_insts[q].circuit_inst)
                    ==> self@.pin_insts.contains_key(q) && self@.pin_insts[q] == v0.pin_insts[q],
                forall|n: usize| #[trigger] v0.nets.contains_key(n) ==> self@.nets.contains_key(n) && self@.nets[n].parent == v0.nets[n].parent,
                forall|x: u32| #[trigger] v0.pins.contains_key(x) && v0.pins[x].circuit == c ==> self@.pins[x] == v0.pins[x],
                forall|cc: u32| #[trigger] v0.circuits.contains_key(cc) ==> self@.circuits[cc].net_low == v0.circuits[cc].net_low
                    && self@.circuits[cc].net_high == v0.circuits[cc].net_high,
            decreases rv.len() - k,
        {
            let r = refs[k];
            let ghost s = self@;
            let ghost done = rv.subrange(0, k as int).to_set();
            proof {
                assert(rv[k as int] == r@);
                assert(rv.to_set().contains(r@));
                assert(v0.instances.contains_key(r@) && v0.instances[r@].template == c);
                assert(!rv.subrange(0, k as int).contains(r@)) by {
                    if rv.subrange(0, k as int).contains(r@) {
                        let j = choose|j: int| 0 <= j < k && #[trigger] rv.subrange(0, k as int)[j] == r@;
                        assert(rv[j] == rv[k as int]);
                    }
                }
                assert(s.instances.contains_key(r@) && s.instances[r@] == v0.instances[r@]);
                assert((k + 1) * nn == k * nn + nn) by (nonlinear_arith);
                assert((k + 1) * ni == k * ni + ni) by (nonlinear_arith);
                assert((k + 1) * (ni * pp) == k * (ni * pp) + ni * pp) by (nonlinear_arith);
                assert((k + 1) * nn <= rv.len() * nn) by (nonlinear_arith) requires k + 1 <= rv.len();
                assert((k + 1) * ni <= rv.len() * ni) by (nonlinear_arith) requires k + 1 <= rv.len();
                assert((k + 1) * (ni * pp) <= rv.len() * (ni * pp)) by (nonlinear_arith) requires k + 1 <= rv.len();
                assert forall|kk: int| 0 <= kk < s.instances[r@].pins.len()
                    implies s.pins.contains_key(#[trigger] s.pin_insts[s.instances[r@].pins[kk]].template_pin) by {
                    assert(v0.circuits[c].references.contains(r@));
                    assert(v0.pins.contains_key(v0.pin_insts[v0.instances[r@].pins[kk]].template_pin));
                    assert(v0.pin_insts.contains_key(v0.instances[r@].pins[kk]));
                }
            }
            self.flatten_circuit_instance(&r);
            proof {
                let w = self@;
                let sk = rv.subrange(0, k as int);
                let sk1 = rv.subrange(0, k + 1);
                assert(s.inv());
                assert forall|kk: int| 0 <= kk < sk.len() implies
                    copied_content(v0, w, c, #[trigger] sk[kk], v0.next_inst + kk * ni) by {
                    assert(sk[kk] == rv[kk]);
                    assert(rv.to_set().contains(rv[kk]));
                    lemma_copied_content_frame(v0, s, w, c, sk[kk], v0.next_inst + kk * ni);
                }
                assert forall|i: usize| #[trigger] v0.circuits[c].instances.contains(i) implies s.instances[i] == v0.instances[i] by {
                    assert(v0.instances.contains_key(i) && v0.instances[i].parent == c);
                    if sk.contains(i) {
                        let j = choose|j: int| 0 <= j < sk.len() && sk[j] == i;
                        assert(rv[j] == i);
                        assert(rv.to_set().contains(i));
                    }
                }
                assert forall|i: usize, jj: int| #[trigger] v0.circuits[c].instances.contains(i) && 0 <= jj < v0.instances[i].pins.len()
                    implies #[trigger] s.pin_insts[v0.instances[i].pins[jj]].net == v0.pin_insts[v0.instances[i].pins[jj]].net by {
                    assert(v0.instances.contains_key(i) && v0.instances[i].parent == c);
                    let q = v0.instances[i].pins[jj];
                    assert(v0.pin_insts.contains_key(q) && v0.pin_insts[q].circuit_inst == i);
                    if sk.contains(i) {
                        let j = choose|j: int| 0 <= j < sk.len() && sk[j] == i;
                        assert(rv[j] == i);
                        assert(rv.to_set().contains(i));
                    }
                }
                lemma_flattened_content_copied(s, w, c, r@, s.next_inst as int);
                assert forall|kq: int| 0 <= kq < v0.instances[r@].pins.len() implies {
                    let q = #[trigger] v0.instances[r@].pins[kq];
                    &&& s.pin_insts[q] == v0.pin_insts[q]
                    &&& s.pins[v0.pin_insts[q].template_pin].net == v0.pins[v0.pin_insts[q].template_pin].net
                } by {
                    let q = v0.instances[r@].pins[kq];
                    assert(v0.pin_insts.contains_key(q) && v0.pin_insts[q].circuit_inst == r@);
                    assert(v0.circuits[c].references.contains(r@));
                    let tp = v0.pin_insts[q].template_pin;
                    assert(v0.pins.contains_key(tp));
                    assert(v0.pins[tp].circuit == c);
                }
                lemma_merge_target_same(s, v0, r@);
                lemma_copied_content_base(v0, s, w, c, r@, s.next_inst as int);
                assert forall|kk: int| 0 <= kk < sk1.len() implies
                    copied_content(v0, w, c, #[trigger] sk1[kk], v0.next_inst + kk * ni) by {
                    if kk < k {
                        assert(sk1[kk] == sk[kk]);
                    } else {
                        assert(sk1[kk] == r@);
                    }
                }
                assert(flattened_copies(v0, w, c, sk1));
                assert forall|q: usize| #[trigger] v0.pin_insts.contains_key(q) && !sk1.contains(v0.pin_insts[q].circuit_inst)
                    implies w.pin_insts.contains_key(q) && w.pin_insts[q] == v0.pin_insts[q] by {
                    if sk.contains(v0.pin_insts[q].circuit_inst) {
                        let j = choose|j: int| 0 <= j < sk.len() && sk[j] == v0.pin_insts[q].circuit_inst;
                        assert(sk1[j] == sk[j]);
                    }
                    assert(sk1[k as int] == r@);
                }
                let d1 = rv.subrange(0, k + 1).to_set();
                assert(d1 =~= done.insert(r@)) by {
                    assert forall|x: usize| d1.contains(x) <==> done.insert(r@).contains(x) by {
                        if d1.contains(x) {
                            let j = choose|j: int| 0 <= j < k + 1 && #[trigger] rv.subrange(0, k + 1)[j] == x;
                            if j < k {
                                assert(rv.subrange(0, k as int)[j] == x);
                            }
                        }
                        if done.contains(x) {
                            let j = choose|j: int| 0 <= j < k && #[trigger] rv.subrange(0, k as int)[j] == x;
                            assert(rv.subrange(0, k + 1)[j] == x);
                        }
                        if x == r@ {
                            assert(rv.subrange(0, k + 1)[k as int] == x);
                        }
                    }
                }
                assert(self@.circuits[c].references =~= v0.circuits[c].references.difference(d1));
                assert forall|i: usize| #[trigger] v0.instances.contains_key(i) && !rv.subrange(0, k + 1).contains(i)
                    implies self@.instances.contains_key(i) && self@.instances[i] == v0.instances[i] by {
                    if rv.subrange(0, k as int).contains(i) {
                        let j = choose|j: int| 0 <= j < k && #[trigger] rv.subrange(0, k as int)[j] == i;
                        assert(rv.subrange(0, k + 1)[j] == i);
                    }
                    if i == r@ {
                        assert(rv.subrange(0, k + 1)[k as int] == i);
                    }
                }
            }
            k = k + 1;
        }
        let ghost s = self@;
        proof {
            assert(rv.subrange(0, k as int) =~= rv);
            assert(s.circuits[c].references =~= Set::<usize>::empty());
            assert(s.circuits_by_name[s.circuits[c].name] == c);
            assert(v0.circuits[c].name == s.circuits[c].name);
        }
        // Remove the cell.
        self.remove_cell(circuit);
        proof {
            let w = self@;
            assert(s.inv());
            assert forall|kk: int| 0 <= kk < rv.len() implies
                copied_content(v0, w, c, #[trigger] rv[kk], v0.next_inst + kk * ni) by {
                assert(rv.subrange(0, k as int)[kk] == rv[kk]);
                assert(rv.to_set().contains(rv[kk]));
                assert forall|q: usize| #[trigger] s.pin_insts.contains_key(q) && s.instances.contains_key(s.pin_insts[q].circuit_inst)
                    && s.instances[s.pin_insts[q].circuit_inst].parent != c && s.instances[s.pin_insts[q].circuit_inst].template != c
                    implies w.pin_insts.contains_key(q) && w.pin_insts[q].net == s.pin_insts[q].net by {
                    let i = s.pin_insts[q].circuit_inst;
                    assert(!s.circuits[c].instances.contains(i));
                    assert(!s.circuits[c].references.contains(i));
                }
                assert forall|i: usize| #[trigger] s.instances.contains_key(i) && s.instances[i].parent != c && s.instances[i].template != c
                    implies w.instances.contains_key(i) && w.instances[i] == s.instances[i] by {
                    assert(!s.circuits[c].instances.contains(i));
                    assert(!s.circuits[c].references.contains(i));
                }
                lemma_copied_content_frame(v0, s, w, c, rv[kk], v0.next_inst + kk * ni);
            }
            assert(flattened_copies(v0, w, c, rv));
            assert forall|i: usize| #[trigger] v0.instances.contains_key(i)
                && !v0.circuits[c].references.contains(i)
                && !v0.circuits[c].instances.contains(i)
                implies self@.instances.contains_key(i) && self@.instances[i] == v0.instances[i] by {
                assert(!rv.contains(i)) by {
                    if rv.contains(i) {
                        assert(rv.to_set().contains(i));
                    }
                }
            }
        }
    }
}

impl Chip {
    /// Get the transformation that gives the location and orientation of a cell
    /// instance: the identity until one is set.
    pub fn get_transform(&self, cell_inst: &CellInstId) -> (res: SimpleTransform<Coord>)
        requires
            self@.instances.contains_key(cell_inst@),
        ensures
            res == transform_of(self.shapes_view(), cell_inst@),
    {
        match fnv_map_get(&self.instance_transforms, &cell_inst.0) {
            Some(tf) => *tf,
            None => identity_transform(),
        }
    }

    /// Set the transformation that gives the location and orientation of a cell instance.
    pub fn set_transform(&mut self, cell_inst: &CellInstId, tf: SimpleTransform<Coord>)
        requires
            old(self).wf(),
            old(self)@.instances.contains_key(cell_inst@),
        ensures
            final(self).wf(),
            final(self)@ == old(self)@,
            final(self).layers() == old(self).layers(),
            final(self).shapes_view() == (ShapesView {
                transforms: old(self).shapes_view().transforms.insert(cell_inst@, tf),
                ..old(self).shapes_view()
            }),
    {
        fnv_map_insert(&mut self.instance_transforms, cell_inst.0, tf);
    }
}

/// The shapes of `v` after the shapes of the nets `ns` were unlinked from them.
pub open spec fn shapes_unlinked_from_nets(v: ShapesView, ns: Set<usize>) -> ShapesView {
    ShapesView {
        shapes: Map::new(|s: u32| v.shapes.contains_key(s), |s: u32|
            if v.shapes[s].net matches Some(m) && ns.contains(m) { ShapeView { net: None, ..v.shapes[s] } } else { v.shapes[s] }),
        net_shapes: v.net_shapes.remove_keys(ns),
        ..v
    }
}

/// Unlinking no nets keeps the shapes, and unlinking one more net unlinks the
/// enlarged set of nets.
pub proof fn lemma_shapes_unlinked_from_nets(v: ShapesView, d: Set<usize>, n: usize)
    ensures
        shapes_unlinked_from_nets(v, Set::empty()) == v,
        shapes_unlinked_from_nets(shapes_unlinked_from_nets(v, d), set![n]) == shapes_unlinked_from_nets(v, d.insert(n)),
{
    let e = shapes_unlinked_from_nets(v, Set::empty());
    assert(e.shapes =~= v.shapes);
    assert(e.net_shapes =~= v.net_shapes);
    let a = shapes_unlinked_from_nets(shapes_unlinked_from_nets(v, d), set![n]);
    let b = shapes_unlinked_from_nets(v, d.insert(n));
    assert(a.shapes =~= b.shapes);
    assert(a.net_shapes =~= b.net_shapes);
}

/// Unlinking the nets `a` and then the nets `b` unlinks the nets of both.
pub proof fn lemma_shapes_unlinked_union(v: ShapesView, a: Set<usize>, b: Set<usize>)
    ensures
        shapes_unlinked_from_nets(shapes_unlinked_from_nets(v, a), b) == shapes_unlinked_from_nets(v, a + b),
{
    let x = shapes_unlinked_from_nets(shapes_unlinked_from_nets(v, a), b);
    let y = shapes_unlinked_from_nets(v, a + b);
    assert(x.shapes =~= y.shapes);
    assert(x.net_shapes =~= y.net_shapes);
}

/// Unlinking a net that no shape is linked to changes nothing.
pub proof fn lemma_shapes_unlink_absent(v: ShapesView, n: usize)
    requires
        v.inv(),
        !v.net_shapes.contains_key(n),
    ensures
        shapes_unlinked_from_nets(v, set![n]) == v,
{
    let x = shapes_unlinked_from_nets(v, set![n]);
    assert forall|s: u32| #[trigger] v.shapes.contains_key(s) implies v.shapes[s].net != Some(n) by {
        if v.shapes[s].net == Some(n) {
            assert(shapes_of(v.net_shapes, v.shapes[s].net.unwrap()).contains(s));
        }
    }
    assert(x.shapes =~= v.shapes);
    assert(x.net_shapes =~= v.net_shapes);
}

impl Chip {
    /// Unlink all shapes of net `net` from it.
    fn unlink_net_shapes(&mut self, net: usize)
        requires
            old(self).wf(),
        ensures
            final(self).wf(),
            final(self)@ == old(self)@,
            final(self).layers() == old(self).layers(),
            final(self).shapes_view() == shapes_unlinked_from_nets(old(self).shapes_view(), set![net]),
    {
        let ghost v0 = self.shapes_view();
        let ghost m0 = self.shapes@;
        let links = match fnv_map_remove(&mut self.net_shapes, &net) {
            Some(x) => fnv_set_to_vec(&x),
            None => Vec::new(),
        };
        let ghost all = shapes_of(v0.net_shapes, net);
        proof {
            assert(links@.to_set() =~= all);
        }
        let mut k: usize = 0;
        while k < links.len()
            invariant
                self@ == old(self)@,
                self.layers() == old(self).layers(),
                v0 == old(self).shapes_view(),
                m0 == old(self).shapes@,
                all == shapes_of(v0.net_shapes, net),
                links@.to_set() == all,
                k <= links@.len(),
                self.net_shapes@ == old(self).net_shapes@.remove(net),
                self.shape_index_generator == old(self).shape_index_generator,
                self.shape_parents == old(self).shape_parents,
                self.shape_containers == old(self).shape_containers,
                self.pin_shapes == old(self).pin_shapes,
                self.instance_transforms == old(self).instance_transforms,
                self.shapes@.dom() == m0.dom(),
                forall|x: u32| #[trigger] m0.contains_key(x) ==> self.shapes@[x] == (
                    if links@.subrange(0, k as int).contains(x) { Shape { net: None, ..m0[x] } } else { m0[x] }),
            decreases links@.len() - k,
        {
            let x = links[k];
            let ghost s0 = self.shapes@;
            match fnv_map_remove(&mut self.shapes, &x) {
                Some(shape) => {
                    let Shape { geometry, net: _, pin } = shape;
                    fnv_map_insert(&mut self.shapes, x, Shape { geometry, net: None, pin });
                },
                None => {},
            }
            proof {
                assert(links@.subrange(0, k + 1) =~= links@.subrange(0, k as int).push(x));
                assert(self.shapes@.dom() =~= m0.dom());
                assert forall|y: u32| #[trigger] m0.contains_key(y) implies self.shapes@[y] == (
                    if links@.subrange(0, k + 1).contains(y) { Shape { net: None, ..m0[y] } } else { m0[y] }) by {
                    if y != x {
                        assert(links@.subrange(0, k + 1).contains(y) == links@.subrange(0, k as int).contains(y)) by {
                            if links@.subrange(0, k + 1).contains(y) {
                                let j = choose|j: int| 0 <= j < k + 1 && #[trigger] links@.subrange(0, k + 1)[j] == y;
                                assert(j < k);
                                assert(links@.subrange(0, k as int)[j] == y);
                            }
                        }
                    } else {
                        assert(links@.subrange(0, k + 1)[k as int] == x);
                    }
                }
            }
            k = k + 1;
        }
        proof {
            assert(links@.subrange(0, k as int) =~= links@);
            let v1 = self.shapes_view();
            let e = shapes_unlinked_from_nets(v0, set![net]);
            assert forall|x: u32| #[trigger] v0.shapes.contains_key(x) implies
                (links@.contains(x) <==> (v0.shapes[x].net == Some(net))) by {
                if links@.contains(x) {
                    assert(all.contains(x));
                }
                if v0.shapes[x].net == Some(net) {
                    assert(shapes_of(v0.net_shapes, v0.shapes[x].net.unwrap()).contains(x));
                    assert(links@.to_set().contains(x));
                }
            }
            assert(v1.shapes =~= e.shapes);
            assert(v1.net_shapes =~= e.net_shapes);
            assert(v1 == e);
            assert forall|n: usize, x: u32| #[trigger] shapes_of(v1.net_shapes, n).contains(x) && #[trigger] v1.shapes.contains_key(x)
                implies v1.shapes[x].net == Some(n) by {
                assert(shapes_of(v0.net_shapes, n).contains(x));
            }
            assert forall|n: usize, x: u32| #[trigger] shapes_of(v1.net_shapes, n).contains(x) implies x < v1.next_shape by {
                assert(shapes_of(v0.net_shapes, n).contains(x));
            }
            assert forall|x: u32| #[trigger] v1.shapes.contains_key(x) && v1.shapes[x].net is Some
                implies shapes_of(v1.net_shapes, v1.shapes[x].net.unwrap()).contains(x) by {
                assert(shapes_of(v0.net_shapes, v0.shapes[x].net.unwrap()).contains(x));
            }
            assert forall|x: u32| #[trigger] v1.shapes.contains_key(x) && v1.shapes[x].pin is Some
                implies shapes_of_pin_spec(v1.pin_shapes, v1.shapes[x].pin.unwrap()).contains(x) by {
                assert(shapes_of_pin_spec(v0.pin_shapes, v0.shapes[x].pin.unwrap()).contains(x));
            }
            assert forall|p: u32, x: u32| #[trigger] shapes_of_pin_spec(v1.pin_shapes, p).contains(x) && #[trigger] v1.shapes.contains_key(x)
                implies v1.shapes[x].pin == Some(p) by {
                assert(shapes_of_pin_spec(v0.pin_shapes, p).contains(x));
            }
        }
    }
}

impl Chip {
    /// Delete the disconnected pin instance `q`, the one at position `k` of the
    /// pins of instance `r`, from the instance and from the pin instance table.
    fn delete_pin_instance(&mut self, r: &CellInstId, q: &PinInstId, Ghost(k): Ghost<int>)
        requires
            old(self).wf_core(),
            old(self)@.instances.contains_key(r@),
            0 <= k < old(self)@.instances[r@].pins.len(),
            old(self)@.instances[r@].pins[k] == q@,
            old(self)@.pin_insts[q@].net is None,
        ensures
            final(self).wf_core(),
            final(self).layers() == old(self).layers(),
            final(self).shapes_view() == old(self).shapes_view(),
            final(self)@.instances == old(self)@.instances.insert(r@, InstView {
                pins: old(self)@.instances[r@].pins.remove(k),
                ..old(self)@.instances[r@]
            }),
            final(self)@.pin_insts == old(self)@.pin_insts.remove(q@),
            final(self)@.circuits == old(self)@.circuits,
            final(self)@.circuits_by_name == old(self)@.circuits_by_name,
            final(self)@.nets == old(self)@.nets,
            final(self)@.pins == old(self)@.pins,
            final(self)@.next_circuit == old(self)@.next_circuit,
            final(self)@.next_inst == old(self)@.next_inst,
            final(self)@.next_pin == old(self)@.next_pin,
            final(self)@.next_pin_inst == old(self)@.next_pin_inst,
            final(self)@.next_net == old(self)@.next_net,
    {
        let ghost v0 = self@;
        let ghost x0 = v0.instances[r@];
        let mut inst = fnv_map_remove(&mut self.circuit_instances, &r.0).unwrap();
        let mut j: usize = 0;
        while j < inst.pins.len() && inst.pins[j] != q.0
            invariant
                inst@ == x0,
                0 <= k < x0.pins.len(),
                x0.pins[k] == q@,
                j <= x0.pins.len(),
                forall|i: int| 0 <= i < j ==> x0.pins[i] != q@,
            decreases x0.pins.len() - j,
        {
            j = j + 1;
        }
        proof {
            assert(j == k) by {
                assert(x0.pins.no_duplicates());
                if j < k {
                    assert(x0.pins[j as int] == q@);
                }
            }
        }
        inst.pins.remove(j);
        fnv_map_insert(&mut self.circuit_instances, r.0, inst);
        fnv_map_remove(&mut self.pin_instances, &q.0);
        proof {
            let v1 = self@;
            assert(v1.instances =~= v0.instances.insert(r@, InstView { pins: x0.pins.remove(k), ..x0 }));
            assert(v1.pin_insts =~= v0.pin_insts.remove(q@));
            assert(v1.circuits =~= v0.circuits);
            assert(v1.nets =~= v0.nets);
            assert(v1.pins =~= v0.pins);
            assert forall|i: usize| #[trigger] v1.instances.contains_key(i) && i != r@ implies !v0.instances[i].pins.contains(q@) by {
                if v0.instances[i].pins.contains(q@) {
                    let m = choose|m: int| 0 <= m < v0.instances[i].pins.len() && v0.instances[i].pins[m] == q@;
                    assert(v0.pin_insts[v0.instances[i].pins[m]].circuit_inst == i);
                    assert(v0.pin_insts[x0.pins[k]].circuit_inst == r@);
                }
            }
            assert forall|n: usize| #[trigger] net_is_live(v0.circuits, v0.nets, n) implies !v0.nets[n].pin_instances.contains(q@) by {}
            lemma_counts_frame(v0, v1);
            assert(inv_instances(v1.circuits, v1.instances, v1.pin_insts)) by {
                assert forall|i: usize| #[trigger] v1.instances.contains_key(i) implies {
                    let x = v1.instances[i];
                    &&& v1.circuits.contains_key(x.parent)
                    &&& v1.circuits.contains_key(x.template)
                    &&& x.parent != x.template
                    &&& v1.circuits[x.parent].instances.contains(i)
                    &&& v1.circuits[x.template].references.contains(i)
                    &&& (x.name matches Some(s) ==> v1.circuits[x.parent].instances_by_name.contains_key(s)
                        && v1.circuits[x.parent].instances_by_name[s] == i)
                    &&& x.pins.no_duplicates()
                    &&& forall|m: int| 0 <= m < x.pins.len() ==> v1.pin_insts.contains_key(#[trigger] x.pins[m])
                        && v1.pin_insts[x.pins[m]].circuit_inst == i
                } by {
                    if i == r@ {
                        let x = v1.instances[i];
                        assert forall|a: int, b: int| 0 <= a < b < x.pins.len() implies x.pins[a] != x.pins[b] by {
                            let a1 = if a < k { a } else { a + 1 };
                            let b1 = if b < k { b } else { b + 1 };
                            assert(x.pins[a] == x0.pins[a1]);
                            assert(x.pins[b] == x0.pins[b1]);
                        }
                        assert forall|m: int| 0 <= m < x.pins.len() implies v1.pin_insts.contains_key(#[trigger] x.pins[m])
                            && v1.pin_insts[x.pins[m]].circuit_inst == i by {
                            let m1 = if m < k { m } else { m + 1 };
                            assert(x.pins[m] == x0.pins[m1]);
                            assert(x0.pins[m1] != x0.pins[k]);
                        }
                    } else {
                        let x = v1.instances[i];
                        assert forall|m: int| 0 <= m < x.pins.len() implies v1.pin_insts.contains_key(#[trigger] x.pins[m])
                            && v1.pin_insts[x.pins[m]].circuit_inst == i by {
                            assert(v0.instances[i].pins.contains(x.pins[m]));
                        }
                    }
                }
            }
            assert(inv_pin_insts(v1.circuits, v1.instances, v1.nets, v1.pin_insts)) by {
                assert forall|p: usize| #[trigger] v1.pin_insts.contains_key(p) implies {
                    let x = v1.pin_insts[p];
                    if v1.instances.contains_key(x.circuit_inst) {
                        &&& v1.instances[x.circuit_inst].pins.contains(p)
                        &&& (x.net matches Some(n) ==> net_is_live(v1.circuits, v1.nets, n)
                            && v1.nets[n].parent == v1.instances[x.circuit_inst].parent
                            && v1.nets[n].pin_instances.contains(p))
                    } else {
                        x.net is None
                    }
                } by {
                    let x = v1.pin_insts[p];
                    if x.circuit_inst == r@ {
                        let m = choose|m: int| 0 <= m < x0.pins.len() && x0.pins[m] == p;
                        assert(m != k);
                        if m < k {
                            assert(v1.instances[r@].pins[m] == p);
                        } else {
                            assert(v1.instances[r@].pins[m - 1] == p);
                        }
                    }
                }
            }
            assert(inv_pin_templates(v1.instances, v1.pins, v1.pin_insts));
            assert(inv_deps(v1.circuits, v1.instances));
            assert(v1.inv_ids());
            lemma_acyclic_frame(v0.circuits, v1.circuits);
        }
    }

    /// The position of the first pin instance of `pin` in instance `r`, if it has one.
    fn find_first_pin_index(&self, r: &CellInstId, pin: &PinId) -> (res: Option<usize>)
        requires
            self.wf_core(),
            self@.instances.contains_key(r@),
        ensures
            match res {
                Some(k) => is_first_pin_index(self@, r@, pin@, k as int),
                None => !has_pin_instance(self@, r@, pin@),
            },
    {
        let inst = self.circuit_inst(r);
        let ghost pins = inst@.pins;
        let mut k: usize = 0;
        while k < inst.pins.len()
            invariant
                self.wf_core(),
                inst@ == self@.instances[r@],
                self@.instances.contains_key(r@),
                pins == inst@.pins,
                k <= pins.len(),
                forall|j: int| 0 <= j < k ==> self@.pin_insts[#[trigger] pins[j]].template_pin != pin@,
            decreases pins.len() - k,
        {
            let q = inst.pins[k];
            proof {
                assert(self@.pin_insts.contains_key(pins[k as int]));
            }
            if self.pin_inst(&PinInstId(q)).template_pin_id.0 == pin.0 {
                return Some(k);
            }
            k = k + 1;
        }
        None
    }

    /// Disconnect and delete, in each instance of the cell of `pin`, the first
    /// pin instance whose template is `pin`.
    fn remove_pin_instances_of(&mut self, pin: &PinId)
        requires
            old(self).wf(),
            old(self)@.pins.contains_key(pin@),
        ensures
            final(self).wf_core(),
            final(self).layers() == old(self).layers(),
            final(self).shapes_view() == old(self).shapes_view(),
            final(self)@.instances == instances_without_pin(old(self)@,
                old(self)@.circuits[old(self)@.pins[pin@].circuit].references, pin@),
            final(self)@.pin_insts == old(self)@.pin_insts.remove_keys(first_pin_insts(old(self)@,
                old(self)@.circuits[old(self)@.pins[pin@].circuit].references, pin@)),
            final(self)@.nets == nets_after_disconnecting(old(self)@.nets, old(self)@.pin_insts,
                first_pin_insts(old(self)@, old(self)@.circuits[old(self)@.pins[pin@].circuit].references, pin@)),
            final(self)@.circuits == old(self)@.circuits,
            final(self)@.circuits_by_name == old(self)@.circuits_by_name,
            final(self)@.pins == old(self)@.pins,
            final(self)@.next_circuit == old(self)@.next_circuit,
            final(self)@.next_inst == old(self)@.next_inst,
            final(self)@.next_pin == old(self)@.next_pin,
            final(self)@.next_pin_inst == old(self)@.next_pin_inst,
            final(self)@.next_net == old(self)@.next_net,
    {
        let ghost v0 = self@;
        let ghost p = pin@;
        let cell = self.pin(pin).circuit;
        let rs = self.each_cell_reference_vec(&cell);
        let ghost rv = inst_ids_view(rs@);
        let ghost refs = v0.circuits[cell@].references;
        let mut k: usize = 0;
        proof {
            assert(rv.subrange(0, 0).to_set() =~= Set::empty());
            assert(first_pin_insts(v0, Set::empty(), p) =~= Set::empty());
            assert(v0.pin_insts.remove_keys(Set::empty()) =~= v0.pin_insts);
            assert(instances_without_pin(v0, Set::empty(), p) =~= v0.instances);
            assert(nets_after_disconnecting(v0.nets, v0.pin_insts, Set::empty()) =~= v0.nets) by {
                assert forall|n: usize| #[trigger] v0.nets.contains_key(n) implies
                    nets_after_disconnecting(v0.nets, v0.pin_insts, Set::empty())[n] == v0.nets[n] by {
                    assert(v0.nets[n].pin_instances.difference(Set::new(|q: usize| Set::<usize>::empty().contains(q)
                        && v0.pin_insts[q].net == Some(n))) =~= v0.nets[n].pin_instances);
                }
            }
        }
        while k < rs.len()
            invariant
                self.wf_core(),
                self.layers() == old(self).layers(),
                self.shapes_view() == old(self).shapes_view(),
                v0 == old(self)@,
                old(self).wf(),
                v0.pins.contains_key(p),
                p == pin@,
                cell@ == v0.pins[p].circuit,
                refs == v0.circuits[cell@].references,
                rv == inst_ids_view(rs@),
                rv.no_duplicates(),
                rv.to_set() == refs,
                k <= rs.len(),
                forall|i: usize| #[trigger] rv.subrange(0, k as int).to_set().contains(i) && has_pin_instance(v0, i, p)
                    ==> is_first_pin_index(v0, i, p, first_pin_index(v0, i, p)),
                self@.instances == instances_without_pin(v0, rv.subrange(0, k as int).to_set(), p),
                self@.pin_insts == v0.pin_insts.remove_keys(first_pin_insts(v0, rv.subrange(0, k as int).to_set(), p)),
                self@.nets == nets_after_disconnecting(v0.nets, v0.pin_insts,
                    first_pin_insts(v0, rv.subrange(0, k as int).to_set(), p)),
                self@.circuits == v0.circuits,
                self@.circuits_by_name == v0.circuits_by_name,
                self@.pins == v0.pins,
                self@.next_circuit == v0.next_circuit,
                self@.next_inst == v0.next_inst,
                self@.next_pin == v0.next_pin,
                self@.next_pin_inst == v0.next_pin_inst,
                self@.next_net == v0.next_net,
            decreases rs.len() - k,
        {
            let r = rs[k];
            let ghost w0 = self@;
            let ghost done = rv.subrange(0, k as int).to_set();
            let ghost gone = first_pin_insts(v0, done, p);
            let ghost x0 = v0.instances[r@];
            proof {
                assert(rv[k as int] == r@);
                assert(rv.to_set().contains(r@));
                assert(refs.contains(r@));
                assert(v0.instances.contains_key(r@));
                assert(!done.contains(r@)) by {
                    let pre = rv.subrange(0, k as int);
                    if pre.contains(r@) {
                        let j = choose|j: int| 0 <= j < pre.len() && pre[j] == r@;
                        assert(rv[j] == rv[k as int]);
                    }
                }
                assert(w0.instances[r@] == x0);
                assert forall|j: int| 0 <= j < x0.pins.len() implies
                    #[trigger] w0.pin_insts.contains_key(x0.pins[j]) && w0.pin_insts[x0.pins[j]] == v0.pin_insts[x0.pins[j]] by {
                    let q = x0.pins[j];
                    assert(v0.pin_insts.contains_key(q));
                    assert(v0.pin_insts[q].circuit_inst == r@);
                    if gone.contains(q) {
                        let i = choose|i: usize| #[trigger] done.contains(i) && has_pin_instance(v0, i, p)
                            && q == v0.instances[i].pins[first_pin_index(v0, i, p)];
                        assert(is_first_pin_index(v0, i, p, first_pin_index(v0, i, p)));
                        assert(v0.pin_insts[q].circuit_inst == i);
                    }
                }
            }
            let found = self.find_first_pin_index(&r, pin);
            if found.is_none() {
                proof {
                    assert(!has_pin_instance(v0, r@, p)) by {
                        if has_pin_instance(v0, r@, p) {
                            let kk = choose|kk: int| 0 <= kk < x0.pins.len() && v0.pin_insts[#[trigger] x0.pins[kk]].template_pin == p;
                            assert(w0.pin_insts.contains_key(x0.pins[kk]));
                            assert(w0.pin_insts[w0.instances[r@].pins[kk]].template_pin == p);
                        }
                    }
                    let done2 = rv.subrange(0, k + 1).to_set();
                    assert(done2 =~= done.insert(r@)) by {
                        let pre = rv.subrange(0, k as int);
                        let post = rv.subrange(0, k + 1);
                        assert(post == pre.push(r@));
                        assert forall|i: usize| post.contains(i) <==> pre.contains(i) || i == r@ by {
                            if post.contains(i) {
                                let j = choose|j: int| 0 <= j < post.len() && post[j] == i;
                                if j < k {
                                    assert(pre[j] == i);
                                }
                            }
                            if pre.contains(i) {
                                let j = choose|j: int| 0 <= j < pre.len() && pre[j] == i;
                                assert(post[j] == i);
                            }
                            if i == r@ {
                                assert(post[k as int] == i);
                            }
                        }
                    }
                    assert(first_pin_insts(v0, done2, p) =~= gone) by {
                        assert forall|x: usize| first_pin_insts(v0, done2, p).contains(x) <==> gone.contains(x) by {
                            if first_pin_insts(v0, done2, p).contains(x) {
                                let i = choose|i: usize| #[trigger] done2.contains(i) && has_pin_instance(v0, i, p)
                                    && x == v0.instances[i].pins[first_pin_index(v0, i, p)];
                                assert(i != r@);
                                assert(done.contains(i));
                            }
                            if gone.contains(x) {
                                let i = choose|i: usize| #[trigger] done.contains(i) && has_pin_instance(v0, i, p)
                                    && x == v0.instances[i].pins[first_pin_index(v0, i, p)];
                                assert(done2.contains(i));
                            }
                        }
                    }
                    assert(instances_without_pin(v0, done2, p) =~= instances_without_pin(v0, done, p));
                    assert forall|i: usize| #[trigger] done2.contains(i) && has_pin_instance(v0, i, p)
                        implies is_first_pin_index(v0, i, p, first_pin_index(v0, i, p)) by {
                        assert(done.contains(i));
                    }
                }
                k = k + 1;
                continue;
            }
            let kx = found.unwrap();
            let q = PinInstId(self.circuit_inst(&r).pins[kx]);
            let ghost kk = kx as int;
            proof {
                assert(w0.pin_insts.contains_key(x0.pins[kk]));
                assert(is_first_pin_index(v0, r@, p, kk)) by {
                    assert forall|j: int| 0 <= j < kk implies v0.pin_insts[#[trigger] v0.instances[r@].pins[j]].template_pin != p by {
                        assert(w0.pin_insts.contains_key(x0.pins[j]));
                    }
                }
                assert(has_pin_instance(v0, r@, p));
                lemma_first_pin_index(v0, r@, p, kk);
                assert(w0.pin_insts[q@] == v0.pin_insts[q@]);
            }
            self.disconnect_pin_instance(&q);
            self.delete_pin_instance(&r, &q, Ghost(kk));
            proof {
                let w2 = self@;
                let done2 = rv.subrange(0, k + 1).to_set();
                let gone2 = first_pin_insts(v0, done2, p);
                assert(done2 =~= done.insert(r@)) by {
                    let pre = rv.subrange(0, k as int);
                    let post = rv.subrange(0, k + 1);
                    assert(post == pre.push(r@));
                    assert forall|i: usize| post.contains(i) <==> pre.contains(i) || i == r@ by {
                        if post.contains(i) {
                            let j = choose|j: int| 0 <= j < post.len() && post[j] == i;
                            if j < k {
                                assert(pre[j] == i);
                            }
                        }
                        if pre.contains(i) {
                            let j = choose|j: int| 0 <= j < pre.len() && pre[j] == i;
                            assert(post[j] == i);
                        }
                        if i == r@ {
                            assert(post[k as int] == i);
                        }
                    }
                }
                assert(gone2 =~= gone.insert(q@)) by {
                    assert forall|x: usize| gone2.contains(x) <==> gone.contains(x) || x == q@ by {
                        if gone2.contains(x) {
                            let i = choose|i: usize| #[trigger] done2.contains(i) && has_pin_instance(v0, i, p)
                                && x == v0.instances[i].pins[first_pin_index(v0, i, p)];
                            if i != r@ {
                                assert(done.contains(i));
                            }
                        }
                        if gone.contains(x) {
                            let i = choose|i: usize| #[trigger] done.contains(i) && has_pin_instance(v0, i, p)
                                && x == v0.instances[i].pins[first_pin_index(v0, i, p)];
                            assert(done2.contains(i));
                        }
                        if x == q@ {
                            assert(done2.contains(r@));
                        }
                    }
                }
                assert forall|i: usize| #[trigger] done2.contains(i) && has_pin_instance(v0, i, p)
                    implies is_first_pin_index(v0, i, p, first_pin_index(v0, i, p)) by {
                    if i != r@ {
                        assert(done.contains(i));
                    }
                }
                assert(w2.instances =~= instances_without_pin(v0, done2, p));
                assert(w2.pin_insts =~= v0.pin_insts.remove_keys(gone2));
                let o = v0.pin_insts[q@].net;
                if o is Some {
                    assert(v0.nets.contains_key(o.unwrap()));
                }
                assert(w2.nets =~= nets_after_disconnecting(v0.nets, v0.pin_insts, gone2)) by {
                    assert forall|n: usize| #[trigger] w2.nets.contains_key(n) implies
                        w2.nets[n] == nets_after_disconnecting(v0.nets, v0.pin_insts, gone2)[n] by {
                        assert(w2.nets[n].pin_instances =~= v0.nets[n].pin_instances.difference(
                            Set::new(|x: usize| gone2.contains(x) && v0.pin_insts[x].net == Some(n))));
                    }
                }
            }
            k = k + 1;
        }
        proof {
            assert(rv.subrange(0, rv.len() as int) == rv);
        }
    }
}

/// Whether `k` is the position of the first pin instance of instance `i`
/// whose template is pin `p`.
pub open spec fn is_first_pin_index(v: ChipView, i: usize, p: u32, k: int) -> bool {
    &&& 0 <= k < v.instances[i].pins.len()
    &&& v.pin_insts[v.instances[i].pins[k]].template_pin == p
    &&& forall|j: int| 0 <= j < k ==> v.pin_insts[#[trigger] v.instances[i].pins[j]].template_pin != p
}

/// The position of the first pin instance of instance `i` whose template is pin `p`.
pub open spec fn first_pin_index(v: ChipView, i: usize, p: u32) -> int {
    choose|k: int| is_first_pin_index(v, i, p, k)
}

/// Whether instance `i` holds a pin instance of pin `p`.
pub open spec fn has_pin_instance(v: ChipView, i: usize, p: u32) -> bool {
    exists|k: int| 0 <= k < v.instances[i].pins.len() && v.pin_insts[#[trigger] v.instances[i].pins[k]].template_pin == p
}

/// The first pin instance of pin `p` in each instance of `is` that has one.
pub open spec fn first_pin_insts(v: ChipView, is: Set<usize>, p: u32) -> Set<usize> {
    Set::new(|q: usize| exists|i: usize| #[trigger] is.contains(i) && has_pin_instance(v, i, p)
        && q == v.instances[i].pins[first_pin_index(v, i, p)])
}

/// The instances after the first pin instance of pin `p` was taken out of each
/// instance of `is` that has one.
pub open spec fn instances_without_pin(v: ChipView, is: Set<usize>, p: u32) -> Map<usize, InstView> {
    Map::new(|i: usize| v.instances.contains_key(i), |i: usize|
        if is.contains(i) && has_pin_instance(v, i, p) {
            InstView { pins: v.instances[i].pins.remove(first_pin_index(v, i, p)), ..v.instances[i] }
        } else {
            v.instances[i]
        })
}

/// Once the first pin instance of pin `p` is gone from every instance of its
/// cell, no live instance holds a pin instance of `p`.
proof fn lemma_no_pin_instance_left(v: ChipView, w: ChipView, p: u32)
    requires
        v.inv(),
        w.inv_core(),
        v.pins.contains_key(p),
        w.instances == instances_without_pin(v, v.circuits[v.pins[p].circuit].references, p),
        w.pin_insts == v.pin_insts.remove_keys(first_pin_insts(v, v.circuits[v.pins[p].circuit].references, p)),
    ensures
        forall|i: usize, k: int| #[trigger] w.instances.contains_key(i) && 0 <= k < w.instances[i].pins.len()
            ==> w.pin_insts[#[trigger] w.instances[i].pins[k]].template_pin != p,
{
    let cell = v.pins[p].circuit;
    let refs = v.circuits[cell].references;
    assert forall|i: usize, k: int| #[trigger] w.instances.contains_key(i) && 0 <= k < w.instances[i].pins.len()
        implies w.pin_insts[#[trigger] w.instances[i].pins[k]].template_pin != p by {
        let x = v.instances[i];
        let key = w.instances[i].pins[k];
        assert(w.pin_insts.contains_key(key));
        assert(w.pin_insts[key] == v.pin_insts[key]);
        if refs.contains(i) && has_pin_instance(v, i, p) {
            let f = first_pin_index(v, i, p);
            let kk = choose|kk: int| 0 <= kk < x.pins.len() && v.pin_insts[#[trigger] x.pins[kk]].template_pin == p;
            assert(is_first_pin_index(v, i, p, f)) by {
                lemma_first_pin_exists(v, i, p, kk);
            }
            let k1 = if k < f { k } else { k + 1 };
            assert(key == x.pins[k1]);
            assert(k1 != f);
            if k1 < f {
                assert(v.pin_insts[x.pins[f]].template_pin != v.pin_insts[x.pins[k1]].template_pin);
            } else {
                assert(v.pin_insts[x.pins[f]].template_pin != v.pin_insts[x.pins[k1]].template_pin);
            }
        } else if refs.contains(i) {
            assert(key == x.pins[k]);
        } else {
            assert(key == x.pins[k]);
            assert(v.pin_insts.contains_key(key));
            assert(v.pin_insts[key].circuit_inst == i);
            if v.pin_insts[key].template_pin == p {
                assert(v.pins[p].circuit == x.template);
                assert(v.circuits[x.template].references.contains(i));
            }
        }
    }
}

/// The netlist invariant gives every pin instance of a live instance its template pin.
pub(crate) proof fn lemma_templates_present(v: ChipView)
    requires
        v.inv(),
    ensures
        forall|i: usize, k: int| #[trigger] v.instances.contains_key(i) && 0 <= k < v.instances[i].pins.len()
            ==> v.pins.contains_key(#[trigger] v.pin_insts[v.instances[i].pins[k]].template_pin),
{
    assert forall|i: usize, k: int| #[trigger] v.instances.contains_key(i) && 0 <= k < v.instances[i].pins.len()
        implies v.pins.contains_key(#[trigger] v.pin_insts[v.instances[i].pins[k]].template_pin) by {
        assert(inv_pin_inst_templates(v.instances, v.pins, v.pin_insts));
    }
}

/// In an instance of the cell of pin `p`, the first pin instance of `p` sits
/// where `p` sits among the pins of the cell.
proof fn lemma_first_pin_is_at(v: ChipView, i: usize, p: u32)
    requires
        v.inv(),
        v.pins.contains_key(p),
        v.instances.contains_key(i),
        v.instances[i].template == v.pins[p].circuit,
    ensures
        has_pin_instance(v, i, p),
        first_pin_index(v, i, p) == v.circuits[v.pins[p].circuit].pins.index_of(p),
        v.circuits[v.pins[p].circuit].pins[v.circuits[v.pins[p].circuit].pins.index_of(p)] == p,
{
    let c = v.pins[p].circuit;
    let ps = v.circuits[c].pins;
    assert(ps.contains(p));
    let kp = ps.index_of(p);
    assert(0 <= kp < ps.len() && ps[kp] == p);
    assert(v.pin_insts[v.instances[i].pins[kp]].template_pin == p);
    assert forall|j: int| 0 <= j < kp implies v.pin_insts[#[trigger] v.instances[i].pins[j]].template_pin != p by {
        assert(v.pin_insts[v.instances[i].pins[j]].template_pin == ps[j]);
        assert(ps[j] != ps[kp]);
    }
    assert(is_first_pin_index(v, i, p, kp));
    lemma_first_pin_index(v, i, p, kp);
}

/// Taking the pin instances of pin `p` out of the instances of its cell, and
/// `p` out of the pins of the cell, keeps the pin instances in the order of the pins.
proof fn lemma_pin_order_after_pin_removal(vp: ChipView, w: ChipView, p: u32)
    requires
        vp.inv(),
        vp.pins.contains_key(p),
        inv_instances(w.circuits, w.instances, w.pin_insts),
        w.instances == instances_without_pin(vp, vp.circuits[vp.pins[p].circuit].references, p),
        w.pin_insts == vp.pin_insts.remove_keys(first_pin_insts(vp, vp.circuits[vp.pins[p].circuit].references, p)),
        forall|c: u32| #[trigger] vp.circuits.contains_key(c) && c != vp.pins[p].circuit ==> w.circuits[c].pins == vp.circuits[c].pins,
        w.circuits[vp.pins[p].circuit].pins == vp.circuits[vp.pins[p].circuit].pins.remove(
            vp.circuits[vp.pins[p].circuit].pins.index_of(p)),
    ensures
        inv_pin_order(w.circuits, w.instances, w.pin_insts),
{
    let cell = vp.pins[p].circuit;
    let refs = vp.circuits[cell].references;
    let kp = vp.circuits[cell].pins.index_of(p);
    assert forall|i: usize| #[trigger] w.instances.contains_key(i) implies {
        &&& w.instances[i].pins.len() == w.circuits[w.instances[i].template].pins.len()
        &&& forall|kk: int| 0 <= kk < w.instances[i].pins.len()
            ==> #[trigger] w.pin_insts[w.instances[i].pins[kk]].template_pin == w.circuits[w.instances[i].template].pins[kk]
    } by {
        assert(vp.instances.contains_key(i));
        let x0 = vp.instances[i];
        assert forall|kk: int| 0 <= kk < w.instances[i].pins.len() implies
            w.pin_insts.contains_key(#[trigger] w.instances[i].pins[kk]) by {}
        if refs.contains(i) {
            assert(x0.template == cell);
            lemma_first_pin_is_at(vp, i, p);
            assert(w.instances[i].pins == x0.pins.remove(kp));
            assert forall|kk: int| 0 <= kk < w.instances[i].pins.len() implies
                #[trigger] w.pin_insts[w.instances[i].pins[kk]].template_pin == w.circuits[w.instances[i].template].pins[kk] by {
                let q = w.instances[i].pins[kk];
                assert(w.pin_insts.contains_key(q));
                if kk < kp {
                    assert(q == x0.pins[kk]);
                    assert(w.circuits[cell].pins[kk] == vp.circuits[cell].pins[kk]);
                } else {
                    assert(q == x0.pins[kk + 1]);
                    assert(w.circuits[cell].pins[kk] == vp.circuits[cell].pins[kk + 1]);
                }
            }
        } else {
            assert(x0.template != cell) by {
                if x0.template == cell {
                    assert(vp.circuits[x0.template].references.contains(i));
                }
            }
            assert(w.instances[i] == x0);
            assert forall|kk: int| 0 <= kk < w.instances[i].pins.len() implies
                #[trigger] w.pin_insts[w.instances[i].pins[kk]].template_pin == w.circuits[w.instances[i].template].pins[kk] by {
                assert(w.pin_insts.contains_key(x0.pins[kk]));
            }
        }
    }
}

/// An instance that holds a pin instance of `p` has a first one.
proof fn lemma_first_pin_exists(v: ChipView, i: usize, p: u32, k: int)
    requires
        0 <= k < v.instances[i].pins.len(),
        v.pin_insts[v.instances[i].pins[k]].template_pin == p,
    ensures
        is_first_pin_index(v, i, p, first_pin_index(v, i, p)),
    decreases k,
{
    if exists|j: int| 0 <= j < k && v.pin_insts[#[trigger] v.instances[i].pins[j]].template_pin == p {
        let j = choose|j: int| 0 <= j < k && v.pin_insts[#[trigger] v.instances[i].pins[j]].template_pin == p;
        lemma_first_pin_exists(v, i, p, j);
    } else {
        assert(is_first_pin_index(v, i, p, k));
    }
}

proof fn lemma_first_pin_index(v: ChipView, i: usize, p: u32, k: int)
    requires
        is_first_pin_index(v, i, p, k),
    ensures
        first_pin_index(v, i, p) == k,
{
    let k2 = first_pin_index(v, i, p);
    assert(is_first_pin_index(v, i, p, k2));
    if k2 < k {
        assert(v.pin_insts[v.instances[i].pins[k2]].template_pin != p);
    }
    if k < k2 {
        assert(v.pin_insts[v.instances[i].pins[k]].template_pin != p);
    }
}

/// A pin instance after the circuit instances of `gone` were removed: disconnected
/// where its circuit instance is one of them, unchanged otherwise.
pub open spec fn pin_inst_after_removal(v: ChipView, gone: Set<usize>, q: usize) -> PinInstView {
    if gone.contains(v.pin_insts[q].circuit_inst) {
        PinInstView { net: None, ..v.pin_insts[q] }
    } else {
        v.pin_insts[q]
    }
}

/// A net after the circuit instances of `gone` were removed: it keeps the pin
/// instances of the other circuit instances.
pub open spec fn net_after_removal(v: ChipView, gone: Set<usize>, n: usize) -> NetView {
    NetView {
        pin_instances: v.nets[n].pin_instances.filter(|q: usize| !gone.contains(v.pin_insts[q].circuit_inst)),
        ..v.nets[n]
    }
}

/// One more circuit instance `i` was removed from `w0`, which is `v0` after removing those of `done`.
proof fn lemma_instance_removal_step(v0: ChipView, w0: ChipView, w1: ChipView, i: usize, done: Set<usize>)
    requires
        v0.inv(),
        v0.instances.contains_key(i),
        !done.contains(i),
        w0.instances.contains_key(i),
        w0.instances[i] == v0.instances[i],
        w0.pin_insts.dom() == v0.pin_insts.dom(),
        w0.nets.dom() == v0.nets.dom(),
        forall|q: usize| #[trigger] v0.pin_insts.contains_key(q) ==> w0.pin_insts[q] == pin_inst_after_removal(v0, done, q),
        forall|n: usize| #[trigger] net_is_live(v0.circuits, v0.nets, n) ==> w0.nets[n] == net_after_removal(v0, done, n),
        w1.nets == nets_after_disconnecting(w0.nets, w0.pin_insts, w0.instances[i].pins.to_set()),
        w1.pin_insts.dom() == w0.pin_insts.dom(),
        forall|q: usize| #[trigger] w0.pin_insts.contains_key(q) ==> w1.pin_insts[q] == (
            if w0.instances[i].pins.contains(q) {
                PinInstView { net: None, ..w0.pin_insts[q] }
            } else {
                w0.pin_insts[q]
            }),
    ensures
        forall|q: usize| #[trigger] v0.pin_insts.contains_key(q) ==> w1.pin_insts[q] == pin_inst_after_removal(v0, done.insert(i), q),
        forall|n: usize| #[trigger] net_is_live(v0.circuits, v0.nets, n) ==> w1.nets[n] == net_after_removal(v0, done.insert(i), n),
{
    let x = v0.instances[i];
    assert forall|q: usize| #[trigger] v0.pin_insts.contains_key(q) implies
        (x.pins.contains(q) <==> v0.pin_insts[q].circuit_inst == i) by {
        if x.pins.contains(q) {
            let j = choose|j: int| 0 <= j < x.pins.len() && x.pins[j] == q;
            assert(v0.pin_insts[x.pins[j]].circuit_inst == i);
        }
    }
    assert forall|q: usize| #[trigger] v0.pin_insts.contains_key(q) implies
        w1.pin_insts[q] == pin_inst_after_removal(v0, done.insert(i), q) by {
        assert(w0.pin_insts.contains_key(q));
    }
    assert forall|n: usize| #[trigger] net_is_live(v0.circuits, v0.nets, n) implies
        w1.nets[n] == net_after_removal(v0, done.insert(i), n) by {
        let a = v0.nets[n].pin_instances.filter(|q: usize| !done.contains(v0.pin_insts[q].circuit_inst));
        let b = v0.nets[n].pin_instances.filter(|q: usize| !done.insert(i).contains(v0.pin_insts[q].circuit_inst));
        assert(w0.nets[n].pin_instances == a);
        assert(w0.nets.contains_key(n));
        assert forall|q: usize| #[trigger] a.contains(q) implies w0.pin_insts[q].net == Some(n)
            && v0.pin_insts.contains_key(q) by {
            assert(v0.nets[n].pin_instances.contains(q));
        }
        assert(w1.nets[n].pin_instances =~= b);
    }
}

} // verus!
