use libreda_db::chip::{CellId, CellInstId, Chip};
use libreda_db::netlist::direction::Direction;

/// `TOP` holds instance `m` of `MID`, which holds instance `l` of `LEAF`.
/// `MID.I` and `l.A` share the net `in`; `MID.O` and `l.Y` share the net `out`.
/// In `TOP`, `m.I` is on net `x` and `m.O` on net `y`.
fn hierarchy() -> (Chip, CellId, CellId, CellId, CellInstId) {
    let mut chip = Chip::new();
    let pins = || vec![("A".to_string(), Direction::Input), ("Y".to_string(), Direction::Output)];
    let leaf = chip.create_circuit("LEAF".into(), pins());
    let mid = chip.create_circuit(
        "MID".into(),
        vec![("I".into(), Direction::Input), ("O".into(), Direction::Output)],
    );
    let top = chip.create_cell("TOP".into());
    let l = chip.create_cell_instance(&mid, &leaf, Some("l".into()));
    let net_in = chip.create_net(&mid, Some("in".into()));
    let net_out = chip.create_net(&mid, Some("out".into()));
    let mid_pins = chip.each_pin_vec(&mid);
    chip.connect_pin(&mid_pins[0], Some(net_in));
    chip.connect_pin(&mid_pins[1], Some(net_out));
    let l_pins = chip.each_pin_instance_vec(&l);
    chip.connect_pin_instance(&l_pins[0], Some(net_in));
    chip.connect_pin_instance(&l_pins[1], Some(net_out));

    let m = chip.create_cell_instance(&top, &mid, Some("m".into()));
    let x = chip.create_net(&top, Some("x".into()));
    let y = chip.create_net(&top, Some("y".into()));
    let m_pins = chip.each_pin_instance_vec(&m);
    chip.connect_pin_instance(&m_pins[0], Some(x));
    chip.connect_pin_instance(&m_pins[1], Some(y));
    (chip, top, mid, leaf, m)
}

#[test]
fn flatten_instance_moves_content_up() {
    let (mut chip, top, mid, leaf, m) = hierarchy();
    chip.flatten_circuit_instance(&m);
    assert_eq!(chip.num_child_instances(&top), 1);
    assert_eq!(chip.cell_instance_by_name(&top, "m"), None);
    let copy = chip.cell_instance_by_name(&top, "m:l").unwrap();
    assert_eq!(chip.template_cell(&copy), leaf);
    let x = chip.net_by_name(&top, "x").unwrap();
    let y = chip.net_by_name(&top, "y").unwrap();
    let copy_pins = chip.each_pin_instance_vec(&copy);
    assert_eq!(chip.net_of_pin_instance(&copy_pins[0]), Some(x));
    assert_eq!(chip.net_of_pin_instance(&copy_pins[1]), Some(y));
    // The copies of `in` and `out` were merged into `x` and `y`.
    assert_eq!(chip.net_by_name(&top, "in"), None);
    assert_eq!(chip.net_by_name(&top, "out"), None);
    // The template is unchanged and not used anymore.
    assert_eq!(chip.num_child_instances(&mid), 1);
    assert_eq!(chip.num_cell_references(&mid), 0);
}

#[test]
fn flatten_instance_avoids_taken_names() {
    let (mut chip, top, _mid, leaf, m) = hierarchy();
    chip.create_cell_instance(&top, &leaf, Some("m:l".into()));
    chip.flatten_circuit_instance(&m);
    assert!(chip.cell_instance_by_name(&top, "m:l_0").is_some());
    assert_eq!(chip.num_child_instances(&top), 2);
}

#[test]
fn flatten_circuit_removes_the_cell() {
    let (mut chip, top, _mid, leaf, _m) = hierarchy();
    let mid = chip.cell_by_name("MID").unwrap();
    chip.flatten_circuit(&mid);
    assert_eq!(chip.cell_by_name("MID"), None);
    let copy = chip.cell_instance_by_name(&top, "m:l").unwrap();
    assert_eq!(chip.template_cell(&copy), leaf);
    assert_eq!(chip.num_cell_references(&leaf), 1);
}

#[test]
fn flatten_instance_copies_inner_nets_and_constants() {
    let (mut chip, top, mid, leaf, m) = hierarchy();
    // Two more instances of LEAF inside MID: `l2` on the inner nets `inner` and
    // `taken`, `l3` with its input on the constant LOW net of MID.
    let l2 = chip.create_cell_instance(&mid, &leaf, Some("l2".into()));
    let inner = chip.create_net(&mid, Some("inner".into()));
    let taken = chip.create_net(&mid, Some("taken".into()));
    let l2_pins = chip.each_pin_instance_vec(&l2);
    chip.connect_pin_instance(&l2_pins[0], Some(inner));
    chip.connect_pin_instance(&l2_pins[1], Some(taken));
    let l3 = chip.create_cell_instance(&mid, &leaf, Some("l3".into()));
    let low_mid = chip.net_zero(&mid);
    let l3_pins = chip.each_pin_instance_vec(&l3);
    chip.connect_pin_instance(&l3_pins[0], Some(low_mid));
    // The name `taken` is already used in TOP.
    let top_taken = chip.create_net(&top, Some("taken".into()));

    chip.flatten_circuit_instance(&m);

    let c2 = chip.cell_instance_by_name(&top, "m:l2").unwrap();
    let c2_pins = chip.each_pin_instance_vec(&c2);
    assert_eq!(c2_pins.len(), 2);
    // `inner` is copied under its name, `taken` under no name.
    let top_inner = chip.net_by_name(&top, "inner").unwrap();
    assert_eq!(chip.net_of_pin_instance(&c2_pins[0]), Some(top_inner));
    let copy_taken = chip.net_of_pin_instance(&c2_pins[1]).unwrap();
    assert_ne!(copy_taken, top_taken);
    assert_eq!(chip.net_name(&copy_taken), None);
    // The constant LOW net of MID merges into the LOW net of TOP.
    let c3 = chip.cell_instance_by_name(&top, "m:l3").unwrap();
    let c3_pins = chip.each_pin_instance_vec(&c3);
    assert_eq!(chip.net_of_pin_instance(&c3_pins[0]), Some(chip.net_zero(&top)));
}
