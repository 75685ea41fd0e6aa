use libreda_db::chip::{CellId, Chip, TerminalId};
use libreda_db::netlist::direction::Direction;

#[test]
fn chip_test_create_populated_netlist() {
    let mut netlist = Chip::default();
    let top = netlist.create_circuit("TOP".into(), vec![("A".into(), Direction::Input)]);
    netlist.create_pin(top, "B".into(), Direction::Output);
    assert_eq!(Some(top), netlist.circuit_by_name("TOP"));

    let sub_a = netlist.create_circuit(
        "SUB_A".into(),
        vec![("A".into(), Direction::Input), ("B".into(), Direction::Output)],
    );
    let sub_b = netlist.create_circuit(
        "SUB_B".into(),
        vec![("A".into(), Direction::Input), ("B".into(), Direction::Output)],
    );

    let inst_a = netlist.create_circuit_instance(&top, &sub_a, None);
    let _inst_b = netlist.create_circuit_instance(&top, &sub_b, None);

    let net_a = netlist.create_net(&top, Some("NetA".into()));
    let net_b = netlist.create_net(&top, Some("NetB".into()));

    let pins_a = netlist.each_pin_instance_vec(&inst_a);
    let pins_top = netlist.each_pin_vec(&top);

    netlist.connect_pin_instance(&pins_a[0], Some(net_a));
    netlist.connect_pin_instance(&pins_a[1], Some(net_b));

    netlist.connect_pin(&pins_top[0], Some(net_a));
    netlist.connect_pin(&pins_top[1], Some(net_b));

    assert_eq!(netlist.num_net_terminals(&net_a), 2);
    assert_eq!(netlist.num_net_terminals(&net_b), 2);
}

/// A chip with a cell `TOP` holding two instances of `LEAF`, which has pins `A` and `Y`.
fn two_leaf_chip() -> (Chip, CellId, CellId) {
    let mut chip = Chip::new();
    let leaf = chip.create_circuit(
        "LEAF".into(),
        vec![("A".into(), Direction::Input), ("Y".into(), Direction::Output)],
    );
    let top = chip.create_cell("TOP".into());
    chip.create_cell_instance(&top, &leaf, Some("l1".into()));
    chip.create_cell_instance(&top, &leaf, Some("l2".into()));
    (chip, top, leaf)
}

#[test]
fn chip_new_cell_has_constant_nets() {
    let mut chip = Chip::new();
    let c = chip.create_cell("C".into());
    assert_eq!(chip.num_internal_nets(&c), 2);
    let low = chip.net_zero(&c);
    let high = chip.net_one(&c);
    assert_ne!(low, high);
    assert_eq!(chip.net_name(&low), Some("__LOW__".to_string()));
    assert_eq!(chip.net_name(&high), Some("__HIGH__".to_string()));
    assert_eq!(chip.net_by_name(&c, "__LOW__"), Some(low));
    assert_eq!(chip.parent_cell_of_net(&high), c);
    assert_eq!(chip.num_pins(&c), 0);
    assert_eq!(chip.cell_name(&c), "C".to_string());
    assert_eq!(chip.cell_by_name("C"), Some(c));
    assert_eq!(chip.cell_by_name("D"), None);
}

#[test]
fn chip_hierarchy_counts() {
    let (chip, top, leaf) = two_leaf_chip();
    assert_eq!(chip.num_cells(), 2);
    assert_eq!(chip.num_child_instances(&top), 2);
    assert_eq!(chip.num_cell_references(&leaf), 2);
    assert_eq!(chip.num_cell_dependencies(&top), 1);
    assert_eq!(chip.num_dependent_cells(&leaf), 1);
    assert_eq!(chip.each_cell_dependency_vec(&top), vec![leaf]);
    assert_eq!(chip.each_dependent_cell_vec(&leaf), vec![top]);
    assert!(chip.is_top_level_cell(&top));
    assert!(!chip.is_top_level_cell(&leaf));
    assert!(chip.is_leaf_cell(&leaf));
    assert!(!chip.is_leaf_cell(&top));
    assert_eq!(chip.each_top_level_cell(), vec![top]);
    assert_eq!(chip.each_leaf_cell(), vec![leaf]);
    let inst = chip.cell_instance_by_name(&top, "l2").unwrap();
    assert_eq!(chip.parent_cell(&inst), top);
    assert_eq!(chip.template_cell(&inst), leaf);
    assert_eq!(chip.cell_instance_name(&inst), Some("l2".to_string()));
    assert_eq!(chip.cell_instance_by_name(&top, "l3"), None);
    let mut insts = chip.each_cell_instance_vec(&top);
    insts.sort_by_key(|i| chip.cell_instance_name(i));
    assert_eq!(chip.each_cell_reference_vec(&leaf).len(), 2);
    assert_eq!(chip.cell_instance_name(&insts[0]), Some("l1".to_string()));
}

#[test]
fn chip_recursion_is_detected() {
    let (chip, top, leaf) = two_leaf_chip();
    assert!(chip.is_ancestor_or_self(&top, &leaf));
    assert!(chip.is_ancestor_or_self(&leaf, &leaf));
    assert!(!chip.is_ancestor_or_self(&leaf, &top));
}

#[test]
fn chip_pin_instances_follow_template_pins() {
    let (chip, top, leaf) = two_leaf_chip();
    let pins = chip.each_pin_vec(&leaf);
    assert_eq!(pins.len(), 2);
    assert_eq!(chip.pin_name(&pins[0]), "A".to_string());
    assert_eq!(chip.pin_direction(&pins[1]), Direction::Output);
    assert_eq!(chip.parent_cell_of_pin(&pins[1]), leaf);
    assert_eq!(chip.pin_by_name(&leaf, "Y"), Some(pins[1]));
    assert_eq!(chip.pin_by_name(&leaf, "Z"), None);
    let inst = chip.cell_instance_by_name(&top, "l1").unwrap();
    let pis = chip.each_pin_instance_vec(&inst);
    assert_eq!(pis.len(), 2);
    assert_eq!(chip.template_pin(&pis[0]), pins[0]);
    assert_eq!(chip.template_pin(&pis[1]), pins[1]);
    assert_eq!(chip.parent_of_pin_instance(&pis[1]), inst);
    assert_eq!(chip.pin_instance(&inst, &pins[1]), pis[1]);
}

#[test]
fn chip_connect_and_disconnect() {
    let (mut chip, top, leaf) = two_leaf_chip();
    let n = chip.create_net(&top, Some("n".into()));
    let l1 = chip.cell_instance_by_name(&top, "l1").unwrap();
    let l2 = chip.cell_instance_by_name(&top, "l2").unwrap();
    let y1 = chip.each_pin_instance_vec(&l1)[1];
    let a2 = chip.each_pin_instance_vec(&l2)[0];
    assert_eq!(chip.connect_pin_instance(&y1, Some(n)), None);
    assert_eq!(chip.connect_terminal(&TerminalId::PinInst(a2), Some(n)), None);
    assert_eq!(chip.num_net_pin_instances(&n), 2);
    assert_eq!(chip.num_net_pins(&n), 0);
    assert_eq!(chip.net_of_pin_instance(&y1), Some(n));
    assert_eq!(chip.net_of_terminal(&TerminalId::PinInst(a2)), Some(n));
    assert_eq!(chip.each_external_net_vec(&l1), vec![n]);
    assert_eq!(chip.each_terminal_of_net_vec(&n).len(), 2);
    assert_eq!(chip.disconnect_pin_instance(&y1), Some(n));
    assert_eq!(chip.net_of_pin_instance(&y1), None);
    assert_eq!(chip.disconnect_terminal(&TerminalId::PinInst(a2)), Some(n));
    assert_eq!(chip.num_net_terminals(&n), 0);
    // Pins of the leaf cell connect to nets of the leaf cell.
    let a = chip.pin_by_name(&leaf, "A").unwrap();
    let low = chip.net_zero(&leaf);
    assert_eq!(chip.connect_pin(&a, Some(low)), None);
    assert_eq!(chip.net_of_pin(&a), Some(low));
    assert_eq!(chip.each_pin_of_net_vec(&low), vec![a]);
    assert_eq!(chip.disconnect_pin(&a), Some(low));
    assert_eq!(chip.net_of_pin(&a), None);
}

#[test]
fn chip_rename_net_and_lookup() {
    let (mut chip, top, _leaf) = two_leaf_chip();
    let n = chip.create_net(&top, Some("x".into()));
    assert_eq!(chip.rename_net(&n, Some("y".into())), Some("x".to_string()));
    assert_eq!(chip.net_by_name(&top, "x"), None);
    assert_eq!(chip.net_by_name(&top, "y"), Some(n));
    // Renaming to the current name changes nothing.
    assert_eq!(chip.rename_net(&n, Some("y".into())), Some("y".to_string()));
    assert_eq!(chip.rename_net(&n, None), Some("y".to_string()));
    assert_eq!(chip.net_name(&n), None);
    assert_eq!(chip.net_by_name(&top, "y"), None);
}

#[test]
fn chip_remove_instance_disconnects_it() {
    let (mut chip, top, leaf) = two_leaf_chip();
    let n = chip.create_net(&top, None);
    let l1 = chip.cell_instance_by_name(&top, "l1").unwrap();
    let y1 = chip.each_pin_instance_vec(&l1)[1];
    chip.connect_pin_instance(&y1, Some(n));
    chip.remove_cell_instance(&l1);
    assert_eq!(chip.num_child_instances(&top), 1);
    assert_eq!(chip.num_cell_references(&leaf), 1);
    assert_eq!(chip.cell_instance_by_name(&top, "l1"), None);
    assert_eq!(chip.num_net_pin_instances(&n), 0);
    assert_eq!(chip.net_of_pin_instance(&y1), None);
    // The dependency counter still counts the other instance.
    assert_eq!(chip.num_cell_dependencies(&top), 1);
    let l2 = chip.cell_instance_by_name(&top, "l2").unwrap();
    chip.remove_cell_instance(&l2);
    assert_eq!(chip.num_cell_dependencies(&top), 0);
    assert!(chip.is_top_level_cell(&leaf));
}

#[test]
fn chip_remove_cell_removes_instances() {
    let (mut chip, top, leaf) = two_leaf_chip();
    chip.remove_cell(&leaf);
    assert_eq!(chip.num_cells(), 1);
    assert_eq!(chip.cell_by_name("LEAF"), None);
    assert_eq!(chip.num_child_instances(&top), 0);
    assert_eq!(chip.num_cell_dependencies(&top), 0);
    // The name is free again.
    let leaf2 = chip.create_cell("LEAF".into());
    assert_ne!(leaf, leaf2);
    assert_eq!(chip.cell_by_name("LEAF"), Some(leaf2));
}

#[test]
fn chip_remove_net_disconnects_terminals() {
    let (mut chip, top, _leaf) = two_leaf_chip();
    let n = chip.create_net(&top, Some("n".into()));
    let l1 = chip.cell_instance_by_name(&top, "l1").unwrap();
    let a1 = chip.each_pin_instance_vec(&l1)[0];
    chip.connect_pin_instance(&a1, Some(n));
    chip.remove_net(&n);
    assert_eq!(chip.net_of_pin_instance(&a1), None);
    assert_eq!(chip.net_by_name(&top, "n"), None);
    assert_eq!(chip.num_internal_nets(&top), 2);
}

#[test]
fn chip_create_and_remove_pin() {
    let mut chip = Chip::new();
    let c = chip.create_cell("C".into());
    let p = chip.create_pin(c, "P".into(), Direction::InOut);
    assert_eq!(chip.num_pins(&c), 1);
    assert_eq!(chip.rename_pin(&p, "Q".into()), "P".to_string());
    assert_eq!(chip.pin_name(&p), "Q".to_string());
    let n = chip.net_one(&c);
    chip.connect_pin(&p, Some(n));
    chip.remove_pin(&p);
    assert_eq!(chip.num_pins(&c), 0);
    assert_eq!(chip.num_net_pins(&n), 0);
    assert_eq!(chip.pin_by_name(&c, "Q"), None);
}

#[test]
fn chip_new_pin_appears_on_instances() {
    let (mut chip, top, leaf) = two_leaf_chip();
    let z = chip.create_pin(leaf, "Z".into(), Direction::Clock);
    let l1 = chip.cell_instance_by_name(&top, "l1").unwrap();
    let pis = chip.each_pin_instance_vec(&l1);
    assert_eq!(pis.len(), 3);
    assert_eq!(chip.template_pin(&pis[2]), z);
}

#[test]
fn chip_rename_cell_and_instance() {
    let (mut chip, top, _leaf) = two_leaf_chip();
    chip.rename_cell(&top, "MAIN".into());
    assert_eq!(chip.cell_by_name("TOP"), None);
    assert_eq!(chip.cell_by_name("MAIN"), Some(top));
    let l1 = chip.cell_instance_by_name(&top, "l1").unwrap();
    chip.rename_cell_instance(&l1, Some("first".into()));
    assert_eq!(chip.cell_instance_by_name(&top, "l1"), None);
    assert_eq!(chip.cell_instance_by_name(&top, "first"), Some(l1));
    chip.rename_cell_instance(&l1, None);
    assert_eq!(chip.cell_instance_name(&l1), None);
}

#[test]
fn chip_layers_lookup_and_names() {
    let mut chip = Chip::new();
    assert_eq!(chip.dbu(), 1);
    chip.set_dbu(1000);
    assert_eq!(chip.dbu(), 1000);
    let metal1 = chip.create_layer(1, 0);
    let via1 = chip.create_layer(2, 0);
    assert_ne!(metal1.value(), via1.value());
    assert_eq!(chip.find_layer(1, 0).map(|l| l.value()), Some(metal1.value()));
    assert!(chip.find_layer(1, 1).is_none());
    assert_eq!(chip.layer_info(&via1).index, 2);
    assert_eq!(chip.layer_info(&via1).name, None);
    assert_eq!(chip.set_layer_name(&metal1, Some("metal1".into())), None);
    assert_eq!(chip.layer_by_name("metal1").map(|l| l.value()), Some(metal1.value()));
    // Setting the same name again changes nothing.
    assert_eq!(chip.set_layer_name(&metal1, Some("metal1".into())), Some("metal1".to_string()));
    // Renaming frees the old name.
    assert_eq!(chip.set_layer_name(&metal1, Some("M1".into())), Some("metal1".to_string()));
    assert!(chip.layer_by_name("metal1").is_none());
    assert_eq!(chip.layer_by_name("M1").map(|l| l.value()), Some(metal1.value()));
    assert_eq!(chip.layer_info(&metal1).name, Some("M1".to_string()));
    assert_eq!(chip.set_layer_name(&metal1, None), Some("M1".to_string()));
    assert!(chip.layer_by_name("M1").is_none());
    assert_eq!(chip.each_layer().len(), 2);
    // A second layer with the same numbers is found by them from now on.
    let metal1b = chip.create_layer(1, 0);
    assert_eq!(chip.find_layer(1, 0).map(|l| l.value()), Some(metal1b.value()));
    assert_eq!(chip.layer_info(&metal1).datatype, 0);
}

#[test]
fn chip_remove_pin_from_all_instances() {
    let mut chip = Chip::new();
    let top = chip.create_cell("TOP".into());
    let sub = chip.create_cell("SUB".into());
    let a = chip.create_pin(sub, "A".into(), Direction::Input);
    let b = chip.create_pin(sub, "B".into(), Direction::Output);
    let i = chip.create_cell_instance(&top, &sub, None);
    let n = chip.create_net(&top, Some("n".into()));
    let pa = chip.pin_instance(&i, &a);
    chip.connect_pin_instance(&pa, Some(n));
    assert_eq!(chip.num_net_pin_instances(&n), 1);
    chip.remove_pin(&a);
    assert_eq!(chip.num_pins(&sub), 1);
    let pis = chip.each_pin_instance_vec(&i);
    assert_eq!(pis.len(), 1);
    assert_eq!(chip.template_pin(&pis[0]), b);
    assert_eq!(chip.num_net_pin_instances(&n), 0);
}

#[test]
fn chip_remove_cell_keeps_other_connections() {
    let mut chip = Chip::new();
    let top = chip.create_cell("TOP".into());
    let a = chip.create_cell("A".into());
    let b = chip.create_cell("B".into());
    let pa = chip.create_pin(a, "X".into(), Direction::Output);
    let pb = chip.create_pin(b, "Y".into(), Direction::Input);
    let ia = chip.create_cell_instance(&top, &a, Some("ia".into()));
    let ib = chip.create_cell_instance(&top, &b, Some("ib".into()));
    let n = chip.create_net(&top, Some("n".into()));
    let qa = chip.pin_instance(&ia, &pa);
    let qb = chip.pin_instance(&ib, &pb);
    chip.connect_pin_instance(&qa, Some(n));
    chip.connect_pin_instance(&qb, Some(n));
    assert_eq!(chip.num_net_pin_instances(&n), 2);
    chip.remove_cell(&a);
    assert_eq!(chip.num_net_pin_instances(&n), 1);
    assert_eq!(chip.net_of_pin_instance(&qb), Some(n));
    assert_eq!(chip.template_pin(&qb), pb);
    assert_eq!(chip.cell_instance_by_name(&top, "ia"), None);
    assert_eq!(chip.cell_instance_by_name(&top, "ib"), Some(ib));
}

#[test]
fn chip_clear_cell_instances_disconnects_them() {
    let mut chip = Chip::new();
    let top = chip.create_cell("TOP".into());
    let a = chip.create_cell("A".into());
    let pa = chip.create_pin(a, "X".into(), Direction::Output);
    let ta = chip.create_pin(top, "T".into(), Direction::Output);
    let ia = chip.create_cell_instance(&top, &a, Some("ia".into()));
    let n = chip.create_net(&top, Some("n".into()));
    let qa = chip.pin_instance(&ia, &pa);
    chip.connect_pin_instance(&qa, Some(n));
    chip.connect_pin(&ta, Some(n));
    chip.clear_cell_instances(&top);
    assert_eq!(chip.num_net_pin_instances(&n), 0);
    assert_eq!(chip.num_net_pins(&n), 1);
    assert_eq!(chip.net_of_pin(&ta), Some(n));
    assert_eq!(chip.num_child_instances(&top), 0);
}

#[test]
fn chip_netlist_text() {
    let mut chip = Chip::new();
    let sub = chip.create_cell("SUB".into());
    let b = chip.create_pin(sub, "B".into(), Direction::Input);
    let top = chip.create_cell("TOP".into());
    let a = chip.create_pin(top, "A".into(), Direction::Output);
    let n = chip.create_net(&top, Some("n".into()));
    chip.connect_pin(&a, Some(n));
    let x = chip.create_cell_instance(&top, &sub, Some("x".into()));
    let u = chip.create_net(&top, None);
    let q = chip.pin_instance(&x, &b);
    chip.connect_pin_instance(&q, Some(u));
    let text = chip.fmt();
    let sub_block = ".subckt SUB B=None\n.ends SUB\n\n";
    let top_block = ".subckt TOP A=Some(\"n\")\n    Xx SUB B=Some(\"<unnamed>\")\n.ends TOP\n\n";
    assert!(
        text == format!("{}{}", sub_block, top_block) || text == format!("{}{}", top_block, sub_block),
        "{}",
        text
    );
}
