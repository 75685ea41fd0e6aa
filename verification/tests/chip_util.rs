use libreda_db::chip::{CellId, Chip};
use libreda_db::netlist::direction::Direction;

/// `TOP` holds two instances of `MID`, `MID` holds one instance of `LEAF`;
/// `UNUSED` is instantiated nowhere.
fn three_level_chip() -> (Chip, CellId, CellId, CellId, CellId) {
    let mut chip = Chip::new();
    let leaf = chip.create_circuit(
        "LEAF".into(),
        vec![("A".into(), Direction::Input), ("Y".into(), Direction::Output)],
    );
    let mid = chip.create_cell("MID".into());
    let top = chip.create_cell("TOP".into());
    let unused = chip.create_cell("UNUSED".into());
    chip.create_cell_instance(&mid, &leaf, Some("leaf0".into()));
    chip.create_cell_instance(&top, &mid, Some("m0".into()));
    chip.create_cell_instance(&top, &mid, Some("m1".into()));
    (chip, top, mid, leaf, unused)
}

#[test]
fn util_constant_nets() {
    let mut chip = Chip::new();
    let c = chip.create_cell("C".into());
    let n = chip.create_net(&c, Some("n".into()));
    assert!(chip.is_constant_net(&chip.net_zero(&c)));
    assert!(chip.is_constant_net(&chip.net_one(&c)));
    assert!(!chip.is_constant_net(&n));
}

#[test]
fn util_bottom_to_top_order() {
    let (chip, top, mid, leaf, unused) = three_level_chip();
    // One pass over the cells in hash order: cells without dependencies are
    // always taken, the others only when their dependencies came first.
    let order = chip.each_cell_bottom_to_top();
    let pos = |c: &CellId| order.iter().position(|x| x == c);
    assert!(pos(&leaf).is_some());
    assert!(pos(&unused).is_some());
    if let Some(m) = pos(&mid) {
        assert!(pos(&leaf).unwrap() < m);
    }
    if let Some(t) = pos(&top) {
        assert!(pos(&mid).unwrap() < t);
    }
}

#[test]
fn util_prune_cells_keeps_used_cells() {
    let (mut chip, top, mid, leaf, unused) = three_level_chip();
    // `TOP` and `UNUSED` are not instantiated anywhere.
    let removed = chip.prune_cells();
    assert_eq!(removed, 2);
    assert_eq!(chip.num_cells(), 2);
    assert_eq!(chip.cell_by_name("TOP"), None);
    assert_eq!(chip.cell_by_name("UNUSED"), None);
    assert_eq!(chip.cell_by_name("MID"), Some(mid));
    assert_eq!(chip.cell_by_name("LEAF"), Some(leaf));
    assert_eq!(chip.num_cell_references(&mid), 0);
    let _ = (top, unused);
}

#[test]
fn util_purge_nets_keeps_connected_and_constant_nets() {
    let mut chip = Chip::new();
    let leaf = chip.create_circuit("LEAF".into(), vec![("A".into(), Direction::Input)]);
    let top = chip.create_cell("TOP".into());
    let inst = chip.create_cell_instance(&top, &leaf, None);
    let used = chip.create_net(&top, Some("used".into()));
    let _floating1 = chip.create_net(&top, Some("floating".into()));
    let _floating2 = chip.create_net(&top, None);
    let pins = chip.each_pin_instance_vec(&inst);
    chip.connect_pin_instance(&pins[0], Some(used));
    // Nets: LOW, HIGH, used, two floating nets.
    assert_eq!(chip.num_internal_nets(&top), 5);
    assert_eq!(chip.purge_nets_in_circuit(&top), 2);
    assert_eq!(chip.num_internal_nets(&top), 3);
    assert_eq!(chip.net_by_name(&top, "floating"), None);
    assert_eq!(chip.net_by_name(&top, "used"), Some(used));
    assert_eq!(chip.purge_nets_in_circuit(&top), 0);
}

#[test]
fn util_purge_nets_counts_all_cells() {
    let mut chip = Chip::new();
    let a = chip.create_cell("A".into());
    let b = chip.create_cell("B".into());
    chip.create_net(&a, None);
    chip.create_net(&b, None);
    chip.create_net(&b, Some("x".into()));
    assert_eq!(chip.purge_nets(), 3);
    assert_eq!(chip.num_internal_nets(&a), 2);
    assert_eq!(chip.num_internal_nets(&b), 2);
    assert_eq!(chip.purge_nets(), 0);
}

#[test]
fn util_replace_net_moves_terminals() {
    let mut chip = Chip::new();
    let leaf = chip.create_circuit("LEAF".into(), vec![("A".into(), Direction::Input)]);
    let top = chip.create_circuit("TOP".into(), vec![("P".into(), Direction::Input)]);
    let inst = chip.create_cell_instance(&top, &leaf, None);
    let old_net = chip.create_net(&top, Some("old".into()));
    let new_net = chip.create_net(&top, Some("new".into()));
    let pin = chip.each_pin_vec(&top)[0];
    let pin_inst = chip.each_pin_instance_vec(&inst)[0];
    chip.connect_pin(&pin, Some(old_net));
    chip.connect_pin_instance(&pin_inst, Some(old_net));

    chip.replace_net(&old_net, &new_net);
    assert_eq!(chip.net_of_pin(&pin), Some(new_net));
    assert_eq!(chip.net_of_pin_instance(&pin_inst), Some(new_net));
    assert_eq!(chip.num_net_terminals(&new_net), 2);
    assert_eq!(chip.net_by_name(&top, "old"), None);
    assert_eq!(chip.num_internal_nets(&top), 3);

    // Replacing a net by itself changes nothing.
    chip.replace_net(&new_net, &new_net);
    assert_eq!(chip.num_net_terminals(&new_net), 2);
}

#[test]
fn util_clear_cell_instances() {
    let (mut chip, top, mid, leaf, _unused) = three_level_chip();
    chip.clear_cell_instances(&top);
    assert_eq!(chip.num_child_instances(&top), 0);
    assert_eq!(chip.num_cell_references(&mid), 0);
    assert_eq!(chip.num_cell_references(&leaf), 1);
    assert_eq!(chip.num_cells(), 4);
}

#[test]
fn util_prune_cell_instance_removes_unused_template() {
    let (mut chip, top, mid, leaf, _unused) = three_level_chip();
    let m0 = chip.cell_instance_by_name(&top, "m0").unwrap();
    let m1 = chip.cell_instance_by_name(&top, "m1").unwrap();
    // `MID` is still used by `m1`.
    chip.prune_cell_instance(&m0);
    assert_eq!(chip.cell_by_name("MID"), Some(mid));
    assert_eq!(chip.num_cell_references(&mid), 1);
    // Now `MID` is not used anymore and goes, with its instance of `LEAF`.
    chip.prune_cell_instance(&m1);
    assert_eq!(chip.cell_by_name("MID"), None);
    assert_eq!(chip.num_cell_references(&leaf), 0);
    assert_eq!(chip.cell_by_name("LEAF"), Some(leaf));
}

#[test]
fn util_prune_cell_removes_unused_children() {
    let (mut chip, top, _mid, _leaf, unused) = three_level_chip();
    chip.prune_cell(&top);
    assert_eq!(chip.cell_by_name("TOP"), None);
    assert_eq!(chip.cell_by_name("MID"), None);
    // `LEAF` was only used by `MID`, which was pruned as a cell, not as an instance.
    assert!(chip.cell_by_name("LEAF").is_some());
    assert_eq!(chip.cell_by_name("UNUSED"), Some(unused));
}

#[test]
fn util_numbered_names() {
    assert_eq!(libreda_db::chip::make_numbered_name("n", 0), "n0".to_string());
    assert_eq!(libreda_db::chip::make_numbered_name("net_", 1207), "net_1207".to_string());
}

#[test]
fn util_create_net_names_skips_taken_names() {
    let mut chip = Chip::new();
    let c = chip.create_cell("C".into());
    let taken = chip.create_net(&c, Some("net_0".into()));
    let a = chip.create_net(&c, None);
    let b = chip.create_net(&c, None);
    chip.create_net_names_in_circuit(&c, "net_");
    assert_eq!(chip.net_name(&taken), Some("net_0".to_string()));
    let mut names = vec![chip.net_name(&a).unwrap(), chip.net_name(&b).unwrap()];
    names.sort();
    assert_eq!(names, vec!["net_1".to_string(), "net_2".to_string()]);
    // The constant nets keep their names.
    assert_eq!(chip.net_name(&chip.net_zero(&c)), Some("__LOW__".to_string()));
    // Nothing is left to name.
    chip.create_net_names_in_circuit(&c, "x");
    assert_eq!(chip.net_by_name(&c, "x0"), None);
}

#[test]
fn util_net_names_take_the_smallest_free_numbers() {
    let mut chip = Chip::new();
    let c = chip.create_cell("C".into());
    chip.create_net(&c, Some("n1".into()));
    chip.create_net(&c, Some("n3".into()));
    let a = chip.create_net(&c, None);
    let b = chip.create_net(&c, None);
    let d = chip.create_net(&c, None);
    chip.create_net_names_in_circuit(&c, "n");
    let mut names: Vec<String> = [a, b, d].iter().map(|x| chip.net_name(x).unwrap()).collect();
    names.sort();
    assert_eq!(names, vec!["n0".to_string(), "n2".to_string(), "n4".to_string()]);
    assert_eq!(chip.net_name(&chip.net_by_name(&c, "n1").unwrap()), Some("n1".to_string()));
}
