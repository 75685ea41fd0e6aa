use libreda_db::chip::Chip;
use libreda_db::flat_view::FlatView;

/// TOP holds two instances of INTERMEDIATE, which holds two instances of LEAF1
/// and one of LEAF2.
fn hierarchy() -> Chip {
    let mut chip = Chip::new();
    let top = chip.create_cell("TOP".into());
    let intermediate = chip.create_cell("INTERMEDIATE".into());
    let leaf1 = chip.create_cell("LEAF1".into());
    let leaf2 = chip.create_cell("LEAF2".into());
    chip.create_cell_instance(&intermediate, &leaf1, Some("leaf1_inst1".into()));
    chip.create_cell_instance(&intermediate, &leaf1, Some("leaf1_inst2".into()));
    chip.create_cell_instance(&intermediate, &leaf2, Some("leaf2_inst1".into()));
    chip.create_cell_instance(&top, &intermediate, Some("intermediate1".into()));
    chip.create_cell_instance(&top, &intermediate, Some("intermediate2".into()));
    chip
}

#[test]
fn flat_view_doc_example() {
    let chip = hierarchy();
    let leaf1 = chip.cell_by_name("LEAF1").unwrap();
    let flat = FlatView::new_with_separator(&chip, ":".to_string());
    let flat_top = flat.cell_by_name("TOP").expect("TOP not found in flat view.");
    // 2 instances of the intermediate cell which contains 3 leaf cells.
    assert_eq!(flat.num_child_instances(&flat_top), 2 * 3);
    let inst = flat
        .cell_instance_by_name(&flat_top, "intermediate1:leaf1_inst1")
        .expect("Instance not found.");
    assert_eq!(flat.cell_instance_name(&inst).unwrap().as_str(), "intermediate1:leaf1_inst1");
    // There are 4 instances of LEAF1 in the flat view.
    assert_eq!(flat.each_cell_reference_vec(&leaf1).len(), 2 * 2);
}

#[test]
fn flat_view_hides_intermediate_cells() {
    let chip = hierarchy();
    let flat = FlatView::new(&chip);
    assert_eq!(flat.cell_by_name("INTERMEDIATE"), None);
    assert!(flat.cell_by_name("LEAF2").is_some());
    assert_eq!(flat.num_cells(), 3);
    let mut names: Vec<String> = flat.each_cell_vec().iter().map(|c| flat.cell_name(c)).collect();
    names.sort();
    assert_eq!(names, vec!["LEAF1".to_string(), "LEAF2".to_string(), "TOP".to_string()]);
}

#[test]
fn flat_view_instances_are_paths_to_leaves() {
    let chip = hierarchy();
    let flat = FlatView::new(&chip);
    let top = flat.cell_by_name("TOP").unwrap();
    let paths = flat.each_cell_instance_vec(&top);
    assert_eq!(paths.len(), 6);
    let mut names: Vec<String> = paths.iter().map(|p| flat.cell_instance_name(p).unwrap()).collect();
    names.sort();
    assert_eq!(names[0], "intermediate1/leaf1_inst1");
    assert_eq!(names[5], "intermediate2/leaf2_inst1");
    for p in &paths {
        assert_eq!(p.len(), 2);
        assert_eq!(flat.parent_cell(p), top);
    }
    let leaf2 = chip.cell_by_name("LEAF2").unwrap();
    let refs = flat.each_cell_reference_vec(&leaf2);
    assert_eq!(refs.len(), 2);
    assert_eq!(flat.template_cell(&refs[0]), leaf2);
}

#[test]
fn flat_view_dependencies_skip_flattened_cells() {
    let chip = hierarchy();
    let flat = FlatView::new(&chip);
    let top = chip.cell_by_name("TOP").unwrap();
    let leaf1 = chip.cell_by_name("LEAF1").unwrap();
    let leaf2 = chip.cell_by_name("LEAF2").unwrap();
    let mut deps = flat.each_cell_dependency_vec(&top);
    deps.sort_by_key(|c| chip.cell_name(c));
    assert_eq!(deps, vec![leaf1, leaf2]);
    assert_eq!(flat.each_dependent_cell_vec(&leaf1), vec![top]);
    assert_eq!(flat.each_dependent_cell_vec(&top), vec![]);
}

#[test]
fn flat_view_missing_path_elements() {
    let chip = hierarchy();
    let flat = FlatView::new(&chip);
    let top = flat.cell_by_name("TOP").unwrap();
    assert_eq!(flat.cell_instance_by_name(&top, "intermediate3/leaf1_inst1"), None);
    assert_eq!(flat.cell_instance_by_name(&top, "intermediate1/nothing"), None);
    // A path that stops in the middle of the hierarchy is no instance of the flat view.
    assert_eq!(flat.cell_instance_by_name(&top, "intermediate2"), None);
}

#[test]
fn flat_view_counts_leaf_paths() {
    let mut chip = Chip::new();
    let top = chip.create_cell("TOP".into());
    let leaf = chip.create_cell("LEAF".into());
    chip.create_cell_instance(&top, &leaf, Some("i".into()));
    let flat = FlatView::new(&chip);
    assert_eq!(flat.num_child_instances(&top), 1);
    assert_eq!(flat.num_child_instances(&top), flat.each_cell_instance_vec(&top).len());
}

#[test]
fn flat_view_names_lead_back_to_their_paths() {
    let chip = hierarchy();
    let flat = FlatView::new_with_separator(&chip, "::".to_string());
    let top = flat.cell_by_name("TOP").unwrap();
    let paths = flat.each_cell_instance_vec(&top);
    assert_eq!(paths.len(), 6);
    for p in &paths {
        let name = flat.cell_instance_name(p).unwrap();
        assert_eq!(flat.cell_instance_by_name(&top, &name), Some(p.clone()));
    }
}
