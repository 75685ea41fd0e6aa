use iron_shapes::prelude::{Geometry, Rect};
use iron_shapes::transform::SimpleTransform;
use iron_shapes::types::Angle;
use libreda_db::chip::Chip;
use libreda_db::netlist::direction::Direction;

fn rect(x0: i32, y0: i32, x1: i32, y1: i32) -> Geometry<i32> {
    Geometry::Rect(Rect::new((x0, y0), (x1, y1)))
}

#[test]
fn shapes_insert_replace_remove() {
    let mut chip = Chip::new();
    let cell = chip.create_cell("C".into());
    let layer = chip.create_layer(1, 0);
    let a = chip.insert_shape(&cell, &layer, rect(0, 0, 10, 10));
    let b = chip.insert_shape(&cell, &layer, rect(5, 5, 20, 20));
    assert_ne!(a.value(), b.value());
    assert_eq!(chip.shape_geometry(&a), &rect(0, 0, 10, 10));
    let (parent, l) = chip.parent_of_shape(&b);
    assert_eq!(parent, cell);
    assert_eq!(l.value(), layer.value());

    let mut ids: Vec<u32> = chip.each_shape_id_vec(&cell, &layer).iter().map(|s| s.value()).collect();
    ids.sort();
    let mut expected = vec![a.value(), b.value()];
    expected.sort();
    assert_eq!(ids, expected);

    let previous = chip.replace_shape(&a, rect(1, 1, 2, 2));
    assert_eq!(previous, rect(0, 0, 10, 10));
    assert_eq!(chip.shape_geometry(&a), &rect(1, 1, 2, 2));

    assert_eq!(chip.remove_shape(&a), Some(rect(1, 1, 2, 2)));
    let ids: Vec<u32> = chip.each_shape_id_vec(&cell, &layer).iter().map(|s| s.value()).collect();
    assert_eq!(ids, vec![b.value()]);
}

#[test]
fn shapes_net_and_pin_links() {
    let mut chip = Chip::new();
    let cell = chip.create_circuit("C".into(), vec![("A".into(), Direction::Input)]);
    let pin = chip.each_pin_vec(&cell)[0];
    let net1 = chip.create_net(&cell, Some("n1".into()));
    let net2 = chip.create_net(&cell, Some("n2".into()));
    let layer = chip.create_layer(1, 0);
    let s = chip.insert_shape(&cell, &layer, rect(0, 0, 1, 1));
    assert_eq!(chip.get_net_of_shape(&s), None);

    assert_eq!(chip.set_net_of_shape(&s, Some(net1)), None);
    assert_eq!(chip.get_net_of_shape(&s), Some(net1));
    assert_eq!(chip.shapes_of_net_vec(&net1).len(), 1);
    // Linking to the same net again changes nothing.
    assert_eq!(chip.set_net_of_shape(&s, Some(net1)), Some(net1));
    assert_eq!(chip.shapes_of_net_vec(&net1).len(), 1);
    // Moving to another net unlinks it from the first one.
    assert_eq!(chip.set_net_of_shape(&s, Some(net2)), Some(net1));
    assert_eq!(chip.shapes_of_net_vec(&net1).len(), 0);
    assert_eq!(chip.shapes_of_net_vec(&net2)[0].value(), s.value());

    assert_eq!(chip.set_pin_of_shape(&s, Some(pin)), None);
    assert_eq!(chip.get_pin_of_shape(&s), Some(pin));
    assert_eq!(chip.shapes_of_pin_vec(&pin).len(), 1);

    // Removing the shape unlinks it from its net and its pin.
    chip.remove_shape(&s);
    assert_eq!(chip.shapes_of_net_vec(&net2).len(), 0);
    assert_eq!(chip.shapes_of_pin_vec(&pin).len(), 0);
}

#[test]
fn shapes_removing_a_pin_unlinks_its_shapes() {
    let mut chip = Chip::new();
    let cell = chip.create_circuit("C".into(), vec![("A".into(), Direction::Input)]);
    let pin = chip.each_pin_vec(&cell)[0];
    let layer = chip.create_layer(1, 0);
    let s = chip.insert_shape(&cell, &layer, rect(0, 0, 1, 1));
    chip.set_pin_of_shape(&s, Some(pin));
    chip.remove_pin(&pin);
    assert_eq!(chip.get_pin_of_shape(&s), None);
}

#[test]
fn shapes_go_with_their_cell() {
    let mut chip = Chip::new();
    let keep = chip.create_cell("KEEP".into());
    let gone = chip.create_cell("GONE".into());
    let layer = chip.create_layer(1, 0);
    let k = chip.insert_shape(&keep, &layer, rect(0, 0, 1, 1));
    chip.insert_shape(&gone, &layer, rect(0, 0, 2, 2));
    chip.remove_circuit(&gone);
    let ids: Vec<u32> = chip.each_shape_id_vec(&keep, &layer).iter().map(|s| s.value()).collect();
    assert_eq!(ids, vec![k.value()]);
}

#[test]
fn shapes_instance_transforms() {
    let mut chip = Chip::new();
    let leaf = chip.create_cell("LEAF".into());
    let top = chip.create_cell("TOP".into());
    let inst = chip.create_cell_instance(&top, &leaf, None);
    assert_eq!(chip.get_transform(&inst), SimpleTransform::identity());
    let tf = SimpleTransform::new(true, Angle::R90, 2, (5, 7).into());
    chip.set_transform(&inst, tf);
    assert_eq!(chip.get_transform(&inst), tf);
}

#[test]
fn shapes_removing_a_net_unlinks_its_shapes() {
    let mut chip = Chip::new();
    let cell = chip.create_cell("C".into());
    let net = chip.create_net(&cell, Some("n".into()));
    let layer = chip.create_layer(1, 0);
    let s = chip.insert_shape(&cell, &layer, rect(0, 0, 1, 1));
    chip.set_net_of_shape(&s, Some(net));
    chip.remove_net(&net);
    assert_eq!(chip.get_net_of_shape(&s), None);
    // The shape can be removed now.
    assert_eq!(chip.remove_shape(&s), Some(rect(0, 0, 1, 1)));
}
