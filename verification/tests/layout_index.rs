use libreda_db::layout::index::{Index, IndexGenerator};

#[test]
fn layout_index_generator_counts_up() {
    let mut g = Index::<u8>::new_generator();
    let a = g.next();
    let b = g.next();
    let c = g.next();
    assert!(a < b);
    assert!(b < c);
    assert!(a < c);
    assert_ne!(a, b);
    assert_eq!(a.clone(), a);
    let mut h: IndexGenerator<u8> = IndexGenerator::new();
    assert_eq!(h.next(), a);
    let mut d: IndexGenerator<u8> = IndexGenerator::default();
    assert_eq!(d.next(), a);
    assert_eq!(a.cmp(&b), std::cmp::Ordering::Less);
    assert_eq!(c.partial_cmp(&b), Some(std::cmp::Ordering::Greater));
}
