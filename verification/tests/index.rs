use libreda_db::index::IndexGenerator;

#[test]
fn index_generator_hands_out_increasing_indices() {
    let mut g: IndexGenerator<u8, u32> = IndexGenerator::<u8, u32>::new(5);
    let a = g.next();
    let b = g.next();
    let c = g.next();
    assert_eq!(a.value(), 5);
    assert!(a < b && b < c);
    assert!(a != b && b != c && a != c);
    let mut h: IndexGenerator<u8, u16> = IndexGenerator::<u8, u16>::default();
    let x = h.next();
    let y = h.next();
    assert_eq!(x.value(), 0);
    assert!(x < y);
}
