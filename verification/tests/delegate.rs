use libreda_db::delegate::{Aext, GetBase, TestBase, TestDelegateBase, Wrapper, A};
use std::marker::PhantomData;

#[test]
fn test_delegation() {
    let a = A { x: 7 };
    let a_ext = Aext { base: a };
    assert_eq!(a_ext.test1(), 42);
    assert_eq!(a_ext.test_ref(), &7);
}

#[test]
fn delegation_base_answers() {
    let a = A { x: -3 };
    assert_eq!(a.test1(), -3);
    assert_eq!(a.test_ref(), &-3);
    let w: Wrapper<A, ()> = Wrapper { t: A { x: 5 }, base_type: PhantomData };
    assert_eq!(w.get_base().x, 5);
}
