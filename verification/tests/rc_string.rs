use libreda_db::rc_string::RcString;

#[test]
fn rc_string_from_and_into_string() {
    let r: RcString = RcString::from(String::from("net_a"));
    assert_eq!(r.as_str(), "net_a");
    let c = r.clone();
    assert_eq!(c, r);
    let back: String = String::from(c);
    assert_eq!(back, "net_a".to_string());
    let r2 = RcString::new("net_b".to_string());
    assert_eq!(r2.to_string(), "net_b".to_string());
    assert!(r < r2);
}

#[test]
fn rc_string_equal_by_text() {
    let a1 = RcString::new("A".to_string());
    let a2 = RcString::from("A");
    let a3 = a1.clone();
    assert!(a1 == a2);
    assert!(a1 == a3);
    assert_eq!(a1.as_str(), "A");
    assert!(RcString::from("B") != a1);
}

#[test]
fn rc_string_from_shared_string() {
    let shared = std::sync::Arc::new("net_c".to_string());
    let r = RcString::from(shared.clone());
    assert_eq!(r.as_str(), "net_c");
    assert_eq!(r, RcString::from("net_c"));
}

#[test]
fn rc_string_derefs_to_its_text() {
    let r = RcString::from("net_d");
    let s: &str = &r;
    assert_eq!(s, "net_d");
    assert_eq!(r.len(), 5);
}
