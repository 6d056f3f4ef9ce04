use wilupgu::resolver::Resolvable;

#[test]
fn resolves_and_reads() {
    let r = Resolvable::new();
    assert!(r.resolver().unwrap().resolve(42).is_ok());
    assert_eq!(*r.value().unwrap(), 42);
}

#[test]
#[should_panic(expected = "read before it was resolved")]
fn value_before_resolve_panics() {
    let r: Resolvable<u32> = Resolvable::new();
    r.value().expect("Resolvable read before it was resolved");
}

#[test]
#[should_panic(expected = "resolver() called more than once")]
fn second_resolver_panics() {
    let r: Resolvable<u32> = Resolvable::new();
    let _first = r.resolver();
    let _second = r.resolver().expect("Resolvable::resolver() called more than once");
}

#[test]
fn clones_share_the_same_resolved_value() {
    let a = Resolvable::new();
    let b = a.clone();
    a.resolver().unwrap().resolve("batch_size").unwrap();
    assert_eq!(*b.value().unwrap(), "batch_size");
}

#[test]
fn a_clone_cannot_take_a_second_resolver() {
    let a: Resolvable<u32> = Resolvable::default();
    let _first = a.resolver().unwrap();
    let b = a.clone();
    assert!(b.resolver().is_none());
}
