use s2_utils::static_registry::StaticRegistry;

#[test]
fn registry_starts_empty() {
    let r: StaticRegistry<u32> = StaticRegistry::new();
    assert_eq!(r.with_nodes(|v: &Vec<u32>| v.len()), 0);
}

#[test]
fn registry_keeps_registration_order() {
    let mut r = StaticRegistry::new();
    r.register("a");
    r.register("b");
    r.register("c");
    let joined = r.with_nodes(|v: &Vec<&str>| v.concat());
    assert_eq!(joined, "abc");
    assert_eq!(r.with_nodes(|v: &Vec<&str>| v.len()), 3);
}
