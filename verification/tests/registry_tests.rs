use component_changes::registry::Registry;

#[test]
fn register_hands_out_consecutive_raw_identities() {
    let mut reg = Registry::new();
    let a = reg.register("a".to_string(), true);
    let b = reg.register("b".to_string(), false);
    assert_eq!(a.raw, 0);
    assert_eq!(b.raw, 1);
    assert_eq!(a.id, "a");
    assert!(a.serializable);
    assert!(!b.serializable);
}

#[test]
fn resolve_finds_by_identity_string() {
    let mut reg = Registry::new();
    reg.register("minecraft:health".to_string(), true);
    let d = reg.resolve("minecraft:health").unwrap();
    assert_eq!(d.raw, 0);
    assert!(reg.resolve("minecraft:air").is_none());
}

#[test]
fn resolve_raw_respects_bounds() {
    let mut reg = Registry::new();
    let a = reg.register("a".to_string(), true);
    assert_eq!(reg.resolve_raw(0), Some(&a));
    assert_eq!(reg.resolve_raw(1), None);
}
