use component_changes::changes::{Builder, ComponentChanges, Entry};
use component_changes::registry::Registry;

fn two_types() -> Registry {
    let mut reg = Registry::new();
    reg.register("health".to_string(), true);
    reg.register("name_tag".to_string(), false);
    reg
}

#[test]
fn absent_removed_present_are_distinct() {
    let reg = two_types();
    let health = reg.resolve("health").unwrap().clone();
    let name_tag = reg.resolve("name_tag").unwrap().clone();
    let mut b: Builder<i32> = ComponentChanges::builder();
    b.insert(health.clone(), 20);
    b.remove(name_tag.clone());
    let changes = b.build();

    assert_eq!(changes.get(&health), Some(Some(&20)));
    assert_eq!(changes.get(&name_tag), Some(None));
    let mut reg2 = two_types();
    let untouched = reg2.register("pos".to_string(), true);
    assert_eq!(changes.get(&untouched), None);
}

#[test]
fn insert_remove_insert_keeps_only_the_last_value() {
    let reg = two_types();
    let d = reg.resolve("health").unwrap().clone();
    let mut b: Builder<i32> = ComponentChanges::builder();
    b.insert(d.clone(), 1);
    b.remove(d.clone());
    b.insert(d.clone(), 2);
    let changes = b.build();
    assert_eq!(changes.len(), 1);
    assert_eq!(changes.get(&d), Some(Some(&2)));
}

#[test]
fn is_empty_and_len() {
    let reg = two_types();
    let health = reg.resolve("health").unwrap().clone();
    let name_tag = reg.resolve("name_tag").unwrap().clone();
    let b: Builder<i32> = ComponentChanges::builder();
    let empty = b.build();
    assert!(empty.is_empty());
    assert_eq!(empty.len(), 0);

    let mut b: Builder<i32> = ComponentChanges::builder();
    b.insert(health, 5);
    b.remove(name_tag);
    let changes = b.build();
    assert!(!changes.is_empty());
    assert_eq!(changes.len(), 2);
}

#[test]
fn serializable_hint_counts_inserts_not_removes() {
    let reg = two_types();
    let health = reg.resolve("health").unwrap().clone();
    let name_tag = reg.resolve("name_tag").unwrap().clone();
    let mut b: Builder<i32> = ComponentChanges::builder();
    b.insert(health.clone(), 1);
    b.insert(health.clone(), 2);
    b.remove(health.clone());
    b.insert(name_tag, 3);
    let changes = b.build();
    // Two serializable insert calls were made; removals and the
    // non-serializable insert do not count.  The tally is a hint, not the
    // number of entries.
    assert_eq!(changes.serializable_hint(), 2);
    assert_eq!(changes.len(), 2);
}

#[test]
fn view_of_borrows_entries_without_copying() {
    let reg = two_types();
    let health = reg.resolve("health").unwrap().clone();
    let entries: Vec<Entry<i32>> = vec![Entry { desc: health.clone(), value: Some(7) }];
    let view = ComponentChanges::view_of(&entries, 1);
    assert_eq!(view.len(), 1);
    assert_eq!(view.get(&health), Some(Some(&7)));
}
