use component_changes::changes::{Builder, ComponentChanges};
use component_changes::registry::Registry;
use component_changes::string_form::{
    from_string_form, key_string, parse_key, KeyToken, StringFormError,
};

fn two_types() -> Registry {
    let mut reg = Registry::new();
    reg.register("health".to_string(), true);
    reg.register("name_tag".to_string(), false);
    reg
}

#[test]
fn keys_carry_the_removal_marker() {
    let reg = two_types();
    let health = reg.resolve("health").unwrap().clone();
    assert_eq!(key_string(&health, false), "health");
    assert_eq!(key_string(&health, true), "!health");
}

#[test]
fn key_token_memoizes_its_text() {
    let reg = two_types();
    let health = reg.resolve("health").unwrap().clone();
    let mut token = KeyToken::new(health, true);
    assert!(token.cached.is_none());
    assert_eq!(token.text(), "!health");
    assert_eq!(token.cached.as_deref(), Some("!health"));
    assert_eq!(token.text(), "!health");
}

#[test]
fn string_form_keeps_only_serializable_entries() {
    let reg = two_types();
    let health = reg.resolve("health").unwrap().clone();
    let name_tag = reg.resolve("name_tag").unwrap().clone();
    let mut b: Builder<i32> = ComponentChanges::builder();
    b.insert(health, 20);
    b.remove(name_tag);
    let changes = b.build();

    let entries = changes.string_form_entries();
    assert_eq!(entries.len(), 1);
    assert_eq!(entries[0].key, "health");
    assert_eq!(entries[0].value, Some(&20));
}

#[test]
fn removed_serializable_entries_keep_marker_and_dummy() {
    let mut reg = Registry::new();
    let a = reg.register("a".to_string(), true);
    let mut b: Builder<i32> = ComponentChanges::builder();
    b.remove(a);
    let changes = b.build();
    let entries = changes.string_form_entries();
    assert_eq!(entries.len(), 1);
    assert_eq!(entries[0].key, "!a");
    assert_eq!(entries[0].value, None);
}

#[test]
fn parse_key_resolves_and_strips_marker() {
    let reg = two_types();
    let (d, removed) = parse_key("health", &reg).unwrap();
    assert_eq!(d.id, "health");
    assert!(!removed);
    let (d, removed) = parse_key("!health", &reg).unwrap();
    assert_eq!(d.id, "health");
    assert!(removed);
}

#[test]
fn parse_key_reports_each_fault() {
    let reg = two_types();
    assert_eq!(
        parse_key("bad key", &reg).unwrap_err(),
        StringFormError::InvalidIdentifier { text: "bad key".to_string() }
    );
    assert_eq!(
        parse_key("ghost", &reg).unwrap_err(),
        StringFormError::UnknownIdentifier { text: "ghost".to_string() }
    );
    assert_eq!(
        parse_key("!name_tag", &reg).unwrap_err(),
        StringFormError::NotSerializable { text: "name_tag".to_string() }
    );
}

#[test]
fn string_form_round_trips_serializable_sets() {
    let mut reg = Registry::new();
    let a = reg.register("a".to_string(), true);
    let b_desc = reg.register("b".to_string(), true);
    let mut b: Builder<i32> = ComponentChanges::builder();
    b.insert(a.clone(), 11);
    b.remove(b_desc.clone());
    let changes = b.build();

    let pairs: Vec<(String, Option<i32>)> = changes
        .string_form_entries()
        .into_iter()
        .map(|e| (e.key, e.value.copied()))
        .collect();
    let back = from_string_form(pairs, &reg).unwrap();
    assert_eq!(back.len(), 2);
    assert_eq!(back.get(&a), Some(Some(&11)));
    assert_eq!(back.get(&b_desc), Some(None));
    assert_eq!(back.serializable_hint(), 2);
}

#[test]
fn mixed_sets_lose_exactly_the_non_serializable_part() {
    let reg = two_types();
    let health = reg.resolve("health").unwrap().clone();
    let name_tag = reg.resolve("name_tag").unwrap().clone();
    let mut b: Builder<i32> = ComponentChanges::builder();
    b.insert(health.clone(), 20);
    b.remove(name_tag.clone());
    let changes = b.build();

    let pairs: Vec<(String, Option<i32>)> = changes
        .string_form_entries()
        .into_iter()
        .map(|e| (e.key, e.value.copied()))
        .collect();
    let back = from_string_form(pairs, &reg).unwrap();
    assert_eq!(back.len(), 1);
    assert_eq!(back.get(&health), Some(Some(&20)));
    assert_eq!(back.get(&name_tag), None);
}

#[test]
fn from_string_form_rejects_bad_keys_and_missing_values() {
    let reg = two_types();
    let bad = from_string_form::<i32>(vec![("!name_tag".to_string(), None)], &reg);
    assert_eq!(
        bad.unwrap_err(),
        StringFormError::NotSerializable { text: "name_tag".to_string() }
    );

    let missing = from_string_form::<i32>(vec![("health".to_string(), None)], &reg);
    assert_eq!(
        missing.unwrap_err(),
        StringFormError::MissingValue { text: "health".to_string() }
    );
}

#[test]
fn later_pairs_overwrite_earlier_ones() {
    let reg = two_types();
    let health = reg.resolve("health").unwrap().clone();
    let pairs: Vec<(String, Option<i32>)> = vec![
        ("health".to_string(), Some(1)),
        ("!health".to_string(), Some(0)),
        ("health".to_string(), Some(2)),
    ];
    let back = from_string_form(pairs, &reg).unwrap();
    assert_eq!(back.len(), 1);
    assert_eq!(back.get(&health), Some(Some(&2)));
}
