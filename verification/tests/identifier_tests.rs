use component_changes::identifier::{Error, Identifier};

#[test]
fn new_builds_namespace_and_path() {
    let id = Identifier::new("minecraft", "air".to_string());
    assert_eq!(id.namespace(), "minecraft");
    assert_eq!(id.path(), "air");
}

#[test]
fn try_new_accepts_allowed_characters() {
    let id = Identifier::try_new("my.mod_1", "a/b-c_d.e".to_string()).unwrap();
    assert_eq!(id.namespace(), "my.mod_1");
    assert_eq!(id.path(), "a/b-c_d.e");
}

#[test]
fn try_new_rejects_invalid_namespace() {
    let r = Identifier::try_new("Bad", "ok".to_string());
    assert_eq!(
        r.unwrap_err(),
        Error::InvalidChars { namespace: "Bad".to_string(), path: "ok".to_string() }
    );
}

#[test]
fn try_new_rejects_invalid_path() {
    let r = Identifier::try_new("ok", "sp ace".to_string());
    assert!(matches!(r, Err(Error::InvalidChars { .. })));
}

#[test]
fn parse_splits_at_first_colon() {
    let id = Identifier::parse("minecraft:air");
    assert_eq!(id.namespace(), "minecraft");
    assert_eq!(id.path(), "air");
}

#[test]
fn parse_without_colon_uses_unknown_namespace() {
    let id = Identifier::try_parse("air").unwrap();
    assert_eq!(id.namespace(), "unknown");
    assert_eq!(id.path(), "air");
}

#[test]
fn try_parse_rejects_invalid_characters() {
    assert!(Identifier::try_parse("foo!bar:x").is_err());
    assert!(Identifier::try_parse("a:UP").is_err());
}

#[test]
fn colon_in_path_position_splits_only_once() {
    // ":" can only be the namespace separator; a second one is invalid.
    assert!(Identifier::try_parse("a:b:c").is_err());
}

#[test]
fn namespace_validity() {
    assert!(Identifier::is_namespace_valid("abc-0.9_z"));
    assert!(Identifier::is_namespace_valid(""));
    assert!(!Identifier::is_namespace_valid("a/b"));
    assert!(!Identifier::is_namespace_valid("A"));
    assert!(!Identifier::is_namespace_valid("a b"));
}

#[test]
fn path_validity() {
    assert!(Identifier::is_path_valid("a/b/c.json"));
    assert!(Identifier::is_path_valid(""));
    assert!(!Identifier::is_path_valid("a:b"));
    assert!(!Identifier::is_path_valid("ä"));
}

#[test]
fn to_text_round_trips_through_parse() {
    let id = Identifier::new("minecraft", "block/stone".to_string());
    let text = id.to_text();
    assert_eq!(text, "minecraft:block/stone");
    let back = Identifier::parse(&text);
    assert_eq!(back, id);
}

#[test]
fn equality_is_by_parts() {
    let a = Identifier::new("m", "p".to_string());
    let b = Identifier::parse("m:p");
    let c = Identifier::parse("m:q");
    assert_eq!(a, b);
    assert_ne!(a, c);
    assert_eq!(a.clone(), a);
}
