use component_changes::changes::{Builder, ComponentChanges};
use component_changes::registry::Registry;
use component_changes::varint::{read_varint, write_varint, VarintError};
use component_changes::wire::{Int32Codec, WireError};

fn two_types() -> Registry {
    let mut reg = Registry::new();
    reg.register("health".to_string(), true);
    reg.register("name_tag".to_string(), false);
    reg
}

#[test]
fn varint_encodings_are_exact() {
    let cases: Vec<(u32, Vec<u8>)> = vec![
        (0, vec![0x00]),
        (1, vec![0x01]),
        (127, vec![0x7F]),
        (128, vec![0x80, 0x01]),
        (300, vec![0xAC, 0x02]),
        (u32::MAX, vec![0xFF, 0xFF, 0xFF, 0xFF, 0x0F]),
    ];
    for (value, expected) in cases {
        let mut buf = Vec::new();
        write_varint(&mut buf, value);
        assert_eq!(buf, expected, "encoding of {}", value);
        assert_eq!(read_varint(&buf, 0).unwrap(), (value, expected.len()));
    }
}

#[test]
fn varint_read_reports_truncation_and_overflow() {
    assert_eq!(read_varint(&vec![], 0), Err(VarintError::Truncated));
    assert_eq!(read_varint(&vec![0x80], 0), Err(VarintError::Truncated));
    let too_big = vec![0xFF, 0xFF, 0xFF, 0xFF, 0x7F];
    assert_eq!(read_varint(&too_big, 0), Err(VarintError::Overflow));
}

#[test]
fn encode_writes_counts_marker_identities_and_payload() {
    let reg = two_types();
    let health = reg.resolve("health").unwrap().clone();
    let name_tag = reg.resolve("name_tag").unwrap().clone();
    let mut b: Builder<i32> = ComponentChanges::builder();
    b.insert(health, 20);
    b.remove(name_tag);
    let changes = b.build();

    let mut buf = Vec::new();
    changes.encode(&Int32Codec, &mut buf).unwrap();
    // present count 1, removed count 1; then the present entry: marker 1,
    // identity 0, payload 20; then the removed identity 1.
    assert_eq!(buf, vec![0x01, 0x01, 0x01, 0x00, 0x14, 0x01]);
}

#[test]
fn decode_reads_the_documented_stream_shape() {
    // The decoder reads no marker: present entries are identity then
    // payload, straight after the two counts.
    let reg = two_types();
    let health = reg.resolve("health").unwrap().clone();
    let name_tag = reg.resolve("name_tag").unwrap().clone();
    let bytes = vec![0x01, 0x01, 0x00, 0x14, 0x01];
    let changes = ComponentChanges::<i32>::decode(&bytes, &reg, &Int32Codec).unwrap();
    assert_eq!(changes.len(), 2);
    assert_eq!(changes.get(&health), Some(Some(&20)));
    assert_eq!(changes.get(&name_tag), Some(None));
    assert_eq!(changes.serializable_hint(), 1);
}

#[test]
fn removal_only_sets_round_trip() {
    let reg = two_types();
    let health = reg.resolve("health").unwrap().clone();
    let name_tag = reg.resolve("name_tag").unwrap().clone();
    let mut b: Builder<i32> = ComponentChanges::builder();
    b.remove(health.clone());
    b.remove(name_tag.clone());
    let changes = b.build();

    let mut buf = Vec::new();
    changes.encode(&Int32Codec, &mut buf).unwrap();
    assert_eq!(buf, vec![0x00, 0x02, 0x00, 0x01]);

    let back = ComponentChanges::<i32>::decode(&buf, &reg, &Int32Codec).unwrap();
    assert_eq!(back.len(), 2);
    assert_eq!(back.get(&health), Some(None));
    assert_eq!(back.get(&name_tag), Some(None));
}

#[test]
fn decode_rejects_unknown_identities_and_truncation() {
    let reg = two_types();
    let unknown = ComponentChanges::<i32>::decode(&vec![0x00, 0x01, 0x09], &reg, &Int32Codec);
    assert_eq!(unknown.unwrap_err(), WireError::UnknownDescriptor { raw: 9 });

    let truncated = ComponentChanges::<i32>::decode(&vec![0x00, 0x02, 0x00], &reg, &Int32Codec);
    assert_eq!(truncated.unwrap_err(), WireError::Truncated);

    let empty = ComponentChanges::<i32>::decode(&vec![], &reg, &Int32Codec);
    assert_eq!(empty.unwrap_err(), WireError::Truncated);
}

#[test]
fn decode_rejects_oversized_counts() {
    let reg = two_types();
    // A count needing more than 32 bits overflows.
    let bytes = vec![0xFF, 0xFF, 0xFF, 0xFF, 0x7F];
    let r = ComponentChanges::<i32>::decode(&bytes, &reg, &Int32Codec);
    assert_eq!(r.unwrap_err(), WireError::Overflow);
}

#[test]
fn decode_reports_payload_codec_failures() {
    let reg = two_types();
    // One present entry for identity 0, but the payload bytes are missing.
    let bytes = vec![0x01, 0x00, 0x00];
    let r = ComponentChanges::<i32>::decode(&bytes, &reg, &Int32Codec);
    assert!(matches!(r.unwrap_err(), WireError::Payload { .. }));
}

#[test]
fn empty_set_encodes_to_two_zero_counts() {
    let reg = two_types();
    let b: Builder<i32> = ComponentChanges::builder();
    let changes = b.build();
    let mut buf = Vec::new();
    changes.encode(&Int32Codec, &mut buf).unwrap();
    assert_eq!(buf, vec![0x00, 0x00]);
    let back = ComponentChanges::<i32>::decode(&buf, &reg, &Int32Codec).unwrap();
    assert!(back.is_empty());
}
