//! Round-trip and scenario tests for the binary Loc codec.

use loc_codec::{DecodedData, Definition, Field, FieldType, Loc, Schema, TableError};

fn loc_definition(version: i32) -> Definition {
    let mut d = Definition::new(version);
    d.push_field(Field::new(
        "key".to_string(),
        FieldType::StringU16,
        None,
        String::new(),
        None,
    ));
    d.push_field(Field::new(
        "text".to_string(),
        FieldType::StringU16,
        None,
        String::new(),
        None,
    ));
    d.push_field(Field::new(
        "tooltip".to_string(),
        FieldType::Boolean,
        None,
        String::new(),
        None,
    ));
    d
}

fn row(key: &str, text: &str, tooltip: bool) -> Vec<DecodedData> {
    vec![
        DecodedData::StringU16(key.to_string()),
        DecodedData::StringU16(text.to_string()),
        DecodedData::Boolean(tooltip),
    ]
}

fn schema_with(version: i32) -> Schema {
    let mut s = Schema::new();
    s.add_definition(loc_definition(version));
    s
}

#[test]
fn read_save_round_trip() {
    let definition = loc_definition(1);
    let mut loc = Loc::new(&definition);
    let rows = vec![
        row("greeting", "hello world", false),
        row("farewell", "goodbye", true),
        row("empty", "", false),
    ];
    loc.set_table_data(&rows).unwrap();
    let bytes = loc.save().unwrap();
    let schema = schema_with(1);
    let back = Loc::read(&bytes, &schema).unwrap();
    assert_eq!(back, loc);
    assert_eq!(back.get_entry_count(), 3);
    assert_eq!(back.get_ref_definition().get_version(), 1);
}

#[test]
fn read_save_round_trip_empty_table() {
    let definition = loc_definition(7);
    let loc = Loc::new(&definition);
    let bytes = loc.save().unwrap();
    assert_eq!(bytes.len(), 14);
    let schema = schema_with(7);
    let back = Loc::read(&bytes, &schema).unwrap();
    assert_eq!(back, loc);
}

#[test]
fn read_save_round_trip_non_ascii() {
    let definition = loc_definition(1);
    let mut loc = Loc::new(&definition);
    // A supplementary-plane character exercises the surrogate-pair path.
    let rows = vec![row("key_\u{1F600}", "text \u{00E9}\u{4E2D}", true)];
    loc.set_table_data(&rows).unwrap();
    let bytes = loc.save().unwrap();
    let schema = schema_with(1);
    let back = Loc::read(&bytes, &schema).unwrap();
    assert_eq!(back, loc);
}

#[test]
fn concrete_buffer_decodes_and_reencodes() {
    // Envelope: marker 65279 LE, "LOC", padding, version 1, one row; then
    // the row key="a", text="b", tooltip=false.
    let bytes: Vec<u8> = vec![
        0xFF, 0xFE, 0x4C, 0x4F, 0x43, 0x00, // marker, tag, padding
        0x01, 0x00, 0x00, 0x00, // version = 1
        0x01, 0x00, 0x00, 0x00, // entry count = 1
        0x01, 0x00, 0x61, 0x00, // key = "a"
        0x01, 0x00, 0x62, 0x00, // text = "b"
        0x00, // tooltip = false
    ];
    let schema = schema_with(1);
    let loc = Loc::read(&bytes, &schema).unwrap();
    assert_eq!(loc.get_ref_definition().get_version(), 1);
    assert_eq!(loc.get_entry_count(), 1);
    assert_eq!(loc.get_table_data(), vec![row("a", "b", false)]);
    let again = loc.save().unwrap();
    assert_eq!(again, bytes);
}

#[test]
fn extra_byte_is_a_size_mismatch() {
    let definition = loc_definition(1);
    let mut loc = Loc::new(&definition);
    loc.set_table_data(&[row("k", "v", false)]).unwrap();
    let mut bytes = loc.save().unwrap();
    bytes.push(0xAB);
    let schema = schema_with(1);
    let err = Loc::read(&bytes, &schema).unwrap_err();
    assert_eq!(
        err,
        TableError::SizeMismatch { expected: bytes.len(), actual: bytes.len() - 1 }
    );
}

#[test]
fn missing_byte_is_rejected() {
    let definition = loc_definition(1);
    let mut loc = Loc::new(&definition);
    loc.set_table_data(&[row("k", "v", false)]).unwrap();
    let mut bytes = loc.save().unwrap();
    bytes.pop();
    let schema = schema_with(1);
    let err = Loc::read(&bytes, &schema).unwrap_err();
    assert_eq!(err, TableError::OutOfBounds);
}

#[test]
fn short_buffer_is_not_a_loc_file() {
    let schema = schema_with(1);
    let err = Loc::read(&[0xFF, 0xFE, 0x4C], &schema).unwrap_err();
    assert_eq!(err, TableError::NotALocFile);
}

#[test]
fn wrong_marker_is_not_a_loc_file() {
    let mut bytes = vec![0u8; 14];
    bytes[0] = 0x00;
    bytes[1] = 0x00;
    bytes[2] = 0x4C;
    bytes[3] = 0x4F;
    bytes[4] = 0x43;
    let schema = schema_with(1);
    assert_eq!(Loc::read(&bytes, &schema).unwrap_err(), TableError::NotALocFile);
}

#[test]
fn wrong_tag_is_not_a_loc_file() {
    let mut bytes = vec![0u8; 14];
    bytes[0] = 0xFF;
    bytes[1] = 0xFE;
    bytes[2] = 0x58; // not "LOC"
    bytes[3] = 0x4F;
    bytes[4] = 0x43;
    let schema = schema_with(1);
    assert_eq!(Loc::read(&bytes, &schema).unwrap_err(), TableError::NotALocFile);
}

#[test]
fn empty_table_with_unknown_version() {
    // version = 1, entry count = 0, and no definition registered for 1.
    let bytes: Vec<u8> = vec![
        0xFF, 0xFE, 0x4C, 0x4F, 0x43, 0x00, // marker, tag, padding
        0x01, 0x00, 0x00, 0x00, // version = 1
        0x00, 0x00, 0x00, 0x00, // entry count = 0
    ];
    let schema = Schema::new();
    let err = Loc::read(&bytes, &schema).unwrap_err();
    assert_eq!(err, TableError::EmptyTableWithNoDefinition);
}

#[test]
fn nonempty_table_with_unknown_version() {
    let bytes: Vec<u8> = vec![
        0xFF, 0xFE, 0x4C, 0x4F, 0x43, 0x00, // marker, tag, padding
        0x02, 0x00, 0x00, 0x00, // version = 2
        0x01, 0x00, 0x00, 0x00, // entry count = 1
        0x00,
    ];
    let schema = schema_with(1);
    let err = Loc::read(&bytes, &schema).unwrap_err();
    assert_eq!(err, TableError::DefinitionNotFound);
}

#[test]
fn invalid_bool_byte_is_rejected() {
    let bytes: Vec<u8> = vec![
        0xFF, 0xFE, 0x4C, 0x4F, 0x43, 0x00, // marker, tag, padding
        0x01, 0x00, 0x00, 0x00, // version = 1
        0x01, 0x00, 0x00, 0x00, // entry count = 1
        0x00, 0x00, // key = ""
        0x00, 0x00, // text = ""
        0x02, // tooltip byte is neither 0 nor 1
    ];
    let schema = schema_with(1);
    assert_eq!(Loc::read(&bytes, &schema).unwrap_err(), TableError::InvalidBool);
}

#[test]
fn lone_surrogate_is_an_invalid_string() {
    let bytes: Vec<u8> = vec![
        0xFF, 0xFE, 0x4C, 0x4F, 0x43, 0x00, // marker, tag, padding
        0x01, 0x00, 0x00, 0x00, // version = 1
        0x01, 0x00, 0x00, 0x00, // entry count = 1
        0x01, 0x00, 0x00, 0xD8, // key = one lone high surrogate unit
        0x00, 0x00, // text = ""
        0x00, // tooltip = false
    ];
    let schema = schema_with(1);
    assert_eq!(Loc::read(&bytes, &schema).unwrap_err(), TableError::InvalidString);
}

#[test]
fn negative_version_round_trips() {
    let definition = loc_definition(-3);
    let mut loc = Loc::new(&definition);
    loc.set_table_data(&[row("k", "v", true)]).unwrap();
    let bytes = loc.save().unwrap();
    let schema = schema_with(-3);
    let back = Loc::read(&bytes, &schema).unwrap();
    assert_eq!(back, loc);
}
