//! Tests for row mutation, schema migration, the size-reduction pass, and
//! the full variant set of the generic codec.

use loc_codec::{DecodedData, Definition, Field, FieldType, Loc, Schema, Table, TableError};

fn loc_definition(version: i32) -> Definition {
    let mut d = Definition::new(version);
    d.push_field(Field::new(
        "key".to_string(),
        FieldType::StringU16,
        None,
        String::new(),
        None,
    ));
    d.push_field(Field::new(
        "text".to_string(),
        FieldType::StringU16,
        None,
        String::new(),
        None,
    ));
    d.push_field(Field::new(
        "tooltip".to_string(),
        FieldType::Boolean,
        None,
        String::new(),
        None,
    ));
    d
}

fn row(key: &str, text: &str, tooltip: bool) -> Vec<DecodedData> {
    vec![
        DecodedData::StringU16(key.to_string()),
        DecodedData::StringU16(text.to_string()),
        DecodedData::Boolean(tooltip),
    ]
}

fn wide_definition(version: i32) -> Definition {
    let mut d = Definition::new(version);
    d.push_field(Field::new("b".to_string(), FieldType::Boolean, None, String::new(), None));
    d.push_field(Field::new("f".to_string(), FieldType::Float, None, String::new(), None));
    d.push_field(Field::new("i".to_string(), FieldType::Integer, None, String::new(), None));
    d.push_field(Field::new("l".to_string(), FieldType::LongInteger, None, String::new(), None));
    d.push_field(Field::new("s8".to_string(), FieldType::StringU8, None, String::new(), None));
    d.push_field(Field::new("s16".to_string(), FieldType::StringU16, None, String::new(), None));
    d.push_field(Field::new(
        "o8".to_string(),
        FieldType::OptionalStringU8,
        None,
        String::new(),
        None,
    ));
    d.push_field(Field::new(
        "o16".to_string(),
        FieldType::OptionalStringU16,
        None,
        String::new(),
        None,
    ));
    d
}

fn wide_row(i: i32, l: i64, s8: &str, o8: &str) -> Vec<DecodedData> {
    vec![
        DecodedData::Boolean(true),
        DecodedData::Float(0x3F80_0000), // bit pattern of 1.0
        DecodedData::Integer(i),
        DecodedData::LongInteger(l),
        DecodedData::StringU8(s8.to_string()),
        DecodedData::StringU16("sixteen".to_string()),
        DecodedData::OptionalStringU8(o8.to_string()),
        DecodedData::OptionalStringU16(String::new()),
    ]
}

#[test]
fn every_variant_round_trips() {
    let definition = wide_definition(4);
    let mut loc = Loc::new(&definition);
    let rows = vec![
        wide_row(i32::MIN, i64::MIN, "ascii", ""),
        wide_row(i32::MAX, i64::MAX, "caf\u{00E9}", "present"),
        wide_row(0, -1, "", "x"),
    ];
    loc.set_table_data(&rows).unwrap();
    let bytes = loc.save().unwrap();
    let mut schema = Schema::new();
    schema.add_definition(wide_definition(4));
    let back = Loc::read(&bytes, &schema).unwrap();
    assert_eq!(back, loc);
}

#[test]
fn set_table_data_rejects_short_row() {
    let definition = loc_definition(1);
    let mut loc = Loc::new(&definition);
    loc.set_table_data(&[row("keep", "me", false)]).unwrap();
    let bad = vec![
        row("fine", "row", true),
        vec![DecodedData::StringU16("only_one".to_string())],
    ];
    let err = loc.set_table_data(&bad).unwrap_err();
    assert_eq!(err, TableError::ShapeMismatch { row: 1 });
    // Prior data is untouched on rejection.
    assert_eq!(loc.get_table_data(), vec![row("keep", "me", false)]);
}

#[test]
fn set_table_data_rejects_wrong_type() {
    let definition = loc_definition(1);
    let mut loc = Loc::new(&definition);
    let bad = vec![vec![
        DecodedData::StringU16("k".to_string()),
        DecodedData::StringU8("wrong encoding".to_string()),
        DecodedData::Boolean(false),
    ]];
    let err = loc.set_table_data(&bad).unwrap_err();
    assert_eq!(err, TableError::ShapeMismatch { row: 0 });
    assert_eq!(loc.get_entry_count(), 0);
}

#[test]
fn set_definition_reshapes_rows() {
    let definition = loc_definition(1);
    let mut loc = Loc::new(&definition);
    loc.set_table_data(&[row("a", "b", true)]).unwrap();

    // The new version keeps "key", drops "text", renames nothing else, and
    // adds a fresh integer column.
    let mut new_def = Definition::new(2);
    new_def.push_field(Field::new(
        "key".to_string(),
        FieldType::StringU16,
        None,
        String::new(),
        None,
    ));
    new_def.push_field(Field::new(
        "tooltip".to_string(),
        FieldType::Boolean,
        None,
        String::new(),
        None,
    ));
    new_def.push_field(Field::new(
        "priority".to_string(),
        FieldType::Integer,
        None,
        String::new(),
        None,
    ));
    loc.set_definition(&new_def);
    assert_eq!(loc.get_ref_definition().get_version(), 2);
    assert_eq!(
        loc.get_table_data(),
        vec![vec![
            DecodedData::StringU16("a".to_string()),
            DecodedData::Boolean(true),
            DecodedData::Integer(0),
        ]]
    );
}

#[test]
fn optimize_drops_rows_found_in_vanilla() {
    let definition = loc_definition(1);

    let mut vanilla = Loc::new(&definition);
    vanilla
        .set_table_data(&[row("shared", "same text", false), row("base", "original", true)])
        .unwrap();

    let mut working = Loc::new(&definition);
    working
        .set_table_data(&[
            row("shared", "same text", false), // identical to vanilla: dropped
            row("shared", "modded text", false), // differs in value: kept
            row("new_key", "brand new", true), // not in vanilla: kept
        ])
        .unwrap();

    let refs = [&vanilla];
    let empty = working.optimize_table(&refs);
    assert!(!empty);
    assert_eq!(
        working.get_table_data(),
        vec![row("shared", "modded text", false), row("new_key", "brand new", true)]
    );
}

#[test]
fn optimize_ignores_version_mismatched_references() {
    let definition = loc_definition(1);
    let other_version = loc_definition(2);

    let mut vanilla = Loc::new(&other_version);
    vanilla.set_table_data(&[row("shared", "same", false)]).unwrap();

    let mut working = Loc::new(&definition);
    working.set_table_data(&[row("shared", "same", false)]).unwrap();

    let refs = [&vanilla];
    let empty = working.optimize_table(&refs);
    assert!(!empty);
    assert_eq!(working.get_entry_count(), 1);
}

#[test]
fn optimize_is_idempotent() {
    let definition = loc_definition(1);

    let mut vanilla = Loc::new(&definition);
    vanilla.set_table_data(&[row("a", "1", false), row("b", "2", true)]).unwrap();

    let mut working = Loc::new(&definition);
    working
        .set_table_data(&[row("a", "1", false), row("c", "3", false), row("b", "2", true)])
        .unwrap();

    let refs = [&vanilla];
    working.optimize_table(&refs);
    let once = working.get_table_data();
    working.optimize_table(&refs);
    assert_eq!(working.get_table_data(), once);
}

#[test]
fn optimize_reports_emptiness() {
    let definition = loc_definition(1);

    let mut vanilla = Loc::new(&definition);
    vanilla.set_table_data(&[row("only", "row", false)]).unwrap();

    let mut working = Loc::new(&definition);
    working.set_table_data(&[row("only", "row", false)]).unwrap();

    let refs = [&vanilla];
    assert!(working.optimize_table(&refs));
    assert_eq!(working.get_entry_count(), 0);
}

#[test]
fn loc_from_table_keeps_contents() {
    let definition = loc_definition(1);
    let mut table = Table::new(&definition);
    table.set_table_data(&[row("k", "v", false)]).unwrap();
    let loc = Loc::from(table);
    assert_eq!(loc.get_entry_count(), 1);
    assert_eq!(loc.get_table_data(), vec![row("k", "v", false)]);
}

#[test]
fn getters_agree() {
    let definition = loc_definition(9);
    let mut loc = Loc::new(&definition);
    loc.set_table_data(&[row("x", "y", true)]).unwrap();
    assert_eq!(loc.get_definition().get_version(), 9);
    assert_eq!(loc.get_ref_definition().get_field_count(), 3);
    assert_eq!(loc.get_ref_table_data(), &loc.get_table_data()[..]);
    assert_eq!(loc.get_entry_count(), 1);
}

#[test]
fn schema_lookup_takes_first_match() {
    let mut schema = Schema::new();
    schema.add_definition(loc_definition(1));
    schema.add_definition(wide_definition(1));
    let found = schema.get_definition(1).unwrap();
    assert_eq!(found.get_field_count(), 3);
    assert!(schema.get_definition(2).is_none());
}

#[test]
fn set_definition_treats_type_change_as_new_column() {
    let definition = loc_definition(1);
    let mut loc = Loc::new(&definition);
    loc.set_table_data(&[row("a", "b", true)]).unwrap();

    // Same column name, different type: the old cell cannot carry over.
    let mut new_def = Definition::new(2);
    new_def.push_field(Field::new(
        "key".to_string(),
        FieldType::StringU8,
        None,
        String::new(),
        None,
    ));
    loc.set_definition(&new_def);
    assert_eq!(
        loc.get_table_data(),
        vec![vec![DecodedData::StringU8(String::new())]]
    );
}

#[test]
fn set_definition_uses_declared_default() {
    let definition = loc_definition(1);
    let mut loc = Loc::new(&definition);
    loc.set_table_data(&[row("a", "b", false)]).unwrap();

    let mut new_def = Definition::new(2);
    new_def.push_field(Field::new(
        "key".to_string(),
        FieldType::StringU16,
        None,
        String::new(),
        None,
    ));
    new_def.push_field(Field::new(
        "priority".to_string(),
        FieldType::Integer,
        Some("7".to_string()),
        String::new(),
        None,
    ));
    new_def.push_field(Field::new(
        "hidden".to_string(),
        FieldType::Boolean,
        Some("not a bool".to_string()), // unparsable: canonical value is used
        String::new(),
        None,
    ));
    loc.set_definition(&new_def);
    assert_eq!(
        loc.get_table_data(),
        vec![vec![
            DecodedData::StringU16("a".to_string()),
            DecodedData::Integer(7),
            DecodedData::Boolean(false),
        ]]
    );
}
