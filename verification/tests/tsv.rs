//! Tests for the tab-separated interchange form.

use loc_codec::{DecodedData, Definition, Field, FieldType, Loc, TableError, TSV_NAME_LOC};

fn loc_definition(version: i32) -> Definition {
    let mut d = Definition::new(version);
    d.push_field(Field::new(
        "key".to_string(),
        FieldType::StringU16,
        None,
        String::new(),
        None,
    ));
    d.push_field(Field::new(
        "text".to_string(),
        FieldType::StringU16,
        None,
        String::new(),
        None,
    ));
    d.push_field(Field::new(
        "tooltip".to_string(),
        FieldType::Boolean,
        None,
        String::new(),
        None,
    ));
    d
}

fn row(key: &str, text: &str, tooltip: bool) -> Vec<DecodedData> {
    vec![
        DecodedData::StringU16(key.to_string()),
        DecodedData::StringU16(text.to_string()),
        DecodedData::Boolean(tooltip),
    ]
}

#[test]
fn export_import_round_trip() {
    let definition = loc_definition(1);
    let mut loc = Loc::new(&definition);
    loc.set_table_data(&[
        row("plain", "text", false),
        row("with\ttab", "and\nnewline", true),
        row("back\\slash", "", false),
    ])
    .unwrap();
    let text = loc.export_tsv(TSV_NAME_LOC, 1).unwrap();
    let back = Loc::import_tsv(&definition, &text, TSV_NAME_LOC, 1).unwrap();
    assert_eq!(back, loc);
}

#[test]
fn export_has_expected_shape() {
    let definition = loc_definition(1);
    let mut loc = Loc::new(&definition);
    loc.set_table_data(&[row("k", "v", true)]).unwrap();
    let text = loc.export_tsv("Loc PackedFile", 1).unwrap();
    assert_eq!(text, "Loc PackedFile\t1\nk\tv\ttrue\n");
}

#[test]
fn export_escapes_delimiters() {
    let definition = loc_definition(1);
    let mut loc = Loc::new(&definition);
    loc.set_table_data(&[row("a\tb", "c\nd", false)]).unwrap();
    let text = loc.export_tsv("Loc PackedFile", 1).unwrap();
    assert_eq!(text, "Loc PackedFile\t1\na\\tb\tc\\nd\tfalse\n");
}

#[test]
fn import_rejects_wrong_name() {
    let definition = loc_definition(1);
    let text = "Other Kind\t1\n";
    let err = Loc::import_tsv(&definition, text, TSV_NAME_LOC, 1).unwrap_err();
    assert_eq!(err, TableError::TsvFormatMismatch);
}

#[test]
fn import_rejects_wrong_version() {
    let definition = loc_definition(1);
    let text = "Loc PackedFile\t2\n";
    let err = Loc::import_tsv(&definition, text, TSV_NAME_LOC, 1).unwrap_err();
    assert_eq!(err, TableError::TsvFormatMismatch);
}

#[test]
fn import_rejects_wrong_field_count() {
    let definition = loc_definition(1);
    let text = "Loc PackedFile\t1\nonly\ttwo\n";
    let err = Loc::import_tsv(&definition, text, TSV_NAME_LOC, 1).unwrap_err();
    assert_eq!(err, TableError::TsvFormatMismatch);
}

#[test]
fn import_rejects_unparsable_field() {
    let definition = loc_definition(1);
    let text = "Loc PackedFile\t1\nk\tv\tmaybe\n";
    let err = Loc::import_tsv(&definition, text, TSV_NAME_LOC, 1).unwrap_err();
    assert_eq!(err, TableError::TsvFormatMismatch);
}

#[test]
fn import_rejects_missing_final_newline() {
    let definition = loc_definition(1);
    let text = "Loc PackedFile\t1\nk\tv\ttrue";
    let err = Loc::import_tsv(&definition, text, TSV_NAME_LOC, 1).unwrap_err();
    assert_eq!(err, TableError::TsvFormatMismatch);
}

#[test]
fn import_parses_negative_numbers() {
    let mut definition = Definition::new(3);
    definition.push_field(Field::new(
        "n".to_string(),
        FieldType::Integer,
        None,
        String::new(),
        None,
    ));
    definition.push_field(Field::new(
        "m".to_string(),
        FieldType::LongInteger,
        None,
        String::new(),
        None,
    ));
    let text = "numbers\t3\n-2147483648\t-9223372036854775808\n";
    let loc = Loc::import_tsv(&definition, text, "numbers", 3).unwrap();
    assert_eq!(
        loc.get_table_data(),
        vec![vec![
            DecodedData::Integer(i32::MIN),
            DecodedData::LongInteger(i64::MIN),
        ]]
    );
}

#[test]
fn import_rejects_out_of_range_number() {
    let mut definition = Definition::new(3);
    definition.push_field(Field::new(
        "n".to_string(),
        FieldType::Integer,
        None,
        String::new(),
        None,
    ));
    let text = "numbers\t3\n2147483648\n";
    let err = Loc::import_tsv(&definition, text, "numbers", 3).unwrap_err();
    assert_eq!(err, TableError::TsvFormatMismatch);
}

#[test]
fn numeric_fields_round_trip_through_tsv() {
    let mut definition = Definition::new(5);
    definition.push_field(Field::new(
        "bits".to_string(),
        FieldType::Float,
        None,
        String::new(),
        None,
    ));
    definition.push_field(Field::new(
        "count".to_string(),
        FieldType::Integer,
        None,
        String::new(),
        None,
    ));
    let mut loc = Loc::new(&definition);
    loc.set_table_data(&[
        vec![DecodedData::Float(u32::MAX), DecodedData::Integer(-42)],
        vec![DecodedData::Float(0), DecodedData::Integer(i32::MAX)],
    ])
    .unwrap();
    let text = loc.export_tsv("numbers", 5).unwrap();
    let back = Loc::import_tsv(&definition, &text, "numbers", 5).unwrap();
    assert_eq!(back, loc);
}
