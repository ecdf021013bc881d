use parquet_lite::cells::Cell;
use parquet_lite::encode::{ColumnData, ColumnInput, TypedArrayData, TypedKind};
use parquet_lite::output::{Entry, NamedColumn};
use parquet_lite::writer::{write_parquet, ColumnSchema, WriteConfig};

fn column(name: &str, col_type: &str, nullable: bool, logical: Option<&str>) -> ColumnSchema {
    ColumnSchema {
        name: name.to_string(),
        col_type: col_type.to_string(),
        nullable,
        logical_type: logical.map(|s| s.to_string()),
        precision: None,
        scale: None,
        bit_width: None,
        is_signed: None,
        enum_values: None,
    }
}

fn config(rows: usize, compression: &str) -> WriteConfig {
    WriteConfig { compression: compression.to_string(), row_group_size: rows, version: "v1".to_string() }
}

fn sample_file(row_group_size: usize) -> Vec<u8> {
    let cols = vec![
        column("id", "int32", false, None),
        column("name", "string", false, None),
        column("score", "double", false, None),
        column("maybe", "int64", true, None),
    ];
    let inputs = vec![
        ColumnInput::Values(ColumnData::Int32(vec![1, 2, 3])),
        ColumnInput::Values(ColumnData::Text(vec!["Alice".to_string(), "Bob".to_string(), "Charlie".to_string()])),
        ColumnInput::Values(ColumnData::Double(vec![95.5f64.to_bits(), 87.25f64.to_bits(), 92.0f64.to_bits()])),
        ColumnInput::Nullable(vec![true, false, true], ColumnData::Int64(vec![7, -8])),
    ];
    write_parquet(&cols, &inputs, 3, &config(row_group_size, "snappy")).unwrap()
}

fn values(col: &NamedColumn) -> Vec<&Cell> {
    col.entries
        .iter()
        .map(|e| match e {
            Entry::Value(c) => c,
            Entry::Row(_) => panic!("unexpected row"),
        })
        .collect()
}

fn find<'a>(cols: &'a [NamedColumn], name: &str) -> &'a NamedColumn {
    cols.iter().find(|c| c.name == name).unwrap()
}

#[test]
fn written_file_reads_back_in_full() {
    let bytes = sample_file(10000);
    assert_eq!(&bytes[0..4], b"PAR1");
    let cols = parquet_lite::reader_full::read_parquet(&bytes, None).unwrap();
    let names: Vec<&str> = cols.iter().map(|c| c.name.as_str()).collect();
    assert_eq!(names, vec!["id", "name", "score", "maybe"]);
    assert_eq!(values(find(&cols, "id")), vec![&Cell::Number(1), &Cell::Number(2), &Cell::Number(3)]);
    assert_eq!(
        values(find(&cols, "name")),
        vec![&Cell::Text(b"Alice".to_vec()), &Cell::Text(b"Bob".to_vec()), &Cell::Text(b"Charlie".to_vec())]
    );
    assert_eq!(
        values(find(&cols, "score")),
        vec![&Cell::Double(95.5f64.to_bits()), &Cell::Double(87.25f64.to_bits()), &Cell::Double(92.0f64.to_bits())]
    );
    assert_eq!(values(find(&cols, "maybe")), vec![&Cell::BigInt(7), &Cell::Null, &Cell::BigInt(-8)]);
}

#[test]
fn lite_reader_reads_the_same_file() {
    let bytes = sample_file(10000);
    let cols = parquet_lite::reader_lite::read_parquet(&bytes, None).unwrap();
    assert_eq!(cols.len(), 4);
    assert_eq!(values(find(&cols, "maybe")), vec![&Cell::BigInt(7), &Cell::Null, &Cell::BigInt(-8)]);
    assert_eq!(values(find(&cols, "id")), vec![&Cell::Number(1), &Cell::Number(2), &Cell::Number(3)]);
}

#[test]
fn basic_reader_reads_page_values() {
    let bytes = sample_file(10000);
    let cols = parquet_lite::reader::read_parquet(&bytes, Some(vec!["id".to_string(), "name".to_string()])).unwrap();
    assert_eq!(cols.len(), 2);
    assert_eq!(values(find(&cols, "id")), vec![&Cell::Number(1), &Cell::Number(2), &Cell::Number(3)]);
    assert_eq!(values(find(&cols, "name")).len(), 3);
}

#[test]
fn basic_reader_keeps_nulls() {
    let cols = vec![column("a", "int32", true, None)];
    let inputs = vec![ColumnInput::Nullable(vec![true, false, true], ColumnData::Int32(vec![1, 3]))];
    let bytes = write_parquet(&cols, &inputs, 3, &config(2, "snappy")).unwrap();
    let read = parquet_lite::reader::read_parquet(&bytes, None).unwrap();
    assert_eq!(values(find(&read, "a")), vec![&Cell::Number(1), &Cell::Null, &Cell::Number(3)]);
}

#[test]
fn only_the_columns_asked_for_are_read() {
    let bytes = sample_file(10000);
    let cols = parquet_lite::reader_full::read_parquet(&bytes, Some(vec!["score".to_string(), "nope".to_string()])).unwrap();
    assert_eq!(cols.len(), 1);
    assert_eq!(cols[0].name, "score");
}

#[test]
fn row_groups_are_appended_in_order() {
    let bytes = sample_file(2);
    let md = parquet_lite::reader_full::read_parquet_metadata(&bytes).unwrap();
    assert_eq!(md.num_rows, 3);
    assert_eq!(md.num_row_groups, 2);
    let cols = parquet_lite::reader_full::read_parquet(&bytes, None).unwrap();
    assert_eq!(values(find(&cols, "id")), vec![&Cell::Number(1), &Cell::Number(2), &Cell::Number(3)]);
    assert_eq!(values(find(&cols, "maybe")), vec![&Cell::BigInt(7), &Cell::Null, &Cell::BigInt(-8)]);
}

#[test]
fn metadata_reports_columns() {
    let bytes = sample_file(10000);
    let md = parquet_lite::reader_lite::read_parquet_metadata(&bytes).unwrap();
    assert_eq!(md.num_rows, 3);
    assert_eq!(md.num_row_groups, 1);
    let described: Vec<(&str, &str, bool)> =
        md.columns.iter().map(|c| (c.name.as_str(), c.col_type.as_str(), c.nullable)).collect();
    assert_eq!(
        described,
        vec![("id", "int32", false), ("name", "string", false), ("score", "double", false), ("maybe", "int64", true)]
    );
    let basic = parquet_lite::reader::read_parquet_metadata(&bytes).unwrap();
    assert_eq!(basic.columns.len(), 4);
    assert_eq!(basic.columns[3].col_type, "int64");
}

#[test]
fn logical_types_are_reported_and_kept() {
    let cols = vec![
        column("day", "int32", false, Some("date")),
        column("at", "int64", false, Some("timestamp_millis")),
        column("tag", "string", false, Some("enum")),
    ];
    let mut tag = column("tag", "string", false, Some("enum"));
    tag.enum_values = Some(vec!["on".to_string(), "off".to_string()]);
    let cols = vec![cols[0].clone(), cols[1].clone(), tag];
    let inputs = vec![
        ColumnInput::Values(ColumnData::Int32(vec![19723])),
        ColumnInput::Values(ColumnData::Int64(vec![1_700_000_000_000])),
        ColumnInput::Typed(TypedArrayData { kind: TypedKind::Uint8, values: vec![1] }),
    ];
    let bytes = write_parquet(&cols, &inputs, 1, &config(100, "none")).unwrap();
    let md = parquet_lite::reader_full::read_parquet_metadata(&bytes).unwrap();
    let logical: Vec<Option<&str>> = md.columns.iter().map(|c| c.logical_type.as_deref()).collect();
    assert_eq!(logical, vec![Some("date"), Some("timestamp_millis"), Some("enum")]);
    let read = parquet_lite::reader_full::read_parquet(&bytes, None).unwrap();
    assert_eq!(values(find(&read, "day")), vec![&Cell::Number(19723)]);
    assert_eq!(values(find(&read, "at")), vec![&Cell::Number(1_700_000_000_000)]);
    assert_eq!(values(find(&read, "tag")), vec![&Cell::Text(b"off".to_vec())]);
}

#[test]
fn booleans_and_typed_floats_round_trip() {
    let cols = vec![column("flag", "boolean", false, None), column("f", "float", false, None)];
    let inputs = vec![
        ColumnInput::Values(ColumnData::Boolean(vec![true, false, true])),
        ColumnInput::Typed(TypedArrayData {
            kind: TypedKind::Float32,
            values: vec![1.5f32.to_bits() as i128, (-2.0f32).to_bits() as i128, 0],
        }),
    ];
    let bytes = write_parquet(&cols, &inputs, 3, &config(10000, "snappy")).unwrap();
    let read = parquet_lite::reader_lite::read_parquet(&bytes, None).unwrap();
    assert_eq!(values(find(&read, "flag")), vec![&Cell::Boolean(true), &Cell::Boolean(false), &Cell::Boolean(true)]);
    assert_eq!(
        values(find(&read, "f")),
        vec![&Cell::Float(1.5f32.to_bits()), &Cell::Float((-2.0f32).to_bits()), &Cell::Float(0)]
    );
}

#[test]
fn empty_files_have_no_row_groups() {
    let cols = vec![column("id", "int32", false, None)];
    let inputs = vec![ColumnInput::Values(ColumnData::Int32(vec![]))];
    let bytes = write_parquet(&cols, &inputs, 0, &config(10, "snappy")).unwrap();
    let md = parquet_lite::reader_full::read_parquet_metadata(&bytes).unwrap();
    assert_eq!(md.num_rows, 0);
    assert_eq!(md.num_row_groups, 0);
    assert_eq!(parquet_lite::reader_full::read_parquet(&bytes, None).unwrap().len(), 0);
}

#[test]
fn garbage_is_not_a_file() {
    assert!(matches!(
        parquet_lite::reader_full::read_parquet(b"not a parquet file", None),
        Err(parquet_lite::column::ReadError::Metadata(_))
    ));
    assert!(parquet_lite::reader::read_parquet_metadata(b"PAR1").is_err());
}

#[test]
fn readers_report_their_version() {
    assert_eq!(parquet_lite::reader::get_version(), "0.1.0");
    assert_eq!(parquet_lite::reader_lite::get_version(), "0.1.0");
    assert_eq!(parquet_lite::reader_full::get_version(), "0.1.0");
}

#[test]
fn columns_of_unequal_length_are_refused() {
    let cols = vec![column("a", "int32", false, None), column("b", "int32", false, None)];
    let inputs = vec![
        ColumnInput::Values(ColumnData::Int32(vec![1, 2, 3])),
        ColumnInput::Values(ColumnData::Int32(vec![1, 2])),
    ];
    let r = write_parquet(&cols, &inputs, 3, &config(10, "snappy"));
    assert!(matches!(r, Err(parquet_lite::writer::WriteError::LengthMismatch)));
}

#[test]
fn metadata_reports_the_file_written() {
    let bytes = sample_file(2);
    let m = parquet_lite::reader_full::read_parquet_metadata(&bytes).unwrap();
    assert_eq!(m.num_rows, 3);
    assert_eq!(m.num_row_groups, 2);
    assert_eq!(m.columns.len(), 4);
    assert_eq!(m.columns[1].name, "name");
    assert!(m.columns[3].nullable);
}

#[test]
fn selection_matches_full_read() {
    let bytes = sample_file(2);
    let all = parquet_lite::reader_full::read_parquet(&bytes, None).unwrap();
    let some = parquet_lite::reader_full::read_parquet(
        &bytes,
        Some(vec!["maybe".to_string(), "id".to_string(), "zzz".to_string()]),
    )
    .unwrap();
    let names: Vec<&str> = some.iter().map(|c| c.name.as_str()).collect();
    assert_eq!(names, vec!["id", "maybe"]);
    for c in &some {
        let full = find(&all, &c.name);
        assert_eq!(values(full), values(c));
    }
}

#[test]
fn enum_forms_write_identical_files() {
    let mut status = column("status", "string", false, Some("enum"));
    status.enum_values = Some(vec!["active".to_string(), "inactive".to_string(), "pending".to_string()]);
    let cols = vec![status];
    let by_index = vec![ColumnInput::Values(ColumnData::EnumIndices(vec![0, 1, 2, 0]))];
    let by_text = vec![ColumnInput::Values(ColumnData::Text(vec![
        "active".to_string(),
        "inactive".to_string(),
        "pending".to_string(),
        "active".to_string(),
    ]))];
    let by_bytes = vec![ColumnInput::Typed(TypedArrayData { kind: TypedKind::Uint8, values: vec![0, 1, 2, 0] })];
    let a = write_parquet(&cols, &by_index, 4, &config(10000, "snappy")).unwrap();
    let b = write_parquet(&cols, &by_text, 4, &config(10000, "snappy")).unwrap();
    let c = write_parquet(&cols, &by_bytes, 4, &config(10000, "snappy")).unwrap();
    assert_eq!(a, b);
    assert_eq!(a, c);
}
