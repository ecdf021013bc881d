use parquet_lite::cells::Cell;
use parquet_lite::column::plain_cells;
use parquet_lite::encode::{def_levels_of, encode_column_data};
use parquet_lite::nulls::interleave_nulls;
use parquet_lite::encode::{
    convert_date_to_value, convert_enum_indices_to_strings, date_for_column, encode_chunk_values,
    page_buffer, row_group_ranges, typed_plan, ColumnData, ColumnInput, DateValue, TypedArrayData,
    TypedKind, TypedPlan,
};
use parquet_lite::types::{IntegerType, LogicalType, PhysicalType, Repetition, TimeUnit};
use parquet_lite::writer::{
    build_schema_fields, create_descriptor, get_compression, get_logical_type, get_physical_type,
    get_version, get_version_option, ColumnSchema, Compression, WriteConfig, WriteError, WriteVersion,
};

fn column(name: &str, col_type: &str, nullable: bool, logical: Option<&str>) -> ColumnSchema {
    ColumnSchema {
        name: name.to_string(),
        col_type: col_type.to_string(),
        nullable,
        logical_type: logical.map(|s| s.to_string()),
        precision: None,
        scale: None,
        bit_width: None,
        is_signed: None,
        enum_values: None,
    }
}

#[test]
fn default_config() {
    let c = WriteConfig::default();
    assert_eq!(c.compression, "snappy");
    assert_eq!(c.row_group_size, 10000);
    assert_eq!(c.version, "v1");
}

#[test]
fn type_names_in_any_case() {
    assert_eq!(get_physical_type("BigInt"), PhysicalType::Int64);
    assert_eq!(get_physical_type("Float32"), PhysicalType::Float);
    assert_eq!(get_physical_type("BOOL"), PhysicalType::Boolean);
    assert_eq!(get_physical_type("binary"), PhysicalType::ByteArray);
    assert_eq!(get_physical_type("something"), PhysicalType::ByteArray);
    assert_eq!(get_compression("UNCOMPRESSED"), Compression::Uncompressed);
    assert_eq!(get_compression("gzip"), Compression::Snappy);
    assert_eq!(get_version_option("V2"), WriteVersion::V2);
    assert_eq!(get_version_option("2"), WriteVersion::V2);
    assert_eq!(get_version_option("v3"), WriteVersion::V1);
}

#[test]
fn logical_types_by_name() {
    assert_eq!(get_logical_type("Date", PhysicalType::Int32, None, None, None, None), Some(LogicalType::Date));
    assert_eq!(get_logical_type("date", PhysicalType::Int64, None, None, None, None), None);
    assert_eq!(
        get_logical_type("timestamp_micros", PhysicalType::Int64, None, None, None, None),
        Some(LogicalType::Timestamp { unit: TimeUnit::Microseconds, is_adjusted_to_utc: false })
    );
    assert_eq!(
        get_logical_type("time_millis", PhysicalType::Int32, None, None, None, None),
        Some(LogicalType::Time { unit: TimeUnit::Milliseconds, is_adjusted_to_utc: false })
    );
    assert_eq!(
        get_logical_type("decimal", PhysicalType::Int64, Some(10), Some(2), None, None),
        Some(LogicalType::Decimal(10, 2))
    );
    assert_eq!(get_logical_type("decimal", PhysicalType::Int64, Some(10), None, None, None), None);
    assert_eq!(
        get_logical_type("integer", PhysicalType::Int32, None, None, Some(8), Some(false)),
        Some(LogicalType::Integer(IntegerType::UInt8))
    );
    assert_eq!(get_logical_type("int", PhysicalType::Int32, None, None, Some(12), Some(true)), None);
    assert_eq!(get_logical_type("uuid", PhysicalType::ByteArray, None, None, None, None), None);
    assert_eq!(
        get_logical_type("uuid", PhysicalType::FixedLenByteArray(16), None, None, None, None),
        Some(LogicalType::Uuid)
    );
    assert_eq!(get_logical_type("json", PhysicalType::ByteArray, None, None, None, None), Some(LogicalType::Json));
}

#[test]
fn schema_fields_and_uuid_on_byte_arrays() {
    let cols = vec![column("id", "int32", false, None), column("name", "string", true, Some("utf8"))];
    let fields = build_schema_fields(&cols).unwrap();
    assert_eq!(fields.len(), 2);
    assert_eq!(fields[0].name, "id");
    assert_eq!(fields[0].repetition, Repetition::Required);
    assert_eq!(fields[1].repetition, Repetition::Optional);
    assert_eq!(fields[1].logical_type, Some(LogicalType::String));
    let bad = vec![column("id", "int32", false, None), column("u", "string", false, Some("UUID"))];
    assert!(matches!(build_schema_fields(&bad), Err(WriteError::UuidOnByteArray)));
}

#[test]
fn descriptors_of_nullable_columns() {
    assert_eq!(create_descriptor(&column("a", "int32", true, None)).max_def_level, 1);
    assert_eq!(create_descriptor(&column("a", "int32", false, None)).max_def_level, 0);
    assert_eq!(create_descriptor(&column("a", "int32", false, None)).max_rep_level, 0);
}

#[test]
fn dates_as_numbers() {
    let date = Some(LogicalType::Date);
    assert_eq!(convert_date_to_value(86_400_000 * 3 + 5, date).unwrap(), 3);
    assert_eq!(convert_date_to_value(-1, date).unwrap(), -1);
    let micros = Some(LogicalType::Timestamp { unit: TimeUnit::Microseconds, is_adjusted_to_utc: false });
    assert_eq!(convert_date_to_value(1500, micros).unwrap(), 1_500_000);
    let time = Some(LogicalType::Time { unit: TimeUnit::Milliseconds, is_adjusted_to_utc: false });
    assert_eq!(convert_date_to_value(86_400_000 + 42, time).unwrap(), 42);
    assert_eq!(convert_date_to_value(-1, time).unwrap(), 86_399_999);
    assert!(matches!(convert_date_to_value(0, Some(LogicalType::Json)), Err(WriteError::DateConversionUnsupported)));
}

#[test]
fn dates_for_columns() {
    assert_eq!(date_for_column(86_400_000, Some(LogicalType::Date), PhysicalType::Int32).unwrap(), DateValue::Int32(1));
    assert!(matches!(
        date_for_column(i64::MAX, Some(LogicalType::Date), PhysicalType::Int32),
        Err(WriteError::DateOutOfRange)
    ));
    let micros_time = Some(LogicalType::Time { unit: TimeUnit::Microseconds, is_adjusted_to_utc: false });
    assert_eq!(date_for_column(1, micros_time, PhysicalType::Int64).unwrap(), DateValue::Int64(1000));
    assert!(matches!(date_for_column(1, micros_time, PhysicalType::Double), Err(WriteError::TimeColumnType)));
    let nanos_time = Some(LogicalType::Time { unit: TimeUnit::Nanoseconds, is_adjusted_to_utc: false });
    assert!(matches!(date_for_column(86_399_999, nanos_time, PhysicalType::Int32), Err(WriteError::TimeOutOfRange)));
    assert_eq!(date_for_column(5, None, PhysicalType::Int32).unwrap(), DateValue::Unchanged);
}

#[test]
fn enum_indices_name_values() {
    let values = vec!["active".to_string(), "inactive".to_string(), "pending".to_string()];
    assert_eq!(
        convert_enum_indices_to_strings(&values, &[0, 2, 0]).unwrap(),
        vec!["active".to_string(), "pending".to_string(), "active".to_string()]
    );
    match convert_enum_indices_to_strings(&values, &[1, 7, 9]) {
        Err(WriteError::EnumIndexOutOfRange { index, max }) => {
            assert_eq!(index, 7);
            assert_eq!(max, 2);
        }
        other => panic!("unexpected {:?}", other),
    }
    assert!(matches!(convert_enum_indices_to_strings(&[], &[0]), Err(WriteError::EmptyEnumValues)));
}

#[test]
fn typed_array_plans() {
    assert_eq!(typed_plan(TypedKind::Int32, PhysicalType::Int32, None, false), TypedPlan::Int32Values);
    assert_eq!(typed_plan(TypedKind::Uint8, PhysicalType::Int32, None, false), TypedPlan::Regular);
    let u8_type = Some(LogicalType::Integer(IntegerType::UInt8));
    assert_eq!(typed_plan(TypedKind::Uint8, PhysicalType::Int32, u8_type, false), TypedPlan::Int32Values);
    assert_eq!(typed_plan(TypedKind::Int8, PhysicalType::Int32, u8_type, false), TypedPlan::Regular);
    assert_eq!(typed_plan(TypedKind::Uint16, PhysicalType::ByteArray, Some(LogicalType::Enum), true), TypedPlan::EnumIndices);
    assert_eq!(typed_plan(TypedKind::Uint16, PhysicalType::ByteArray, Some(LogicalType::Enum), false), TypedPlan::Regular);
    assert_eq!(typed_plan(TypedKind::Float64, PhysicalType::Double, None, false), TypedPlan::DoubleBits);
}

#[test]
fn typed_arrays_are_encoded_by_plan() {
    let data = ColumnInput::Typed(TypedArrayData { kind: TypedKind::Uint32, values: vec![1, 0xffff_ffff, 7] });
    let bytes = encode_chunk_values(&data, 0, 2, PhysicalType::Int32, None, None).unwrap();
    assert_eq!(bytes, vec![1, 0, 0, 0, 0xff, 0xff, 0xff, 0xff]);
    let tail = encode_chunk_values(&data, 2, 5, PhysicalType::Int32, None, None).unwrap();
    assert_eq!(tail, vec![7, 0, 0, 0]);
    let names = vec!["x".to_string(), "yy".to_string()];
    let idx = ColumnInput::Typed(TypedArrayData { kind: TypedKind::Uint8, values: vec![1, 0] });
    let enc = encode_chunk_values(&idx, 0, 2, PhysicalType::ByteArray, Some(LogicalType::Enum), Some(&names)).unwrap();
    assert_eq!(enc, vec![2, 0, 0, 0, b'y', b'y', 1, 0, 0, 0, b'x']);
    assert!(matches!(
        encode_chunk_values(&idx, 0, 2, PhysicalType::Int32, None, None),
        Err(WriteError::UnsupportedType)
    ));
}

#[test]
fn nullable_chunks_take_the_present_values() {
    let input = ColumnInput::Nullable(vec![true, false, true, true], ColumnData::Int32(vec![10, 30, 40]));
    let first = encode_chunk_values(&input, 0, 2, PhysicalType::Int32, None, None).unwrap();
    assert_eq!(first, vec![10, 0, 0, 0]);
    let second = encode_chunk_values(&input, 2, 2, PhysicalType::Int32, None, None).unwrap();
    assert_eq!(second, vec![30, 0, 0, 0, 40, 0, 0, 0]);
    let levels = parquet_lite::encode::def_levels_of(&[true, false, true, true], 1, 4);
    assert_eq!(levels, vec![0, 1, 1, 0]);
}

#[test]
fn row_groups_cover_every_row() {
    assert_eq!(row_group_ranges(25, 10), vec![(0, 10), (10, 10), (20, 5)]);
    assert_eq!(row_group_ranges(20, 10), vec![(0, 10), (10, 10)]);
    assert_eq!(row_group_ranges(0, 10), vec![]);
    assert_eq!(row_group_ranges(3, 10000), vec![(0, 3)]);
}

#[test]
fn page_buffers_prefix_definition_levels() {
    assert_eq!(page_buffer(vec![9, 9], Some(vec![1, 2, 3]), 1), vec![3, 0, 0, 0, 1, 2, 3, 9, 9]);
    assert_eq!(page_buffer(vec![9, 9], None, 1), vec![0, 0, 0, 0, 9, 9]);
    assert_eq!(page_buffer(vec![9, 9], Some(vec![1]), 0), vec![9, 9]);
}

#[test]
fn writer_version() {
    assert_eq!(get_version(), "0.1.0");
}

#[test]
fn encoded_values_read_back_as_cells() {
    let ints = ColumnData::Int32(vec![4, -5, 6, 7]);
    let bytes = encode_column_data(&ints, 1, 3, None).unwrap();
    assert_eq!(plain_cells(&bytes, 2, PhysicalType::Int32, None).unwrap(), Some(vec![Cell::Number(-5), Cell::Number(6)]));
    let text = ColumnData::Text(vec!["ab".to_string(), "ü".to_string()]);
    let bytes = encode_column_data(&text, 0, 2, None).unwrap();
    assert_eq!(
        plain_cells(&bytes, 2, PhysicalType::ByteArray, None).unwrap(),
        Some(vec![Cell::Text(b"ab".to_vec()), Cell::Text("ü".as_bytes().to_vec())])
    );
    let flags = ColumnData::Boolean(vec![true, true, false]);
    let bytes = encode_column_data(&flags, 0, 3, None).unwrap();
    assert_eq!(
        plain_cells(&bytes, 3, PhysicalType::Boolean, None).unwrap(),
        Some(vec![Cell::Boolean(true), Cell::Boolean(true), Cell::Boolean(false)])
    );
}

#[test]
fn written_nulls_are_put_back_per_row() {
    let mask = vec![false, true, true, false, true];
    let present = vec!["b", "c", "e"];
    // rows 1..4: levels of those rows, and the values of the present ones among them
    let levels = def_levels_of(&mask, 1, 3);
    assert_eq!(levels, vec![1, 1, 0]);
    let rows = interleave_nulls(&levels, 1, present[0..2].to_vec()).unwrap();
    assert_eq!(rows, vec![Some("b"), Some("c"), None]);
}
