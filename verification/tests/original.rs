use parquet_lite::plain::{encode_int32_column, encode_string_column};
use parquet_lite::types::{physical_type_to_string, PhysicalType};
use parquet_lite::writer::{get_compression, get_physical_type, Compression};

#[test]
fn test_physical_type_to_string() {
    assert_eq!(physical_type_to_string(PhysicalType::Int32), "int32");
    assert_eq!(physical_type_to_string(PhysicalType::Double), "double");
    assert_eq!(physical_type_to_string(PhysicalType::ByteArray), "string");
}

#[test]
fn test_get_physical_type() {
    assert_eq!(get_physical_type("int32"), PhysicalType::Int32);
    assert_eq!(get_physical_type("INT32"), PhysicalType::Int32);
    assert_eq!(get_physical_type("string"), PhysicalType::ByteArray);
    assert_eq!(get_physical_type("double"), PhysicalType::Double);
}

#[test]
fn test_get_compression() {
    assert!(matches!(get_compression("snappy"), Compression::Snappy));
    assert!(matches!(get_compression("none"), Compression::Uncompressed));
}

#[test]
fn test_encode_int32() {
    let values = vec![1i32, 2, 3];
    let encoded = encode_int32_column(&values);
    assert_eq!(encoded.len(), 12);
}

#[test]
fn test_encode_string() {
    let values = vec!["hello".to_string(), "world".to_string()];
    let encoded = encode_string_column(&values);
    assert_eq!(encoded.len(), 18);
}
