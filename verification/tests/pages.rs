use parquet_lite::cells::Cell;
use parquet_lite::column::{decode_data_page, decode_dictionary_page, ReadError, ValuesError};
use parquet_lite::output::Entry;
use parquet_lite::pages::{DataPageParts, Encoding};
use parquet_lite::encode::encode_definition_levels;
use parquet_lite::reader_full::chunk_entries;
use parquet_lite::types::{IntegerType, LogicalType, PhysicalType};

fn page(values: Vec<u8>, num_values: usize, max_def_level: i16, def_levels: Vec<u8>, encoding: Encoding) -> DataPageParts {
    DataPageParts { rep_levels: vec![], def_levels, values, num_values, max_def_level, encoding }
}

#[test]
fn plain_values_with_nulls() {
    let def = encode_definition_levels(&[1, 0, 1], 1).unwrap();
    let p = page(parquet_lite::plain::encode_int32_column(&[5, -6]), 3, 1, def, Encoding::Plain);
    let pc = decode_data_page(&p, PhysicalType::Int32, None, 0, &None, true).unwrap();
    assert_eq!(pc.cells, Some(vec![Cell::Number(5), Cell::Null, Cell::Number(-6)]));
    assert_eq!(pc.rep_levels, None);
}

#[test]
fn unsigned_int32_values_read_unsigned() {
    let p = page(parquet_lite::plain::encode_int32_column(&[-1]), 1, 0, vec![], Encoding::Plain);
    let unsigned = Some(LogicalType::Integer(IntegerType::UInt32));
    let pc = decode_data_page(&p, PhysicalType::Int32, unsigned, 0, &None, false).unwrap();
    assert_eq!(pc.cells, Some(vec![Cell::Number(4_294_967_295)]));
}

#[test]
fn short_values_are_an_error() {
    let p = page(vec![1, 0, 0], 1, 0, vec![], Encoding::Plain);
    assert!(matches!(
        decode_data_page(&p, PhysicalType::Int32, None, 0, &None, true),
        Err(ReadError::Values(ValuesError::ShortValues))
    ));
}

#[test]
fn dictionary_pages_are_looked_up() {
    let dict_bytes = parquet_lite::plain::encode_byte_strings(&[b"red".to_vec(), b"blue".to_vec()]);
    let dict = decode_dictionary_page(&dict_bytes, 2, PhysicalType::ByteArray, None).unwrap();
    // bit width 1; one RLE run of 2 ones, one of 1 zero
    let indices = vec![1u8, 4, 1, 2, 0];
    let p = page(indices, 3, 0, vec![], Encoding::RleDictionary);
    let pc = decode_data_page(&p, PhysicalType::ByteArray, None, 0, &Some(dict), true).unwrap();
    assert_eq!(
        pc.cells,
        Some(vec![Cell::Text(b"blue".to_vec()), Cell::Text(b"blue".to_vec()), Cell::Text(b"red".to_vec())])
    );
    let p = page(vec![1, 4, 1], 2, 0, vec![], Encoding::PlainDictionary);
    assert!(matches!(
        decode_data_page(&p, PhysicalType::ByteArray, None, 0, &None, true),
        Err(ReadError::DictionaryMissing)
    ));
    assert!(matches!(
        decode_dictionary_page(&[1], 8, PhysicalType::Boolean, None),
        Err(ValuesError::UnsupportedDictionaryType)
    ));
}

#[test]
fn delta_binary_packed_integers() {
    let mut buffer = vec![];
    parquet2::encoding::delta_bitpacked::encode([1i64, 2, 3, 10, -4].into_iter(), &mut buffer);
    let p = page(buffer.clone(), 5, 0, vec![], Encoding::DeltaBinaryPacked);
    let pc = decode_data_page(&p, PhysicalType::Int64, None, 0, &None, true).unwrap();
    assert_eq!(
        pc.cells,
        Some(vec![Cell::BigInt(1), Cell::BigInt(2), Cell::BigInt(3), Cell::BigInt(10), Cell::BigInt(-4)])
    );
    let pc = decode_data_page(&p, PhysicalType::Int32, None, 0, &None, true).unwrap();
    assert_eq!(pc.cells.unwrap()[4], Cell::Number(-4));
    assert!(matches!(
        decode_data_page(&p, PhysicalType::Double, None, 0, &None, true),
        Err(ReadError::DeltaUnsupported(PhysicalType::Double))
    ));
}

#[test]
fn delta_length_byte_arrays() {
    let mut buffer = vec![];
    let words: Vec<&[u8]> = vec![b"hello", b"", b"world!"];
    parquet2::encoding::delta_length_byte_array::encode(words.into_iter(), &mut buffer);
    let p = page(buffer, 3, 0, vec![], Encoding::DeltaLengthByteArray);
    let pc = decode_data_page(&p, PhysicalType::ByteArray, None, 0, &None, true).unwrap();
    assert_eq!(
        pc.cells,
        Some(vec![Cell::Text(b"hello".to_vec()), Cell::Text(vec![]), Cell::Text(b"world!".to_vec())])
    );
}

#[test]
fn delta_byte_arrays_share_prefixes() {
    let mut buffer = vec![];
    let words: Vec<&[u8]> = vec![b"apple", b"applied", b"apply"];
    parquet2::encoding::delta_byte_array::encode(words.into_iter(), &mut buffer);
    let p = page(buffer, 3, 0, vec![], Encoding::DeltaByteArray);
    let pc = decode_data_page(&p, PhysicalType::ByteArray, None, 0, &None, true).unwrap();
    assert_eq!(
        pc.cells,
        Some(vec![Cell::Text(b"apple".to_vec()), Cell::Text(b"applied".to_vec()), Cell::Text(b"apply".to_vec())])
    );
}

#[test]
fn repeated_columns_keep_their_levels_and_group_into_rows() {
    let reps = encode_definition_levels(&[0, 1, 0, 0, 1, 1], 1).unwrap();
    let p = DataPageParts {
        rep_levels: reps,
        def_levels: vec![],
        values: parquet_lite::plain::encode_int32_column(&[1, 2, 3, 4, 5, 6]),
        num_values: 6,
        max_def_level: 0,
        encoding: Encoding::Plain,
    };
    let pc = decode_data_page(&p, PhysicalType::Int32, None, 1, &None, true).unwrap();
    let reps = pc.rep_levels.unwrap();
    assert_eq!(reps, vec![0, 1, 0, 0, 1, 1]);
    let entries = chunk_entries(pc.cells.unwrap(), reps, 1);
    let rows: Vec<Vec<Cell>> = entries
        .into_iter()
        .map(|e| match e {
            Entry::Row(r) => r,
            Entry::Value(_) => panic!("expected rows"),
        })
        .collect();
    assert_eq!(
        rows,
        vec![
            vec![Cell::Number(1), Cell::Number(2)],
            vec![Cell::Number(3)],
            vec![Cell::Number(4), Cell::Number(5), Cell::Number(6)]
        ]
    );
}
