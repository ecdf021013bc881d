use parquet_lite::delta::{rebuild_prefixed, split_by_lengths, DeltaError};
use parquet_lite::delta_stream::decode_delta_binary_packed;
use parquet_lite::levels::{decode_dictionary_indices, decode_levels, decode_rle_value, get_bit_width, LevelKind};
use parquet_lite::nested::group_by_repetition;
use parquet_lite::nulls::{interleave_nulls, NullsError};
use parquet_lite::output::join_path;
use parquet_lite::plain::{decode_fixed_width_values, FixedWidthError};
use parquet_lite::plain::{
    decode_boolean_values, decode_byte_strings, decode_fixed_len_byte_array, decode_int32_column,
    decode_int64_column, encode_boolean_column, encode_byte_strings, encode_int64_column, BinaryError,
};
use parquet_lite::encode::encode_definition_levels;
use parquet_lite::types::{logical_type_to_string, IntegerType, LogicalType, TimeUnit};

#[test]
fn int32_values_read_back() {
    let values = vec![1i32, -2, i32::MAX, i32::MIN];
    let bytes = parquet_lite::plain::encode_int32_column(&values);
    assert_eq!(&bytes[0..4], &[1, 0, 0, 0]);
    assert_eq!(&bytes[4..8], &[0xfe, 0xff, 0xff, 0xff]);
    assert_eq!(decode_int32_column(&bytes, 4), Some(values));
    assert_eq!(decode_int32_column(&bytes, 5), None);
}

#[test]
fn int64_values_read_back() {
    let values = vec![0i64, -1, 1 << 40];
    let bytes = encode_int64_column(&values);
    assert_eq!(bytes.len(), 24);
    assert_eq!(decode_int64_column(&bytes, 3), Some(values));
}

#[test]
fn booleans_are_bit_packed() {
    let values = vec![true, false, true, true, false, false, false, false, true];
    let bytes = encode_boolean_column(&values);
    assert_eq!(bytes, vec![0b0000_1101, 0b0000_0001]);
    assert_eq!(decode_boolean_values(&bytes, 9), Some(values));
    assert_eq!(decode_boolean_values(&bytes, 17), None);
}

#[test]
fn byte_strings_read_back() {
    let values = vec![b"hello".to_vec(), vec![], b"w".to_vec()];
    let bytes = encode_byte_strings(&values);
    assert_eq!(bytes.len(), 4 + 5 + 4 + 4 + 1);
    assert_eq!(decode_byte_strings(&bytes, 3).unwrap(), values);
}

#[test]
fn byte_strings_report_where_they_end() {
    let bytes = vec![5u8, 0, 0, 0, b'a', b'b'];
    assert_eq!(decode_byte_strings(&bytes, 1), Err(BinaryError::ShortValue));
    assert_eq!(decode_byte_strings(&bytes[0..3], 1), Err(BinaryError::ShortLength));
}

#[test]
fn fixed_len_byte_arrays_are_cut_evenly() {
    let bytes = vec![1u8, 2, 3, 4, 5, 6];
    assert_eq!(decode_fixed_len_byte_array(&bytes, 3, 2), Some(vec![vec![1, 2], vec![3, 4], vec![5, 6]]));
    assert_eq!(decode_fixed_len_byte_array(&bytes, 4, 2), None);
}

#[test]
fn bit_widths_of_levels() {
    assert_eq!(get_bit_width(0), 0);
    assert_eq!(get_bit_width(1), 1);
    assert_eq!(get_bit_width(3), 2);
    assert_eq!(get_bit_width(4), 3);
    assert_eq!(get_bit_width(-1), 16);
}

#[test]
fn rle_values_are_masked_to_their_width() {
    assert_eq!(decode_rle_value(&[0xff], 3), 7);
    assert_eq!(decode_rle_value(&[0x34, 0x12], 16), 0x1234);
    assert_eq!(decode_rle_value(&[1, 2, 3, 4], 32), 0x0403_0201);
}

#[test]
fn definition_levels_read_back_what_was_encoded() {
    let levels = vec![1u32, 0, 1, 1, 0, 1, 1, 1, 0, 1];
    let encoded = encode_definition_levels(&levels, 1).unwrap();
    assert_ne!(encoded.len(), 0);
    let decoded = decode_levels(&encoded, 1, levels.len(), LevelKind::Definition).unwrap();
    assert_eq!(decoded, Some(levels));
}

#[test]
fn repetition_levels_of_two_bits_read_back() {
    let levels = vec![0u32, 2, 1, 0, 3, 3, 0];
    let encoded = encode_definition_levels(&levels, 3).unwrap();
    let decoded = decode_levels(&encoded, 3, levels.len(), LevelKind::Repetition).unwrap();
    assert_eq!(decoded, Some(levels));
}

#[test]
fn missing_levels_are_filled() {
    assert_eq!(decode_levels(&[], 1, 3, LevelKind::Definition).unwrap(), Some(vec![1, 1, 1]));
    assert_eq!(decode_levels(&[1, 2], 0, 3, LevelKind::Definition).unwrap(), None);
    assert_eq!(decode_levels(&[1, 2], 1, 0, LevelKind::Definition).unwrap(), None);
    // an RLE run of two 1s, then nothing: the rest is filled with the maximum
    assert_eq!(decode_levels(&[4, 1], 1, 4, LevelKind::Definition).unwrap(), Some(vec![1, 1, 1, 1]));
    assert_eq!(decode_levels(&[4, 0], 1, 4, LevelKind::Definition).unwrap(), Some(vec![0, 0, 1, 1]));
}

#[test]
fn dictionary_indices() {
    assert_eq!(decode_dictionary_indices(&[], 3).unwrap(), Vec::<usize>::new());
    assert_eq!(decode_dictionary_indices(&[0], 3).unwrap(), vec![0, 0, 0]);
    // bit width 2, an RLE run of three 2s
    assert_eq!(decode_dictionary_indices(&[2, 6, 2], 3).unwrap(), vec![2, 2, 2]);
}

#[test]
fn nulls_are_put_back() {
    let out = interleave_nulls(&[1, 0, 1, 0], 1, vec!["a", "b"]).unwrap();
    assert_eq!(out, vec![Some("a"), None, Some("b"), None]);
    assert_eq!(interleave_nulls(&[1, 1], 1, vec!["a"]), Err(NullsError::MissingValue));
    assert_eq!(interleave_nulls(&[1, 0], 1, vec!["a", "b"]), Err(NullsError::TooManyValues));
}

#[test]
fn lists_are_grouped_by_repetition_levels() {
    let values = vec!["a", "b", "c", "d", "e", "f"];
    let rows = group_by_repetition(values, &[0, 1, 0, 0, 1, 1]);
    assert_eq!(rows, vec![vec!["a", "b"], vec!["c"], vec!["d", "e", "f"]]);
    assert_eq!(group_by_repetition(vec![1, 2, 3], &[0, 0]), vec![vec![1], vec![2]]);
    assert_eq!(group_by_repetition(Vec::<i32>::new(), &[0, 0]), Vec::<Vec<i32>>::new());
    assert_eq!(group_by_repetition(vec![1, 2], &[]), Vec::<Vec<i32>>::new());
}

#[test]
fn delta_lengths_cut_the_values() {
    let pieces = split_by_lengths(&[2, 0, 3], b"abcde").unwrap();
    assert_eq!(pieces, vec![b"ab".to_vec(), vec![], b"cde".to_vec()]);
    let short = split_by_lengths(&[2, 9], b"abcde").unwrap();
    assert_eq!(short, vec![b"ab".to_vec(), vec![]]);
    assert_eq!(split_by_lengths(&[-1], b"ab"), Err(DeltaError::NegativeLength));
}

#[test]
fn shared_prefixes_are_rebuilt() {
    let values = rebuild_prefixed(&[0, 3, 4], &[5, 1, 1], b"appleiy").unwrap();
    assert_eq!(values, vec![b"apple".to_vec(), b"appi".to_vec(), b"appiy".to_vec()]);
    let accented = "é".as_bytes().to_vec();
    let mut suffixes = accented.clone();
    suffixes.extend_from_slice(b"x");
    assert_eq!(
        rebuild_prefixed(&[0, 1], &[2, 1], &suffixes),
        Err(DeltaError::PrefixSplitsCharacter)
    );
}

#[test]
fn logical_type_names() {
    assert_eq!(logical_type_to_string(LogicalType::Decimal(10, 2)), "decimal(10,2)");
    assert_eq!(logical_type_to_string(LogicalType::Integer(IntegerType::UInt8)), "integer(8,unsigned)");
    assert_eq!(logical_type_to_string(LogicalType::Integer(IntegerType::Int64)), "integer(64,signed)");
    assert_eq!(
        logical_type_to_string(LogicalType::Timestamp { unit: TimeUnit::Milliseconds, is_adjusted_to_utc: false }),
        "timestamp_millis"
    );
    assert_eq!(
        logical_type_to_string(LogicalType::Time { unit: TimeUnit::Nanoseconds, is_adjusted_to_utc: true }),
        "time_nanos"
    );
    assert_eq!(logical_type_to_string(LogicalType::Unknown), "unknown");
}

#[test]
fn nested_names_are_dotted_paths() {
    let parts = vec!["tags".to_string(), "list".to_string(), "element".to_string()];
    assert_eq!(join_path(&parts), "tags.list.element");
    assert_eq!(join_path(&[]), "");
}

#[test]
fn run_headers_too_long_for_64_bits_are_refused() {
    let data = [0xffu8, 0xff, 0xff, 0xff, 0xff, 0xff, 0xff, 0xff, 0xff, 0x02, 0x00];
    let r = decode_levels(&data, 1, 4, LevelKind::Definition);
    assert!(matches!(r, Err(e) if matches!(e.cause, parquet_lite::levels::RunsError::Malformed)));
}

#[test]
fn rle_runs_cut_short_are_refused() {
    // An RLE run of two values of nine bits needs two bytes of value.
    let r = decode_levels(&[0x04, 0x01], 300, 2, LevelKind::Repetition);
    assert!(matches!(r, Err(e) if matches!(e.cause, parquet_lite::levels::RunsError::Malformed)));
}

#[test]
fn rle_runs_repeat_their_value() {
    // An RLE run of three values of two bits, value 2.
    let r = decode_levels(&[0x06, 0x02], 3, 3, LevelKind::Definition).unwrap();
    assert_eq!(r, Some(vec![2, 2, 2]));
}

#[test]
fn delta_headers_that_parquet2_would_panic_on_are_refused() {
    // Block size 100 is not a multiple of 128.
    assert_eq!(decode_delta_binary_packed(&[100, 4, 2, 2, 0]), None);
    // No mini-blocks in a block.
    assert_eq!(decode_delta_binary_packed(&[128, 1, 0, 2, 2, 0]), None);
    // A single value needs no block.
    assert_eq!(decode_delta_binary_packed(&[128, 1, 4, 1, 2]), Some(vec![1]));
    // From the format's own example: 1..=5 with a constant delta of 1.
    assert_eq!(decode_delta_binary_packed(&[128, 1, 4, 5, 2, 2, 0, 0, 0, 0]), Some(vec![1, 2, 3, 4, 5]));
}

#[test]
fn fixed_width_values_convert_each_slice() {
    let buffer = [1u8, 0, 2, 0, 3, 0, 9];
    let le16 = |b: &[u8]| -> Result<u16, String> { Ok(u16::from_le_bytes([b[0], b[1]])) };
    assert_eq!(decode_fixed_width_values(&buffer, 3, 2, le16), Ok(vec![1, 2, 3]));
    assert_eq!(decode_fixed_width_values(&buffer, 4, 2, le16), Err(FixedWidthError::ShortBuffer));
    let refuse_two = |b: &[u8]| -> Result<u16, String> {
        if b[0] == 2 { Err("two".to_string()) } else { Ok(b[0] as u16) }
    };
    assert_eq!(
        decode_fixed_width_values(&buffer, 3, 2, refuse_two),
        Err(FixedWidthError::Convert("two".to_string()))
    );
}

#[test]
fn byte_strings_read_back_and_one_more_fails() {
    let vals = vec![b"ab".to_vec(), Vec::new(), b"xyz".to_vec()];
    let bytes = encode_byte_strings(&vals);
    assert_eq!(decode_byte_strings(&bytes, 3), Ok(vals.clone()));
    assert_eq!(decode_byte_strings(&bytes, 4), Err(BinaryError::ShortLength));
}
