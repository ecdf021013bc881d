//! How the writer turns a column's values into the bytes of its pages:
//! dates and times as numbers, enum indices as strings, typed arrays and
//! plain value lists as PLAIN values, nulls as definition levels.

use vstd::prelude::*;
use crate::cells::{int32_cell, int64_cell, CellView};
use crate::column::{plain_cell_views, ValuesError};
use crate::plain::{
    bit_of, decode_words32, decode_words64, encode_binary, encode_boolean_column, encode_booleans,
    encode_int32_column, encode_int64_column, encode_string_column, encode_words32,
    encode_words32_column, encode_words64, encode_words64_column, i32_words, i64_words, le32,
    lemma_binary_roundtrip, lemma_booleans_roundtrip, lemma_int32_roundtrip, lemma_int64_roundtrip,
    lemma_words32_roundtrip, lemma_words64_roundtrip, lengths_fit_u32, utf8_strings,
};
use crate::levels::{get_bit_width, is_bitpacked_run, level_bit_width};
use crate::nulls::{count_present, interleave};
use crate::pq_write::{encode_levels_u32, hybrid_rle_u32};
use crate::types::{integer_parts, is_time_like, is_unsigned_integer, LogicalType, PhysicalType, TimeUnit};
use crate::writer::WriteError;

verus! {

/// Milliseconds in a day.
pub const MILLIS_PER_DAY: i64 = 86_400_000;

/// How many units of a time unit make a millisecond.
pub open spec fn units_per_milli(u: TimeUnit) -> int {
    match u {
        TimeUnit::Milliseconds => 1,
        TimeUnit::Microseconds => 1000,
        TimeUnit::Nanoseconds => 1_000_000,
    }
}

/// The number a point in time (milliseconds since the epoch) is stored as
/// under a logical type: whole days since the epoch for a date (rounded
/// down), the time itself in the type's unit for a timestamp, the time of
/// day in the type's unit for a time; `None` for any other type.
pub open spec fn date_value(ms: i64, logical: Option<LogicalType>) -> Option<int> {
    match logical {
        Some(LogicalType::Date) => Some(ms as int / MILLIS_PER_DAY as int),
        Some(LogicalType::Timestamp { unit, .. }) => Some(ms * units_per_milli(unit)),
        Some(LogicalType::Time { unit, .. }) => Some(
            (ms as int % MILLIS_PER_DAY as int) * units_per_milli(unit),
        ),
        _ => None,
    }
}

/// Whether the stored number fits 64 bits.
pub open spec fn date_value_fits(ms: i64, logical: Option<LogicalType>) -> bool {
    date_value(ms, logical) matches Some(v) ==> i64::MIN <= v <= i64::MAX
}

/// Whether the number a point in time is stored as fits 64 bits (see
/// [`date_value_fits`]).
pub fn date_value_in_range(ms: i64, logical: Option<LogicalType>) -> (b: bool)
    ensures
        b == date_value_fits(ms, logical),
{
    let factor: i64 = match logical {
        Some(LogicalType::Timestamp { unit, .. }) => match unit {
            TimeUnit::Milliseconds => 1,
            TimeUnit::Microseconds => 1000,
            TimeUnit::Nanoseconds => 1_000_000,
        },
        _ => return true,
    };
    ms.checked_mul(factor).is_some()
}

fn scale_by_unit(v: i64, u: TimeUnit) -> (r: i64)
    requires
        i64::MIN <= v * units_per_milli(u) <= i64::MAX,
    ensures
        r == v * units_per_milli(u),
{
    match u {
        TimeUnit::Milliseconds => v,
        TimeUnit::Microseconds => v * 1000,
        TimeUnit::Nanoseconds => v * 1_000_000,
    }
}

/// The number a point in time is stored as under a logical type (see
/// [`date_value`]); an error for a type that stores no point in time.
pub fn convert_date_to_value(timestamp_ms: i64, logical: Option<LogicalType>) -> (res: Result<
    i64,
    WriteError,
>)
    requires
        date_value_fits(timestamp_ms, logical),
    ensures
        match date_value(timestamp_ms, logical) {
            Some(v) => res matches Ok(r) && r == v,
            None => res matches Err(WriteError::DateConversionUnsupported),
        },
{
    match logical {
        Some(LogicalType::Date) => Ok(timestamp_ms.checked_div_euclid(MILLIS_PER_DAY).unwrap()),
        Some(LogicalType::Timestamp { unit, .. }) => Ok(scale_by_unit(timestamp_ms, unit)),
        Some(LogicalType::Time { unit, .. }) => {
            let total_ms = timestamp_ms.checked_rem_euclid(MILLIS_PER_DAY).unwrap();
            Ok(scale_by_unit(total_ms, unit))
        },
        _ => Err(WriteError::DateConversionUnsupported),
    }
}

/// A date written to a column: a 32-bit number, a 64-bit number, or the
/// value left as it is.
#[derive(Debug, Clone, Copy, PartialEq, Eq, Structural)]
pub enum DateValue {
    Int32(i32),
    Int64(i64),
    Unchanged,
}

/// Whether an integer fits 32 bits.
pub open spec fn fits_i32(v: int) -> bool {
    i32::MIN <= v <= i32::MAX
}

/// What a date becomes in a column of the given types: a date as a 32-bit
/// day count, a timestamp as a 64-bit number, a time of day as a 32-bit or
/// 64-bit number by the column's physical type; unchanged under any other
/// logical type.
pub open spec fn column_date_value(ms: i64, logical: Option<LogicalType>, physical: PhysicalType) -> Result<
    DateValue,
    WriteError,
> {
    match logical {
        Some(LogicalType::Date) => {
            let d = date_value(ms, logical).unwrap();
            if fits_i32(d) {
                Ok(DateValue::Int32(d as i32))
            } else {
                Err(WriteError::DateOutOfRange)
            }
        },
        Some(LogicalType::Timestamp { .. }) => Ok(DateValue::Int64(date_value(ms, logical).unwrap() as i64)),
        Some(LogicalType::Time { .. }) => {
            let t = date_value(ms, logical).unwrap();
            match physical {
                PhysicalType::Int32 => if fits_i32(t) {
                    Ok(DateValue::Int32(t as i32))
                } else {
                    Err(WriteError::TimeOutOfRange)
                },
                PhysicalType::Int64 => Ok(DateValue::Int64(t as i64)),
                _ => Err(WriteError::TimeColumnType),
            }
        },
        _ => Ok(DateValue::Unchanged),
    }
}

/// A date written to a timestamp column is stored as its time since the
/// epoch in the column's unit: the milliseconds as they are, times 1000 for
/// microseconds, times 1,000,000 for nanoseconds, whatever the column's
/// physical type says.
pub proof fn lemma_timestamp_in_column_unit(ms: i64, unit: TimeUnit, adjusted: bool, physical: PhysicalType)
    requires
        i64::MIN <= ms * (match unit {
            TimeUnit::Milliseconds => 1int,
            TimeUnit::Microseconds => 1000int,
            TimeUnit::Nanoseconds => 1_000_000int,
        }) <= i64::MAX,
    ensures
        column_date_value(ms, Some(LogicalType::Timestamp { unit, is_adjusted_to_utc: adjusted }), physical)
            == Ok::<DateValue, WriteError>(
            DateValue::Int64(
                (ms * (match unit {
                    TimeUnit::Milliseconds => 1int,
                    TimeUnit::Microseconds => 1000int,
                    TimeUnit::Nanoseconds => 1_000_000int,
                })) as i64,
            ),
        ),
{
}

/// A date written to a date column is stored as its whole days since the
/// epoch, rounded down, when that fits 32 bits; otherwise it is refused.
pub proof fn lemma_date_in_days(ms: i64, physical: PhysicalType)
    ensures
        column_date_value(ms, Some(LogicalType::Date), physical) == (if i32::MIN <= (ms as int) / 86_400_000
            <= i32::MAX {
            Ok::<DateValue, WriteError>(DateValue::Int32(((ms as int) / 86_400_000) as i32))
        } else {
            Err(WriteError::DateOutOfRange)
        }),
{
}

/// A date written to a time column is stored as its time of day in the
/// column's unit: the milliseconds since midnight (UTC), times 1000 for
/// microseconds, times 1,000,000 for nanoseconds; as 32 bits in an INT32
/// column (refused where it does not fit), as 64 bits in an INT64 column,
/// and refused in a column of any other type.
pub proof fn lemma_time_of_day_in_column_unit(ms: i64, unit: TimeUnit, adjusted: bool, physical: PhysicalType)
    ensures
        ({
            let t = ((ms as int) % 86_400_000) * (match unit {
                TimeUnit::Milliseconds => 1int,
                TimeUnit::Microseconds => 1000int,
                TimeUnit::Nanoseconds => 1_000_000int,
            });
            column_date_value(ms, Some(LogicalType::Time { unit, is_adjusted_to_utc: adjusted }), physical)
                == match physical {
                PhysicalType::Int32 => if i32::MIN <= t <= i32::MAX {
                    Ok::<DateValue, WriteError>(DateValue::Int32(t as i32))
                } else {
                    Err(WriteError::TimeOutOfRange)
                },
                PhysicalType::Int64 => Ok(DateValue::Int64(t as i64)),
                _ => Err(WriteError::TimeColumnType),
            }
        }),
{
}

/// What a date (milliseconds since the epoch) becomes in a column of the
/// given types (see [`column_date_value`]).
pub fn date_for_column(ms: i64, logical: Option<LogicalType>, physical: PhysicalType) -> (res: Result<
    DateValue,
    WriteError,
>)
    requires
        date_value_fits(ms, logical),
    ensures
        res == column_date_value(ms, logical, physical),
{
    match logical {
        Some(LogicalType::Date) => {
            let days = match convert_date_to_value(ms, logical) {
                Ok(d) => d,
                Err(e) => return Err(e),
            };
            if days < i32::MIN as i64 || days > i32::MAX as i64 {
                Err(WriteError::DateOutOfRange)
            } else {
                Ok(DateValue::Int32(days as i32))
            }
        },
        Some(LogicalType::Timestamp { .. }) => match convert_date_to_value(ms, logical) {
            Ok(t) => Ok(DateValue::Int64(t)),
            Err(e) => Err(e),
        },
        Some(LogicalType::Time { .. }) => {
            let t = match convert_date_to_value(ms, logical) {
                Ok(t) => t,
                Err(e) => return Err(e),
            };
            match physical {
                PhysicalType::Int32 => if t < i32::MIN as i64 || t > i32::MAX as i64 {
                    Err(WriteError::TimeOutOfRange)
                } else {
                    Ok(DateValue::Int32(t as i32))
                },
                PhysicalType::Int64 => Ok(DateValue::Int64(t)),
                _ => Err(WriteError::TimeColumnType),
            }
        },
        _ => Ok(DateValue::Unchanged),
    }
}

/// Whether every index names one of `n` enum values.
pub open spec fn indices_in_range(indices: Seq<usize>, n: nat) -> bool {
    forall|i: int| 0 <= i < indices.len() ==> #[trigger] indices[i] < n
}

/// The first index that names none of `n` enum values, if any.
pub open spec fn first_out_of_range(indices: Seq<usize>, n: nat) -> Option<usize>
    decreases indices.len(),
{
    if indices.len() == 0 {
        None
    } else {
        match first_out_of_range(indices.drop_last(), n) {
            Some(x) => Some(x),
            None => if indices.last() >= n {
                Some(indices.last())
            } else {
                None
            },
        }
    }
}

/// No index is out of range exactly when every index names an enum value.
pub proof fn lemma_first_none(s: Seq<usize>, n: nat)
    ensures
        first_out_of_range(s, n) is None <==> indices_in_range(s, n),
    decreases s.len(),
{
    if s.len() > 0 {
        let pre = s.drop_last();
        lemma_first_none(pre, n);
        if indices_in_range(s, n) {
            assert forall|j: int| 0 <= j < pre.len() implies #[trigger] pre[j] < n by {
                assert(pre[j] == s[j]);
            }
            assert(s[s.len() - 1] < n);
        }
        if indices_in_range(pre, n) && s.last() < n {
            assert forall|j: int| 0 <= j < s.len() implies #[trigger] s[j] < n by {
                if j < s.len() - 1 {
                    assert(pre[j] == s[j]);
                }
            }
        }
    }
}

proof fn lemma_first_prefix(s: Seq<usize>, n: nat, i: int)
    requires
        0 <= i <= s.len(),
        first_out_of_range(s.take(i), n) is Some,
    ensures
        first_out_of_range(s, n) == first_out_of_range(s.take(i), n),
    decreases s.len(),
{
    if i < s.len() {
        assert(s.drop_last().take(i) =~= s.take(i));
        lemma_first_prefix(s.drop_last(), n, i);
    } else {
        assert(s.take(i) =~= s);
    }
}

/// Replaces each index by the enum value it names. Fails with
/// [`WriteError::EmptyEnumValues`] when there are no enum values, and with
/// [`WriteError::EnumIndexOutOfRange`] for the first index that names none.
pub fn convert_enum_indices_to_strings(enum_values: &[String], indices: &[usize]) -> (res: Result<
    Vec<String>,
    WriteError,
>)
    ensures
        enum_values@.len() == 0 ==> res matches Err(WriteError::EmptyEnumValues),
        res is Ok <==> enum_values@.len() > 0 && indices_in_range(indices@, enum_values@.len()),
        res matches Ok(v) ==> v@.len() == indices@.len() && forall|i: int|
            0 <= i < indices@.len() ==> #[trigger] v@[i]@ == enum_values@[indices@[i] as int]@,
        enum_values@.len() > 0 ==> (res matches Err(e) ==> e == WriteError::EnumIndexOutOfRange {
            index: first_out_of_range(indices@, enum_values@.len()).unwrap(),
            max: (enum_values@.len() - 1) as usize,
        }),
{
    if enum_values.len() == 0 {
        return Err(WriteError::EmptyEnumValues);
    }
    let max_index = enum_values.len() - 1;
    let mut out: Vec<String> = Vec::new();
    let mut i: usize = 0;
    while i < indices.len()
        invariant
            i <= indices@.len(),
            max_index == enum_values@.len() - 1,
            enum_values@.len() > 0,
            out@.len() == i,
            indices_in_range(indices@.take(i as int), enum_values@.len()),
            forall|j: int| 0 <= j < i ==> #[trigger] out@[j]@ == enum_values@[indices@[j] as int]@,
        decreases indices@.len() - i,
    {
        let idx = indices[i];
        proof {
            lemma_first_none(indices@.take(i as int), enum_values@.len());
            assert(indices@.take(i + 1).drop_last() =~= indices@.take(i as int));
            assert(indices@.take(i + 1).last() == idx);
        }
        if idx >= enum_values.len() {
            proof {
                if indices_in_range(indices@, enum_values@.len()) {
                    assert(indices@[i as int] < enum_values@.len());
                }
                lemma_first_prefix(indices@, enum_values@.len(), i + 1);
            }
            return Err(WriteError::EnumIndexOutOfRange { index: idx, max: max_index });
        }
        out.push(enum_values[idx].clone());
        proof {
            assert forall|j: int| 0 <= j < i + 1 implies #[trigger] indices@.take(i + 1)[j]
                < enum_values@.len() by {
                if j < i {
                    assert(indices@.take(i + 1)[j] == indices@.take(i as int)[j]);
                }
            }
        }
        i = i + 1;
    }
    assert(indices@.take(indices@.len() as int) =~= indices@);
    Ok(out)
}

/// The kind of a JavaScript typed array.
#[derive(Debug, Clone, Copy, PartialEq, Eq, Structural)]
pub enum TypedKind {
    Int8,
    Uint8,
    Int16,
    Uint16,
    Int32,
    Uint32,
    Float32,
    Float64,
    BigInt64,
    BigUint64,
}

/// A typed array's elements, each widened to 128 bits (floats by their
/// bits).
#[derive(Debug)]
pub struct TypedArrayData {
    pub kind: TypedKind,
    pub values: Vec<i128>,
}

/// How a typed array is written to a column.
#[derive(Debug, Clone, Copy, PartialEq, Eq, Structural)]
pub enum TypedPlan {
    /// As INT32 values.
    Int32Values,
    /// As INT64 values.
    Int64Values,
    /// As FLOAT values, by their bits.
    FloatBits,
    /// As DOUBLE values, by their bits.
    DoubleBits,
    /// As indices into the column's enum values.
    EnumIndices,
    /// Not directly: its elements are written as a plain list.
    Regular,
}

/// How a typed array of the given kind is written to a column of the given
/// types: by the physical type first (INT32 from `Int32Array` and
/// `Uint32Array`, FLOAT from `Float32Array`, DOUBLE from `Float64Array`,
/// INT64 from the 64-bit arrays), then, for an integer logical type, as
/// INT32 or INT64 when the array's width and signedness match it, then, for
/// an enum column with enum values, as indices from the unsigned arrays.
pub open spec fn typed_plan_for(
    kind: TypedKind,
    physical: PhysicalType,
    logical: Option<LogicalType>,
    has_enum_values: bool,
) -> TypedPlan {
    match (kind, physical) {
        (TypedKind::Int32, PhysicalType::Int32) => TypedPlan::Int32Values,
        (TypedKind::Uint32, PhysicalType::Int32) => TypedPlan::Int32Values,
        (TypedKind::Float32, PhysicalType::Float) => TypedPlan::FloatBits,
        (TypedKind::Float64, PhysicalType::Double) => TypedPlan::DoubleBits,
        (TypedKind::BigInt64, PhysicalType::Int64) => TypedPlan::Int64Values,
        (TypedKind::BigUint64, PhysicalType::Int64) => TypedPlan::Int64Values,
        _ => match logical {
            Some(LogicalType::Integer(t)) => {
                let (bw, signed) = integer_parts(t);
                match kind {
                    TypedKind::Uint8 => if bw == 8 && !signed { TypedPlan::Int32Values } else { TypedPlan::Regular },
                    TypedKind::Int8 => if bw == 8 && signed { TypedPlan::Int32Values } else { TypedPlan::Regular },
                    TypedKind::Uint16 => if bw == 16 && !signed { TypedPlan::Int32Values } else { TypedPlan::Regular },
                    TypedKind::Int16 => if bw == 16 && signed { TypedPlan::Int32Values } else { TypedPlan::Regular },
                    TypedKind::Uint32 => if bw == 32 && !signed { TypedPlan::Int32Values } else { TypedPlan::Regular },
                    TypedKind::Int32 => if bw == 32 && signed { TypedPlan::Int32Values } else { TypedPlan::Regular },
                    TypedKind::BigUint64 => if bw == 64 && !signed { TypedPlan::Int64Values } else { TypedPlan::Regular },
                    TypedKind::BigInt64 => if bw == 64 && signed { TypedPlan::Int64Values } else { TypedPlan::Regular },
                    _ => TypedPlan::Regular,
                }
            },
            Some(LogicalType::Enum) => if has_enum_values {
                match kind {
                    TypedKind::Uint8 | TypedKind::Uint16 | TypedKind::Uint32 => TypedPlan::EnumIndices,
                    _ => TypedPlan::Regular,
                }
            } else {
                TypedPlan::Regular
            },
            _ => TypedPlan::Regular,
        },
    }
}

/// How a typed array of the given kind is written (see [`typed_plan_for`]).
pub fn typed_plan(
    kind: TypedKind,
    physical: PhysicalType,
    logical: Option<LogicalType>,
    has_enum_values: bool,
) -> (p: TypedPlan)
    ensures
        p == typed_plan_for(kind, physical, logical, has_enum_values),
{
    match (kind, physical) {
        (TypedKind::Int32, PhysicalType::Int32) => TypedPlan::Int32Values,
        (TypedKind::Uint32, PhysicalType::Int32) => TypedPlan::Int32Values,
        (TypedKind::Float32, PhysicalType::Float) => TypedPlan::FloatBits,
        (TypedKind::Float64, PhysicalType::Double) => TypedPlan::DoubleBits,
        (TypedKind::BigInt64, PhysicalType::Int64) => TypedPlan::Int64Values,
        (TypedKind::BigUint64, PhysicalType::Int64) => TypedPlan::Int64Values,
        _ => match logical {
            Some(LogicalType::Integer(t)) => {
                let (bw, signed) = crate::types::integer_type_parts(t);
                match kind {
                    TypedKind::Uint8 => if bw == 8 && !signed { TypedPlan::Int32Values } else { TypedPlan::Regular },
                    TypedKind::Int8 => if bw == 8 && signed { TypedPlan::Int32Values } else { TypedPlan::Regular },
                    TypedKind::Uint16 => if bw == 16 && !signed { TypedPlan::Int32Values } else { TypedPlan::Regular },
                    TypedKind::Int16 => if bw == 16 && signed { TypedPlan::Int32Values } else { TypedPlan::Regular },
                    TypedKind::Uint32 => if bw == 32 && !signed { TypedPlan::Int32Values } else { TypedPlan::Regular },
                    TypedKind::Int32 => if bw == 32 && signed { TypedPlan::Int32Values } else { TypedPlan::Regular },
                    TypedKind::BigUint64 => if bw == 64 && !signed { TypedPlan::Int64Values } else { TypedPlan::Regular },
                    TypedKind::BigInt64 => if bw == 64 && signed { TypedPlan::Int64Values } else { TypedPlan::Regular },
                    _ => TypedPlan::Regular,
                }
            },
            Some(LogicalType::Enum) => if has_enum_values {
                match kind {
                    TypedKind::Uint8 | TypedKind::Uint16 | TypedKind::Uint32 => TypedPlan::EnumIndices,
                    _ => TypedPlan::Regular,
                }
            } else {
                TypedPlan::Regular
            },
            _ => TypedPlan::Regular,
        },
    }
}

/// Typed array elements as 32-bit integers (the low 32 bits of each).
pub open spec fn as_i32s(vals: Seq<i128>) -> Seq<i32> {
    vals.map_values(|x: i128| x as i32)
}

/// Typed array elements as 64-bit integers (the low 64 bits of each).
pub open spec fn as_i64s(vals: Seq<i128>) -> Seq<i64> {
    vals.map_values(|x: i128| x as i64)
}

/// Typed array elements as 32-bit words.
pub open spec fn as_u32s(vals: Seq<i128>) -> Seq<u32> {
    vals.map_values(|x: i128| x as u32)
}

/// Typed array elements as 64-bit words.
pub open spec fn as_u64s(vals: Seq<i128>) -> Seq<u64> {
    vals.map_values(|x: i128| x as u64)
}

/// Typed array elements as indices.
pub open spec fn as_indices(vals: Seq<i128>) -> Seq<usize> {
    vals.map_values(|x: i128| x as usize)
}

/// The enum values that indices name, as BYTE_ARRAY values, or why they
/// cannot be named.
pub open spec fn enum_encoding(enum_values: Seq<String>, indices: Seq<usize>) -> Result<Seq<u8>, WriteError> {
    if enum_values.len() == 0 {
        Err(WriteError::EmptyEnumValues)
    } else {
        match first_out_of_range(indices, enum_values.len()) {
            None => Ok(
                encode_binary(utf8_strings(indices.map_values(|k: usize| enum_values[k as int]))),
            ),
            Some(index) => Err(
                WriteError::EnumIndexOutOfRange { index, max: (enum_values.len() - 1) as usize },
            ),
        }
    }
}

/// Whether `r` is the outcome `want`: the same bytes, or the same error.
pub open spec fn same_outcome(r: Result<Vec<u8>, WriteError>, want: Result<Seq<u8>, WriteError>) -> bool {
    match want {
        Ok(b) => r matches Ok(v) && v@ == b,
        Err(e) => r matches Err(x) && x == e,
    }
}

/// The PLAIN encoding of the enum values that indices name.
pub fn encode_enum_indices(enum_values: &[String], indices: &[usize]) -> (r: Result<Vec<u8>, WriteError>)
    ensures
        same_outcome(r, enum_encoding(enum_values@, indices@)),
{
    proof {
        lemma_first_none(indices@, enum_values@.len());
    }
    match convert_enum_indices_to_strings(enum_values, indices) {
        Err(e) => Err(e),
        Ok(strings) => {
            assert(utf8_strings(strings@) =~= utf8_strings(
                indices@.map_values(|k: usize| enum_values@[k as int]),
            ));
            Ok(encode_string_column(strings.as_slice()))
        },
    }
}

/// The PLAIN encoding of typed array elements `lo..hi` by plan, or why
/// they cannot be written that way.
pub open spec fn typed_encoding(
    data: TypedArrayData,
    lo: int,
    hi: int,
    physical: PhysicalType,
    logical: Option<LogicalType>,
    enum_values: Option<Seq<String>>,
) -> Result<Seq<u8>, WriteError> {
    let vals = data.values@.subrange(lo, hi);
    match typed_plan_for(data.kind, physical, logical, enum_values is Some) {
        TypedPlan::Int32Values => Ok(encode_words32(i32_words(as_i32s(vals)))),
        TypedPlan::Int64Values => Ok(encode_words64(i64_words(as_i64s(vals)))),
        TypedPlan::FloatBits => Ok(encode_words32(as_u32s(vals))),
        TypedPlan::DoubleBits => Ok(encode_words64(as_u64s(vals))),
        TypedPlan::EnumIndices => enum_encoding(enum_values.unwrap(), as_indices(vals)),
        TypedPlan::Regular => Err(WriteError::UnsupportedType),
    }
}

/// Elements `lo..hi` of a sequence, copied.
pub fn copy_slice<T: Copy>(v: &[T], lo: usize, hi: usize) -> (r: Vec<T>)
    requires
        lo <= hi <= v@.len(),
    ensures
        r@ == v@.subrange(lo as int, hi as int),
{
    let mut r: Vec<T> = Vec::new();
    let mut i: usize = lo;
    while i < hi
        invariant
            lo <= i <= hi,
            hi <= v@.len(),
            r@ == v@.subrange(lo as int, i as int),
        decreases hi - i,
    {
        r.push(v[i]);
        assert(v@.subrange(lo as int, i + 1) =~= v@.subrange(lo as int, i as int).push(v@[i as int]));
        i = i + 1;
    }
    r
}

/// Strings `lo..hi` of a list, copied.
pub fn copy_strings(v: &[String], lo: usize, hi: usize) -> (r: Vec<String>)
    requires
        lo <= hi <= v@.len(),
    ensures
        r@.len() == hi - lo,
        forall|i: int| 0 <= i < hi - lo ==> #[trigger] r@[i]@ == v@[lo + i]@,
{
    let mut r: Vec<String> = Vec::new();
    let mut i: usize = lo;
    while i < hi
        invariant
            lo <= i <= hi,
            hi <= v@.len(),
            r@.len() == i - lo,
            forall|j: int| 0 <= j < i - lo ==> #[trigger] r@[j]@ == v@[lo + j]@,
        decreases hi - i,
    {
        r.push(v[i].clone());
        i = i + 1;
    }
    r
}

/// Writes typed array elements `lo..hi` by plan (see [`typed_encoding`]).
pub fn encode_typed_array(
    data: &TypedArrayData,
    lo: usize,
    hi: usize,
    physical: PhysicalType,
    logical: Option<LogicalType>,
    enum_values: Option<&[String]>,
) -> (r: Result<Vec<u8>, WriteError>)
    requires
        lo <= hi <= data.values@.len(),
    ensures
        same_outcome(
            r,
            typed_encoding(
                *data,
                lo as int,
                hi as int,
                physical,
                logical,
                match enum_values {
                    Some(e) => Some(e@),
                    None => None,
                },
            ),
        ),
{
    let ghost vals = data.values@.subrange(lo as int, hi as int);
    let plan = typed_plan(data.kind, physical, logical, enum_values.is_some());
    match plan {
        TypedPlan::Int32Values => {
            let mut v: Vec<i32> = Vec::new();
            let mut i: usize = lo;
            while i < hi
                invariant
                    lo <= i <= hi,
                    hi <= data.values@.len(),
                    v@ == as_i32s(data.values@.subrange(lo as int, i as int)),
                decreases hi - i,
            {
                v.push(data.values[i] as i32);
                assert(data.values@.subrange(lo as int, i + 1) =~= data.values@.subrange(
                    lo as int,
                    i as int,
                ).push(data.values@[i as int]));
                assert(as_i32s(data.values@.subrange(lo as int, i + 1)) =~= as_i32s(
                    data.values@.subrange(lo as int, i as int),
                ).push(data.values@[i as int] as i32));
                i = i + 1;
            }
            Ok(encode_int32_column(v.as_slice()))
        },
        TypedPlan::Int64Values => {
            let mut v: Vec<i64> = Vec::new();
            let mut i: usize = lo;
            while i < hi
                invariant
                    lo <= i <= hi,
                    hi <= data.values@.len(),
                    v@ == as_i64s(data.values@.subrange(lo as int, i as int)),
                decreases hi - i,
            {
                v.push(data.values[i] as i64);
                assert(data.values@.subrange(lo as int, i + 1) =~= data.values@.subrange(
                    lo as int,
                    i as int,
                ).push(data.values@[i as int]));
                assert(as_i64s(data.values@.subrange(lo as int, i + 1)) =~= as_i64s(
                    data.values@.subrange(lo as int, i as int),
                ).push(data.values@[i as int] as i64));
                i = i + 1;
            }
            Ok(encode_int64_column(v.as_slice()))
        },
        TypedPlan::FloatBits => {
            let mut v: Vec<u32> = Vec::new();
            let mut i: usize = lo;
            while i < hi
                invariant
                    lo <= i <= hi,
                    hi <= data.values@.len(),
                    v@ == as_u32s(data.values@.subrange(lo as int, i as int)),
                decreases hi - i,
            {
                v.push(data.values[i] as u32);
                assert(data.values@.subrange(lo as int, i + 1) =~= data.values@.subrange(
                    lo as int,
                    i as int,
                ).push(data.values@[i as int]));
                assert(as_u32s(data.values@.subrange(lo as int, i + 1)) =~= as_u32s(
                    data.values@.subrange(lo as int, i as int),
                ).push(data.values@[i as int] as u32));
                i = i + 1;
            }
            Ok(encode_words32_column(v.as_slice()))
        },
        TypedPlan::DoubleBits => {
            let mut v: Vec<u64> = Vec::new();
            let mut i: usize = lo;
            while i < hi
                invariant
                    lo <= i <= hi,
                    hi <= data.values@.len(),
                    v@ == as_u64s(data.values@.subrange(lo as int, i as int)),
                decreases hi - i,
            {
                v.push(data.values[i] as u64);
                assert(data.values@.subrange(lo as int, i + 1) =~= data.values@.subrange(
                    lo as int,
                    i as int,
                ).push(data.values@[i as int]));
                assert(as_u64s(data.values@.subrange(lo as int, i + 1)) =~= as_u64s(
                    data.values@.subrange(lo as int, i as int),
                ).push(data.values@[i as int] as u64));
                i = i + 1;
            }
            Ok(encode_words64_column(v.as_slice()))
        },
        TypedPlan::EnumIndices => {
            let ev = enum_values.unwrap();
            let mut v: Vec<usize> = Vec::new();
            let mut i: usize = lo;
            while i < hi
                invariant
                    lo <= i <= hi,
                    hi <= data.values@.len(),
                    v@ == as_indices(data.values@.subrange(lo as int, i as int)),
                decreases hi - i,
            {
                v.push(data.values[i] as usize);
                assert(data.values@.subrange(lo as int, i + 1) =~= data.values@.subrange(
                    lo as int,
                    i as int,
                ).push(data.values@[i as int]));
                assert(as_indices(data.values@.subrange(lo as int, i + 1)) =~= as_indices(
                    data.values@.subrange(lo as int, i as int),
                ).push(data.values@[i as int] as usize));
                i = i + 1;
            }
            encode_enum_indices(ev, v.as_slice())
        },
        TypedPlan::Regular => Err(WriteError::UnsupportedType),
    }
}

/// A column's values after conversion from JavaScript, one list per kind.
#[derive(Debug)]
pub enum ColumnData {
    Int32(Vec<i32>),
    Int64(Vec<i64>),
    /// 32-bit floats, by their bits.
    Float(Vec<u32>),
    /// 64-bit floats, by their bits.
    Double(Vec<u64>),
    Boolean(Vec<bool>),
    Text(Vec<String>),
    /// Indices into the column's enum values.
    EnumIndices(Vec<usize>),
}

/// How many values a list holds.
pub open spec fn data_len(d: ColumnData) -> nat {
    match d {
        ColumnData::Int32(v) => v@.len(),
        ColumnData::Int64(v) => v@.len(),
        ColumnData::Float(v) => v@.len(),
        ColumnData::Double(v) => v@.len(),
        ColumnData::Boolean(v) => v@.len(),
        ColumnData::Text(v) => v@.len(),
        ColumnData::EnumIndices(v) => v@.len(),
    }
}

/// How many values a list holds (see [`data_len`]).
pub fn data_length(d: &ColumnData) -> (n: usize)
    ensures
        n == data_len(*d),
{
    match d {
        ColumnData::Int32(v) => v.len(),
        ColumnData::Int64(v) => v.len(),
        ColumnData::Float(v) => v.len(),
        ColumnData::Double(v) => v.len(),
        ColumnData::Boolean(v) => v.len(),
        ColumnData::Text(v) => v.len(),
        ColumnData::EnumIndices(v) => v.len(),
    }
}

/// The PLAIN encoding of values `lo..hi` of a list: numbers, floats' bits,
/// bit-packed booleans, length-prefixed UTF-8 strings, or the enum values
/// that indices name (which needs enum values).
pub open spec fn data_encoding(d: ColumnData, lo: int, hi: int, enum_values: Option<Seq<String>>) -> Result<
    Seq<u8>,
    WriteError,
> {
    match d {
        ColumnData::Int32(v) => Ok(encode_words32(i32_words(v@.subrange(lo, hi)))),
        ColumnData::Int64(v) => Ok(encode_words64(i64_words(v@.subrange(lo, hi)))),
        ColumnData::Float(v) => Ok(encode_words32(v@.subrange(lo, hi))),
        ColumnData::Double(v) => Ok(encode_words64(v@.subrange(lo, hi))),
        ColumnData::Boolean(v) => Ok(encode_booleans(v@.subrange(lo, hi))),
        ColumnData::Text(v) => Ok(encode_binary(utf8_strings(v@.subrange(lo, hi)))),
        ColumnData::EnumIndices(v) => match enum_values {
            Some(e) => enum_encoding(e, v@.subrange(lo, hi)),
            None => Err(WriteError::UnsupportedType),
        },
    }
}

/// Writes values `lo..hi` of a list (see [`data_encoding`]).
pub fn encode_column_data(d: &ColumnData, lo: usize, hi: usize, enum_values: Option<&[String]>) -> (r:
    Result<Vec<u8>, WriteError>)
    requires
        lo <= hi <= data_len(*d),
    ensures
        same_outcome(
            r,
            data_encoding(
                *d,
                lo as int,
                hi as int,
                match enum_values {
                    Some(e) => Some(e@),
                    None => None,
                },
            ),
        ),
{
    match d {
        ColumnData::Int32(v) => Ok(encode_int32_column(copy_slice(v.as_slice(), lo, hi).as_slice())),
        ColumnData::Int64(v) => Ok(encode_int64_column(copy_slice(v.as_slice(), lo, hi).as_slice())),
        ColumnData::Float(v) => Ok(encode_words32_column(copy_slice(v.as_slice(), lo, hi).as_slice())),
        ColumnData::Double(v) => Ok(encode_words64_column(copy_slice(v.as_slice(), lo, hi).as_slice())),
        ColumnData::Boolean(v) => Ok(encode_boolean_column(copy_slice(v.as_slice(), lo, hi).as_slice())),
        ColumnData::Text(v) => {
            let part = copy_strings(v.as_slice(), lo, hi);
            let r = encode_string_column(part.as_slice());
            assert(utf8_strings(part@) =~= utf8_strings(v@.subrange(lo as int, hi as int)));
            Ok(r)
        },
        ColumnData::EnumIndices(v) => match enum_values {
            Some(e) => encode_enum_indices(e, copy_slice(v.as_slice(), lo, hi).as_slice()),
            None => Err(WriteError::UnsupportedType),
        },
    }
}

/// A column's values as the writer takes them: a typed array, a plain
/// list, or, for a nullable column, which rows hold a value and the list of
/// those values in row order.
#[derive(Debug)]
pub enum ColumnInput {
    Typed(TypedArrayData),
    Values(ColumnData),
    Nullable(Vec<bool>, ColumnData),
}

/// How many rows a column's input holds: its values, or the entries of its
/// null mask.
pub open spec fn input_rows(input: ColumnInput) -> nat {
    match input {
        ColumnInput::Typed(d) => d.values@.len(),
        ColumnInput::Values(d) => data_len(d),
        ColumnInput::Nullable(mask, _) => mask@.len(),
    }
}

/// How many rows a column's input holds (see [`input_rows`]).
pub fn input_row_count(input: &ColumnInput) -> (n: usize)
    ensures
        n == input_rows(*input),
{
    match input {
        ColumnInput::Typed(d) => d.values.len(),
        ColumnInput::Values(d) => data_length(d),
        ColumnInput::Nullable(mask, _) => mask.len(),
    }
}

/// Whether row `r` holds a value: it is within the mask and marked present.
pub open spec fn row_present(mask: Seq<bool>, r: int) -> bool {
    0 <= r < mask.len() && mask[r]
}

/// How many of the first `k` rows hold a value.
pub open spec fn present_before(mask: Seq<bool>, k: nat) -> nat
    decreases k,
{
    if k == 0 {
        0
    } else {
        present_before(mask, (k - 1) as nat) + if row_present(mask, k - 1) {
            1nat
        } else {
            0nat
        }
    }
}

/// The smaller of two numbers.
pub open spec fn min_nat(a: nat, b: nat) -> nat {
    if a < b {
        a
    } else {
        b
    }
}

/// The definition levels of rows `start..start + len`: 1 for a row that
/// holds a value, 0 for a null.
pub open spec fn chunk_def_levels(mask: Seq<bool>, start: nat, len: nat) -> Seq<u32> {
    Seq::new(len, |i: int| if row_present(mask, start + i) { 1u32 } else { 0u32 })
}

/// The PLAIN encoding of the values of rows `start..start + len` of a
/// column: the typed array's or list's elements in that range (cut short
/// where the input ends), or for a nullable column the values of the rows
/// in that range that hold one.
pub open spec fn chunk_values(
    input: ColumnInput,
    start: nat,
    len: nat,
    physical: PhysicalType,
    logical: Option<LogicalType>,
    enum_values: Option<Seq<String>>,
) -> Result<Seq<u8>, WriteError> {
    match input {
        ColumnInput::Typed(d) => {
            let n = d.values@.len();
            typed_encoding(
                d,
                min_nat(start, n) as int,
                min_nat(start + len, n) as int,
                physical,
                logical,
                enum_values,
            )
        },
        ColumnInput::Values(d) => {
            let n = data_len(d);
            data_encoding(d, min_nat(start, n) as int, min_nat(start + len, n) as int, enum_values)
        },
        ColumnInput::Nullable(mask, d) => {
            let n = data_len(d);
            data_encoding(
                d,
                min_nat(present_before(mask@, start), n) as int,
                min_nat(present_before(mask@, start + len), n) as int,
                enum_values,
            )
        },
    }
}

/// How many of the first `k` rows hold a value (see [`present_before`]).
pub fn count_present_rows(mask: &[bool], k: usize) -> (n: usize)
    ensures
        n == present_before(mask@, k as nat),
        n <= k,
{
    let mut n: usize = 0;
    let mut i: usize = 0;
    while i < k
        invariant
            i <= k,
            n == present_before(mask@, i as nat),
            n <= i,
        decreases k - i,
    {
        if i < mask.len() && mask[i] {
            n = n + 1;
        }
        i = i + 1;
    }
    n
}

/// The definition levels of rows `start..start + len` (see
/// [`chunk_def_levels`]).
pub fn def_levels_of(mask: &[bool], start: usize, len: usize) -> (levels: Vec<u32>)
    requires
        start + len <= usize::MAX,
    ensures
        levels@ == chunk_def_levels(mask@, start as nat, len as nat),
{
    let mut levels: Vec<u32> = Vec::new();
    let mut i: usize = 0;
    while i < len
        invariant
            i <= len,
            start + len <= usize::MAX,
            levels@ == chunk_def_levels(mask@, start as nat, i as nat),
        decreases len - i,
    {
        let r = start + i;
        let present = r < mask.len() && mask[r];
        levels.push(if present { 1u32 } else { 0u32 });
        assert(levels@ =~= chunk_def_levels(mask@, start as nat, (i + 1) as nat));
        i = i + 1;
    }
    levels
}

fn min_usize(a: usize, b: usize) -> (m: usize)
    ensures
        m == min_nat(a as nat, b as nat),
{
    if a < b {
        a
    } else {
        b
    }
}

/// Writes the values of rows `start..start + len` of a column (see
/// [`chunk_values`]).
pub fn encode_chunk_values(
    input: &ColumnInput,
    start: usize,
    len: usize,
    physical: PhysicalType,
    logical: Option<LogicalType>,
    enum_values: Option<&[String]>,
) -> (r: Result<Vec<u8>, WriteError>)
    requires
        start + len <= usize::MAX,
    ensures
        same_outcome(
            r,
            chunk_values(
                *input,
                start as nat,
                len as nat,
                physical,
                logical,
                match enum_values {
                    Some(e) => Some(e@),
                    None => None,
                },
            ),
        ),
{
    match input {
        ColumnInput::Typed(d) => {
            let n = d.values.len();
            encode_typed_array(
                d,
                min_usize(start, n),
                min_usize(start + len, n),
                physical,
                logical,
                enum_values,
            )
        },
        ColumnInput::Values(d) => {
            let n = data_length(d);
            encode_column_data(d, min_usize(start, n), min_usize(start + len, n), enum_values)
        },
        ColumnInput::Nullable(mask, d) => {
            let n = data_length(d);
            let lo = count_present_rows(mask.as_slice(), start);
            let hi = count_present_rows(mask.as_slice(), start + len);
            proof {
                lemma_present_before_monotone(mask@, start as nat, (start + len) as nat);
            }
            encode_column_data(d, min_usize(lo, n), min_usize(hi, n), enum_values)
        },
    }
}

/// More rows hold at least as many values.
pub proof fn lemma_present_before_monotone(mask: Seq<bool>, a: nat, b: nat)
    requires
        a <= b,
    ensures
        present_before(mask, a) <= present_before(mask, b),
    decreases b - a,
{
    if a < b {
        lemma_present_before_monotone(mask, a, (b - 1) as nat);
    }
}

/// Definition levels encoded as one bit-packed run of the hybrid encoding,
/// as many bits per level as the maximum level needs.
pub fn encode_definition_levels(levels: &[u32], max_def_level: i16) -> (r: Result<Vec<u8>, WriteError>)
    ensures
        r matches Ok(b) && b@ == hybrid_rle_u32(levels@, level_bit_width(max_def_level) as u32),
        r matches Ok(b) ==> (max_def_level > 0 && (forall|i: int|
            0 <= i < levels@.len() ==> #[trigger] levels@[i] <= max_def_level)) ==> is_bitpacked_run(
            b@,
            levels@,
            level_bit_width(max_def_level),
        ),
{
    let bit_width = get_bit_width(max_def_level);
    proof {
        if max_def_level > 0 {
            crate::levels::lemma_level_fits_width(max_def_level as nat);
            assert forall|i: int| 0 <= i < levels@.len() && levels@[i] <= max_def_level implies (
            #[trigger] levels@[i] as nat) < vstd::arithmetic::power2::pow2(bit_width as nat) by {}
        }
    }
    Ok(encode_levels_u32(levels, bit_width).unwrap())
}

/// The bytes of a data page: when the column has definition levels, their
/// encoded length as four little-endian bytes and the levels themselves
/// (none when missing), then the values.
pub open spec fn page_bytes(values: Seq<u8>, def_levels: Option<Seq<u8>>, max_def_level: i16) -> Seq<u8> {
    if max_def_level > 0 {
        let d = match def_levels {
            Some(d) => d,
            None => Seq::empty(),
        };
        le32(d.len() as u32) + d + values
    } else {
        values
    }
}

/// The bytes of a data page (see [`page_bytes`]).
pub fn page_buffer(values: Vec<u8>, def_levels: Option<Vec<u8>>, max_def_level: i16) -> (b: Vec<u8>)
    ensures
        b@ == page_bytes(
            values@,
            match def_levels {
                Some(d) => Some(d@),
                None => None,
            },
            max_def_level,
        ),
{
    if max_def_level > 0 {
        let d = match def_levels {
            Some(d) => d,
            None => Vec::new(),
        };
        let n = d.len() as u32;
        let mut b: Vec<u8> = Vec::new();
        b.push(n as u8);
        b.push((n >> 8u32) as u8);
        b.push((n >> 16u32) as u8);
        b.push((n >> 24u32) as u8);
        let mut i: usize = 0;
        while i < d.len()
            invariant
                i <= d@.len(),
                b@ == le32(n) + d@.subrange(0, i as int),
            decreases d@.len() - i,
        {
            b.push(d[i]);
            assert(d@.subrange(0, i + 1) =~= d@.subrange(0, i as int).push(d@[i as int]));
            i = i + 1;
        }
        let mut j: usize = 0;
        while j < values.len()
            invariant
                j <= values@.len(),
                i == d@.len(),
                b@ == le32(n) + d@ + values@.subrange(0, j as int),
            decreases values@.len() - j,
        {
            b.push(values[j]);
            assert(values@.subrange(0, j + 1) =~= values@.subrange(0, j as int).push(
                values@[j as int],
            ));
            j = j + 1;
        }
        assert(d@.subrange(0, d@.len() as int) =~= d@);
        assert(values@.subrange(0, values@.len() as int) =~= values@);
        b
    } else {
        values
    }
}

/// The number of row groups that `total` rows make, `size` rows to a group.
pub open spec fn group_count(total: nat, size: nat) -> nat {
    if size == 0 {
        0
    } else {
        ((total + size - 1) / size as int) as nat
    }
}

/// The rows of row group `k`: it starts at row `k * size` and holds `size`
/// rows, or what is left for the last.
pub open spec fn group_range(total: nat, size: nat, k: nat) -> (nat, nat) {
    let start = k * size;
    (start, min_nat(size, (total - start) as nat))
}

/// The row groups that `total` rows make, `size` rows to a group: each
/// starts where the one before ended, the first at row 0; each holds `size`
/// rows but the last, which holds what is left; together they hold every
/// row once.
pub fn row_group_ranges(total: usize, size: usize) -> (r: Vec<(usize, usize)>)
    requires
        size > 0,
    ensures
        r@.len() == group_count(total as nat, size as nat),
        forall|k: int|
            0 <= k < r@.len() ==> (#[trigger] r@[k]).0 as nat == group_range(total as nat, size as nat, k as nat).0
                && r@[k].1 as nat == group_range(total as nat, size as nat, k as nat).1,
        forall|k: int| 0 <= k < r@.len() ==> 0 < (#[trigger] r@[k]).1 <= size && r@[k].0 + r@[k].1 <= total,
        r@.len() > 0 ==> r@[0].0 == 0,
        forall|k: int| 0 <= k < r@.len() - 1 ==> #[trigger] r@[k + 1].0 == r@[k].0 + r@[k].1,
        r@.len() > 0 ==> r@.last().0 + r@.last().1 == total,
{
    let mut r: Vec<(usize, usize)> = Vec::new();
    let mut offset: usize = 0;
    let mut k: usize = 0;
    while offset < total
        invariant
            size > 0,
            offset <= total,
            r@.len() == k,
            offset <= k * size,
            offset < total ==> offset == k * size,
            k > 0 ==> (k - 1) * size < total,
            forall|j: int|
                0 <= j < k ==> (#[trigger] r@[j]).0 as nat == group_range(total as nat, size as nat, j as nat).0
                    && r@[j].1 as nat == group_range(total as nat, size as nat, j as nat).1,
            forall|j: int| 0 <= j < k ==> 0 < (#[trigger] r@[j]).1 <= size && r@[j].0 + r@[j].1 <= total,
            k > 0 ==> r@[0].0 == 0,
            forall|j: int| 0 <= j < k - 1 ==> #[trigger] r@[j + 1].0 == r@[j].0 + r@[j].1,
            k > 0 ==> r@.last().0 + r@.last().1 == offset,
        decreases total - offset,
    {
        let rows = if size < total - offset {
            size
        } else {
            total - offset
        };
        proof {
            assert((k + 1) * size == k * size + size) by (nonlinear_arith);
            assert(k <= k * size) by (nonlinear_arith)
                requires
                    size > 0,
            ;
        }
        let ghost before = r@;
        r.push((offset, rows));
        proof {
            assert(r@[k as int] == (offset, rows));
            assert forall|j: int| 0 <= j < k implies #[trigger] r@[j] == before[j] by {}
        }
        offset = offset + rows;
        k = k + 1;
    }
    proof {
        lemma_group_count(total as nat, size as nat, k as nat);
    }
    r
}

proof fn lemma_group_count(total: nat, size: nat, k: nat)
    requires
        size > 0,
        k * size >= total,
        k > 0 ==> (k - 1) * size < total,
    ensures
        group_count(total, size) == k,
{
    if k == 0 {
        assert(total == 0);
        assert((size - 1) / (size as int) == 0) by (nonlinear_arith)
            requires
                size > 0,
        ;
    } else {
        let q = ((total + size - 1) / size as int);
        assert(q == k) by (nonlinear_arith)
            requires
                size > 0,
                k * size >= total,
                (k - 1) * size < total,
                q == (total + size - 1) / size as int,
        ;
    }
}

proof fn lemma_chunk_levels_count(mask: Seq<bool>, start: nat, len: nat, i: nat)
    requires
        i <= len,
    ensures
        count_present(chunk_def_levels(mask, start, len).take(i as int), 1u32) == present_before(
            mask,
            start + i,
        ) - present_before(mask, start),
        present_before(mask, start) <= present_before(mask, start + i),
    decreases i,
{
    let levels = chunk_def_levels(mask, start, len);
    if i == 0 {
        assert(levels.take(0) =~= Seq::<u32>::empty());
    } else {
        lemma_chunk_levels_count(mask, start, len, (i - 1) as nat);
        assert(levels.take(i as int).drop_last() =~= levels.take(i - 1));
        assert(levels.take(i as int).last() == levels[i - 1]);
    }
}

/// The definition levels the writer stores for a range of rows, read back
/// by the reader's placing of nulls (a null for level 0, the next value for
/// level 1) over the values of those rows, give each row its own value, or
/// a null where it has none; and they ask for exactly as many values as the
/// rows hold.
pub proof fn lemma_nullable_roundtrip<T>(mask: Seq<bool>, vals: Seq<T>, start: nat, len: nat)
    requires
        vals.len() >= present_before(mask, start + len),
    ensures
        count_present(chunk_def_levels(mask, start, len), 1u32) == present_before(mask, start + len)
            - present_before(mask, start),
        interleave(
            chunk_def_levels(mask, start, len),
            1u32,
            vals.subrange(
                present_before(mask, start) as int,
                present_before(mask, start + len) as int,
            ),
        ) == Seq::new(
            len,
            |i: int|
                if row_present(mask, start + i) {
                    Some(vals[present_before(mask, (start + i) as nat) as int])
                } else {
                    None
                },
        ),
{
    let levels = chunk_def_levels(mask, start, len);
    lemma_chunk_levels_count(mask, start, len, len);
    assert(levels.take(len as int) =~= levels);
    let lo = present_before(mask, start) as int;
    let hi = present_before(mask, start + len) as int;
    let got = interleave(levels, 1u32, vals.subrange(lo, hi));
    let want = Seq::new(
        len,
        |i: int|
            if row_present(mask, start + i) {
                Some(vals[present_before(mask, (start + i) as nat) as int])
            } else {
                None
            },
    );
    assert forall|i: int| 0 <= i < len implies #[trigger] got[i] == want[i] by {
        lemma_chunk_levels_count(mask, start, len, i as nat);
        lemma_chunk_levels_count(mask, start, len, (i + 1) as nat);
        lemma_present_before_monotone(mask, (start + i + 1) as nat, start + len);
    }
    assert(got =~= want);
}

/// The physical type a list of values is written as.
pub open spec fn data_physical(d: ColumnData) -> PhysicalType {
    match d {
        ColumnData::Int32(_) => PhysicalType::Int32,
        ColumnData::Int64(_) => PhysicalType::Int64,
        ColumnData::Float(_) => PhysicalType::Float,
        ColumnData::Double(_) => PhysicalType::Double,
        ColumnData::Boolean(_) => PhysicalType::Boolean,
        ColumnData::Text(_) => PhysicalType::ByteArray,
        ColumnData::EnumIndices(_) => PhysicalType::ByteArray,
    }
}

/// The cells that stand for values `lo..hi` of a list in a column of the
/// given logical type.
pub open spec fn written_cells(d: ColumnData, lo: int, hi: int, logical: Option<LogicalType>) -> Seq<
    CellView,
> {
    match d {
        ColumnData::Int32(v) => v@.subrange(lo, hi).map_values(
            |x: i32| int32_cell(x, is_unsigned_integer(logical)),
        ),
        ColumnData::Int64(v) => v@.subrange(lo, hi).map_values(
            |x: i64| int64_cell(x, !is_time_like(logical)),
        ),
        ColumnData::Float(v) => v@.subrange(lo, hi).map_values(|w: u32| CellView::Float(w)),
        ColumnData::Double(v) => v@.subrange(lo, hi).map_values(|w: u64| CellView::Double(w)),
        ColumnData::Boolean(v) => v@.subrange(lo, hi).map_values(|b: bool| CellView::Boolean(b)),
        ColumnData::Text(v) => utf8_strings(v@.subrange(lo, hi)).map_values(
            |b: Seq<u8>| CellView::Text(b),
        ),
        ColumnData::EnumIndices(_) => Seq::empty(),
    }
}

proof fn lemma_int32_read_back(vals: Seq<i32>, logical: Option<LogicalType>)
    ensures
        plain_cell_views(encode_words32(i32_words(vals)), vals.len(), PhysicalType::Int32, logical)
            == Ok::<Option<Seq<CellView>>, ValuesError>(
            Some(vals.map_values(|x: i32| int32_cell(x, is_unsigned_integer(logical)))),
        ),
{
    lemma_int32_roundtrip(vals);
    let dec = decode_words32(encode_words32(i32_words(vals)), vals.len());
    assert(dec.map_values(|w: u32| int32_cell(w as i32, is_unsigned_integer(logical))) =~= vals.map_values(
        |x: i32| int32_cell(x, is_unsigned_integer(logical)),
    )) by {
        assert forall|i: int| 0 <= i < vals.len() implies dec[i] as i32 == vals[i] by {
            assert(dec.map_values(|w: u32| w as i32)[i] == vals[i]);
        }
    }
}

proof fn lemma_int64_read_back(vals: Seq<i64>, logical: Option<LogicalType>)
    ensures
        plain_cell_views(encode_words64(i64_words(vals)), vals.len(), PhysicalType::Int64, logical)
            == Ok::<Option<Seq<CellView>>, ValuesError>(
            Some(vals.map_values(|x: i64| int64_cell(x, !is_time_like(logical)))),
        ),
{
    lemma_int64_roundtrip(vals);
    let dec = decode_words64(encode_words64(i64_words(vals)), vals.len());
    assert(dec.map_values(|w: u64| int64_cell(w as i64, !is_time_like(logical))) =~= vals.map_values(
        |x: i64| int64_cell(x, !is_time_like(logical)),
    )) by {
        assert forall|i: int| 0 <= i < vals.len() implies dec[i] as i64 == vals[i] by {
            assert(dec.map_values(|w: u64| w as i64)[i] == vals[i]);
        }
    }
}

proof fn lemma_floats_read_back(vals: Seq<u32>, logical: Option<LogicalType>)
    ensures
        plain_cell_views(encode_words32(vals), vals.len(), PhysicalType::Float, logical) == Ok::<
            Option<Seq<CellView>>,
            ValuesError,
        >(Some(vals.map_values(|w: u32| CellView::Float(w)))),
{
    lemma_words32_roundtrip(vals);
    assert(decode_words32(encode_words32(vals), vals.len()).map_values(|w: u32| CellView::Float(w))
        =~= vals.map_values(|w: u32| CellView::Float(w)));
}

proof fn lemma_doubles_read_back(vals: Seq<u64>, logical: Option<LogicalType>)
    ensures
        plain_cell_views(encode_words64(vals), vals.len(), PhysicalType::Double, logical) == Ok::<
            Option<Seq<CellView>>,
            ValuesError,
        >(Some(vals.map_values(|w: u64| CellView::Double(w)))),
{
    lemma_words64_roundtrip(vals);
    assert(decode_words64(encode_words64(vals), vals.len()).map_values(|w: u64| CellView::Double(w))
        =~= vals.map_values(|w: u64| CellView::Double(w)));
}

proof fn lemma_booleans_read_back(vals: Seq<bool>, logical: Option<LogicalType>)
    ensures
        plain_cell_views(encode_booleans(vals), vals.len(), PhysicalType::Boolean, logical) == Ok::<
            Option<Seq<CellView>>,
            ValuesError,
        >(Some(vals.map_values(|b: bool| CellView::Boolean(b)))),
{
    let enc = encode_booleans(vals);
    let cells = Seq::new(vals.len(), |i: int| CellView::Boolean(bit_of(enc, i)));
    assert(cells =~= vals.map_values(|b: bool| CellView::Boolean(b))) by {
        lemma_booleans_roundtrip(vals);
    }
    assert(vals.len() <= 8 * enc.len()) by {
        lemma_booleans_roundtrip(vals);
    }
    assert(plain_cell_views(enc, vals.len(), PhysicalType::Boolean, logical) == Ok::<
        Option<Seq<CellView>>,
        ValuesError,
    >(Some(cells)));
}

proof fn lemma_text_read_back(vals: Seq<Seq<u8>>, logical: Option<LogicalType>)
    requires
        lengths_fit_u32(vals),
    ensures
        plain_cell_views(encode_binary(vals), vals.len(), PhysicalType::ByteArray, logical) == Ok::<
            Option<Seq<CellView>>,
            ValuesError,
        >(Some(vals.map_values(|b: Seq<u8>| CellView::Text(b)))),
{
    lemma_binary_roundtrip(vals);
}

/// What the writer encodes as PLAIN values for a list is read back by the
/// reader's PLAIN decoding as the cells of those very values: numbers,
/// floats by their bits, booleans, and text as its UTF-8 bytes (for strings
/// whose length fits the 32-bit prefix).
pub proof fn lemma_plain_values_read_back(d: ColumnData, lo: int, hi: int, logical: Option<LogicalType>)
    requires
        0 <= lo <= hi <= data_len(d),
        !(d is EnumIndices),
        d matches ColumnData::Text(v) ==> lengths_fit_u32(utf8_strings(v@.subrange(lo, hi))),
    ensures
        data_encoding(d, lo, hi, None) matches Ok(bytes) && plain_cell_views(
            bytes,
            (hi - lo) as nat,
            data_physical(d),
            logical,
        ) == Ok::<Option<Seq<CellView>>, ValuesError>(Some(written_cells(d, lo, hi, logical))),
{
    match d {
        ColumnData::Int32(v) => lemma_int32_read_back(v@.subrange(lo, hi), logical),
        ColumnData::Int64(v) => lemma_int64_read_back(v@.subrange(lo, hi), logical),
        ColumnData::Float(v) => lemma_floats_read_back(v@.subrange(lo, hi), logical),
        ColumnData::Double(v) => lemma_doubles_read_back(v@.subrange(lo, hi), logical),
        ColumnData::Boolean(v) => lemma_booleans_read_back(v@.subrange(lo, hi), logical),
        ColumnData::Text(v) => lemma_text_read_back(utf8_strings(v@.subrange(lo, hi)), logical),
        ColumnData::EnumIndices(_) => {},
    }
}

} // verus!
