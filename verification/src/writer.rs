//! The writer's schema rules: how column descriptions and settings given as
//! text become column types, compression and a format version.

use vstd::prelude::*;
use crate::encode::{
    chunk_def_levels, chunk_values, def_levels_of, encode_chunk_values, encode_definition_levels, group_count,
    group_range, input_row_count, input_rows, page_buffer, page_bytes, row_group_ranges,
    same_outcome, ColumnInput, as_indices, indices_in_range, min_nat, typed_plan_for, ColumnData,
    TypedArrayData, TypedPlan,
};
use crate::plain::utf8_strings;
use crate::pages::{info_view, Encoding, PrimitiveInfo};
use crate::pq::{
    data_page_buffer, data_page_def_encoding, data_page_encoding, data_page_has_statistics,
    data_page_num_values, data_page_rep_encoding,
};
use crate::pq_write::{
    data_page, file_finished, file_writer, finish_file, group_accepted, hybrid_rle_u32, page_made,
    schema_descriptor, schema_made, sink_written, write_row_group,
};
use crate::levels::level_bit_width;
use parquet2::metadata::SchemaDescriptor;
use parquet2::page::DataPage;
use crate::types::{logical_type_name, physical_type_name, IntegerType, LogicalType, PhysicalType, Repetition, TimeUnit, owned};

verus! {

/// One column as the writer is asked to write it.
#[derive(Debug, Clone)]
pub struct ColumnSchema {
    pub name: String,
    pub col_type: String,
    pub nullable: bool,
    pub logical_type: Option<String>,
    pub precision: Option<u8>,
    pub scale: Option<u8>,
    pub bit_width: Option<u8>,
    pub is_signed: Option<bool>,
    pub enum_values: Option<Vec<String>>,
}

/// The writer's settings.
#[derive(Debug)]
pub struct WriteConfig {
    pub compression: String,
    pub row_group_size: usize,
    pub version: String,
}

/// The compression used when none is named.
pub fn default_compression() -> (s: String)
    ensures
        s@ == "snappy"@,
{
    owned("snappy")
}

/// The number of rows per row group when none is given.
pub fn default_row_group_size() -> (n: usize)
    ensures
        n == 10000,
{
    10000
}

/// The format version used when none is named.
pub fn default_version() -> (s: String)
    ensures
        s@ == "v1"@,
{
    owned("v1")
}

impl Default for WriteConfig {
    fn default() -> (c: Self)
        ensures
            c.compression@ == "snappy"@,
            c.row_group_size == 10000,
            c.version@ == "v1"@,
    {
        WriteConfig {
            compression: default_compression(),
            row_group_size: default_row_group_size(),
            version: default_version(),
        }
    }
}

/// A character with ASCII capitals made small.
pub open spec fn ascii_lower(c: char) -> char {
    if 'A' <= c && c <= 'Z' {
        ((c as u32) + 32) as char
    } else {
        c
    }
}

/// A text with ASCII capitals made small. For the keywords of this module,
/// none of which holds a `k`, a text is equal to a keyword after this
/// lowering exactly when it is after full Unicode lowercasing.
pub open spec fn lowered(s: Seq<char>) -> Seq<char> {
    s.map_values(|c: char| ascii_lower(c))
}

fn lower_char(c: char) -> (r: char)
    ensures
        r == ascii_lower(c),
{
    if 'A' <= c && c <= 'Z' {
        let u: u32 = c as u32;
        let v: u8 = (u + 32) as u8;
        v as char
    } else {
        c
    }
}

/// Whether `s`, with ASCII capitals made small, is `keyword`.
pub fn lower_equals(s: &str, keyword: &str) -> (b: bool)
    ensures
        b == (lowered(s@) == keyword@),
{
    let n = s.unicode_len();
    let m = keyword.unicode_len();
    if n != m {
        return false;
    }
    let mut i: usize = 0;
    while i < n
        invariant
            i <= n,
            n == s@.len(),
            m == keyword@.len(),
            n == m,
            forall|j: int| 0 <= j < i ==> ascii_lower(#[trigger] s@[j]) == keyword@[j],
        decreases n - i,
    {
        let c = s.get_char(i);
        let k = keyword.get_char(i);
        if lower_char(c) != k {
            assert(lowered(s@)[i as int] != keyword@[i as int]);
            return false;
        }
        i = i + 1;
    }
    assert(lowered(s@) =~= keyword@);
    true
}

/// How pages are compressed.
#[derive(Debug, Clone, Copy, PartialEq, Eq, Structural)]
pub enum Compression {
    Uncompressed,
    Snappy,
}

/// The compression a name asks for: none for `none` or `uncompressed`,
/// Snappy for anything else, in any case.
pub open spec fn compression_for(name: Seq<char>) -> Compression {
    let l = lowered(name);
    if l == "none"@ || l == "uncompressed"@ {
        Compression::Uncompressed
    } else {
        Compression::Snappy
    }
}

/// The compression a name asks for (see [`compression_for`]).
pub fn get_compression(name: &str) -> (c: Compression)
    ensures
        c == compression_for(name@),
{
    if lower_equals(name, "none") || lower_equals(name, "uncompressed") {
        Compression::Uncompressed
    } else {
        Compression::Snappy
    }
}

/// Names that differ only in the case of ASCII letters ask for the same
/// compression, physical type and format version.
pub proof fn lemma_names_ignore_case(a: Seq<char>, b: Seq<char>)
    requires
        lowered(a) == lowered(b),
    ensures
        compression_for(a) == compression_for(b),
        physical_for(a) == physical_for(b),
        version_for(a) == version_for(b),
{
}

/// The physical type a type name asks for, in any case; byte arrays for
/// names it does not know.
pub open spec fn physical_for(name: Seq<char>) -> PhysicalType {
    let l = lowered(name);
    if l == "int32"@ || l == "int"@ || l == "integer"@ {
        PhysicalType::Int32
    } else if l == "int64"@ || l == "long"@ || l == "bigint"@ {
        PhysicalType::Int64
    } else if l == "float"@ || l == "float32"@ {
        PhysicalType::Float
    } else if l == "double"@ || l == "float64"@ {
        PhysicalType::Double
    } else if l == "boolean"@ || l == "bool"@ {
        PhysicalType::Boolean
    } else {
        PhysicalType::ByteArray
    }
}

/// The physical type a type name asks for (see [`physical_for`]).
pub fn get_physical_type(name: &str) -> (p: PhysicalType)
    ensures
        p == physical_for(name@),
{
    if lower_equals(name, "int32") || lower_equals(name, "int") || lower_equals(
        name,
        "integer",
    ) {
        PhysicalType::Int32
    } else if lower_equals(name, "int64") || lower_equals(name, "long") || lower_equals(
        name,
        "bigint",
    ) {
        PhysicalType::Int64
    } else if lower_equals(name, "float") || lower_equals(name, "float32") {
        PhysicalType::Float
    } else if lower_equals(name, "double") || lower_equals(name, "float64") {
        PhysicalType::Double
    } else if lower_equals(name, "boolean") || lower_equals(name, "bool") {
        PhysicalType::Boolean
    } else {
        PhysicalType::ByteArray
    }
}

/// The type name the reader reports for a column of a physical type other
/// than INT96 or a fixed-length byte array resolves back to that type when
/// a schema names it: the reported names and the writer's type names agree.
pub proof fn lemma_reported_type_name_resolves_back(pt: PhysicalType)
    requires
        !(pt is Int96),
        !(pt is FixedLenByteArray),
    ensures
        physical_for(physical_type_name(pt)) == pt,
{
    reveal_strlit("int32");
    reveal_strlit("int");
    reveal_strlit("integer");
    reveal_strlit("int64");
    reveal_strlit("long");
    reveal_strlit("bigint");
    reveal_strlit("float");
    reveal_strlit("float32");
    reveal_strlit("double");
    reveal_strlit("float64");
    reveal_strlit("boolean");
    reveal_strlit("bool");
    reveal_strlit("string");
    assert(lowered("boolean"@) =~= "boolean"@);
    assert("boolean"@[0] != "integer"@[0]);
    assert("boolean"@[0] != "float32"@[0]);
    assert("boolean"@[0] != "float64"@[0]);
    assert(lowered("int32"@) =~= "int32"@);
    assert(lowered("int64"@) =~= "int64"@);
    assert("int64"@[3] != "int32"@[3]);
    assert(lowered("float"@) =~= "float"@);
    assert("float"@[0] != "int32"@[0]);
    assert("float"@[0] != "int64"@[0]);
    assert(lowered("double"@) =~= "double"@);
    assert("double"@[0] != "bigint"@[0]);
    assert(lowered("string"@) =~= "string"@);
    assert("string"@[0] != "bigint"@[0]);
    assert("string"@[0] != "double"@[0]);
    assert("string"@[0] != "bigint"@[0]);
    assert("string"@[0] != "double"@[0]);
}

/// The integer type of a width and signedness, if the format has one.
pub open spec fn integer_type_for(bit_width: u8, signed: bool) -> Option<IntegerType> {
    if bit_width == 8 {
        Some(if signed { IntegerType::Int8 } else { IntegerType::UInt8 })
    } else if bit_width == 16 {
        Some(if signed { IntegerType::Int16 } else { IntegerType::UInt16 })
    } else if bit_width == 32 {
        Some(if signed { IntegerType::Int32 } else { IntegerType::UInt32 })
    } else if bit_width == 64 {
        Some(if signed { IntegerType::Int64 } else { IntegerType::UInt64 })
    } else {
        None
    }
}

/// The logical type a name asks for on a column of the given physical type,
/// in any case; `None` when the name is unknown, its parameters are missing
/// or invalid, or it does not apply to the physical type.
pub open spec fn logical_for(
    name: Seq<char>,
    physical: PhysicalType,
    precision: Option<u8>,
    scale: Option<u8>,
    bit_width: Option<u8>,
    is_signed: Option<bool>,
) -> Option<LogicalType> {
    let l = lowered(name);
    if l == "date"@ {
        if physical == PhysicalType::Int32 {
            Some(LogicalType::Date)
        } else {
            None
        }
    } else if l == "time_millis"@ || l == "time_milliseconds"@ {
        if physical == PhysicalType::Int32 {
            Some(LogicalType::Time { unit: TimeUnit::Milliseconds, is_adjusted_to_utc: false })
        } else {
            None
        }
    } else if l == "time_micros"@ || l == "time_microseconds"@ {
        if physical == PhysicalType::Int64 {
            Some(LogicalType::Time { unit: TimeUnit::Microseconds, is_adjusted_to_utc: false })
        } else {
            None
        }
    } else if l == "timestamp_millis"@ || l == "timestamp_milliseconds"@ {
        if physical == PhysicalType::Int64 {
            Some(LogicalType::Timestamp { unit: TimeUnit::Milliseconds, is_adjusted_to_utc: false })
        } else {
            None
        }
    } else if l == "timestamp_micros"@ || l == "timestamp_microseconds"@ {
        if physical == PhysicalType::Int64 {
            Some(LogicalType::Timestamp { unit: TimeUnit::Microseconds, is_adjusted_to_utc: false })
        } else {
            None
        }
    } else if l == "utf8"@ || l == "string"@ {
        if physical == PhysicalType::ByteArray {
            Some(LogicalType::String)
        } else {
            None
        }
    } else if l == "json"@ {
        if physical == PhysicalType::ByteArray {
            Some(LogicalType::Json)
        } else {
            None
        }
    } else if l == "bson"@ {
        if physical == PhysicalType::ByteArray {
            Some(LogicalType::Bson)
        } else {
            None
        }
    } else if l == "decimal"@ {
        match (precision, scale) {
            (Some(p), Some(s)) => match physical {
                PhysicalType::Int32 | PhysicalType::Int64 | PhysicalType::ByteArray
                | PhysicalType::FixedLenByteArray(_) => Some(LogicalType::Decimal(p as usize, s as usize)),
                _ => None,
            },
            _ => None,
        }
    } else if l == "enum"@ {
        if physical == PhysicalType::ByteArray {
            Some(LogicalType::Enum)
        } else {
            None
        }
    } else if l == "integer"@ || l == "int"@ {
        match (bit_width, is_signed) {
            (Some(bw), Some(signed)) => if physical == PhysicalType::Int32 || physical
                == PhysicalType::Int64 {
                match integer_type_for(bw, signed) {
                    Some(t) => Some(LogicalType::Integer(t)),
                    None => None,
                }
            } else {
                None
            },
            _ => None,
        }
    } else if l == "uuid"@ {
        if physical == PhysicalType::FixedLenByteArray(16) {
            Some(LogicalType::Uuid)
        } else {
            None
        }
    } else {
        None
    }
}

/// The type each documented logical type name resolves to, on the physical
/// type it applies to (none on any other).
proof fn lemma_documented_names(
    physical: PhysicalType,
    precision: Option<u8>,
    scale: Option<u8>,
    bit_width: Option<u8>,
    is_signed: Option<bool>,
)
    ensures
        logical_for("date"@, physical, precision, scale, bit_width, is_signed) == (if physical == PhysicalType::Int32 {
            Some(LogicalType::Date)
        } else {
            None
        }),
        logical_for("time_millis"@, physical, precision, scale, bit_width, is_signed) == (if physical == PhysicalType::Int32 {
            Some(LogicalType::Time { unit: TimeUnit::Milliseconds, is_adjusted_to_utc: false })
        } else {
            None
        }),
        logical_for("time_micros"@, physical, precision, scale, bit_width, is_signed) == (if physical == PhysicalType::Int64 {
            Some(LogicalType::Time { unit: TimeUnit::Microseconds, is_adjusted_to_utc: false })
        } else {
            None
        }),
        logical_for("timestamp_millis"@, physical, precision, scale, bit_width, is_signed) == (if physical == PhysicalType::Int64 {
            Some(LogicalType::Timestamp { unit: TimeUnit::Milliseconds, is_adjusted_to_utc: false })
        } else {
            None
        }),
        logical_for("timestamp_micros"@, physical, precision, scale, bit_width, is_signed) == (if physical == PhysicalType::Int64 {
            Some(LogicalType::Timestamp { unit: TimeUnit::Microseconds, is_adjusted_to_utc: false })
        } else {
            None
        }),
        logical_for("utf8"@, physical, precision, scale, bit_width, is_signed) == (if physical == PhysicalType::ByteArray {
            Some(LogicalType::String)
        } else {
            None
        }),
        logical_for("json"@, physical, precision, scale, bit_width, is_signed) == (if physical == PhysicalType::ByteArray {
            Some(LogicalType::Json)
        } else {
            None
        }),
        logical_for("bson"@, physical, precision, scale, bit_width, is_signed) == (if physical == PhysicalType::ByteArray {
            Some(LogicalType::Bson)
        } else {
            None
        }),
        logical_for("enum"@, physical, precision, scale, bit_width, is_signed) == (if physical == PhysicalType::ByteArray {
            Some(LogicalType::Enum)
        } else {
            None
        }),
        logical_for("uuid"@, physical, precision, scale, bit_width, is_signed) == (if physical == PhysicalType::FixedLenByteArray(16) {
            Some(LogicalType::Uuid)
        } else {
            None
        }),
{
    reveal_strlit("date");
    reveal_strlit("time_millis");
    reveal_strlit("time_milliseconds");
    reveal_strlit("time_micros");
    reveal_strlit("time_microseconds");
    reveal_strlit("timestamp_millis");
    reveal_strlit("timestamp_milliseconds");
    reveal_strlit("timestamp_micros");
    reveal_strlit("timestamp_microseconds");
    reveal_strlit("utf8");
    reveal_strlit("string");
    reveal_strlit("json");
    reveal_strlit("bson");
    reveal_strlit("decimal");
    reveal_strlit("enum");
    reveal_strlit("integer");
    reveal_strlit("int");
    reveal_strlit("uuid");
    assert(lowered("date"@) =~= "date"@);
    assert(lowered("time_millis"@) =~= "time_millis"@);
    assert(lowered("time_micros"@) =~= "time_micros"@);
    assert("time_micros"@[7] != "time_millis"@[7]);
    assert(lowered("timestamp_millis"@) =~= "timestamp_millis"@);
    assert(lowered("timestamp_micros"@) =~= "timestamp_micros"@);
    assert("timestamp_micros"@[12] != "timestamp_millis"@[12]);
    assert(lowered("utf8"@) =~= "utf8"@);
    assert("utf8"@[0] != "date"@[0]);
    assert(lowered("json"@) =~= "json"@);
    assert("json"@[0] != "date"@[0]);
    assert("json"@[0] != "utf8"@[0]);
    assert(lowered("bson"@) =~= "bson"@);
    assert("bson"@[0] != "date"@[0]);
    assert("bson"@[0] != "utf8"@[0]);
    assert("bson"@[0] != "json"@[0]);
    assert(lowered("enum"@) =~= "enum"@);
    assert("enum"@[0] != "date"@[0]);
    assert("enum"@[0] != "utf8"@[0]);
    assert("enum"@[0] != "json"@[0]);
    assert("enum"@[0] != "bson"@[0]);
    assert(lowered("uuid"@) =~= "uuid"@);
    assert("uuid"@[0] != "date"@[0]);
    assert("uuid"@[1] != "utf8"@[1]);
    assert("uuid"@[0] != "json"@[0]);
    assert("uuid"@[0] != "bson"@[0]);
    assert("uuid"@[0] != "enum"@[0]);
}

/// Whether `s` is one of the documented logical type names that name a
/// type with no parameters.
pub open spec fn documented_logical_name(s: Seq<char>) -> bool {
    s == "date"@ || s == "time_millis"@ || s == "time_micros"@ || s == "timestamp_millis"@ || s
        == "timestamp_micros"@ || s == "utf8"@ || s == "json"@ || s == "bson"@ || s == "enum"@ || s
        == "uuid"@
}

/// Each documented logical type name resolves to a type that the reader
/// reports under that same name.
pub proof fn lemma_documented_name_reported_back(
    s: Seq<char>,
    physical: PhysicalType,
    precision: Option<u8>,
    scale: Option<u8>,
    bit_width: Option<u8>,
    is_signed: Option<bool>,
)
    requires
        documented_logical_name(s),
        logical_for(s, physical, precision, scale, bit_width, is_signed) is Some,
    ensures
        logical_type_name(logical_for(s, physical, precision, scale, bit_width, is_signed).unwrap()) == s,
{
    lemma_documented_names(physical, precision, scale, bit_width, is_signed);
}

/// The name the reader reports for a logical type that a name resolves to
/// (other than a decimal or an integer, whose reported names carry their
/// parameters) resolves back to the same type: distinct types, time units
/// among them, are reported under distinct names.
pub proof fn lemma_reported_name_resolves_back(
    s: Seq<char>,
    physical: PhysicalType,
    precision: Option<u8>,
    scale: Option<u8>,
    bit_width: Option<u8>,
    is_signed: Option<bool>,
)
    requires
        logical_for(s, physical, precision, scale, bit_width, is_signed) matches Some(lt) && !(lt is Decimal)
            && !(lt is Integer),
    ensures
        logical_for(
            logical_type_name(logical_for(s, physical, precision, scale, bit_width, is_signed).unwrap()),
            physical,
            precision,
            scale,
            bit_width,
            is_signed,
        ) == logical_for(s, physical, precision, scale, bit_width, is_signed),
{
    lemma_documented_names(physical, precision, scale, bit_width, is_signed);
}

fn integer_type_of(bit_width: u8, signed: bool) -> (r: Option<IntegerType>)
    ensures
        r == integer_type_for(bit_width, signed),
{
    if bit_width == 8 {
        Some(if signed { IntegerType::Int8 } else { IntegerType::UInt8 })
    } else if bit_width == 16 {
        Some(if signed { IntegerType::Int16 } else { IntegerType::UInt16 })
    } else if bit_width == 32 {
        Some(if signed { IntegerType::Int32 } else { IntegerType::UInt32 })
    } else if bit_width == 64 {
        Some(if signed { IntegerType::Int64 } else { IntegerType::UInt64 })
    } else {
        None
    }
}

fn only_on(physical: PhysicalType, wanted: PhysicalType, lt: LogicalType) -> (r: Option<LogicalType>)
    ensures
        r == (if physical == wanted {
            Some(lt)
        } else {
            None
        }),
{
    if physical == wanted {
        Some(lt)
    } else {
        None
    }
}

/// The logical type a name asks for (see [`logical_for`]).
pub fn get_logical_type(
    logical_type_str: &str,
    physical_type: PhysicalType,
    precision: Option<u8>,
    scale: Option<u8>,
    bit_width: Option<u8>,
    is_signed: Option<bool>,
) -> (r: Option<LogicalType>)
    ensures
        r == logical_for(logical_type_str@, physical_type, precision, scale, bit_width, is_signed),
{
    let s = logical_type_str;
    let p = physical_type;
    if lower_equals(s, "date") {
        only_on(p, PhysicalType::Int32, LogicalType::Date)
    } else if lower_equals(s, "time_millis") || lower_equals(s, "time_milliseconds") {
        only_on(
            p,
            PhysicalType::Int32,
            LogicalType::Time { unit: TimeUnit::Milliseconds, is_adjusted_to_utc: false },
        )
    } else if lower_equals(s, "time_micros") || lower_equals(s, "time_microseconds") {
        only_on(
            p,
            PhysicalType::Int64,
            LogicalType::Time { unit: TimeUnit::Microseconds, is_adjusted_to_utc: false },
        )
    } else if lower_equals(s, "timestamp_millis") || lower_equals(s, "timestamp_milliseconds") {
        only_on(
            p,
            PhysicalType::Int64,
            LogicalType::Timestamp { unit: TimeUnit::Milliseconds, is_adjusted_to_utc: false },
        )
    } else if lower_equals(s, "timestamp_micros") || lower_equals(s, "timestamp_microseconds") {
        only_on(
            p,
            PhysicalType::Int64,
            LogicalType::Timestamp { unit: TimeUnit::Microseconds, is_adjusted_to_utc: false },
        )
    } else if lower_equals(s, "utf8") || lower_equals(s, "string") {
        only_on(p, PhysicalType::ByteArray, LogicalType::String)
    } else if lower_equals(s, "json") {
        only_on(p, PhysicalType::ByteArray, LogicalType::Json)
    } else if lower_equals(s, "bson") {
        only_on(p, PhysicalType::ByteArray, LogicalType::Bson)
    } else if lower_equals(s, "decimal") {
        match (precision, scale) {
            (Some(pr), Some(sc)) => match p {
                PhysicalType::Int32 | PhysicalType::Int64 | PhysicalType::ByteArray
                | PhysicalType::FixedLenByteArray(_) => Some(
                    LogicalType::Decimal(pr as usize, sc as usize),
                ),
                _ => None,
            },
            _ => None,
        }
    } else if lower_equals(s, "enum") {
        only_on(p, PhysicalType::ByteArray, LogicalType::Enum)
    } else if lower_equals(s, "integer") || lower_equals(s, "int") {
        match (bit_width, is_signed) {
            (Some(bw), Some(signed)) => if p == PhysicalType::Int32 || p == PhysicalType::Int64 {
                match integer_type_of(bw, signed) {
                    Some(t) => Some(LogicalType::Integer(t)),
                    None => None,
                }
            } else {
                None
            },
            _ => None,
        }
    } else if lower_equals(s, "uuid") {
        only_on(p, PhysicalType::FixedLenByteArray(16), LogicalType::Uuid)
    } else {
        None
    }
}

/// The logical type of a described column, if it asks for one that applies.
pub open spec fn schema_logical(col: ColumnSchema) -> Option<LogicalType> {
    match col.logical_type {
        Some(lt) => logical_for(
            lt@,
            physical_for(col.col_type@),
            col.precision,
            col.scale,
            col.bit_width,
            col.is_signed,
        ),
        None => None,
    }
}

/// The logical type of a described column (see [`schema_logical`]).
pub fn column_logical_type(col: &ColumnSchema) -> (r: Option<LogicalType>)
    ensures
        r == schema_logical(*col),
{
    let physical = get_physical_type(col.col_type.as_str());
    match &col.logical_type {
        Some(lt) => get_logical_type(
            lt.as_str(),
            physical,
            col.precision,
            col.scale,
            col.bit_width,
            col.is_signed,
        ),
        None => None,
    }
}

/// The format version a name asks for: version 2 for `v2` or `2`, in any
/// case, version 1 for anything else.
#[derive(Debug, Clone, Copy, PartialEq, Eq, Structural)]
pub enum WriteVersion {
    V1,
    V2,
}

/// The format version a name asks for.
pub open spec fn version_for(name: Seq<char>) -> WriteVersion {
    let l = lowered(name);
    if l == "v2"@ || l == "2"@ {
        WriteVersion::V2
    } else {
        WriteVersion::V1
    }
}

/// The format version a name asks for (see [`version_for`]).
pub fn get_version_option(name: &str) -> (v: WriteVersion)
    ensures
        v == version_for(name@),
{
    if lower_equals(name, "v2") || lower_equals(name, "2") {
        WriteVersion::V2
    } else {
        WriteVersion::V1
    }
}

/// Why a file could not be written.
#[derive(Debug)]
pub enum WriteError {
    /// A column asks for the UUID logical type on byte arrays.
    UuidOnByteArray,
    /// Enum indices are given for a column with no enum values.
    EmptyEnumValues,
    /// An enum index names no enum value.
    EnumIndexOutOfRange { index: usize, max: usize },
    /// A date is too far from the epoch for a 32-bit day count.
    DateOutOfRange,
    /// A time of day does not fit a 32-bit column.
    TimeOutOfRange,
    /// A time of day is written to a column that is not INT32 or INT64.
    TimeColumnType,
    /// A date is written to a column with no date, time or timestamp type.
    DateConversionUnsupported,
    /// Values of a kind the column's type cannot take.
    UnsupportedType,
    /// The columns do not all hold the same number of rows.
    LengthMismatch,
    /// A row group could not be written.
    RowGroup(parquet2::error::Error),
    /// The footer could not be written.
    Finish(parquet2::error::Error),
}

/// Whether a described column asks for UUIDs on byte arrays, which the
/// format does not allow.
pub open spec fn uuid_on_byte_array(col: ColumnSchema) -> bool {
    match col.logical_type {
        Some(lt) => lowered(lt@) == "uuid"@ && physical_for(col.col_type@) == PhysicalType::ByteArray,
        None => false,
    }
}

/// Whether `f` is the field that the described column `col` makes.
pub open spec fn field_of(f: PrimitiveInfo, col: ColumnSchema) -> bool {
    &&& f.name@ == col.name@
    &&& f.repetition == (if col.nullable {
        Repetition::Optional
    } else {
        Repetition::Required
    })
    &&& f.physical_type == physical_for(col.col_type@)
    &&& f.logical_type == schema_logical(col)
}

/// The field a described column makes.
pub fn column_field(col: &ColumnSchema) -> (f: PrimitiveInfo)
    ensures
        field_of(f, *col),
{
    PrimitiveInfo {
        name: col.name.clone(),
        repetition: if col.nullable {
            Repetition::Optional
        } else {
            Repetition::Required
        },
        physical_type: get_physical_type(col.col_type.as_str()),
        logical_type: column_logical_type(col),
    }
}

/// The fields of the file's schema, one per described column, or
/// [`WriteError::UuidOnByteArray`] when a column asks for UUIDs on byte
/// arrays.
pub fn build_schema_fields(columns: &[ColumnSchema]) -> (res: Result<Vec<PrimitiveInfo>, WriteError>)
    ensures
        res is Err <==> exists|i: int| 0 <= i < columns@.len() && uuid_on_byte_array(
            #[trigger] columns@[i],
        ),
        res matches Err(e) ==> e is UuidOnByteArray,
        res matches Ok(fields) ==> fields@.len() == columns@.len() && forall|i: int|
            0 <= i < columns@.len() ==> field_of(#[trigger] fields@[i], columns@[i]),
{
    let mut fields: Vec<PrimitiveInfo> = Vec::new();
    let mut i: usize = 0;
    while i < columns.len()
        invariant
            i <= columns@.len(),
            fields@.len() == i,
            forall|j: int| 0 <= j < i ==> field_of(#[trigger] fields@[j], columns@[j]),
            forall|j: int| 0 <= j < i ==> !uuid_on_byte_array(#[trigger] columns@[j]),
        decreases columns@.len() - i,
    {
        let col = &columns[i];
        let field = column_field(col);
        let uuid = match &col.logical_type {
            Some(lt) => lower_equals(lt.as_str(), "uuid"),
            None => false,
        };
        if uuid && field.physical_type == PhysicalType::ByteArray {
            return Err(WriteError::UuidOnByteArray);
        }
        fields.push(field);
        i = i + 1;
    }
    Ok(fields)
}

/// A column of the file as the writer lays it out.
#[derive(Debug)]
pub struct ColumnDescriptor {
    pub info: PrimitiveInfo,
    pub max_def_level: i16,
    pub max_rep_level: i16,
}

/// The layout of a described column: its field, a definition level of 1
/// when it is nullable (0 otherwise), and no repetition.
pub fn create_descriptor(col: &ColumnSchema) -> (d: ColumnDescriptor)
    ensures
        field_of(d.info, *col),
        d.max_def_level == (if col.nullable {
            1i16
        } else {
            0i16
        }),
        d.max_rep_level == 0,
{
    ColumnDescriptor {
        info: column_field(col),
        max_def_level: if col.nullable {
            1
        } else {
            0
        },
        max_rep_level: 0,
    }
}

/// The enum values of a described column, as text.
pub open spec fn enum_value_views(col: ColumnSchema) -> Option<Seq<String>> {
    match col.enum_values {
        Some(e) => Some(e@),
        None => None,
    }
}

/// The outcome of encoding the values of row group `k` of column `i`.
pub open spec fn chunk_outcome(
    columns: Seq<ColumnSchema>,
    inputs: Seq<ColumnInput>,
    total: nat,
    size: nat,
    k: nat,
    i: int,
) -> Result<Seq<u8>, WriteError> {
    chunk_values(
        inputs[i],
        group_range(total, size, k).0,
        group_range(total, size, k).1,
        physical_for(columns[i].col_type@),
        schema_logical(columns[i]),
        enum_value_views(columns[i]),
    )
}

/// Whether the values of every row group of every column can be encoded.
pub open spec fn all_chunks_encode(
    columns: Seq<ColumnSchema>,
    inputs: Seq<ColumnInput>,
    total: nat,
    size: nat,
) -> bool {
    forall|k: nat, i: int|
        k < group_count(total, size) && 0 <= i < columns.len() ==> #[trigger] chunk_outcome(
            columns,
            inputs,
            total,
            size,
            k,
            i,
        ) is Ok
}

/// Whether encoding the values of some row group of some column fails with
/// `e`.
pub open spec fn some_chunk_fails_with(
    columns: Seq<ColumnSchema>,
    inputs: Seq<ColumnInput>,
    total: nat,
    size: nat,
    e: WriteError,
) -> bool {
    exists|k: nat, i: int|
        k < group_count(total, size) && 0 <= i < columns.len() && #[trigger] chunk_outcome(
            columns,
            inputs,
            total,
            size,
            k,
            i,
        ) == Err::<Seq<u8>, WriteError>(e)
}

/// A described column's field as plain values (see [`field_of`]).
pub open spec fn column_info_view(col: ColumnSchema) -> (Seq<char>, Repetition, PhysicalType, Option<LogicalType>) {
    (
        col.name@,
        if col.nullable {
            Repetition::Optional
        } else {
            Repetition::Required
        },
        physical_for(col.col_type@),
        schema_logical(col),
    )
}

/// The maximum definition level of a described column: 1 when it is
/// nullable, 0 otherwise.
pub open spec fn column_max_def(col: ColumnSchema) -> i16 {
    if col.nullable {
        1
    } else {
        0
    }
}

/// The encoded definition levels of a chunk of a column given with a null
/// mask (see [`chunk_def_levels`]); none for other inputs.
pub open spec fn chunk_def_bytes(input: ColumnInput, start: nat, len: nat, max_def_level: i16) -> Option<Seq<u8>> {
    match input {
        ColumnInput::Nullable(mask, _) => Some(
            hybrid_rle_u32(chunk_def_levels(mask@, start, len), level_bit_width(max_def_level) as u32),
        ),
        _ => None,
    }
}

/// The data page written for column `i` of row group `k`: the chunk's
/// encoded values after its definition levels, a PLAIN version-1 header of
/// the group's row count, the column's field and levels.
pub open spec fn planned_page(
    columns: Seq<ColumnSchema>,
    inputs: Seq<ColumnInput>,
    total: nat,
    size: nat,
    k: nat,
    i: int,
) -> DataPage {
    let col = columns[i];
    let range = group_range(total, size, k);
    let max_def = column_max_def(col);
    let values = match chunk_outcome(columns, inputs, total, size, k, i) {
        Ok(b) => b,
        Err(_) => Seq::empty(),
    };
    page_made(
        page_bytes(values, chunk_def_bytes(inputs[i], range.0, range.1, max_def), max_def),
        (range.1 as usize) as i32,
        Encoding::Plain,
        if max_def > 0 {
            Encoding::Rle
        } else {
            Encoding::Plain
        },
        Encoding::Rle,
        (column_info_view(col), max_def, 0),
        range.1 as usize,
    )
}

/// The row groups written: one per group of rows, each one page per
/// column, in column order, all with the same compression.
pub open spec fn planned_groups(
    columns: Seq<ColumnSchema>,
    inputs: Seq<ColumnInput>,
    total: nat,
    size: nat,
    compression: Compression,
) -> Seq<(Seq<DataPage>, Compression)> {
    Seq::new(
        group_count(total, size),
        |k: int|
            (
                Seq::new(columns.len(), |i: int| planned_page(columns, inputs, total, size, k as nat, i)),
                compression,
            ),
    )
}

/// Whether a writer of this schema and version, statistics off, accepts
/// each of these row groups after the ones before it.
pub open spec fn groups_accepted(
    schema: SchemaDescriptor,
    version: WriteVersion,
    groups: Seq<(Seq<DataPage>, Compression)>,
) -> bool {
    forall|k: int|
        0 <= k < groups.len() ==> #[trigger] group_accepted(
            schema,
            false,
            version,
            groups.take(k),
            groups[k].0,
            groups[k].1,
        )
}

/// The schema written: a root named `schema` over one field per column.
pub open spec fn file_schema(columns: Seq<ColumnSchema>) -> SchemaDescriptor {
    schema_made("schema"@, columns.map_values(|c: ColumnSchema| column_info_view(c)))
}

/// The file written for these columns and configuration, where each chunk
/// encodes: the planned row groups written in turn and the footer added;
/// `None` where `parquet2` refuses a row group or the footer.
pub open spec fn written_file(
    columns: Seq<ColumnSchema>,
    inputs: Seq<ColumnInput>,
    total: nat,
    config: WriteConfig,
) -> Option<Seq<u8>> {
    let schema = file_schema(columns);
    let version = version_for(config.version@);
    let groups = planned_groups(
        columns,
        inputs,
        total,
        config.row_group_size as nat,
        compression_for(config.compression@),
    );
    if groups_accepted(schema, version, groups) {
        file_finished(schema, false, version, groups)
    } else {
        None
    }
}

/// Inputs that encode every chunk alike and store definition levels alike
/// make the same file: what is written depends on the inputs through those
/// alone.
pub proof fn lemma_same_chunks_same_file(
    columns: Seq<ColumnSchema>,
    a: Seq<ColumnInput>,
    b: Seq<ColumnInput>,
    total: nat,
    config: WriteConfig,
)
    requires
        a.len() == columns.len(),
        b.len() == columns.len(),
        forall|k: nat, i: int|
            k < group_count(total, config.row_group_size as nat) && 0 <= i < columns.len() ==> #[trigger] chunk_outcome(
                columns,
                a,
                total,
                config.row_group_size as nat,
                k,
                i,
            ) == chunk_outcome(columns, b, total, config.row_group_size as nat, k, i),
        forall|k: nat, i: int|
            k < group_count(total, config.row_group_size as nat) && 0 <= i < columns.len() ==> #[trigger] chunk_def_bytes(
                a[i],
                group_range(total, config.row_group_size as nat, k).0,
                group_range(total, config.row_group_size as nat, k).1,
                column_max_def(columns[i]),
            ) == chunk_def_bytes(
                b[i],
                group_range(total, config.row_group_size as nat, k).0,
                group_range(total, config.row_group_size as nat, k).1,
                column_max_def(columns[i]),
            ),
    ensures
        written_file(columns, a, total, config) == written_file(columns, b, total, config),
{
    let size = config.row_group_size as nat;
    let c = compression_for(config.compression@);
    let ga = planned_groups(columns, a, total, size, c);
    let gb = planned_groups(columns, b, total, size, c);
    assert forall|k: int| 0 <= k < ga.len() implies #[trigger] ga[k] == gb[k] by {
        assert(ga[k].0 =~= gb[k].0) by {
            assert forall|i: int| 0 <= i < columns.len() implies ga[k].0[i] == gb[k].0[i] by {
                assert(chunk_outcome(columns, a, total, size, k as nat, i) == chunk_outcome(columns, b, total, size, k as nat, i));
                assert(chunk_def_bytes(
                    a[i],
                    group_range(total, size, k as nat).0,
                    group_range(total, size, k as nat).1,
                    column_max_def(columns[i]),
                ) == chunk_def_bytes(
                    b[i],
                    group_range(total, size, k as nat).0,
                    group_range(total, size, k as nat).1,
                    column_max_def(columns[i]),
                ));
            }
        }
    }
    assert(ga =~= gb);
}

/// An enum column's values given as indices into its enum values, as the
/// strings those indices name, or as a typed array of the same indices
/// encode every chunk of rows alike, where every index names an enum value.
pub proof fn lemma_enum_forms_encode_alike(
    enum_values: Seq<String>,
    indices: Vec<usize>,
    strings: Vec<String>,
    typed: TypedArrayData,
    start: nat,
    len: nat,
    physical: PhysicalType,
    logical: Option<LogicalType>,
)
    requires
        enum_values.len() > 0,
        strings@.len() == indices@.len(),
        forall|j: int| 0 <= j < indices@.len() ==> (#[trigger] indices@[j]) < enum_values.len(),
        forall|j: int|
            0 <= j < indices@.len() ==> (#[trigger] strings@[j])@ == enum_values[indices@[j] as int]@,
        as_indices(typed.values@) == indices@,
        typed_plan_for(typed.kind, physical, logical, true) == TypedPlan::EnumIndices,
    ensures
        chunk_values(
            ColumnInput::Values(ColumnData::EnumIndices(indices)),
            start,
            len,
            physical,
            logical,
            Some(enum_values),
        ) is Ok,
        chunk_values(
            ColumnInput::Values(ColumnData::EnumIndices(indices)),
            start,
            len,
            physical,
            logical,
            Some(enum_values),
        ) == chunk_values(ColumnInput::Values(ColumnData::Text(strings)), start, len, physical, logical, Some(enum_values)),
        chunk_values(
            ColumnInput::Values(ColumnData::EnumIndices(indices)),
            start,
            len,
            physical,
            logical,
            Some(enum_values),
        ) == chunk_values(ColumnInput::Typed(typed), start, len, physical, logical, Some(enum_values)),
{
    let n = indices@.len();
    let lo = min_nat(start, n) as int;
    let hi = min_nat(start + len, n) as int;
    let sub = indices@.subrange(lo, hi);
    assert(typed.values@.len() == n) by {
        assert(as_indices(typed.values@).len() == typed.values@.len());
    }
    assert(as_indices(typed.values@.subrange(lo, hi)) =~= sub);
    crate::encode::lemma_first_none(sub, enum_values.len());
    assert(indices_in_range(sub, enum_values.len())) by {
        assert forall|j: int| 0 <= j < sub.len() implies #[trigger] sub[j] < enum_values.len() by {
            assert(sub[j] == indices@[lo + j]);
        }
    }
    assert(utf8_strings(strings@.subrange(lo, hi)) =~= utf8_strings(
        sub.map_values(|k: usize| enum_values[k as int]),
    )) by {
        assert forall|j: int| 0 <= j < hi - lo implies #[trigger] utf8_strings(strings@.subrange(lo, hi))[j]
            == utf8_strings(sub.map_values(|k: usize| enum_values[k as int]))[j] by {
            assert(strings@[lo + j]@ == enum_values[indices@[lo + j] as int]@);
        }
    }
}

/// The same enum column given as indices, as the strings they name, or as
/// a typed array of the indices, the other columns alike, makes the same
/// file, where every index names one of the column's enum values.
pub proof fn lemma_enum_forms_same_file(
    columns: Seq<ColumnSchema>,
    a: Seq<ColumnInput>,
    b: Seq<ColumnInput>,
    t: Seq<ColumnInput>,
    c: int,
    enum_values: Seq<String>,
    indices: Vec<usize>,
    strings: Vec<String>,
    typed: TypedArrayData,
    total: nat,
    config: WriteConfig,
)
    requires
        a.len() == columns.len(),
        b.len() == columns.len(),
        t.len() == columns.len(),
        0 <= c < columns.len(),
        forall|i: int| 0 <= i < columns.len() && i != c ==> #[trigger] a[i] == b[i] && a[i] == t[i],
        a[c] == ColumnInput::Values(ColumnData::EnumIndices(indices)),
        b[c] == ColumnInput::Values(ColumnData::Text(strings)),
        t[c] == ColumnInput::Typed(typed),
        enum_value_views(columns[c]) == Some(enum_values),
        enum_values.len() > 0,
        strings@.len() == indices@.len(),
        forall|j: int| 0 <= j < indices@.len() ==> (#[trigger] indices@[j]) < enum_values.len(),
        forall|j: int|
            0 <= j < indices@.len() ==> (#[trigger] strings@[j])@ == enum_values[indices@[j] as int]@,
        as_indices(typed.values@) == indices@,
        typed_plan_for(typed.kind, physical_for(columns[c].col_type@), schema_logical(columns[c]), true)
            == TypedPlan::EnumIndices,
    ensures
        written_file(columns, a, total, config) == written_file(columns, b, total, config),
        written_file(columns, a, total, config) == written_file(columns, t, total, config),
{
    let size = config.row_group_size as nat;
    assert forall|k: nat, i: int| k < group_count(total, size) && 0 <= i < columns.len() implies #[trigger] chunk_outcome(
        columns,
        a,
        total,
        size,
        k,
        i,
    ) == chunk_outcome(columns, b, total, size, k, i) && chunk_outcome(columns, a, total, size, k, i)
        == chunk_outcome(columns, t, total, size, k, i) by {
        if i == c {
            lemma_enum_forms_encode_alike(
                enum_values,
                indices,
                strings,
                typed,
                group_range(total, size, k).0,
                group_range(total, size, k).1,
                physical_for(columns[c].col_type@),
                schema_logical(columns[c]),
            );
        }
    }
    assert forall|k: nat, i: int| k < group_count(total, size) && 0 <= i < columns.len() implies #[trigger] chunk_def_bytes(
        a[i],
        group_range(total, size, k).0,
        group_range(total, size, k).1,
        column_max_def(columns[i]),
    ) == chunk_def_bytes(
        b[i],
        group_range(total, size, k).0,
        group_range(total, size, k).1,
        column_max_def(columns[i]),
    ) && chunk_def_bytes(
        a[i],
        group_range(total, size, k).0,
        group_range(total, size, k).1,
        column_max_def(columns[i]),
    ) == chunk_def_bytes(
        t[i],
        group_range(total, size, k).0,
        group_range(total, size, k).1,
        column_max_def(columns[i]),
    ) by {
    }
    lemma_same_chunks_same_file(columns, a, b, total, config);
    lemma_same_chunks_same_file(columns, a, t, total, config);
}

/// A PLAIN data page of `num_rows` rows of a column: its values, after its
/// definition levels (with their length) when the column has them, under a
/// version-1 header whose definition levels are RLE-encoded when present.
fn create_data_page(
    encoded_data: Vec<u8>,
    definition_levels: Option<Vec<u8>>,
    num_rows: usize,
    descriptor: &ColumnDescriptor,
) -> (page: parquet2::page::DataPage)
    ensures
        data_page_buffer(page) == page_bytes(
            encoded_data@,
            match definition_levels {
                Some(d) => Some(d@),
                None => None,
            },
            descriptor.max_def_level,
        ),
        data_page_num_values(page) == (num_rows as i32) as usize,
        data_page_encoding(page) == Encoding::Plain,
        data_page_def_encoding(page) == (if descriptor.max_def_level > 0 {
            Encoding::Rle
        } else {
            Encoding::Plain
        }),
        data_page_rep_encoding(page) == Encoding::Rle,
        !data_page_has_statistics(page),
        page == page_made(
            page_bytes(
                encoded_data@,
                match definition_levels {
                    Some(d) => Some(d@),
                    None => None,
                },
                descriptor.max_def_level,
            ),
            num_rows as i32,
            Encoding::Plain,
            if descriptor.max_def_level > 0 {
                Encoding::Rle
            } else {
                Encoding::Plain
            },
            Encoding::Rle,
            (info_view(descriptor.info), descriptor.max_def_level, descriptor.max_rep_level),
            num_rows,
        ),
{
    let buffer = page_buffer(encoded_data, definition_levels, descriptor.max_def_level);
    let def_encoding = if descriptor.max_def_level > 0 {
        Encoding::Rle
    } else {
        Encoding::Plain
    };
    #[verifier::truncate]
    let num_values = num_rows as i32;
    data_page(buffer, num_values, Encoding::Plain, def_encoding, Encoding::Rle, descriptor, num_rows)
}

/// Writes a file of the described columns, `total_rows` rows cut into row
/// groups of `config.row_group_size` rows, each column of each row group one
/// PLAIN data page (with its definition levels when the column is nullable),
/// compressed and versioned as `config` names. Fails with
/// [`WriteError::UuidOnByteArray`] exactly when a column asks for UUIDs on
/// byte arrays; otherwise with [`WriteError::LengthMismatch`] when some
/// column does not hold `total_rows` rows; otherwise with the error of a row
/// group's values that cannot be encoded, or of `parquet2`.
pub fn write_parquet(
    columns: &[ColumnSchema],
    inputs: &[ColumnInput],
    total_rows: usize,
    config: &WriteConfig,
) -> (res: Result<Vec<u8>, WriteError>)
    requires
        inputs@.len() == columns@.len(),
        total_rows > 0 ==> config.row_group_size > 0,
    ensures
        res matches Err(WriteError::UuidOnByteArray) <==> exists|i: int|
            0 <= i < columns@.len() && uuid_on_byte_array(#[trigger] columns@[i]),
        (forall|i: int| 0 <= i < columns@.len() ==> !uuid_on_byte_array(#[trigger] columns@[i]))
            && (exists|i: int| 0 <= i < inputs@.len() && input_rows(#[trigger] inputs@[i]) != total_rows)
            ==> res matches Err(WriteError::LengthMismatch),
        res is Ok ==> forall|i: int| 0 <= i < inputs@.len() ==> input_rows(#[trigger] inputs@[i]) == total_rows,
        res is Ok ==> all_chunks_encode(
            columns@,
            inputs@,
            total_rows as nat,
            config.row_group_size as nat,
        ),
        (forall|i: int| 0 <= i < columns@.len() ==> !uuid_on_byte_array(#[trigger] columns@[i]))
            && (forall|i: int| 0 <= i < inputs@.len() ==> input_rows(#[trigger] inputs@[i]) == total_rows)
            && all_chunks_encode(columns@, inputs@, total_rows as nat, config.row_group_size as nat)
            ==> match written_file(columns@, inputs@, total_rows as nat, *config) {
            Some(b) => res matches Ok(v) && v@ == b,
            None => res matches Err(e) && (e is RowGroup || e is Finish),
        },
        res matches Err(e) ==> (e is UuidOnByteArray || e is LengthMismatch || e is RowGroup
            || e is Finish || some_chunk_fails_with(
            columns@,
            inputs@,
            total_rows as nat,
            config.row_group_size as nat,
            e,
        )),
{
    let compression = get_compression(config.compression.as_str());
    let fields = match build_schema_fields(columns) {
        Err(e) => return Err(e),
        Ok(f) => f,
    };
    let mut j: usize = 0;
    while j < inputs.len()
        invariant
            j <= inputs@.len(),
            forall|i: int| 0 <= i < j ==> input_rows(#[trigger] inputs@[i]) == total_rows,
            forall|i: int| 0 <= i < columns@.len() ==> !uuid_on_byte_array(#[trigger] columns@[i]),
        decreases inputs@.len() - j,
    {
        if input_row_count(&inputs[j]) != total_rows {
            return Err(WriteError::LengthMismatch);
        }
        j = j + 1;
    }
    let schema = schema_descriptor(owned("schema"), fields.as_slice());
    let ghost schema_g = schema;
    assert(fields@.map_values(|f: PrimitiveInfo| info_view(f)) =~= columns@.map_values(
        |c: ColumnSchema| column_info_view(c),
    )) by {
        assert forall|i: int| 0 <= i < columns@.len() implies info_view(#[trigger] fields@[i])
            == column_info_view(columns@[i]) by {
            assert(field_of(fields@[i], columns@[i]));
        }
    }
    assert(schema_g == file_schema(columns@));
    let version = get_version_option(config.version.as_str());
    let mut sink = file_writer(schema, false, version);
    let ghost total = total_rows as nat;
    let ghost size = config.row_group_size as nat;
    let ghost groups = planned_groups(columns@, inputs@, total, size, compression);
    assert(sink_written(sink).3 =~= groups.take(0));
    if total_rows > 0 {
        let ranges = row_group_ranges(total_rows, config.row_group_size);
        let mut k: usize = 0;
        while k < ranges.len()
            invariant
                k <= ranges@.len(),
                inputs@.len() == columns@.len(),
                size > 0,
                total == total_rows,
                size == config.row_group_size,
                ranges@.len() == group_count(total, size),
                forall|j: int|
                    0 <= j < ranges@.len() ==> (#[trigger] ranges@[j]).0 as nat == group_range(total, size, j as nat).0
                        && ranges@[j].1 as nat == group_range(total, size, j as nat).1,
                forall|j: int| 0 <= j < ranges@.len() ==> (#[trigger] ranges@[j]).0 + ranges@[j].1 <= total_rows,
                forall|i: int| 0 <= i < columns@.len() ==> !uuid_on_byte_array(#[trigger] columns@[i]),
                forall|i: int| 0 <= i < inputs@.len() ==> input_rows(#[trigger] inputs@[i]) == total_rows,
                forall|kk: nat, i: int|
                    kk < k && 0 <= i < columns@.len() ==> #[trigger] chunk_outcome(
                        columns@,
                        inputs@,
                        total,
                        size,
                        kk,
                        i,
                    ) is Ok,
                groups == planned_groups(columns@, inputs@, total, size, compression),
                schema_g == file_schema(columns@),
                version == version_for(config.version@),
                compression == compression_for(config.compression@),
                sink_written(sink) == (schema_g, false, version, groups.take(k as int)),
                forall|kk: int| 0 <= kk < k ==> #[trigger] group_accepted(
                    schema_g,
                    false,
                    version,
                    groups.take(kk),
                    groups[kk].0,
                    groups[kk].1,
                ),
            decreases ranges@.len() - k,
        {
            let (start, rows) = ranges[k];
            let mut pages: Vec<parquet2::page::DataPage> = Vec::new();
            let mut i: usize = 0;
            while i < columns.len()
                invariant
                    i <= columns@.len(),
                    k < ranges@.len(),
                    inputs@.len() == columns@.len(),
                    size > 0,
                    total == total_rows,
                    size == config.row_group_size,
                    ranges@.len() == group_count(total, size),
                    start as nat == group_range(total, size, k as nat).0,
                    rows as nat == group_range(total, size, k as nat).1,
                    start + rows <= total_rows,
                    forall|i2: int| 0 <= i2 < columns@.len() ==> !uuid_on_byte_array(#[trigger] columns@[i2]),
                    forall|i2: int| 0 <= i2 < inputs@.len() ==> input_rows(#[trigger] inputs@[i2]) == total_rows,
                    forall|kk: nat, i2: int|
                        (kk < k || (kk == k && i2 < i)) && 0 <= i2 < columns@.len() ==> #[trigger] chunk_outcome(
                            columns@,
                            inputs@,
                            total,
                            size,
                            kk,
                            i2,
                        ) is Ok,
                    pages@.len() == i,
                    forall|i2: int| 0 <= i2 < i ==> #[trigger] pages@[i2] == planned_page(
                        columns@,
                        inputs@,
                        total,
                        size,
                        k as nat,
                        i2,
                    ),
                decreases columns@.len() - i,
            {
                let col = &columns[i];
                let descriptor = create_descriptor(col);
                let enum_values: Option<&[String]> = match &col.enum_values {
                    Some(v) => Some(v.as_slice()),
                    None => None,
                };
                let values = encode_chunk_values(
                    &inputs[i],
                    start,
                    rows,
                    descriptor.info.physical_type,
                    descriptor.info.logical_type,
                    enum_values,
                );
                let ghost outcome = chunk_outcome(columns@, inputs@, total, size, k as nat, i as int);
                assert(same_outcome(values, outcome));
                let values = match values {
                    Err(e) => {
                        proof {
                            assert(outcome == Err::<Seq<u8>, WriteError>(e));
                            assert(k < group_count(total, size));
                        }
                        return Err(e);
                    },
                    Ok(v) => v,
                };
                let def_levels = match &inputs[i] {
                    ColumnInput::Nullable(mask, _) => {
                        let levels = def_levels_of(mask.as_slice(), start, rows);
                        match encode_definition_levels(levels.as_slice(), descriptor.max_def_level) {
                            Err(e) => return Err(e),
                            Ok(b) => Some(b),
                        }
                    },
                    _ => None,
                };
                let ghost vals = values@;
                let ghost defs = match &def_levels {
                    Some(d) => Some(d@),
                    None => None,
                };
                let page = create_data_page(values, def_levels, rows, &descriptor);
                proof {
                    assert(outcome == Ok::<Seq<u8>, WriteError>(vals));
                    assert(descriptor.max_def_level == column_max_def(*col));
                    assert(defs == chunk_def_bytes(inputs@[i as int], start as nat, rows as nat, column_max_def(*col)));
                    assert(info_view(descriptor.info) == column_info_view(*col));
                    assert(page == planned_page(columns@, inputs@, total, size, k as nat, i as int));
                }
                pages.push(page);
                i = i + 1;
            }
            assert(pages@ =~= groups[k as int].0);
            match write_row_group(&mut sink, pages, compression) {
                Err(e) => {
                    proof {
                        assert(!groups_accepted(schema_g, version, groups)) by {
                            assert(!group_accepted(schema_g, false, version, groups.take(k as int), groups[k as int].0, groups[k as int].1));
                        }
                    }
                    return Err(WriteError::RowGroup(e));
                },
                Ok(()) => {},
            }
            assert(groups.take(k as int).push(groups[k as int]) =~= groups.take(k + 1));
            k = k + 1;
        }
        proof {
            assert(groups.take(k as int) =~= groups);
        }
    }
    proof {
        if total_rows == 0 && size > 0 {
            assert((size - 1) / (size as int) == 0) by (nonlinear_arith)
                requires
                    size > 0,
            ;
            assert(group_count(total, size) == 0);
        }
        if total_rows == 0 {
            assert(groups.len() == 0);
            assert(groups.take(0) =~= groups);
        }
        assert(sink_written(sink).3 == groups);
        assert(groups_accepted(schema_g, version, groups));
    }
    match finish_file(sink) {
        Err(e) => Err(WriteError::Finish(e)),
        Ok(bytes) => Ok(bytes),
    }
}

/// The version of this library.
pub fn get_version() -> (v: String)
    ensures
        v@ == "0.1.0"@,
{
    owned("0.1.0")
}

} // verus!
