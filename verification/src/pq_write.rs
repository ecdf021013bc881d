//! The calls into `parquet2` that write a file. Each item here is trusted:
//! Verus takes its contract as given, and the doc comment above it says what
//! is claimed of the outside code.

use vstd::prelude::*;
use parquet2::compression::CompressionOptions;
use parquet2::encoding::Encoding as PqEncoding;
use parquet2::metadata::{Descriptor, SchemaDescriptor};
use parquet2::page::{CompressedPage, DataPage, DataPageHeader, DataPageHeaderV1, Page};
use parquet2::schema::types::{FieldInfo, ParquetType, PrimitiveLogicalType, PrimitiveType};
use parquet2::schema::types::PhysicalType as PqPhysical;
use parquet2::schema::types::TimeUnit as PqUnit;
use parquet2::schema::types::IntegerType as PqInteger;
use parquet2::schema::Repetition as PqRepetition;
use parquet2::write::{Compressor, DynIter, DynStreamingIterator, FileWriter, Version, WriteOptions};
use crate::levels::is_bitpacked_run;
use crate::pages::{info_view, Encoding, PrimitiveInfo};
use vstd::arithmetic::power2::pow2;
use crate::pq::{
    data_page_buffer, data_page_def_encoding, data_page_encoding, data_page_has_statistics,
    data_page_num_values, data_page_rep_encoding,
};
use crate::types::{IntegerType, LogicalType, PhysicalType, Repetition, TimeUnit};
use crate::writer::{ColumnDescriptor, Compression, WriteVersion};

verus! {

/// The bytes that `parquet2::encoding::hybrid_rle::encode_u32` writes for
/// the given values and bit width.
pub uninterp spec fn hybrid_rle_u32(levels: Seq<u32>, num_bits: u32) -> Seq<u8>;

/// `parquet2::encoding::hybrid_rle::encode_u32` into a new buffer: one
/// bit-packed run holding all the values. Claimed: what it writes depends on
/// the values and the bit width alone, and it succeeds, since writing into
/// a `Vec<u8>` never fails (`None` would stand for an error of the buffer).
/// Claimed too, as `encoder.rs` shows for values that fit the width: the
/// run is `uleb128::encode(ceil8(n) << 1 | 1)`, then the values bit-packed
/// 32 at a time, least significant bit first, `ceil8(n * num_bits)` bytes
/// in all (see [`is_bitpacked_run`]; the bits past the values are not
/// claimed, since the last group is packed with whatever the buffer still
/// held). The outside code panics for a bit width above 32, which
/// `requires` rules out.
#[verifier::external_body]
pub(crate) fn encode_levels_u32(levels: &[u32], num_bits: u32) -> (r: Option<Vec<u8>>)
    requires
        num_bits <= 32,
    ensures
        r is Some,
        r matches Some(b) ==> b@ == hybrid_rle_u32(levels@, num_bits),
        r matches Some(b) ==> (1 <= num_bits && (forall|i: int|
            0 <= i < levels@.len() ==> (#[trigger] levels@[i] as nat) < pow2(num_bits as nat)))
            ==> is_bitpacked_run(b@, levels@, num_bits as nat),
{
    let mut buffer: Vec<u8> = Vec::new();
    match parquet2::encoding::hybrid_rle::encode_u32(&mut buffer, levels.iter().copied(), num_bits) {
        Ok(()) => Some(buffer),
        Err(_) => None,
    }
}

/// `parquet2::metadata::SchemaDescriptor`.
#[verifier::external_type_specification]
#[verifier::external_body]
pub struct ExSchemaDescriptor(SchemaDescriptor);

/// A physical type as `parquet2`'s.
#[verifier::external_body]
fn pq_physical(p: PhysicalType) -> PqPhysical {
    match p {
        PhysicalType::Boolean => PqPhysical::Boolean,
        PhysicalType::Int32 => PqPhysical::Int32,
        PhysicalType::Int64 => PqPhysical::Int64,
        PhysicalType::Int96 => PqPhysical::Int96,
        PhysicalType::Float => PqPhysical::Float,
        PhysicalType::Double => PqPhysical::Double,
        PhysicalType::ByteArray => PqPhysical::ByteArray,
        PhysicalType::FixedLenByteArray(n) => PqPhysical::FixedLenByteArray(n),
    }
}

/// A time unit as `parquet2`'s.
#[verifier::external_body]
fn pq_unit(u: TimeUnit) -> PqUnit {
    match u {
        TimeUnit::Milliseconds => PqUnit::Milliseconds,
        TimeUnit::Microseconds => PqUnit::Microseconds,
        TimeUnit::Nanoseconds => PqUnit::Nanoseconds,
    }
}

/// An integer type as `parquet2`'s.
#[verifier::external_body]
fn pq_integer(t: IntegerType) -> PqInteger {
    match t {
        IntegerType::Int8 => PqInteger::Int8,
        IntegerType::Int16 => PqInteger::Int16,
        IntegerType::Int32 => PqInteger::Int32,
        IntegerType::Int64 => PqInteger::Int64,
        IntegerType::UInt8 => PqInteger::UInt8,
        IntegerType::UInt16 => PqInteger::UInt16,
        IntegerType::UInt32 => PqInteger::UInt32,
        IntegerType::UInt64 => PqInteger::UInt64,
    }
}

/// A logical type as `parquet2`'s.
#[verifier::external_body]
fn pq_logical(l: LogicalType) -> PrimitiveLogicalType {
    match l {
        LogicalType::String => PrimitiveLogicalType::String,
        LogicalType::Enum => PrimitiveLogicalType::Enum,
        LogicalType::Decimal(p, s) => PrimitiveLogicalType::Decimal(p, s),
        LogicalType::Date => PrimitiveLogicalType::Date,
        LogicalType::Time { unit, is_adjusted_to_utc } => PrimitiveLogicalType::Time { unit: pq_unit(unit), is_adjusted_to_utc },
        LogicalType::Timestamp { unit, is_adjusted_to_utc } => PrimitiveLogicalType::Timestamp { unit: pq_unit(unit), is_adjusted_to_utc },
        LogicalType::Integer(t) => PrimitiveLogicalType::Integer(pq_integer(t)),
        LogicalType::Unknown => PrimitiveLogicalType::Unknown,
        LogicalType::Json => PrimitiveLogicalType::Json,
        LogicalType::Bson => PrimitiveLogicalType::Bson,
        LogicalType::Uuid => PrimitiveLogicalType::Uuid,
    }
}

/// A repetition as `parquet2`'s.
#[verifier::external_body]
fn pq_repetition(r: Repetition) -> PqRepetition {
    match r {
        Repetition::Required => PqRepetition::Required,
        Repetition::Optional => PqRepetition::Optional,
        Repetition::Repeated => PqRepetition::Repeated,
    }
}

/// An encoding as `parquet2`'s.
#[verifier::external_body]
fn pq_encoding(e: Encoding) -> PqEncoding {
    match e {
        Encoding::Plain => PqEncoding::Plain,
        Encoding::PlainDictionary => PqEncoding::PlainDictionary,
        Encoding::Rle => PqEncoding::Rle,
        Encoding::BitPacked => PqEncoding::BitPacked,
        Encoding::DeltaBinaryPacked => PqEncoding::DeltaBinaryPacked,
        Encoding::DeltaLengthByteArray => PqEncoding::DeltaLengthByteArray,
        Encoding::DeltaByteArray => PqEncoding::DeltaByteArray,
        Encoding::RleDictionary => PqEncoding::RleDictionary,
        Encoding::ByteStreamSplit => PqEncoding::ByteStreamSplit,
    }
}

/// `parquet2::compression::CompressionOptions`.
#[verifier::external_type_specification]
#[verifier::external_body]
pub struct ExCompressionOptions(CompressionOptions);

/// A compression as `parquet2`'s.
#[verifier::external_body]
fn pq_compression(c: Compression) -> CompressionOptions {
    match c {
        Compression::Uncompressed => CompressionOptions::Uncompressed,
        Compression::Snappy => CompressionOptions::Snappy,
    }
}

/// A primitive field as `parquet2`'s, field by field, with no field id and
/// no converted type.
#[verifier::external_body]
fn pq_primitive(p: &PrimitiveInfo) -> PrimitiveType {
    PrimitiveType {
        field_info: FieldInfo {
            name: p.name.clone(),
            repetition: pq_repetition(p.repetition),
            id: None,
        },
        logical_type: p.logical_type.map(pq_logical),
        converted_type: None,
        physical_type: pq_physical(p.physical_type),
    }
}

/// The schema that `parquet2::metadata::SchemaDescriptor::new` makes of a
/// name and primitive fields, each given as plain values.
pub uninterp spec fn schema_made(
    name: Seq<char>,
    fields: Seq<(Seq<char>, Repetition, PhysicalType, Option<LogicalType>)>,
) -> SchemaDescriptor;

/// `parquet2::metadata::SchemaDescriptor::new` with the given name and one
/// primitive field per entry. Claimed: the descriptor depends on the name
/// and the fields alone ([`schema_made`]).
#[verifier::external_body]
pub(crate) fn schema_descriptor(name: String, fields: &[PrimitiveInfo]) -> (d: SchemaDescriptor)
    ensures
        d == schema_made(name@, fields@.map_values(|f: PrimitiveInfo| info_view(f))),
{
    let mut types: Vec<ParquetType> = Vec::new();
    for f in fields {
        types.push(ParquetType::PrimitiveType(pq_primitive(f)));
    }
    SchemaDescriptor::new(name, types)
}

/// A `parquet2::write::FileWriter` over a buffer in memory. Verus refuses a
/// declaration of `FileWriter` (its `Write` bound), so it is held here.
#[verifier::external_body]
pub struct FileSink {
    writer: FileWriter<Vec<u8>>,
}

/// What a writer was made with (schema, statistics setting, version) and
/// the row groups it has written, each as its pages and their compression.
pub uninterp spec fn sink_written(s: FileSink) -> (
    SchemaDescriptor,
    bool,
    WriteVersion,
    Seq<(Seq<DataPage>, Compression)>,
);

/// Whether `FileWriter::write` accepts a row group of these pages after the
/// given row groups, in a writer made with this schema, statistics setting
/// and version.
pub uninterp spec fn group_accepted(
    schema: SchemaDescriptor,
    write_statistics: bool,
    version: WriteVersion,
    before: Seq<(Seq<DataPage>, Compression)>,
    pages: Seq<DataPage>,
    compression: Compression,
) -> bool;

/// The bytes that `FileWriter::end` leaves in the buffer of a writer made
/// with this schema, statistics setting and version that has written these
/// row groups; `None` where `end` reports an error.
pub uninterp spec fn file_finished(
    schema: SchemaDescriptor,
    write_statistics: bool,
    version: WriteVersion,
    groups: Seq<(Seq<DataPage>, Compression)>,
) -> Option<Seq<u8>>;

/// `parquet2::write::FileWriter::new` over an empty buffer, with the given
/// schema, statistics setting and version, and no creator name. Claimed:
/// the writer has written no row group yet.
#[verifier::external_body]
pub(crate) fn file_writer(schema: SchemaDescriptor, write_statistics: bool, version: WriteVersion) -> (s: FileSink)
    ensures
        sink_written(s) == (schema, write_statistics, version, Seq::<(Seq<DataPage>, Compression)>::empty()),
{
    let version = match version {
        WriteVersion::V1 => Version::V1,
        WriteVersion::V2 => Version::V2,
    };
    FileSink { writer: FileWriter::new(Vec::new(), schema, WriteOptions { write_statistics, version }, None) }
}

/// The page `parquet2::page::DataPage::new` makes of a buffer, a
/// version-1 header of this value count and these encodings with no
/// statistics, a column (its field, maximum definition and repetition
/// levels) and a row count.
pub uninterp spec fn page_made(
    buffer: Seq<u8>,
    num_values: i32,
    encoding: Encoding,
    definition_level_encoding: Encoding,
    repetition_level_encoding: Encoding,
    column: ((Seq<char>, Repetition, PhysicalType, Option<LogicalType>), i16, i16),
    rows: usize,
) -> DataPage;

/// `parquet2::page::DataPage::new` with a version-1 header of the given
/// value count and encodings, no statistics, the given buffer, a descriptor
/// made of the column's layout, and the given row count. Claimed, as the
/// source shows (`new` stores header and buffer as they are, and the
/// accessors read them back): the page's `buffer()` is `buffer`, its
/// `num_values()` is `num_values as usize`, its three encodings are the
/// ones given, and it carries no statistics (the header's are `None`); the
/// whole page depends on the arguments alone ([`page_made`]).
#[verifier::external_body]
pub(crate) fn data_page(
    buffer: Vec<u8>,
    num_values: i32,
    encoding: Encoding,
    definition_level_encoding: Encoding,
    repetition_level_encoding: Encoding,
    column: &ColumnDescriptor,
    rows: usize,
) -> (p: DataPage)
    ensures
        data_page_buffer(p) == buffer@,
        data_page_num_values(p) == num_values as usize,
        data_page_encoding(p) == encoding,
        data_page_def_encoding(p) == definition_level_encoding,
        data_page_rep_encoding(p) == repetition_level_encoding,
        !data_page_has_statistics(p),
        p == page_made(
            buffer@,
            num_values,
            encoding,
            definition_level_encoding,
            repetition_level_encoding,
            (info_view(column.info), column.max_def_level, column.max_rep_level),
            rows,
        ),
{
    let header = DataPageHeader::V1(DataPageHeaderV1 {
        num_values,
        encoding: pq_encoding(encoding).into(),
        definition_level_encoding: pq_encoding(definition_level_encoding).into(),
        repetition_level_encoding: pq_encoding(repetition_level_encoding).into(),
        statistics: None,
    });
    let descriptor = Descriptor {
        primitive_type: pq_primitive(&column.info),
        max_def_level: column.max_def_level,
        max_rep_level: column.max_rep_level,
    };
    DataPage::new(header, buffer, descriptor, Some(rows))
}

/// `parquet2::write::FileWriter::write` of one row group made of one data
/// page per column, each compressed by a `Compressor` with the given
/// compression. Claimed: whether it succeeds depends on what the writer was
/// made with and has written ([`group_accepted`]), and on success the row
/// group is added to what it has written.
#[verifier::external_body]
pub(crate) fn write_row_group(sink: &mut FileSink, pages: Vec<DataPage>, compression: Compression) -> (r: Result<
    (),
    parquet2::error::Error,
>)
    ensures
        r is Ok <==> group_accepted(
            sink_written(*old(sink)).0,
            sink_written(*old(sink)).1,
            sink_written(*old(sink)).2,
            sink_written(*old(sink)).3,
            pages@,
            compression,
        ),
        r is Ok ==> sink_written(*final(sink)) == (
            sink_written(*old(sink)).0,
            sink_written(*old(sink)).1,
            sink_written(*old(sink)).2,
            sink_written(*old(sink)).3.push((pages@, compression)),
        ),
{
    let options = pq_compression(compression);
    let mut columns: Vec<Result<DynStreamingIterator<'static, CompressedPage, parquet2::error::Error>, parquet2::error::Error>> = Vec::new();
    for page in pages {
        let pages = DynIter::new(vec![Ok(Page::Data(page))].into_iter());
        columns.push(Ok(DynStreamingIterator::new(Compressor::new_from_vec(pages, options, vec![]))));
    }
    sink.writer.write(DynIter::new(columns.into_iter()))
}

/// `parquet2::write::FileWriter::end` with no key-value metadata, then the
/// buffer written. Claimed: the outcome depends on what the writer was made
/// with and has written alone ([`file_finished`]).
#[verifier::external_body]
pub(crate) fn finish_file(sink: FileSink) -> (r: Result<Vec<u8>, parquet2::error::Error>)
    ensures
        match file_finished(sink_written(sink).0, sink_written(sink).1, sink_written(sink).2, sink_written(sink).3) {
            Some(b) => r matches Ok(v) && v@ == b,
            None => r is Err,
        },
{
    let mut writer = sink.writer;
    writer.end(None)?;
    Ok(writer.into_inner())
}

} // verus!
