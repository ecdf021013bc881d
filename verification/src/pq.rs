//! The calls into `parquet2`. Each item here is trusted: Verus takes its
//! contract as given, and the doc comment above it says what is claimed of
//! the outside code.

use vstd::prelude::*;
use parquet2::encoding::hybrid_rle::{Decoder as RunDecoder, HybridEncoded};
use parquet2::metadata::FileMetaData;
use parquet2::metadata::ColumnDescriptor as PqColumnDescriptor;
use parquet2::page::{CompressedPage, DataPage, Page};
use parquet2::read::PageReader;
use parquet2::schema::types::{ParquetType, PrimitiveLogicalType, PrimitiveType};
use parquet2::schema::types::PhysicalType as PqPhysical;
use parquet2::schema::types::TimeUnit as PqUnit;
use parquet2::schema::types::IntegerType as PqInteger;
use parquet2::schema::Repetition as PqRepetition;
use parquet2::encoding::Encoding as PqEncoding;
use std::io::Cursor;
use crate::levels::{head_panics, head_run};
use crate::plain::from_le32;
use crate::pages::{DataPageParts, DictPageParts, Encoding, LeafColumn, PrimitiveInfo, TopField};
use crate::types::{IntegerType, LogicalType, PhysicalType, Repetition, TimeUnit};

verus! {

/// `parquet2::error::Error`, carried through to the caller as it is.
#[verifier::external_type_specification]
#[verifier::external_body]
pub struct ExParquetError(parquet2::error::Error);

/// One run of an RLE/bit-packing hybrid stream, with its bytes copied out.
#[derive(Debug)]
pub enum RleRun {
    /// Bit-packed values; how many is up to the reader.
    Bitpacked(Vec<u8>),
    /// One value, in `ceil(bit_width / 8)` little-endian bytes, repeated
    /// the given number of times.
    Rle(Vec<u8>, usize),
}

/// `Decoder::new(data, num_bits)` followed by one `next()`: the run at the
/// head of a hybrid stream, with its bytes copied into an [`RleRun`].
/// Claimed, as the source shows (`decoder.rs`, `uleb128.rs`): the result is
/// the run that [`head_run`] reads from `data` (no run once the stream or
/// its header ends, or for 0 bits), and never an error, since the ULEB128
/// reader never reports one. The outside code panics on a header of ten
/// bytes whose last is above 1, on a bit-packed length that overflows, and
/// on an RLE run cut short of its value; `requires` rules those out.
#[verifier::external_body]
pub(crate) fn first_run(data: &[u8], num_bits: usize) -> (r: Option<Result<RleRun, parquet2::error::Error>>)
    requires
        !head_panics(data@, num_bits as nat),
    ensures
        match head_run(data@, num_bits as nat) {
            None => r is None,
            Some((packed, bytes, n, _)) => match r {
                Some(Ok(RleRun::Bitpacked(b))) => packed && b@ == bytes,
                Some(Ok(RleRun::Rle(b, m))) => !packed && b@ == bytes && m == n,
                _ => false,
            },
        },
{
    match RunDecoder::new(data, num_bits).next() {
        None => None,
        Some(Err(e)) => Some(Err(e)),
        Some(Ok(HybridEncoded::Bitpacked(b))) => Some(Ok(RleRun::Bitpacked(b.to_vec()))),
        Some(Ok(HybridEncoded::Rle(b, n))) => Some(Ok(RleRun::Rle(b.to_vec(), n))),
    }
}

/// Bit `k` of a bit-packed buffer (least significant bit of each byte
/// first), as 0 or 1; bits past the end are 0.
pub open spec fn packed_bit(packed: Seq<u8>, k: int) -> nat {
    if 0 <= k && k / 8 < packed.len() && (packed[k / 8] >> ((k % 8) as u8)) & 1u8 == 1u8 {
        1
    } else {
        0
    }
}

/// The number held by `n` packed bits starting at bit `start`, the first
/// bit being the least significant.
pub open spec fn packed_bits_value(packed: Seq<u8>, start: int, n: nat) -> nat
    decreases n,
{
    if n == 0 {
        0
    } else {
        packed_bits_value(packed, start, (n - 1) as nat) + packed_bit(packed, start + n - 1)
            * vstd::arithmetic::power2::pow2((n - 1) as nat)
    }
}

/// The `i`-th value of a bit-packed buffer with `num_bits` bits per value.
pub open spec fn unpacked_value(packed: Seq<u8>, num_bits: nat, i: int) -> nat {
    packed_bits_value(packed, i * num_bits, num_bits)
}

/// `parquet2::encoding::bitpacked::Decoder::<u32>::try_new(packed,
/// num_bits, length)`, collected. Claimed, from the format's definition of
/// bit-packing: it fails exactly when `num_bits` is 0 or `packed` holds
/// fewer than `length * num_bits` bits, and otherwise gives `length` values,
/// the `i`-th made of bits `i * num_bits ..` of `packed`, least significant
/// first. The outside code panics for `num_bits` above 32, which `requires`
/// rules out.
#[verifier::external_body]
pub(crate) fn unpack_u32(packed: &[u8], num_bits: usize, length: usize) -> (r: Result<
    Vec<u32>,
    parquet2::error::Error,
>)
    requires
        num_bits <= 32,
        length * num_bits <= usize::MAX,
    ensures
        r is Err <==> (num_bits == 0 || packed@.len() * 8 < length * num_bits),
        r matches Ok(v) ==> v@.len() == length && forall|i: int|
            0 <= i < length ==> #[trigger] v@[i] as nat == unpacked_value(
                packed@,
                num_bits as nat,
                i,
            ),
{
    parquet2::encoding::bitpacked::Decoder::<u32>::try_new(packed, num_bits, length).map(
        |d| d.collect(),
    )
}


/// `parquet2::encoding::bitpacked::Decoder::<u64>::try_new(packed,
/// num_bits, length)`, collected. Claimed, as for [`unpack_u32`]: it fails
/// exactly when `num_bits` is 0 or `packed` holds fewer than
/// `length * num_bits` bits, and otherwise gives `length` values, the `i`-th
/// made of bits `i * num_bits ..` of `packed`, least significant first. The
/// outside code panics for `num_bits` above 64, which `requires` rules out.
#[verifier::external_body]
pub(crate) fn unpack_u64(packed: &[u8], num_bits: usize, length: usize) -> (r: Result<
    Vec<u64>,
    parquet2::error::Error,
>)
    requires
        num_bits <= 64,
        length * num_bits <= usize::MAX,
    ensures
        r is Err <==> (num_bits == 0 || packed@.len() * 8 < length * num_bits),
        r matches Ok(v) ==> v@.len() == length && forall|i: int|
            0 <= i < length ==> #[trigger] v@[i] as nat == unpacked_value(
                packed@,
                num_bits as nat,
                i,
            ),
{
    parquet2::encoding::bitpacked::Decoder::<u64>::try_new(packed, num_bits, length).map(
        |d| d.collect(),
    )
}

/// `parquet2::metadata::FileMetaData`: a file's footer, parsed.
#[verifier::external_type_specification]
#[verifier::external_body]
pub struct ExFileMetaData(FileMetaData);

/// `parquet2::schema::types::PrimitiveType`.
#[verifier::external_type_specification]
#[verifier::external_body]
pub struct ExPrimitiveType(PrimitiveType);

/// `parquet2::schema::types::PrimitiveLogicalType`.
#[verifier::external_type_specification]
#[verifier::external_body]
pub struct ExPrimitiveLogicalType(PrimitiveLogicalType);

/// `parquet2::schema::types::PhysicalType`.
#[verifier::external_type_specification]
#[verifier::external_body]
pub struct ExPqPhysicalType(PqPhysical);

/// `parquet2::schema::types::TimeUnit`.
#[verifier::external_type_specification]
#[verifier::external_body]
pub struct ExPqTimeUnit(PqUnit);

/// `parquet2::schema::types::IntegerType`.
#[verifier::external_type_specification]
#[verifier::external_body]
pub struct ExPqIntegerType(PqInteger);

/// `parquet2::schema::Repetition`.
#[verifier::external_type_specification]
#[verifier::external_body]
pub struct ExPqRepetition(PqRepetition);

/// `parquet2::encoding::Encoding`.
#[verifier::external_type_specification]
#[verifier::external_body]
pub struct ExPqEncoding(PqEncoding);

/// The pages of one column chunk, read in order by a
/// `parquet2::read::PageReader` over the file in memory. Verus refuses a
/// declaration of `PageReader` (its `Read` bound), so it is held here.
#[verifier::external_body]
pub struct ColumnPages<'a> {
    reader: PageReader<Cursor<&'a [u8]>>,
}

/// `parquet2::page::CompressedPage`.
#[verifier::external_type_specification]
#[verifier::external_body]
pub struct ExCompressedPage(CompressedPage);

/// `parquet2::page::Page`.
#[verifier::external_type_specification]
#[verifier::external_body]
pub struct ExPage(Page);

/// `parquet2::page::DataPage`.
#[verifier::external_type_specification]
#[verifier::external_body]
pub struct ExDataPage(DataPage);

/// A physical type of `parquet2` as the library's own.
#[verifier::external_body]
fn physical_of(pt: PqPhysical) -> PhysicalType {
    match pt {
        PqPhysical::Boolean => PhysicalType::Boolean,
        PqPhysical::Int32 => PhysicalType::Int32,
        PqPhysical::Int64 => PhysicalType::Int64,
        PqPhysical::Int96 => PhysicalType::Int96,
        PqPhysical::Float => PhysicalType::Float,
        PqPhysical::Double => PhysicalType::Double,
        PqPhysical::ByteArray => PhysicalType::ByteArray,
        PqPhysical::FixedLenByteArray(n) => PhysicalType::FixedLenByteArray(n),
    }
}

/// A time unit of `parquet2` as the library's own.
#[verifier::external_body]
fn unit_of(u: PqUnit) -> TimeUnit {
    match u {
        PqUnit::Milliseconds => TimeUnit::Milliseconds,
        PqUnit::Microseconds => TimeUnit::Microseconds,
        PqUnit::Nanoseconds => TimeUnit::Nanoseconds,
    }
}

/// An integer type of `parquet2` as the library's own.
#[verifier::external_body]
fn integer_of(t: PqInteger) -> IntegerType {
    match t {
        PqInteger::Int8 => IntegerType::Int8,
        PqInteger::Int16 => IntegerType::Int16,
        PqInteger::Int32 => IntegerType::Int32,
        PqInteger::Int64 => IntegerType::Int64,
        PqInteger::UInt8 => IntegerType::UInt8,
        PqInteger::UInt16 => IntegerType::UInt16,
        PqInteger::UInt32 => IntegerType::UInt32,
        PqInteger::UInt64 => IntegerType::UInt64,
    }
}

/// A logical type of `parquet2` as the library's own.
#[verifier::external_body]
fn logical_of(lt: &PrimitiveLogicalType) -> LogicalType {
    match *lt {
        PrimitiveLogicalType::String => LogicalType::String,
        PrimitiveLogicalType::Enum => LogicalType::Enum,
        PrimitiveLogicalType::Decimal(p, s) => LogicalType::Decimal(p, s),
        PrimitiveLogicalType::Date => LogicalType::Date,
        PrimitiveLogicalType::Time { unit, is_adjusted_to_utc } => LogicalType::Time { unit: unit_of(unit), is_adjusted_to_utc },
        PrimitiveLogicalType::Timestamp { unit, is_adjusted_to_utc } => LogicalType::Timestamp { unit: unit_of(unit), is_adjusted_to_utc },
        PrimitiveLogicalType::Integer(t) => LogicalType::Integer(integer_of(t)),
        PrimitiveLogicalType::Unknown => LogicalType::Unknown,
        PrimitiveLogicalType::Json => LogicalType::Json,
        PrimitiveLogicalType::Bson => LogicalType::Bson,
        PrimitiveLogicalType::Uuid => LogicalType::Uuid,
    }
}

/// A repetition of `parquet2` as the library's own.
#[verifier::external_body]
fn repetition_of(r: PqRepetition) -> Repetition {
    match r {
        PqRepetition::Required => Repetition::Required,
        PqRepetition::Optional => Repetition::Optional,
        PqRepetition::Repeated => Repetition::Repeated,
    }
}

/// A primitive field of `parquet2`, field by field as the library's own.
#[verifier::external_body]
fn primitive_info(pt: &PrimitiveType) -> PrimitiveInfo {
    PrimitiveInfo {
        name: pt.field_info.name.clone(),
        repetition: repetition_of(pt.field_info.repetition),
        physical_type: physical_of(pt.physical_type),
        logical_type: pt.logical_type.as_ref().map(logical_of),
    }
}

/// An encoding of `parquet2` as the library's own.
#[verifier::external_body]
fn encoding_of(e: PqEncoding) -> Encoding {
    match e {
        PqEncoding::Plain => Encoding::Plain,
        PqEncoding::PlainDictionary => Encoding::PlainDictionary,
        PqEncoding::Rle => Encoding::Rle,
        PqEncoding::BitPacked => Encoding::BitPacked,
        PqEncoding::DeltaBinaryPacked => Encoding::DeltaBinaryPacked,
        PqEncoding::DeltaLengthByteArray => Encoding::DeltaLengthByteArray,
        PqEncoding::DeltaByteArray => Encoding::DeltaByteArray,
        PqEncoding::RleDictionary => Encoding::RleDictionary,
        PqEncoding::ByteStreamSplit => Encoding::ByteStreamSplit,
    }
}

/// A parsed footer: `parquet2`'s metadata, with its leaf columns, top-level
/// fields and row-group sizes converted to the library's values.
pub struct FileInfo {
    pub md: FileMetaData,
    pub leaves: Vec<LeafColumn>,
    pub fields: Vec<TopField>,
    pub row_group_sizes: Vec<usize>,
}

/// What `parquet2::read::read_metadata` gives for a file's bytes; `None`
/// where it reports an error.
pub uninterp spec fn parsed_footer(data: Seq<u8>) -> Option<FileMetaData>;

/// A footer's leaf columns (`schema().columns()`), top-level fields
/// (`schema().fields()`) and row-group sizes (each row group's
/// `num_rows()`), converted to the library's values.
pub uninterp spec fn footer_layout(md: FileMetaData) -> (Seq<LeafColumn>, Seq<TopField>, Seq<usize>);

/// The leaf columns, top-level fields and row-group sizes of a file's
/// footer (see [`FileInfo`]); `None` where the footer cannot be read.
pub open spec fn file_metadata(data: Seq<u8>) -> Option<(Seq<LeafColumn>, Seq<TopField>, Seq<usize>)> {
    match parsed_footer(data) {
        Some(md) => Some(footer_layout(md)),
        None => None,
    }
}

/// `parquet2::metadata::ColumnDescriptor`: a leaf column of a schema.
#[verifier::external_type_specification]
#[verifier::external_body]
pub struct ExColumnDescriptor(PqColumnDescriptor);

/// `parquet2::schema::types::ParquetType`: a field of a schema.
#[verifier::external_type_specification]
#[verifier::external_body]
pub struct ExParquetType(ParquetType);

/// A leaf column of `parquet2`, field by field as the library's own.
#[verifier::external_body]
fn leaf_of(cd: &PqColumnDescriptor) -> LeafColumn {
    LeafColumn {
        path: cd.path_in_schema.clone(),
        info: primitive_info(&cd.descriptor.primitive_type),
        max_def_level: cd.descriptor.max_def_level,
        max_rep_level: cd.descriptor.max_rep_level,
    }
}

/// A top-level field of `parquet2`: a primitive one converted field by
/// field, a group only marked as such.
#[verifier::external_body]
fn field_of(f: &ParquetType) -> TopField {
    match f {
        ParquetType::PrimitiveType(pt) => TopField::Primitive(primitive_info(pt)),
        ParquetType::GroupType { .. } => TopField::Group,
    }
}

/// `parquet2::read::read_metadata` on an in-memory file, then
/// `schema().columns()`, `schema().fields()` and each row group's
/// `num_rows()`, converted. Claimed: the footer's parse depends on the bytes
/// alone, so it fails exactly when [`parsed_footer`] is `None` and otherwise
/// gives that footer; the converted schema and row-group sizes depend on the
/// footer alone ([`footer_layout`]).
#[verifier::external_body]
pub(crate) fn read_file_metadata(data: &[u8]) -> (r: Result<FileInfo, parquet2::error::Error>)
    ensures
        r is Ok <==> parsed_footer(data@) is Some,
        r matches Ok(f) ==> parsed_footer(data@) == Some(f.md) && footer_layout(f.md) == (
            f.leaves@,
            f.fields@,
            f.row_group_sizes@,
        ),
{
    let md = parquet2::read::read_metadata(&mut Cursor::new(data))?;
    let leaves = md.schema().columns().iter().map(leaf_of).collect();
    let fields = md.schema().fields().iter().map(field_of).collect();
    let row_group_sizes = md.row_groups.iter().map(|rg| rg.num_rows()).collect();
    Ok(FileInfo { md, leaves, fields, row_group_sizes })
}

/// The pages a column chunk's reader yields: `Missing` where the footer
/// has no such chunk, `Refused` where the reader cannot be made, otherwise
/// the pages it yields before it ends, and whether it ends with an error.
pub enum ChunkStream {
    Missing,
    Refused,
    Pages(Seq<CompressedPage>, bool),
}

/// What the page reader of column chunk `column` of row group `row_group`
/// yields over a file's bytes (see [`ChunkStream`]).
pub uninterp spec fn chunk_stream(md: FileMetaData, row_group: usize, column: usize, data: Seq<u8>) -> ChunkStream;

/// The pages a page reader yields from where it stands until it ends.
pub uninterp spec fn reader_pages(r: ColumnPages) -> Seq<CompressedPage>;

/// Whether a page reader, from where it stands, ends with an error.
pub uninterp spec fn reader_fails(r: ColumnPages) -> bool;

/// `parquet2::read::get_page_iterator` for column chunk `column` of row
/// group `row_group`, over the whole file in memory, with no page filter, no
/// scratch buffer and no page size limit. `None` when there is no such
/// column chunk. Claimed: the reader depends on the footer, the indices and
/// the bytes alone, so what it yields is what [`chunk_stream`] names.
#[verifier::external_body]
pub(crate) fn column_pages<'a>(md: &FileMetaData, row_group: usize, column: usize, data: &'a [u8]) -> (r:
    Option<Result<ColumnPages<'a>, parquet2::error::Error>>)
    ensures
        match chunk_stream(*md, row_group, column, data@) {
            ChunkStream::Missing => r is None,
            ChunkStream::Refused => r matches Some(Err(_)),
            ChunkStream::Pages(ps, fails) => r matches Some(Ok(rd)) && reader_pages(rd) == ps
                && reader_fails(rd) == fails,
        },
{
    md.row_groups.get(row_group).and_then(|rg| rg.columns().get(column)).map(|cm| {
        parquet2::read::get_page_iterator(cm, Cursor::new(data), None, vec![], usize::MAX).map(
            |reader| ColumnPages { reader },
        )
    })
}

/// The bytes of the file that a page reader has not read yet.
pub uninterp spec fn unread_page_bytes(r: ColumnPages) -> nat;

/// `<PageReader as Iterator>::next`. Claimed: a page that comes back has
/// consumed at least one byte of the file (its Thrift header); it is the
/// first of the pages the reader yields ([`reader_pages`]), and the reader
/// goes on with the rest; an error or the end comes only after the last of
/// them, as [`reader_fails`] says. A reader that has ended stays ended: it
/// has seen all the values its chunk holds.
#[verifier::external_body]
pub(crate) fn next_compressed_page(r: &mut ColumnPages) -> (p: Option<
    Result<CompressedPage, parquet2::error::Error>,
>)
    ensures
        p matches Some(Ok(_)) ==> unread_page_bytes(*final(r)) < unread_page_bytes(*old(r)),
        p matches Some(Ok(cp)) ==> reader_pages(*old(r)).len() > 0 && cp == reader_pages(*old(r))[0]
            && reader_pages(*final(r)) == reader_pages(*old(r)).drop_first() && reader_fails(*final(r))
            == reader_fails(*old(r)),
        p matches Some(Err(_)) ==> reader_pages(*old(r)).len() == 0 && reader_fails(*old(r)),
        p is None ==> reader_pages(*old(r)).len() == 0 && !reader_fails(*old(r)),
        p is None ==> reader_pages(*final(r)).len() == 0 && !reader_fails(*final(r)),
{
    r.reader.next()
}

/// The header of a compressed page, as `decompress` reads it: for a
/// version-2 data page, whether it is stored uncompressed and its two level
/// lengths.
pub enum CompressedHeader {
    Dict,
    V1,
    V2 { uncompressed: bool, rep_length: i32, def_length: i32 },
}

/// What a compressed page's header holds, as a [`CompressedHeader`].
pub uninterp spec fn compressed_page_header(p: CompressedPage) -> CompressedHeader;

/// A compressed page's header, its fields moved into a [`CompressedHeader`].
#[verifier::external_body]
pub(crate) fn compressed_header(p: &CompressedPage) -> (h: CompressedHeader)
    ensures
        h == compressed_page_header(*p),
{
    match p {
        CompressedPage::Dict(_) => CompressedHeader::Dict,
        CompressedPage::Data(d) => match d.header() {
            parquet2::page::DataPageHeader::V1(_) => CompressedHeader::V1,
            parquet2::page::DataPageHeader::V2(h) => CompressedHeader::V2 {
                uncompressed: match d.compression() {
                    parquet2::compression::Compression::Uncompressed => true,
                    _ => false,
                },
                rep_length: h.repetition_levels_byte_length,
                def_length: h.definition_levels_byte_length,
            },
        },
    }
}

/// Whether `decompress` panics on a page with this header: a compressed
/// version-2 data page whose two level lengths add up past `i32`.
pub open spec fn decompress_panics(h: CompressedHeader) -> bool {
    match h {
        CompressedHeader::V2 { uncompressed, rep_length, def_length } => !uncompressed && !(i32::MIN
            <= rep_length + def_length <= i32::MAX),
        _ => false,
    }
}

/// What `parquet2::read::decompress` gives for a compressed page; `None`
/// where it reports an error.
pub uninterp spec fn decompressed(p: CompressedPage) -> Option<Page>;

/// `parquet2::read::decompress` with a fresh buffer. Claimed: the result
/// depends on the page alone ([`decompressed`]). The outside code panics on
/// a compressed version-2 page whose level lengths add up past `i32`
/// (`compression.rs`); `requires` rules that out.
#[verifier::external_body]
pub(crate) fn decompress_page(p: CompressedPage) -> (r: Result<Page, parquet2::error::Error>)
    requires
        !decompress_panics(compressed_page_header(p)),
    ensures
        match decompressed(p) {
            Some(pg) => r matches Ok(x) && x == pg,
            None => r is Err,
        },
{
    parquet2::read::decompress(p, &mut vec![])
}

/// A page, told apart: a dictionary page with its buffer and value count
/// moved out, or a data page as it is.
pub enum PageParts {
    Dict(DictPageParts),
    Data(DataPage),
}

/// A page as its kind: a dictionary page's buffer and value count, or a
/// data page.
pub enum PageSplit {
    Dict(Seq<u8>, usize),
    Data(DataPage),
}

/// Which kind a `parquet2::page::Page` is, and what it holds.
pub uninterp spec fn page_split(p: Page) -> PageSplit;

/// Tells the two kinds of `parquet2::page::Page` apart.
#[verifier::external_body]
pub(crate) fn page_parts(p: Page) -> (r: PageParts)
    ensures
        match page_split(p) {
            PageSplit::Dict(b, n) => r matches PageParts::Dict(d) && d.buffer@ == b && d.num_values == n,
            PageSplit::Data(dp) => r matches PageParts::Data(x) && x == dp,
        },
{
    match p {
        Page::Dict(d) => PageParts::Dict(DictPageParts { buffer: d.buffer, num_values: d.num_values }),
        Page::Data(d) => PageParts::Data(d),
    }
}

/// What `DataPage::buffer` returns: the page's bytes.
pub uninterp spec fn data_page_buffer(p: DataPage) -> Seq<u8>;

/// What `DataPage::num_values` returns: its header's value count, as `usize`.
pub uninterp spec fn data_page_num_values(p: DataPage) -> usize;

/// Whether `DataPage::statistics` returns any statistics.
pub uninterp spec fn data_page_has_statistics(p: DataPage) -> bool;

/// What `DataPage::encoding` returns, as the library's [`Encoding`].
pub uninterp spec fn data_page_encoding(p: DataPage) -> Encoding;

/// What `DataPage::definition_level_encoding` returns, as the library's
/// [`Encoding`].
pub uninterp spec fn data_page_def_encoding(p: DataPage) -> Encoding;

/// What `DataPage::repetition_level_encoding` returns, as the library's
/// [`Encoding`].
pub uninterp spec fn data_page_rep_encoding(p: DataPage) -> Encoding;

/// The header of a data page, as the file gives it: the encoding's Thrift
/// code and, for a version-2 header, the byte lengths of the repetition and
/// definition levels.
pub enum PageHeader {
    V1 { encoding: i32 },
    V2 { encoding: i32, rep_length: i32, def_length: i32 },
}

/// What `DataPage::header` returns, as a [`PageHeader`].
pub uninterp spec fn data_page_header(p: DataPage) -> PageHeader;

/// `DataPage::header`, its fields moved into a [`PageHeader`].
#[verifier::external_body]
pub(crate) fn page_header(p: &DataPage) -> (h: PageHeader)
    ensures
        h == data_page_header(*p),
{
    match p.header() {
        parquet2::page::DataPageHeader::V1(d) => PageHeader::V1 { encoding: d.encoding.0 },
        parquet2::page::DataPageHeader::V2(d) => PageHeader::V2 {
            encoding: d.encoding.0,
            rep_length: d.repetition_levels_byte_length,
            def_length: d.definition_levels_byte_length,
        },
    }
}

/// `DataPage::buffer().len()`.
#[verifier::external_body]
pub(crate) fn page_buffer_len(p: &DataPage) -> (n: usize)
    ensures
        n == data_page_buffer(*p).len(),
{
    p.buffer().len()
}

/// Whether an encoding's Thrift code is one that `parquet2` knows.
pub open spec fn known_encoding(code: i32) -> bool {
    code == 0 || (2 <= code <= 9)
}

/// What a data page's descriptor holds: its maximum repetition and
/// definition levels.
pub uninterp spec fn data_page_max_levels(p: DataPage) -> (i16, i16);

/// `DataPage::descriptor`'s maximum repetition and definition levels.
#[verifier::external_body]
pub(crate) fn page_max_levels(p: &DataPage) -> (r: (i16, i16))
    ensures
        r == data_page_max_levels(*p),
{
    (p.descriptor.max_rep_level, p.descriptor.max_def_level)
}

/// The length that the first four bytes of `b` give, little-endian.
pub open spec fn length_prefix(b: Seq<u8>) -> nat {
    from_le32(b) as nat
}

/// A level section of a version-1 page at the start of `b`: a four-byte
/// little-endian length, then that many bytes; with the bytes after it.
/// `None` where the length or the section runs past the end.
pub open spec fn v1_section(b: Seq<u8>) -> Option<(Seq<u8>, Seq<u8>)> {
    if b.len() < 4 || 4 + length_prefix(b) > b.len() {
        None
    } else {
        Some((b.subrange(4, 4 + length_prefix(b) as int), b.skip(4 + length_prefix(b) as int)))
    }
}

/// Whether four plus the length prefix at the start of `b` overflows
/// `usize`.
pub open spec fn prefix_overflows(b: Seq<u8>) -> bool {
    b.len() >= 4 && 4 + length_prefix(b) > usize::MAX
}

/// The bytes after the repetition levels of a version-1 page: all of them
/// when the column does not repeat; `None` where that section runs past
/// the end.
pub open spec fn after_rep_section(b: Seq<u8>, max_rep: i16) -> Option<Seq<u8>> {
    if max_rep > 0 {
        match v1_section(b) {
            Some((_, rest)) => Some(rest),
            None => None,
        }
    } else {
        Some(b)
    }
}

/// The repetition levels, definition levels and values of a data page,
/// cut as `split_buffer` does: for a version-1 page, a length-prefixed
/// section for each kind of level the column has, then the values; for a
/// version-2 page, sections of the lengths its header gives. `None` where
/// `split_buffer` reports an error.
pub open spec fn page_sections(h: PageHeader, b: Seq<u8>, max_rep: i16, max_def: i16) -> Option<
    (Seq<u8>, Seq<u8>, Seq<u8>),
> {
    match h {
        PageHeader::V1 { .. } => {
            let r = if max_rep > 0 {
                v1_section(b)
            } else {
                Some((Seq::empty(), b))
            };
            match r {
                None => None,
                Some((rep, rest)) => {
                    let d = if max_def > 0 {
                        v1_section(rest)
                    } else {
                        Some((Seq::empty(), rest))
                    };
                    match d {
                        None => None,
                        Some((def, values)) => Some((rep, def, values)),
                    }
                },
            }
        },
        PageHeader::V2 { rep_length, def_length, .. } => if rep_length < 0 || def_length < 0 {
            None
        } else {
            Some(
                (
                    b.take(rep_length as int),
                    b.subrange(rep_length as int, rep_length + def_length),
                    b.skip(rep_length + def_length),
                ),
            )
        },
    }
}

/// Whether `split_data_page` panics on a page with this header, buffer and
/// levels: an encoding code `parquet2` does not know, a version-1 length
/// prefix that overflows `usize` when four is added, or version-2 level
/// lengths past the buffer.
pub open spec fn split_panics(h: PageHeader, b: Seq<u8>, max_rep: i16, max_def: i16) -> bool {
    match h {
        PageHeader::V1 { encoding } => !known_encoding(encoding) || (max_rep > 0 && prefix_overflows(b))
            || (max_def > 0 && (after_rep_section(b, max_rep) matches Some(rest) && prefix_overflows(
            rest,
        ))),
        PageHeader::V2 { encoding, rep_length, def_length } => !known_encoding(encoding) || (
        rep_length >= 0 && def_length >= 0 && rep_length + def_length > b.len()),
    }
}

/// `parquet2::page::split_buffer` on a data page, with the three sections
/// copied out, and the page's `num_values()`, `encoding()` and descriptor's
/// `max_def_level`. Claimed, as `split_buffer` shows: the sections are
/// those of [`page_sections`], and it fails exactly where that is `None`;
/// the value count, encoding and maximum definition level are the page's
/// `num_values()`, `encoding()` and descriptor's. The outside code panics
/// where [`split_panics`] holds; `requires` rules that out.
#[verifier::external_body]
pub(crate) fn split_data_page(p: &DataPage) -> (r: Result<DataPageParts, parquet2::error::Error>)
    requires
        !split_panics(
            data_page_header(*p),
            data_page_buffer(*p),
            data_page_max_levels(*p).0,
            data_page_max_levels(*p).1,
        ),
    ensures
        match page_sections(
            data_page_header(*p),
            data_page_buffer(*p),
            data_page_max_levels(*p).0,
            data_page_max_levels(*p).1,
        ) {
            None => r is Err,
            Some((rep, def, values)) => r matches Ok(parts) && parts.rep_levels@ == rep
                && parts.def_levels@ == def && parts.values@ == values,
        },
        r matches Ok(parts) ==> parts.num_values == data_page_num_values(*p) && parts.encoding
            == data_page_encoding(*p) && parts.max_def_level == data_page_max_levels(*p).1,
{
    let (rep, def, values) = parquet2::page::split_buffer(p)?;
    Ok(DataPageParts {
        rep_levels: rep.to_vec(),
        def_levels: def.to_vec(),
        values: values.to_vec(),
        num_values: p.num_values(),
        max_def_level: p.descriptor.max_def_level,
        encoding: encoding_of(p.encoding()),
    })
}

/// `DataPage::buffer()` copied out, with `num_values()`.
#[verifier::external_body]
pub(crate) fn raw_data_page(p: &DataPage) -> (r: (Vec<u8>, usize))
    ensures
        r.0@ == data_page_buffer(*p),
        r.1 == data_page_num_values(*p),
{
    (p.buffer().to_vec(), p.num_values())
}


} // verus!
