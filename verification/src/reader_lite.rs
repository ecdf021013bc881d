//! The lite reader: the primitive top-level fields of a file, with
//! definition levels, dictionaries and PLAIN values decoded, but neither the
//! delta encodings nor nesting.

use vstd::prelude::*;
use crate::column::ReadError;
use crate::output::{column_names, NamedColumn};
use crate::pages::{PrimitiveInfo, TopField};
use crate::pq::{file_metadata, footer_layout, parsed_footer, read_file_metadata};
use crate::reader::{
    asked_names, read_top_level_columns, sum_rows, top_columns_read, top_read_schedule,
    top_schedule_decodes, total_rows, TopMode,
};
use crate::select::{chosen_fields, lemma_top_result_names, top_names_to_read, primitive_infos, string_views};
use crate::types::{
    logical_type_name, logical_type_to_string, owned, physical_type_name, physical_type_to_string,
    LogicalType, Repetition,
};

verus! {

/// A column as the metadata reports it, with its logical type's name.
#[derive(Debug)]
pub struct ColumnInfo {
    pub name: String,
    pub col_type: String,
    pub nullable: bool,
    pub logical_type: Option<String>,
}

/// What the metadata of a file reports: its rows, row groups and columns.
#[derive(Debug)]
pub struct ParquetMetadata {
    pub num_rows: u64,
    pub num_row_groups: usize,
    pub columns: Vec<ColumnInfo>,
}

/// Whether `name` is the reported name of the logical type `lt`, if any.
pub open spec fn names_logical(name: Option<String>, lt: Option<LogicalType>) -> bool {
    match lt {
        None => name is None,
        Some(l) => name matches Some(s) && s@ == logical_type_name(l),
    }
}

/// The reported name of a logical type, if there is one.
pub fn logical_name(lt: Option<LogicalType>) -> (r: Option<String>)
    ensures
        names_logical(r, lt),
{
    match lt {
        None => None,
        Some(l) => Some(logical_type_to_string(l)),
    }
}

/// Whether `c` reports the primitive field `p`.
pub open spec fn describes(c: ColumnInfo, p: PrimitiveInfo) -> bool {
    &&& c.name@ == p.name@
    &&& c.col_type@ == physical_type_name(p.physical_type)
    &&& c.nullable == (p.repetition != Repetition::Required)
    &&& names_logical(c.logical_type, p.logical_type)
}

/// The report of one primitive field.
pub fn column_info(p: &PrimitiveInfo) -> (c: ColumnInfo)
    ensures
        describes(c, *p),
{
    ColumnInfo {
        name: p.name.clone(),
        col_type: physical_type_to_string(p.physical_type),
        nullable: p.repetition != Repetition::Required,
        logical_type: logical_name(p.logical_type),
    }
}

/// Whether `m` reports a file with the given top-level fields and row group
/// sizes: the row count modulo 2^64, the row group count, and one column,
/// with its logical type, for each primitive top-level field.
pub open spec fn reports_typed_fields(m: ParquetMetadata, fields: Seq<TopField>, sizes: Seq<usize>) -> bool {
    &&& m.num_rows as int == sum_rows(sizes) % 0x1_0000_0000_0000_0000
    &&& m.num_row_groups == sizes.len()
    &&& m.columns@.len() == primitive_infos(fields).len()
    &&& forall|i: int|
        0 <= i < m.columns@.len() ==> describes(#[trigger] m.columns@[i], primitive_infos(fields)[i])
}

/// The metadata report of a file with the given top-level fields and row
/// group sizes: one column for each primitive top-level field.
pub fn metadata_of(fields: &[TopField], sizes: &[usize]) -> (m: ParquetMetadata)
    ensures
        reports_typed_fields(m, fields@, sizes@),
{
    let mut columns: Vec<ColumnInfo> = Vec::new();
    let mut i: usize = 0;
    while i < fields.len()
        invariant
            i <= fields@.len(),
            columns@.len() == primitive_infos(fields@.take(i as int)).len(),
            forall|j: int|
                0 <= j < columns@.len() ==> describes(
                    #[trigger] columns@[j],
                    primitive_infos(fields@.take(i as int))[j],
                ),
        decreases fields@.len() - i,
    {
        assert(fields@.take(i + 1).drop_last() =~= fields@.take(i as int));
        match &fields[i] {
            TopField::Primitive(p) => {
                columns.push(column_info(p));
            },
            TopField::Group => {},
        }
        i = i + 1;
    }
    assert(fields@.take(fields@.len() as int) =~= fields@);
    ParquetMetadata { num_rows: total_rows(sizes), num_row_groups: sizes.len(), columns }
}

/// Reads the metadata of a file: its row count (modulo 2^64), row group
/// count, and its primitive top-level fields (see [`metadata_of`]).
pub fn read_parquet_metadata(data: &[u8]) -> (res: Result<ParquetMetadata, ReadError>)
    ensures
        res is Ok <==> file_metadata(data@) is Some,
        res matches Err(e) ==> e is Metadata,
        res matches Ok(m) ==> (file_metadata(data@) matches Some((_, fields, sizes))
            && reports_typed_fields(m, fields, sizes)),
{
    let info = match read_file_metadata(data) {
        Err(e) => return Err(ReadError::Metadata(e)),
        Ok(i) => i,
    };
    Ok(metadata_of(info.fields.as_slice(), info.row_group_sizes.as_slice()))
}

/// Reads the primitive top-level fields asked for (all of them when
/// `columns` is `None`), decoding levels, dictionaries and PLAIN values.
/// The columns returned have distinct names, each one asked for.
pub fn read_parquet(data: &[u8], columns: Option<Vec<String>>) -> (res: Result<
    Vec<NamedColumn>,
    ReadError,
>)
    ensures
        file_metadata(data@) is None ==> res matches Err(ReadError::Metadata(_)),
        res matches Ok(cols) ==> column_names(cols@).no_duplicates(),
        res matches Ok(cols) ==> (columns matches Some(c) ==> forall|x: Seq<char>|
            #[trigger] column_names(cols@).contains(x) ==> string_views(c@).contains(x)),
        res matches Ok(cols) ==> (parsed_footer(data@) matches Some(md) && top_columns_read(
            cols@,
            md,
            data@,
            footer_layout(md).1,
            asked_names(columns),
            footer_layout(md).2.len(),
            TopMode::Decoded,
        )),
        parsed_footer(data@) matches Some(md) ==> (res is Ok <==> top_schedule_decodes(
            top_read_schedule(
                footer_layout(md).1,
                top_names_to_read(footer_layout(md).1, asked_names(columns)),
                footer_layout(md).2.len(),
            ),
            md,
            data@,
            footer_layout(md).1,
            TopMode::Decoded,
        )),
        (file_metadata(data@) matches Some((_, fields, sizes)) && (sizes.len() == 0 || chosen_fields(
            fields,
            top_names_to_read(fields, asked_names(columns)),
        ).len() == 0)) ==> (res matches Ok(cols) && cols@.len() == 0),
{
    let info = match read_file_metadata(data) {
        Err(e) => return Err(ReadError::Metadata(e)),
        Ok(i) => i,
    };
    let n = info.row_group_sizes.len();
    let ghost asked = asked_names(columns);
    let r = read_top_level_columns(&info.md, data, info.fields.as_slice(), n, columns, TopMode::Decoded);
    proof {
        lemma_top_result_names(info.fields@, asked, n as nat);
    }
    r
}

/// The version of this library.
pub fn get_version() -> (v: String)
    ensures
        v@ == "0.1.0"@,
{
    owned("0.1.0")
}

} // verus!
