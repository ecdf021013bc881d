//! The basic reader: the primitive top-level fields of a file, each read
//! as values of its physical type, with nulls kept.

use vstd::prelude::*;
use crate::chunk::read_column_chunk;
use crate::column::ReadError;
use crate::cells::CellView;
use crate::chunk::chunk_decoded;
use crate::output::{
    add_names, append_column, column_names, entry_views, first_index, gathered, lemma_add_name_distinct,
    lemma_add_names, lemma_record_read, read_listed, read_pairs, value_entries, EntryView,
    NamedColumn,
};
use crate::pages::{PrimitiveInfo, TopField};
use crate::pq::{file_metadata, footer_layout, parsed_footer, read_file_metadata};
use crate::select::{
    chosen_fields, contains_name, lemma_top_result_names, primitive_infos, primitive_name_list,
    string_views, top_names_to_read, top_result_names,
};
use crate::types::{owned, physical_type_name, physical_type_to_string, LogicalType, Repetition};
use parquet2::metadata::FileMetaData;

verus! {

/// A column as the metadata reports it.
#[derive(Debug)]
pub struct ColumnInfo {
    pub name: String,
    pub col_type: String,
    pub nullable: bool,
}

/// What the metadata of a file reports: its rows, row groups and columns.
#[derive(Debug)]
pub struct ParquetMetadata {
    pub num_rows: u64,
    pub num_row_groups: usize,
    pub columns: Vec<ColumnInfo>,
}

/// The number of rows of all row groups together.
pub open spec fn sum_rows(sizes: Seq<usize>) -> int
    decreases sizes.len(),
{
    if sizes.len() == 0 {
        0
    } else {
        sum_rows(sizes.drop_last()) + sizes.last()
    }
}

/// The number of rows of all row groups together, modulo 2^64.
pub fn total_rows(sizes: &[usize]) -> (n: u64)
    ensures
        n as int == sum_rows(sizes@) % 0x1_0000_0000_0000_0000,
{
    let mut n: u64 = 0;
    let mut i: usize = 0;
    while i < sizes.len()
        invariant
            i <= sizes@.len(),
            n as int == sum_rows(sizes@.take(i as int)) % 0x1_0000_0000_0000_0000,
        decreases sizes@.len() - i,
    {
        assert(sizes@.take(i + 1).drop_last() =~= sizes@.take(i as int));
        let ghost s = sum_rows(sizes@.take(i as int));
        let x = sizes[i] as u64;
        proof {
            vstd::arithmetic::div_mod::lemma_add_mod_noop(s, x as int, 0x1_0000_0000_0000_0000);
            vstd::arithmetic::div_mod::lemma_small_mod(x as nat, 0x1_0000_0000_0000_0000);
            if n + x < 0x1_0000_0000_0000_0000 {
                vstd::arithmetic::div_mod::lemma_small_mod(
                    (n + x) as nat,
                    0x1_0000_0000_0000_0000,
                );
            } else {
                vstd::arithmetic::div_mod::lemma_mod_sub_multiples_vanish(
                    (n + x) as int,
                    0x1_0000_0000_0000_0000,
                );
                vstd::arithmetic::div_mod::lemma_small_mod(
                    (n + x - 0x1_0000_0000_0000_0000) as nat,
                    0x1_0000_0000_0000_0000,
                );
            }
        }
        n = n.wrapping_add(x);
        i = i + 1;
    }
    assert(sizes@.take(sizes@.len() as int) =~= sizes@);
    n
}

/// Whether `c` reports the primitive field `p`.
pub open spec fn describes(c: ColumnInfo, p: PrimitiveInfo) -> bool {
    &&& c.name@ == p.name@
    &&& c.col_type@ == physical_type_name(p.physical_type)
    &&& c.nullable == (p.repetition != Repetition::Required)
}

/// The report of one primitive field.
pub fn column_info(p: &PrimitiveInfo) -> (c: ColumnInfo)
    ensures
        describes(c, *p),
{
    ColumnInfo {
        name: p.name.clone(),
        col_type: physical_type_to_string(p.physical_type),
        nullable: p.repetition != Repetition::Required,
    }
}

/// Whether `m` reports a file with the given top-level fields and row group
/// sizes: the row count modulo 2^64, the row group count, and one column
/// for each primitive top-level field.
pub open spec fn reports_fields(m: ParquetMetadata, fields: Seq<TopField>, sizes: Seq<usize>) -> bool {
    &&& m.num_rows as int == sum_rows(sizes) % 0x1_0000_0000_0000_0000
    &&& m.num_row_groups == sizes.len()
    &&& m.columns@.len() == primitive_infos(fields).len()
    &&& forall|i: int|
        0 <= i < m.columns@.len() ==> describes(#[trigger] m.columns@[i], primitive_infos(fields)[i])
}

/// The metadata report of a file with the given top-level fields and row
/// group sizes: one column for each primitive top-level field.
pub fn metadata_of(fields: &[TopField], sizes: &[usize]) -> (m: ParquetMetadata)
    ensures
        reports_fields(m, fields@, sizes@),
{
    let mut columns: Vec<ColumnInfo> = Vec::new();
    let mut i: usize = 0;
    while i < fields.len()
        invariant
            i <= fields@.len(),
            columns@.len() == primitive_infos(fields@.take(i as int)).len(),
            forall|j: int|
                0 <= j < columns@.len() ==> describes(
                    #[trigger] columns@[j],
                    primitive_infos(fields@.take(i as int))[j],
                ),
        decreases fields@.len() - i,
    {
        assert(fields@.take(i + 1).drop_last() =~= fields@.take(i as int));
        match &fields[i] {
            TopField::Primitive(p) => {
                columns.push(column_info(p));
            },
            TopField::Group => {},
        }
        i = i + 1;
    }
    assert(fields@.take(fields@.len() as int) =~= fields@);
    ParquetMetadata { num_rows: total_rows(sizes), num_row_groups: sizes.len(), columns }
}

/// Reads the metadata of a file: its row count (modulo 2^64), row group
/// count, and its primitive top-level fields (see [`metadata_of`]).
pub fn read_parquet_metadata(data: &[u8]) -> (res: Result<ParquetMetadata, ReadError>)
    ensures
        res is Ok <==> file_metadata(data@) is Some,
        res matches Err(e) ==> e is Metadata,
        res matches Ok(m) ==> (file_metadata(data@) matches Some((_, fields, sizes)) && reports_fields(
            m,
            fields,
            sizes,
        )),
{
    let info = match read_file_metadata(data) {
        Err(e) => return Err(ReadError::Metadata(e)),
        Ok(i) => i,
    };
    Ok(metadata_of(info.fields.as_slice(), info.row_group_sizes.as_slice()))
}

/// How the pages of a top-level column are read.
#[derive(Debug, Clone, Copy, PartialEq, Eq, Structural)]
pub enum TopMode {
    /// Levels, dictionaries and PLAIN values decoded, with nulls put back,
    /// as values of the physical type alone (no logical type).
    Raw,
    /// Levels, dictionaries and PLAIN values decoded; no delta encodings.
    Decoded,
}

/// The text of the names asked for, if any.
pub open spec fn asked_names(columns: Option<Vec<String>>) -> Option<Seq<Seq<char>>> {
    match columns {
        Some(c) => Some(string_views(c@)),
        None => None,
    }
}

/// The name of a top-level field (empty for a group).
pub open spec fn field_name(f: TopField) -> Seq<char> {
    match f {
        TopField::Primitive(p) => p.name@,
        TopField::Group => Seq::empty(),
    }
}

/// The names of the top-level fields, by position.
pub open spec fn field_names(fields: Seq<TopField>) -> Seq<Seq<char>> {
    fields.map_values(|f: TopField| field_name(f))
}

/// The chunks read in row group `rg` among the first `k` fields, as (row
/// group, field position) pairs: each primitive field whose name is to be
/// read, in schema order.
pub open spec fn top_row_schedule(fields: Seq<TopField>, to_read: Seq<Seq<char>>, rg: nat, k: nat) -> Seq<
    (nat, nat),
>
    decreases k,
{
    if k == 0 {
        Seq::empty()
    } else {
        let rest = top_row_schedule(fields, to_read, rg, (k - 1) as nat);
        match fields[k - 1] {
            TopField::Primitive(p) => if to_read.contains(p.name@) {
                rest.push((rg, (k - 1) as nat))
            } else {
                rest
            },
            TopField::Group => rest,
        }
    }
}

/// The chunks read, as (row group, field position) pairs, in the first `n`
/// row groups: row group by row group, each one's chosen fields in schema
/// order.
pub open spec fn top_read_schedule(fields: Seq<TopField>, to_read: Seq<Seq<char>>, n: nat) -> Seq<(nat, nat)>
    decreases n,
{
    if n == 0 {
        Seq::empty()
    } else {
        top_read_schedule(fields, to_read, (n - 1) as nat) + top_row_schedule(
            fields,
            to_read,
            (n - 1) as nat,
            fields.len(),
        )
    }
}

/// What the chunk of row group `rg` of the top-level field at position `k`
/// adds in a file, read in `mode` with no repetition and no delta
/// encodings: each value a row of its own; `Err` where the field is a group
/// or the chunk cannot be read.
pub open spec fn top_chunk_decoded(
    md: FileMetaData,
    data: Seq<u8>,
    fields: Seq<TopField>,
    mode: TopMode,
    rg: nat,
    k: nat,
) -> Result<Seq<EntryView>, ()> {
    match fields[k as int] {
        TopField::Primitive(p) => match chunk_decoded(
            md,
            rg as usize,
            k as usize,
            data,
            p.physical_type,
            mode_logical(mode, p),
            0,
            false,
        ) {
            Ok((c, _)) => Ok(c.map_values(|v: CellView| EntryView::Value(v))),
            Err(_) => Err(()),
        },
        TopField::Group => Err(()),
    }
}

/// Whether a chunk read is of a field and holds what its chunk in that row
/// group of the file adds in `mode`.
pub open spec fn top_read_valid(
    r: (nat, nat, Seq<EntryView>),
    md: FileMetaData,
    data: Seq<u8>,
    fields: Seq<TopField>,
    mode: TopMode,
) -> bool {
    r.1 < fields.len() && top_chunk_decoded(md, data, fields, mode, r.0, r.1) == Ok::<
        Seq<EntryView>,
        (),
    >(r.2)
}

/// Whether every chunk of the schedule names a field and can be read in
/// `mode`.
pub open spec fn top_schedule_decodes(
    schedule: Seq<(nat, nat)>,
    md: FileMetaData,
    data: Seq<u8>,
    fields: Seq<TopField>,
    mode: TopMode,
) -> bool {
    forall|i: int|
        0 <= i < schedule.len() ==> schedule[i].1 < fields.len() && #[trigger] top_chunk_decoded(
            md,
            data,
            fields,
            mode,
            schedule[i].0,
            schedule[i].1,
        ) is Ok
}

/// Whether `cols` is what reading the top-level fields `fields` of a file
/// with `n` row groups in `mode` gives: the names of [`top_result_names`],
/// each column holding, in order, what the file's chunks of fields of its
/// name add, the chunks read in the order of [`top_read_schedule`].
pub open spec fn top_columns_read(
    cols: Seq<NamedColumn>,
    md: FileMetaData,
    data: Seq<u8>,
    fields: Seq<TopField>,
    columns: Option<Seq<Seq<char>>>,
    n: nat,
    mode: TopMode,
) -> bool {
    &&& column_names(cols) == top_result_names(fields, columns, n)
    &&& exists|reads: Seq<(nat, nat, Seq<EntryView>)>|
        #[trigger] read_pairs(reads) == top_read_schedule(fields, top_names_to_read(fields, columns), n)
            && (forall|i: int|
            0 <= i < reads.len() ==> #[trigger] top_read_valid(reads[i], md, data, fields, mode))
            && (forall|j: int|
            0 <= j < cols.len() ==> entry_views(#[trigger] cols[j].entries@) == gathered(
                reads,
                field_names(fields),
                cols[j].name@,
            ))
    &&& forall|j: int| 0 <= j < cols.len() ==> #[trigger] column_of_field(cols[j], fields, mode)
}

/// Whether the field at position `k` is a primitive field to be read.
pub open spec fn field_chosen(f: TopField, to_read: Seq<Seq<char>>) -> bool {
    f matches TopField::Primitive(p) && to_read.contains(p.name@)
}

proof fn lemma_top_row_schedule_has(fields: Seq<TopField>, to_read: Seq<Seq<char>>, rg: nat, k: nat, m: nat)
    requires
        k < m <= fields.len(),
        field_chosen(fields[k as int], to_read),
    ensures
        top_row_schedule(fields, to_read, rg, m).contains((rg, k)),
    decreases m,
{
    let s = top_row_schedule(fields, to_read, rg, m);
    if m == k + 1 {
        assert(s.last() == (rg, k));
    } else {
        lemma_top_row_schedule_has(fields, to_read, rg, k, (m - 1) as nat);
        let prev = top_row_schedule(fields, to_read, rg, (m - 1) as nat);
        let i = choose|i: int| 0 <= i < prev.len() && prev[i] == (rg, k);
        assert(s[i] == (rg, k));
    }
}

proof fn lemma_top_read_schedule_has(fields: Seq<TopField>, to_read: Seq<Seq<char>>, n: nat, rg: nat, k: nat)
    requires
        rg < n,
        k < fields.len(),
        field_chosen(fields[k as int], to_read),
    ensures
        top_read_schedule(fields, to_read, n).contains((rg, k)),
    decreases n,
{
    let prev = top_read_schedule(fields, to_read, (n - 1) as nat);
    let row = top_row_schedule(fields, to_read, (n - 1) as nat, fields.len());
    let s = top_read_schedule(fields, to_read, n);
    if rg == n - 1 {
        lemma_top_row_schedule_has(fields, to_read, rg, k, fields.len());
        let i = choose|i: int| 0 <= i < row.len() && row[i] == (rg, k);
        assert(s[prev.len() + i] == (rg, k));
    } else {
        lemma_top_read_schedule_has(fields, to_read, (n - 1) as nat, rg, k);
        let i = choose|i: int| 0 <= i < prev.len() && prev[i] == (rg, k);
        assert(s[i] == (rg, k));
    }
}

/// The logical type a column read in `mode` carries: none for raw values,
/// the field's own when decoded.
pub open spec fn mode_logical(mode: TopMode, p: PrimitiveInfo) -> Option<LogicalType> {
    match mode {
        TopMode::Raw => None,
        TopMode::Decoded => p.logical_type,
    }
}

/// Whether a column is named after a primitive top-level field and carries
/// the logical type that reading it in `mode` gives.
pub open spec fn column_of_field(c: NamedColumn, fields: Seq<TopField>, mode: TopMode) -> bool {
    exists|k: int|
        0 <= k < fields.len() && (#[trigger] fields[k] matches TopField::Primitive(p) && p.name@
            == c.name@ && c.logical_type == mode_logical(mode, p))
}

/// Reads the chosen primitive top-level fields of every row group: for each
/// row group in turn, each field of the schema whose name is asked for (or
/// every primitive field when none is asked for) is read from the chunk at
/// its position among the top-level fields, and its values are added to the
/// column of that name. Each column returned holds, in order, what the
/// chunks read of fields of its name added; the chunks are read in the order
/// of [`top_read_schedule`], each as its pages read in `mode`.
pub fn read_top_level_columns(
    md: &FileMetaData,
    data: &[u8],
    fields: &[TopField],
    n_row_groups: usize,
    columns: Option<Vec<String>>,
    mode: TopMode,
) -> (res: Result<Vec<NamedColumn>, ReadError>)
    ensures
        res matches Ok(cols) ==> top_columns_read(
            cols@,
            *md,
            data@,
            fields@,
            asked_names(columns),
            n_row_groups as nat,
            mode,
        ),
        res is Ok <==> top_schedule_decodes(
            top_read_schedule(fields@, top_names_to_read(fields@, asked_names(columns)), n_row_groups as nat),
            *md,
            data@,
            fields@,
            mode,
        ),
        n_row_groups == 0 || chosen_fields(fields@, top_names_to_read(fields@, asked_names(columns))).len()
            == 0 ==> (res matches Ok(cols) && cols@.len() == 0),
{
    let ghost asked = asked_names(columns);
    let to_read = match columns {
        Some(c) => c,
        None => primitive_name_list(fields),
    };
    let ghost tr = string_views(to_read@);
    assert(tr == top_names_to_read(fields@, asked));
    let ghost chosen = chosen_fields(fields@, tr);
    let ghost full = add_names(Seq::empty(), chosen);
    let ghost names = field_names(fields@);
    proof {
        lemma_add_names(Seq::empty(), chosen);
    }
    let mut result: Vec<NamedColumn> = Vec::new();
    let ghost mut reads: Seq<(nat, nat, Seq<EntryView>)> = Seq::empty();
    let mut rg: usize = 0;
    while rg < n_row_groups
        invariant
            rg <= n_row_groups,
            asked == asked_names(columns),
            tr == top_names_to_read(fields@, asked),
            tr == string_views(to_read@),
            chosen == chosen_fields(fields@, tr),
            full == add_names(Seq::empty(), chosen),
            names == field_names(fields@),
            forall|x: Seq<char>| #[trigger] full.contains(x) <==> chosen.contains(x),
            column_names(result@) == (if rg == 0 {
                Seq::<Seq<char>>::empty()
            } else {
                full
            }),
            chosen.len() == 0 ==> result@.len() == 0,
            column_names(result@).no_duplicates(),
            forall|j: int| 0 <= j < result@.len() ==> #[trigger] column_of_field(result@[j], fields@, mode),
            read_pairs(reads) == top_read_schedule(fields@, tr, rg as nat),
            forall|i: int| 0 <= i < reads.len() ==> #[trigger] top_read_valid(reads[i], *md, data@, fields@, mode),
            forall|i: int| 0 <= i < reads.len() ==> #[trigger] read_listed(result@, names, reads[i]),
            forall|j: int|
                0 <= j < result@.len() ==> entry_views(#[trigger] result@[j].entries@) == gathered(
                    reads,
                    names,
                    result@[j].name@,
                ),
        decreases n_row_groups - rg,
    {
        let ghost start = column_names(result@);
        let ghost start_reads = reads;
        let mut k: usize = 0;
        while k < fields.len()
            invariant
                k <= fields@.len(),
                rg < n_row_groups,
                asked == asked_names(columns),
                tr == top_names_to_read(fields@, asked),
                tr == string_views(to_read@),
                chosen == chosen_fields(fields@, tr),
                names == field_names(fields@),
                start == Seq::<Seq<char>>::empty() || start == full,
                column_names(result@) == add_names(start, chosen_fields(fields@.take(k as int), tr)),
                chosen.len() == 0 ==> result@.len() == 0,
                column_names(result@).no_duplicates(),
                forall|j: int| 0 <= j < result@.len() ==> #[trigger] column_of_field(result@[j], fields@, mode),
                read_pairs(start_reads) == top_read_schedule(fields@, tr, rg as nat),
                read_pairs(reads) == read_pairs(start_reads) + top_row_schedule(
                    fields@,
                    tr,
                    rg as nat,
                    k as nat,
                ),
                forall|i: int| 0 <= i < reads.len() ==> #[trigger] top_read_valid(reads[i], *md, data@, fields@, mode),
                forall|i: int| 0 <= i < reads.len() ==> #[trigger] read_listed(result@, names, reads[i]),
                forall|j: int|
                    0 <= j < result@.len() ==> entry_views(#[trigger] result@[j].entries@)
                        == gathered(reads, names, result@[j].name@),
            decreases fields@.len() - k,
        {
            assert(fields@.take(k + 1).drop_last() =~= fields@.take(k as int));
            assert(fields@.take(k + 1).last() == fields@[k as int]);
            let ghost before = chosen_fields(fields@.take(k as int), tr);
            match &fields[k] {
                TopField::Primitive(p) => {
                    if contains_name(to_read.as_slice(), &p.name) {
                        proof {
                            assert(chosen_fields(fields@.take(k + 1), tr).len() > 0);
                            crate::select::lemma_chosen_prefix(fields@, tr, k as int + 1);
                        }
                        let (cells, logical) = match mode {
                            TopMode::Raw => match read_column_chunk(
                                md,
                                rg,
                                k,
                                data,
                                p.physical_type,
                                None,
                                0,
                                false,
                            ) {
                                Err(e) => {
                                    proof {
                                        lemma_top_read_schedule_has(fields@, tr, n_row_groups as nat, rg as nat, k as nat);
                                        let sched = top_read_schedule(fields@, tr, n_row_groups as nat);
                                        if top_schedule_decodes(sched, *md, data@, fields@, mode) {
                                            let i = choose|i: int| 0 <= i < sched.len() && sched[i] == (rg as nat, k as nat);
                                            assert(top_chunk_decoded(*md, data@, fields@, mode, sched[i].0, sched[i].1) is Ok);
                                        }
                                    }
                                    return Err(e);
                                },
                                Ok(c) => (c.cells, None),
                            },
                            TopMode::Decoded => match read_column_chunk(
                                md,
                                rg,
                                k,
                                data,
                                p.physical_type,
                                p.logical_type,
                                0,
                                false,
                            ) {
                                Err(e) => {
                                    proof {
                                        lemma_top_read_schedule_has(fields@, tr, n_row_groups as nat, rg as nat, k as nat);
                                        let sched = top_read_schedule(fields@, tr, n_row_groups as nat);
                                        if top_schedule_decodes(sched, *md, data@, fields@, mode) {
                                            let i = choose|i: int| 0 <= i < sched.len() && sched[i] == (rg as nat, k as nat);
                                            assert(top_chunk_decoded(*md, data@, fields@, mode, sched[i].0, sched[i].1) is Ok);
                                        }
                                    }
                                    return Err(e);
                                },
                                Ok(c) => (c.cells, p.logical_type),
                            },
                        };
                        let entries = value_entries(cells);
                        let ghost read = (rg as nat, k as nat, entry_views(entries@));
                        let ghost old_result = result@;
                        let ghost old_reads = reads;
                        let ghost old_names = column_names(result@);
                        let name = p.name.clone();
                        append_column(&mut result, name, logical, entries);
                        assert(before.push(p.name@).drop_last() =~= before);
                        proof {
                            reads = reads.push(read);
                            assert(reads.drop_last() =~= old_reads);
                            assert(read_pairs(reads) =~= read_pairs(old_reads).push((rg as nat, k as nat)));
                            lemma_add_name_distinct(old_names, p.name@);
                            assert(top_read_valid(read, *md, data@, fields@, mode));
                            assert(names[k as int] == p.name@);
                            lemma_record_read(old_result, result@, old_reads, read, names, p.name@);
                            let q = first_index(old_names, p.name@);
                            assert(logical == mode_logical(mode, *p));
                            assert forall|j: int| 0 <= j < result@.len() implies #[trigger] column_of_field(
                                result@[j],
                                fields@,
                                mode,
                            ) by {
                                if j == q {
                                    if q == old_result.len() {
                                        assert(fields@[k as int] matches TopField::Primitive(pp) && (pp.name@
                                            == result@[j].name@ && result@[j].logical_type == mode_logical(mode, pp)));
                                    } else {
                                        assert(column_of_field(old_result[j], fields@, mode));
                                    }
                                } else {
                                    if q < old_result.len() {
                                        assert(result@[j] == old_result[j]);
                                    } else {
                                        assert(result@[j] == result@.take(q)[j]);
                                    }
                                    assert(column_of_field(old_result[j], fields@, mode));
                                }
                            }
                            assert forall|i: int| 0 <= i < reads.len() implies #[trigger] top_read_valid(
                                reads[i],
                                *md,
                                data@,
                                fields@,
                                mode,
                            ) by {
                                if i < old_reads.len() {
                                    assert(reads[i] == old_reads[i]);
                                }
                            }
                        }
                    }
                },
                TopField::Group => {},
            }
            k = k + 1;
        }
        proof {
            assert(fields@.take(fields@.len() as int) =~= fields@);
            if start == full {
                lemma_add_names(full, chosen);
                assert forall|i: int| 0 <= i < chosen.len() implies full.contains(
                    #[trigger] chosen[i],
                ) by {
                    assert(chosen.contains(chosen[i]));
                }
            }
            assert(top_read_schedule(fields@, tr, (rg + 1) as nat) == top_read_schedule(fields@, tr, rg as nat)
                + top_row_schedule(fields@, tr, rg as nat, fields@.len()));
        }
        rg = rg + 1;
    }
    proof {
        let sched = top_read_schedule(fields@, tr, n_row_groups as nat);
        assert forall|i: int| 0 <= i < sched.len() implies sched[i].1 < fields@.len()
            && #[trigger] top_chunk_decoded(*md, data@, fields@, mode, sched[i].0, sched[i].1) is Ok by {
            assert(read_pairs(reads)[i] == sched[i]);
            assert(top_read_valid(reads[i], *md, data@, fields@, mode));
        }
    }
    Ok(result)
}

/// Reads the primitive top-level fields asked for (all of them when
/// `columns` is `None`), levels and PLAIN values decoded but no logical
/// type applied. The columns returned have distinct names, each one asked
/// for, and hold what the file's chunks of those fields decode to; the read
/// fails exactly when the footer or one of the chunks to read cannot be
/// read.
pub fn read_parquet(data: &[u8], columns: Option<Vec<String>>) -> (res: Result<
    Vec<NamedColumn>,
    ReadError,
>)
    ensures
        file_metadata(data@) is None ==> res matches Err(ReadError::Metadata(_)),
        res matches Ok(cols) ==> column_names(cols@).no_duplicates(),
        res matches Ok(cols) ==> (columns matches Some(c) ==> forall|x: Seq<char>|
            #[trigger] column_names(cols@).contains(x) ==> string_views(c@).contains(x)),
        res matches Ok(cols) ==> (parsed_footer(data@) matches Some(md) && top_columns_read(
            cols@,
            md,
            data@,
            footer_layout(md).1,
            asked_names(columns),
            footer_layout(md).2.len(),
            TopMode::Raw,
        )),
        parsed_footer(data@) matches Some(md) ==> (res is Ok <==> top_schedule_decodes(
            top_read_schedule(
                footer_layout(md).1,
                top_names_to_read(footer_layout(md).1, asked_names(columns)),
                footer_layout(md).2.len(),
            ),
            md,
            data@,
            footer_layout(md).1,
            TopMode::Raw,
        )),
        (file_metadata(data@) matches Some((_, fields, sizes)) && (sizes.len() == 0 || chosen_fields(
            fields,
            top_names_to_read(fields, asked_names(columns)),
        ).len() == 0)) ==> (res matches Ok(cols) && cols@.len() == 0),
{
    let info = match read_file_metadata(data) {
        Err(e) => return Err(ReadError::Metadata(e)),
        Ok(i) => i,
    };
    let n = info.row_group_sizes.len();
    let ghost asked = asked_names(columns);
    let r = read_top_level_columns(&info.md, data, info.fields.as_slice(), n, columns, TopMode::Raw);
    proof {
        lemma_top_result_names(info.fields@, asked, n as nat);
    }
    r
}

/// The version of this library.
pub fn get_version() -> (v: String)
    ensures
        v@ == "0.1.0"@,
{
    owned("0.1.0")
}

} // verus!
