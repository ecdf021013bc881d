//! The full reader: every leaf column of the schema under its dotted path,
//! with all encodings decoded and list columns grouped into rows.

use vstd::prelude::*;
use crate::chunk::read_column_chunk;
use crate::column::ReadError;
use crate::nested::group_by_repetition;
use crate::cells::{cell_views, Cell, CellView};
use crate::chunk::chunk_decoded;
use crate::nested::{group_by_rep, lemma_group_by_rep_map};
use crate::output::{
    add_names, append_column, column_names, entry_views, first_index, gathered, lemma_add_name_distinct, lemma_record_read, read_listed, read_pairs, join_path, joined,
    lemma_add_names, row_entries, value_entries, Entry, EntryView, NamedColumn,
};
use crate::pages::LeafColumn;
use crate::pq::{file_metadata, footer_layout, parsed_footer, read_file_metadata};
use crate::reader::{asked_names, sum_rows, total_rows};
use crate::reader_lite::{logical_name, names_logical};
use crate::select::{contains_name, string_views};
use crate::types::{owned, physical_type_name, physical_type_to_string, Repetition};
use parquet2::metadata::FileMetaData;

verus! {

/// A column as the metadata reports it, with its logical type's name.
#[derive(Debug)]
pub struct ColumnInfo {
    pub name: String,
    pub col_type: String,
    pub nullable: bool,
    pub logical_type: Option<String>,
}

/// What the metadata of a file reports: its rows, row groups and columns.
#[derive(Debug)]
pub struct ParquetMetadata {
    pub num_rows: u64,
    pub num_row_groups: usize,
    pub columns: Vec<ColumnInfo>,
}

/// The name of a leaf column: its path, joined by dots.
pub open spec fn leaf_name(l: LeafColumn) -> Seq<char> {
    joined(string_views(l.path@), "."@)
}

/// The names of the leaf columns, in schema order.
pub open spec fn leaf_names(leaves: Seq<LeafColumn>) -> Seq<Seq<char>> {
    leaves.map_values(|l: LeafColumn| leaf_name(l))
}

/// Whether a leaf is read: its name, or the first part of its path, is
/// asked for.
pub open spec fn leaf_selected(l: LeafColumn, to_read: Seq<Seq<char>>) -> bool {
    to_read.contains(leaf_name(l)) || (l.path@.len() > 0 && to_read.contains(l.path@[0]@))
}

/// The names of the leaves that are read, in schema order.
pub open spec fn chosen_leaves(leaves: Seq<LeafColumn>, to_read: Seq<Seq<char>>) -> Seq<Seq<char>>
    decreases leaves.len(),
{
    if leaves.len() == 0 {
        Seq::empty()
    } else {
        let rest = chosen_leaves(leaves.drop_last(), to_read);
        if leaf_selected(leaves.last(), to_read) {
            rest.push(leaf_name(leaves.last()))
        } else {
            rest
        }
    }
}

/// The names asked for, or every leaf's name.
pub open spec fn leaf_names_to_read(leaves: Seq<LeafColumn>, columns: Option<Seq<Seq<char>>>) -> Seq<
    Seq<char>,
> {
    match columns {
        Some(c) => c,
        None => leaf_names(leaves),
    }
}

/// The names of the columns that the full reader returns: each read leaf's
/// name once, in schema order, and none when the file has no row group.
pub open spec fn leaf_result_names(
    leaves: Seq<LeafColumn>,
    columns: Option<Seq<Seq<char>>>,
    n_row_groups: nat,
) -> Seq<Seq<char>> {
    if n_row_groups == 0 {
        Seq::empty()
    } else {
        add_names(Seq::empty(), chosen_leaves(leaves, leaf_names_to_read(leaves, columns)))
    }
}

/// A prefix of the leaves has no more chosen leaves than the whole.
proof fn lemma_chosen_leaves_prefix(leaves: Seq<LeafColumn>, to_read: Seq<Seq<char>>, j: int)
    requires
        0 <= j <= leaves.len(),
    ensures
        chosen_leaves(leaves.take(j), to_read).len() <= chosen_leaves(leaves, to_read).len(),
    decreases leaves.len(),
{
    if j == leaves.len() {
        assert(leaves.take(j) =~= leaves);
    } else {
        let pre = leaves.drop_last();
        assert(pre.take(j) =~= leaves.take(j));
        lemma_chosen_leaves_prefix(pre, to_read, j);
    }
}

/// With every leaf's name among the names to read, every leaf is read.
proof fn lemma_all_leaves_chosen(leaves: Seq<LeafColumn>, to_read: Seq<Seq<char>>)
    requires
        forall|i: int| 0 <= i < leaves.len() ==> to_read.contains(#[trigger] leaf_name(leaves[i])),
    ensures
        chosen_leaves(leaves, to_read) == leaf_names(leaves),
    decreases leaves.len(),
{
    if leaves.len() > 0 {
        let pre = leaves.drop_last();
        assert forall|i: int| 0 <= i < pre.len() implies to_read.contains(
            #[trigger] leaf_name(pre[i]),
        ) by {
            assert(pre[i] == leaves[i]);
        }
        lemma_all_leaves_chosen(pre, to_read);
        assert(to_read.contains(leaf_name(leaves[leaves.len() - 1])));
        assert(leaf_names(leaves) =~= leaf_names(pre).push(leaf_name(leaves.last())));
    }
}

/// Whether `x` is the name of a leaf that is read.
pub open spec fn names_read_leaf(leaves: Seq<LeafColumn>, to_read: Seq<Seq<char>>, x: Seq<char>) -> bool {
    exists|j: int|
        0 <= j < leaves.len() && leaf_name(#[trigger] leaves[j]) == x && leaf_selected(
            leaves[j],
            to_read,
        )
}

/// Every name of a chosen leaf belongs to a leaf that is read.
proof fn lemma_chosen_leaves_selected(leaves: Seq<LeafColumn>, to_read: Seq<Seq<char>>)
    ensures
        forall|x: Seq<char>| #[trigger] chosen_leaves(leaves, to_read).contains(x) ==> names_read_leaf(
            leaves,
            to_read,
            x,
        ),
    decreases leaves.len(),
{
    if leaves.len() > 0 {
        let pre = leaves.drop_last();
        lemma_chosen_leaves_selected(pre, to_read);
        let c = chosen_leaves(leaves, to_read);
        let rest = chosen_leaves(pre, to_read);
        assert forall|x: Seq<char>| #[trigger] c.contains(x) implies names_read_leaf(
            leaves,
            to_read,
            x,
        ) by {
            let i = choose|i: int| 0 <= i < c.len() && c[i] == x;
            if i < rest.len() {
                assert(rest[i] == x);
                assert(rest.contains(x));
                let j = choose|j: int|
                    0 <= j < pre.len() && leaf_name(#[trigger] pre[j]) == x && leaf_selected(
                        pre[j],
                        to_read,
                    );
                assert(pre[j] == leaves[j]);
            } else {
                let j = leaves.len() - 1;
                assert(leaf_name(leaves[j]) == x);
            }
        }
    }
}

/// Read with no list of columns, a file with a row group gives one column
/// for each distinct leaf name, in schema order.
pub proof fn lemma_default_reads_all_leaves(leaves: Seq<LeafColumn>, n_row_groups: nat)
    requires
        n_row_groups > 0,
    ensures
        leaf_result_names(leaves, None, n_row_groups) == add_names(Seq::empty(), leaf_names(leaves)),
{
    let names = leaf_names(leaves);
    assert forall|i: int| 0 <= i < leaves.len() implies names.contains(#[trigger] leaf_name(leaves[i])) by {
        assert(names[i] == leaf_name(leaves[i]));
    }
    lemma_all_leaves_chosen(leaves, names);
}

/// The columns the full reader returns have distinct names, each the name
/// of a leaf that was asked for by its name or by its path's first part.
pub proof fn lemma_leaf_result_names(
    leaves: Seq<LeafColumn>,
    columns: Option<Seq<Seq<char>>>,
    n_row_groups: nat,
)
    ensures
        leaf_result_names(leaves, columns, n_row_groups).no_duplicates(),
        forall|x: Seq<char>| #[trigger] leaf_result_names(leaves, columns, n_row_groups).contains(x)
            ==> names_read_leaf(leaves, leaf_names_to_read(leaves, columns), x),
{
    let to_read = leaf_names_to_read(leaves, columns);
    let chosen = chosen_leaves(leaves, to_read);
    lemma_add_names(Seq::empty(), chosen);
    lemma_chosen_leaves_selected(leaves, to_read);
}

/// The columns of a read that asks for some names are among the columns of
/// a read of the same file that asks for none.
pub proof fn lemma_selection_within_full(leaves: Seq<LeafColumn>, asked: Seq<Seq<char>>, n_row_groups: nat)
    ensures
        forall|x: Seq<char>|
            #[trigger] leaf_result_names(leaves, Some(asked), n_row_groups).contains(x) ==> leaf_result_names(
                leaves,
                None,
                n_row_groups,
            ).contains(x),
{
    if n_row_groups > 0 {
        lemma_leaf_result_names(leaves, Some(asked), n_row_groups);
        lemma_default_reads_all_leaves(leaves, n_row_groups);
        lemma_add_names(Seq::empty(), leaf_names(leaves));
        assert forall|x: Seq<char>| #[trigger] leaf_result_names(leaves, Some(asked), n_row_groups).contains(x)
            implies leaf_result_names(leaves, None, n_row_groups).contains(x) by {
            let j = choose|j: int|
                0 <= j < leaves.len() && leaf_name(#[trigger] leaves[j]) == x && leaf_selected(
                    leaves[j],
                    leaf_names_to_read(leaves, Some(asked)),
                );
            assert(leaf_names(leaves)[j] == x);
        }
    }
}

/// Whether a leaf is read (see [`leaf_selected`]).
pub fn is_leaf_selected(leaf: &LeafColumn, name: &String, to_read: &[String]) -> (b: bool)
    requires
        name@ == leaf_name(*leaf),
    ensures
        b == leaf_selected(*leaf, string_views(to_read@)),
{
    if contains_name(to_read, name) {
        true
    } else if leaf.path.len() > 0 {
        contains_name(to_read, &leaf.path[0])
    } else {
        false
    }
}

/// The names of all leaves.
pub fn leaf_name_list(leaves: &[LeafColumn]) -> (v: Vec<String>)
    ensures
        string_views(v@) == leaf_names(leaves@),
{
    let mut v: Vec<String> = Vec::new();
    let mut i: usize = 0;
    while i < leaves.len()
        invariant
            i <= leaves@.len(),
            string_views(v@) == leaf_names(leaves@.take(i as int)),
        decreases leaves@.len() - i,
    {
        let name = join_path(leaves[i].path.as_slice());
        let ghost prev = v@;
        v.push(name);
        assert(string_views(v@) =~= string_views(prev).push(name@));
        assert(leaf_names(leaves@.take(i + 1)) =~= leaf_names(leaves@.take(i as int)).push(
            leaf_name(leaves@[i as int]),
        ));
        i = i + 1;
    }
    assert(leaves@.take(leaves@.len() as int) =~= leaves@);
    v
}

/// Whether `c` reports the leaf column `l`.
pub open spec fn describes(c: ColumnInfo, l: LeafColumn) -> bool {
    &&& c.name@ == leaf_name(l)
    &&& c.col_type@ == physical_type_name(l.info.physical_type)
    &&& c.nullable == (l.info.repetition != Repetition::Required)
    &&& names_logical(c.logical_type, l.info.logical_type)
}

/// The report of one leaf column.
pub fn column_info(l: &LeafColumn) -> (c: ColumnInfo)
    ensures
        describes(c, *l),
{
    ColumnInfo {
        name: join_path(l.path.as_slice()),
        col_type: physical_type_to_string(l.info.physical_type),
        nullable: l.info.repetition != Repetition::Required,
        logical_type: logical_name(l.info.logical_type),
    }
}

/// Whether `m` reports a file with the given leaf columns and row group
/// sizes: the row count modulo 2^64, the row group count, and one column
/// for each leaf.
pub open spec fn reports_leaves(m: ParquetMetadata, leaves: Seq<LeafColumn>, sizes: Seq<usize>) -> bool {
    &&& m.num_rows as int == sum_rows(sizes) % 0x1_0000_0000_0000_0000
    &&& m.num_row_groups == sizes.len()
    &&& m.columns@.len() == leaves.len()
    &&& forall|i: int| 0 <= i < m.columns@.len() ==> describes(#[trigger] m.columns@[i], leaves[i])
}

/// The metadata report of a file with the given leaf columns and row group
/// sizes: one column for each leaf.
pub fn metadata_of(leaves: &[LeafColumn], sizes: &[usize]) -> (m: ParquetMetadata)
    ensures
        reports_leaves(m, leaves@, sizes@),
{
    let mut columns: Vec<ColumnInfo> = Vec::new();
    let mut i: usize = 0;
    while i < leaves.len()
        invariant
            i <= leaves@.len(),
            columns@.len() == i,
            forall|j: int| 0 <= j < i ==> describes(#[trigger] columns@[j], leaves@[j]),
        decreases leaves@.len() - i,
    {
        columns.push(column_info(&leaves[i]));
        i = i + 1;
    }
    ParquetMetadata { num_rows: total_rows(sizes), num_row_groups: sizes.len(), columns }
}

/// Reads the metadata of a file: its row count (modulo 2^64), row group
/// count, and its leaf columns (see [`metadata_of`]).
pub fn read_parquet_metadata(data: &[u8]) -> (res: Result<ParquetMetadata, ReadError>)
    ensures
        res is Ok <==> file_metadata(data@) is Some,
        res matches Err(e) ==> e is Metadata,
        res matches Ok(m) ==> (file_metadata(data@) matches Some((leaves, _, sizes)) && reports_leaves(
            m,
            leaves,
            sizes,
        )),
{
    let info = match read_file_metadata(data) {
        Err(e) => return Err(ReadError::Metadata(e)),
        Ok(i) => i,
    };
    Ok(metadata_of(info.leaves.as_slice(), info.row_group_sizes.as_slice()))
}

/// The entries a column chunk adds: its cells grouped into rows by their
/// repetition levels for a repeated column that has some, the cells
/// themselves otherwise.
pub open spec fn chunk_entry_views(cells: Seq<CellView>, reps: Seq<u32>, max_rep_level: i16) -> Seq<
    EntryView,
> {
    if max_rep_level > 0 && reps.len() > 0 {
        group_by_rep(reps, cells).map_values(|r: Seq<CellView>| EntryView::Row(r))
    } else {
        cells.map_values(|c: CellView| EntryView::Value(c))
    }
}

/// The entries a column chunk adds (see [`chunk_entry_views`]).
pub fn chunk_entries(cells: Vec<Cell>, rep_levels: Vec<u32>, max_rep_level: i16) -> (out: Vec<Entry>)
    ensures
        entry_views(out@) == chunk_entry_views(cell_views(cells@), rep_levels@, max_rep_level),
{
    if max_rep_level > 0 && rep_levels.len() > 0 {
        let ghost cs = cells@;
        let rows = group_by_repetition(cells, rep_levels.as_slice());
        let out = row_entries(rows);
        proof {
            let f = |c: Cell| c@;
            lemma_group_by_rep_map(rep_levels@, cs, f);
            assert(cell_views(cs) =~= cs.map_values(f));
            let g = group_by_rep(rep_levels@, cs);
            let gv = group_by_rep(rep_levels@, cell_views(cs));
            assert(entry_views(out@) =~= gv.map_values(|r: Seq<CellView>| EntryView::Row(r))) by {
                assert forall|i: int| 0 <= i < g.len() implies #[trigger] entry_views(out@)[i]
                    == EntryView::Row(gv[i]) by {
                    assert(rows@.map_values(|r: Vec<Cell>| r@)[i] == g[i]);
                    assert(cell_views(rows@[i]@) =~= g[i].map_values(f));
                }
            }
        }
        out
    } else {
        value_entries(cells)
    }
}

/// The chunks read in row group `rg`, among the first `k` leaves: each
/// chosen leaf, in schema order.
pub open spec fn row_schedule(leaves: Seq<LeafColumn>, to_read: Seq<Seq<char>>, rg: nat, k: nat) -> Seq<
    (nat, nat),
>
    decreases k,
{
    if k == 0 {
        Seq::empty()
    } else {
        let rest = row_schedule(leaves, to_read, rg, (k - 1) as nat);
        if leaf_selected(leaves[k - 1], to_read) {
            rest.push((rg, (k - 1) as nat))
        } else {
            rest
        }
    }
}

/// The chunks read, as (row group, leaf) pairs, in the first `n` row
/// groups: row group by row group, each one's chosen leaves in schema order.
pub open spec fn read_schedule(leaves: Seq<LeafColumn>, to_read: Seq<Seq<char>>, n: nat) -> Seq<(nat, nat)>
    decreases n,
{
    if n == 0 {
        Seq::empty()
    } else {
        read_schedule(leaves, to_read, (n - 1) as nat) + row_schedule(
            leaves,
            to_read,
            (n - 1) as nat,
            leaves.len(),
        )
    }
}


/// What the chunk of row group `rg` of leaf `k` adds in a file, read with
/// all encodings: its cells as entries (see [`chunk_entry_views`]); `Err`
/// where the chunk cannot be read.
pub open spec fn leaf_chunk_decoded(
    md: FileMetaData,
    data: Seq<u8>,
    leaves: Seq<LeafColumn>,
    rg: nat,
    k: nat,
) -> Result<Seq<EntryView>, ()> {
    let l = leaves[k as int];
    match chunk_decoded(
        md,
        rg as usize,
        k as usize,
        data,
        l.info.physical_type,
        l.info.logical_type,
        l.max_rep_level,
        true,
    ) {
        Ok((c, r)) => Ok(chunk_entry_views(c, r, l.max_rep_level)),
        Err(_) => Err(()),
    }
}

/// Whether a chunk read names a leaf and holds what that leaf's chunk in
/// that row group of the file adds.
pub open spec fn read_valid(
    r: (nat, nat, Seq<EntryView>),
    md: FileMetaData,
    data: Seq<u8>,
    leaves: Seq<LeafColumn>,
) -> bool {
    r.1 < leaves.len() && leaf_chunk_decoded(md, data, leaves, r.0, r.1) == Ok::<Seq<EntryView>, ()>(
        r.2,
    )
}

/// Whether every chunk of the schedule names a leaf and can be read.
pub open spec fn schedule_decodes(
    schedule: Seq<(nat, nat)>,
    md: FileMetaData,
    data: Seq<u8>,
    leaves: Seq<LeafColumn>,
) -> bool {
    forall|i: int|
        0 <= i < schedule.len() ==> schedule[i].1 < leaves.len() && #[trigger] leaf_chunk_decoded(
            md,
            data,
            leaves,
            schedule[i].0,
            schedule[i].1,
        ) is Ok
}

/// Whether `cols` is what reading the leaf columns `leaves` of a file with
/// `n` row groups gives: the names of [`leaf_result_names`], each column
/// holding, in order, what the file's chunks of leaves of its name add, the
/// chunks read in the order of [`read_schedule`].
pub open spec fn leaf_columns_read(
    cols: Seq<NamedColumn>,
    md: FileMetaData,
    data: Seq<u8>,
    leaves: Seq<LeafColumn>,
    columns: Option<Seq<Seq<char>>>,
    n: nat,
) -> bool {
    &&& column_names(cols) == leaf_result_names(leaves, columns, n)
    &&& exists|reads: Seq<(nat, nat, Seq<EntryView>)>|
        #[trigger] read_pairs(reads) == read_schedule(leaves, leaf_names_to_read(leaves, columns), n)
            && (forall|i: int| 0 <= i < reads.len() ==> #[trigger] read_valid(reads[i], md, data, leaves))
            && (forall|j: int|
            0 <= j < cols.len() ==> entry_views(#[trigger] cols[j].entries@) == gathered(
                reads,
                leaf_names(leaves),
                cols[j].name@,
            ))
    &&& forall|j: int| 0 <= j < cols.len() ==> #[trigger] column_of_leaf(cols[j], leaves)
}

/// A chosen leaf's chunk in an earlier row group is in the schedule.
proof fn lemma_row_schedule_has(leaves: Seq<LeafColumn>, to_read: Seq<Seq<char>>, rg: nat, k: nat, m: nat)
    requires
        k < m <= leaves.len(),
        leaf_selected(leaves[k as int], to_read),
    ensures
        row_schedule(leaves, to_read, rg, m).contains((rg, k)),
    decreases m,
{
    let s = row_schedule(leaves, to_read, rg, m);
    if m == k + 1 {
        assert(s.last() == (rg, k));
    } else {
        lemma_row_schedule_has(leaves, to_read, rg, k, (m - 1) as nat);
        let prev = row_schedule(leaves, to_read, rg, (m - 1) as nat);
        let i = choose|i: int| 0 <= i < prev.len() && prev[i] == (rg, k);
        assert(s[i] == (rg, k));
    }
}

/// Each chosen leaf's chunk of each row group is in the schedule.
proof fn lemma_read_schedule_has(leaves: Seq<LeafColumn>, to_read: Seq<Seq<char>>, n: nat, rg: nat, k: nat)
    requires
        rg < n,
        k < leaves.len(),
        leaf_selected(leaves[k as int], to_read),
    ensures
        read_schedule(leaves, to_read, n).contains((rg, k)),
    decreases n,
{
    let prev = read_schedule(leaves, to_read, (n - 1) as nat);
    let row = row_schedule(leaves, to_read, (n - 1) as nat, leaves.len());
    let s = read_schedule(leaves, to_read, n);
    if rg == n - 1 {
        lemma_row_schedule_has(leaves, to_read, rg, k, leaves.len());
        let i = choose|i: int| 0 <= i < row.len() && row[i] == (rg, k);
        assert(s[prev.len() + i] == (rg, k));
    } else {
        lemma_read_schedule_has(leaves, to_read, (n - 1) as nat, rg, k);
        let i = choose|i: int| 0 <= i < prev.len() && prev[i] == (rg, k);
        assert(s[i] == (rg, k));
    }
}

/// Whether a column is named after a leaf and carries that leaf's logical
/// type.
pub open spec fn column_of_leaf(c: NamedColumn, leaves: Seq<LeafColumn>) -> bool {
    exists|k: int|
        0 <= k < leaves.len() && #[trigger] leaf_name(leaves[k]) == c.name@ && c.logical_type
            == leaves[k].info.logical_type
}

/// What the file's chunks of the leaves named `x` add in row group `rg`,
/// among its first `k` leaves, in schema order.
pub open spec fn named_row_entries(
    md: FileMetaData,
    data: Seq<u8>,
    leaves: Seq<LeafColumn>,
    x: Seq<char>,
    rg: nat,
    k: nat,
) -> Seq<EntryView>
    decreases k,
{
    if k == 0 {
        Seq::empty()
    } else {
        let rest = named_row_entries(md, data, leaves, x, rg, (k - 1) as nat);
        if leaf_name(leaves[k - 1]) == x {
            match leaf_chunk_decoded(md, data, leaves, rg, (k - 1) as nat) {
                Ok(e) => rest + e,
                Err(_) => rest,
            }
        } else {
            rest
        }
    }
}

/// What the file's chunks of the leaves named `x` add in the first `n` row
/// groups, row group by row group.
pub open spec fn named_entries(md: FileMetaData, data: Seq<u8>, leaves: Seq<LeafColumn>, x: Seq<char>, n: nat) -> Seq<
    EntryView,
>
    decreases n,
{
    if n == 0 {
        Seq::empty()
    } else {
        named_entries(md, data, leaves, x, (n - 1) as nat) + named_row_entries(
            md,
            data,
            leaves,
            x,
            (n - 1) as nat,
            leaves.len(),
        )
    }
}

/// Whether the leaves of a name are read together: every leaf named `x`
/// is chosen.
pub open spec fn name_read_whole(leaves: Seq<LeafColumn>, to_read: Seq<Seq<char>>, x: Seq<char>) -> bool {
    forall|k: int| 0 <= k < leaves.len() && leaf_name(#[trigger] leaves[k]) == x ==> leaf_selected(leaves[k], to_read)
}

/// The reads of a schedule prefix gather, under a name whose leaves are all
/// read, what the file's chunks of that name add.
proof fn lemma_gathered_named(
    reads: Seq<(nat, nat, Seq<EntryView>)>,
    md: FileMetaData,
    data: Seq<u8>,
    leaves: Seq<LeafColumn>,
    to_read: Seq<Seq<char>>,
    x: Seq<char>,
    n: nat,
    k: nat,
)
    requires
        k <= leaves.len(),
        read_pairs(reads) == read_schedule(leaves, to_read, n) + row_schedule(leaves, to_read, n, k),
        forall|i: int| 0 <= i < reads.len() ==> #[trigger] read_valid(reads[i], md, data, leaves),
        name_read_whole(leaves, to_read, x),
    ensures
        gathered(reads, leaf_names(leaves), x) == named_entries(md, data, leaves, x, n) + named_row_entries(
            md,
            data,
            leaves,
            x,
            n,
            k,
        ),
    decreases n, k,
{
    let names = leaf_names(leaves);
    if k == 0 {
        assert(row_schedule(leaves, to_read, n, 0) =~= Seq::<(nat, nat)>::empty());
        assert(read_pairs(reads) =~= read_schedule(leaves, to_read, n));
        if n == 0 {
            assert(reads.len() == 0);
            assert(named_entries(md, data, leaves, x, 0) + Seq::<EntryView>::empty() =~= Seq::<EntryView>::empty());
        } else {
            lemma_gathered_named(reads, md, data, leaves, to_read, x, (n - 1) as nat, leaves.len());
            assert(named_entries(md, data, leaves, x, n) + Seq::<EntryView>::empty() =~= named_entries(
                md,
                data,
                leaves,
                x,
                n,
            ));
        }
    } else {
        let l = leaves[k - 1];
        if leaf_selected(l, to_read) {
            let init = reads.drop_last();
            assert(read_pairs(init) =~= read_pairs(reads).drop_last());
            assert(read_pairs(reads).drop_last() =~= read_schedule(leaves, to_read, n) + row_schedule(
                leaves,
                to_read,
                n,
                (k - 1) as nat,
            ));
            assert forall|i: int| 0 <= i < init.len() implies #[trigger] read_valid(init[i], md, data, leaves) by {
                assert(init[i] == reads[i]);
                assert(read_valid(reads[i], md, data, leaves));
            }
            lemma_gathered_named(init, md, data, leaves, to_read, x, n, (k - 1) as nat);
            let last = reads.last();
            assert(read_pairs(reads).last() == (last.0, last.1));
            assert(read_valid(reads[reads.len() - 1], md, data, leaves));
            assert(last.0 == n && last.1 == k - 1);
            assert(names[k - 1] == leaf_name(l));
            let a = named_entries(md, data, leaves, x, n);
            let b = named_row_entries(md, data, leaves, x, n, (k - 1) as nat);
            assert((a + b) + last.2 =~= a + (b + last.2));
        } else {
            assert(leaf_name(leaves[k - 1]) != x);
            lemma_gathered_named(reads, md, data, leaves, to_read, x, n, (k - 1) as nat);
        }
    }
}

/// Each chunk of a schedule is of a chosen leaf in one of its row groups.
proof fn lemma_read_schedule_members(leaves: Seq<LeafColumn>, to_read: Seq<Seq<char>>, n: nat, k: nat)
    requires
        k <= leaves.len(),
    ensures
        forall|i: int|
            0 <= i < read_schedule(leaves, to_read, n).len() ==> #[trigger] read_schedule(leaves, to_read, n)[i].0
                < n && read_schedule(leaves, to_read, n)[i].1 < leaves.len() && leaf_selected(
                leaves[read_schedule(leaves, to_read, n)[i].1 as int],
                to_read,
            ),
        forall|i: int|
            0 <= i < row_schedule(leaves, to_read, n, k).len() ==> #[trigger] row_schedule(leaves, to_read, n, k)[i].0
                == n && row_schedule(leaves, to_read, n, k)[i].1 < k && leaf_selected(
                leaves[row_schedule(leaves, to_read, n, k)[i].1 as int],
                to_read,
            ),
    decreases n, k,
{
    if k > 0 {
        lemma_read_schedule_members(leaves, to_read, n, (k - 1) as nat);
        let prev = row_schedule(leaves, to_read, n, (k - 1) as nat);
        let row = row_schedule(leaves, to_read, n, k);
        assert forall|i: int| 0 <= i < row.len() implies #[trigger] row[i].0 == n && row[i].1 < k
            && leaf_selected(leaves[row[i].1 as int], to_read) by {
            if i < prev.len() {
                assert(row[i] == prev[i]);
            }
        }
    } else if n > 0 {
        lemma_read_schedule_members(leaves, to_read, (n - 1) as nat, leaves.len());
        let prev = read_schedule(leaves, to_read, (n - 1) as nat);
        let row = row_schedule(leaves, to_read, (n - 1) as nat, leaves.len());
        let s = read_schedule(leaves, to_read, n);
        assert forall|i: int| 0 <= i < s.len() implies #[trigger] s[i].0 < n && s[i].1 < leaves.len()
            && leaf_selected(leaves[s[i].1 as int], to_read) by {
            if i < prev.len() {
                assert(s[i] == prev[i]);
            } else {
                assert(s[i] == row[i - prev.len()]);
            }
        }
    }
}

/// A read of all the leaves that succeeds covers every chunk a read of some
/// of them needs: where reading every leaf of a file succeeds, reading any
/// selection of its leaves succeeds too.
pub proof fn lemma_selection_decodes(
    md: FileMetaData,
    data: Seq<u8>,
    leaves: Seq<LeafColumn>,
    asked: Seq<Seq<char>>,
    n: nat,
)
    requires
        schedule_decodes(read_schedule(leaves, leaf_names(leaves), n), md, data, leaves),
    ensures
        schedule_decodes(read_schedule(leaves, asked, n), md, data, leaves),
{
    let full = read_schedule(leaves, leaf_names(leaves), n);
    let s = read_schedule(leaves, asked, n);
    lemma_read_schedule_members(leaves, asked, n, 0);
    assert forall|i: int| 0 <= i < s.len() implies s[i].1 < leaves.len() && #[trigger] leaf_chunk_decoded(
        md,
        data,
        leaves,
        s[i].0,
        s[i].1,
    ) is Ok by {
        let k = s[i].1;
        assert(leaf_names(leaves)[k as int] == leaf_name(leaves[k as int]));
        lemma_read_schedule_has(leaves, leaf_names(leaves), n, s[i].0, k);
        let j = choose|j: int| 0 <= j < full.len() && full[j] == (s[i].0, k);
        assert(leaf_chunk_decoded(md, data, leaves, full[j].0, full[j].1) is Ok);
    }
}

/// Whether leaves of the same name share the first part of their path, as
/// they do when no path part holds a dot.
pub open spec fn first_parts_agree(leaves: Seq<LeafColumn>) -> bool {
    forall|a: int, b: int|
        0 <= a < leaves.len() && 0 <= b < leaves.len() && leaf_name(#[trigger] leaves[a]) == leaf_name(
            #[trigger] leaves[b],
        ) ==> (leaves[a].path@.len() > 0 ==> leaves[b].path@.len() > 0 && leaves[a].path@[0]@
            == leaves[b].path@[0]@)
}

/// Whether some column of `cols` has the name and the entries of `c`.
pub open spec fn column_among(cols: Seq<NamedColumn>, c: NamedColumn) -> bool {
    exists|i: int|
        0 <= i < cols.len() && #[trigger] cols[i].name@ == c.name@ && entry_views(cols[i].entries@)
            == entry_views(c.entries@)
}

/// A column of a read that asks for some names holds what the column of the
/// same name holds in a read of the same file that asks for none, where
/// leaves of the same name share the first part of their path.
pub proof fn lemma_selection_agrees_with_full(
    md: FileMetaData,
    data: Seq<u8>,
    leaves: Seq<LeafColumn>,
    asked: Seq<Seq<char>>,
    n: nat,
    all: Seq<NamedColumn>,
    sel: Seq<NamedColumn>,
)
    requires
        leaf_columns_read(all, md, data, leaves, None, n),
        leaf_columns_read(sel, md, data, leaves, Some(asked), n),
        first_parts_agree(leaves),
    ensures
        forall|j: int| 0 <= j < sel.len() ==> #[trigger] column_among(all, sel[j]),
{
    let full_reads = choose|reads: Seq<(nat, nat, Seq<EntryView>)>|
        #[trigger] read_pairs(reads) == read_schedule(leaves, leaf_names_to_read(leaves, None), n)
            && (forall|i: int| 0 <= i < reads.len() ==> #[trigger] read_valid(reads[i], md, data, leaves))
            && (forall|j: int|
            0 <= j < all.len() ==> entry_views(#[trigger] all[j].entries@) == gathered(
                reads,
                leaf_names(leaves),
                all[j].name@,
            ));
    let sel_reads = choose|reads: Seq<(nat, nat, Seq<EntryView>)>|
        #[trigger] read_pairs(reads) == read_schedule(leaves, leaf_names_to_read(leaves, Some(asked)), n)
            && (forall|i: int| 0 <= i < reads.len() ==> #[trigger] read_valid(reads[i], md, data, leaves))
            && (forall|j: int|
            0 <= j < sel.len() ==> entry_views(#[trigger] sel[j].entries@) == gathered(
                reads,
                leaf_names(leaves),
                sel[j].name@,
            ));
    lemma_selection_within_full(leaves, asked, n);
    lemma_leaf_result_names(leaves, Some(asked), n);
    assert forall|j: int| 0 <= j < sel.len() implies #[trigger] column_among(all, sel[j]) by {
        let x = sel[j].name@;
        assert(column_names(sel)[j] == x);
        assert(leaf_result_names(leaves, Some(asked), n).contains(x));
        assert(leaf_result_names(leaves, None, n).contains(x));
        let i = choose|i: int| 0 <= i < column_names(all).len() && column_names(all)[i] == x;
        assert(all[i].name@ == x);
        let w = choose|w: int|
            0 <= w < leaves.len() && leaf_name(#[trigger] leaves[w]) == x && leaf_selected(leaves[w], asked);
        assert forall|k: int| 0 <= k < leaves.len() && leaf_name(#[trigger] leaves[k]) == x implies leaf_selected(
            leaves[k],
            asked,
        ) by {
            if !asked.contains(x) {
                assert(leaves[w].path@.len() > 0 && asked.contains(leaves[w].path@[0]@));
            }
        }
        assert forall|k: int| 0 <= k < leaves.len() && leaf_name(#[trigger] leaves[k]) == x implies leaf_selected(
            leaves[k],
            leaf_names(leaves),
        ) by {
            assert(leaf_names(leaves)[k] == x);
        }
        assert(row_schedule(leaves, asked, n, 0) =~= Seq::<(nat, nat)>::empty());
        assert(read_schedule(leaves, asked, n) + Seq::<(nat, nat)>::empty() =~= read_schedule(leaves, asked, n));
        assert(row_schedule(leaves, leaf_names(leaves), n, 0) =~= Seq::<(nat, nat)>::empty());
        assert(read_schedule(leaves, leaf_names(leaves), n) + Seq::<(nat, nat)>::empty() =~= read_schedule(
            leaves,
            leaf_names(leaves),
            n,
        ));
        lemma_gathered_named(sel_reads, md, data, leaves, asked, x, n, 0);
        lemma_gathered_named(full_reads, md, data, leaves, leaf_names(leaves), x, n, 0);
        assert(entry_views(sel[j].entries@) == gathered(sel_reads, leaf_names(leaves), x));
        assert(entry_views(all[i].entries@) == gathered(full_reads, leaf_names(leaves), x));
        assert(entry_views(all[i].entries@) == entry_views(sel[j].entries@));
    }
}

proof fn lemma_chosen_has_selected(leaves: Seq<LeafColumn>, to_read: Seq<Seq<char>>, k: int)
    requires
        0 <= k < leaves.len(),
        leaf_selected(leaves[k], to_read),
    ensures
        chosen_leaves(leaves, to_read).contains(leaf_name(leaves[k])),
    decreases leaves.len(),
{
    let pre = leaves.drop_last();
    let c = chosen_leaves(leaves, to_read);
    if k == leaves.len() - 1 {
        assert(c.last() == leaf_name(leaves[k]));
    } else {
        assert(pre[k] == leaves[k]);
        lemma_chosen_has_selected(pre, to_read, k);
        let rest = chosen_leaves(pre, to_read);
        let i = choose|i: int| 0 <= i < rest.len() && rest[i] == leaf_name(leaves[k]);
        assert(c[i] == rest[i]);
    }
}

/// In a file with a row group, a leaf whose dotted name, or whose path's
/// first part, is among the names asked for is read: its name is among the
/// columns returned, and its chunk of every row group is read. Asking for
/// the top-level name of a nested column reads each of its leaves.
pub proof fn lemma_asked_leaf_is_read(leaves: Seq<LeafColumn>, asked: Seq<Seq<char>>, n: nat, k: int)
    requires
        n > 0,
        0 <= k < leaves.len(),
        asked.contains(leaf_name(leaves[k])) || (leaves[k].path@.len() > 0 && asked.contains(
            leaves[k].path@[0]@,
        )),
    ensures
        leaf_result_names(leaves, Some(asked), n).contains(leaf_name(leaves[k])),
        forall|rg: nat| rg < n ==> #[trigger] read_schedule(leaves, asked, n).contains((rg, k as nat)),
{
    lemma_chosen_has_selected(leaves, asked, k);
    lemma_add_names(Seq::empty(), chosen_leaves(leaves, asked));
    assert forall|rg: nat| rg < n implies #[trigger] read_schedule(leaves, asked, n).contains((rg, k as nat)) by {
        lemma_read_schedule_has(leaves, asked, n, rg, k as nat);
    }
}

/// The columns a read returns are named after leaves whose dotted name, or
/// whose path's first part, was asked for.
pub proof fn lemma_read_leaf_was_asked(leaves: Seq<LeafColumn>, asked: Seq<Seq<char>>, n: nat, x: Seq<char>)
    requires
        leaf_result_names(leaves, Some(asked), n).contains(x),
    ensures
        exists|k: int|
            0 <= k < leaves.len() && leaf_name(#[trigger] leaves[k]) == x && (asked.contains(x) || (
            leaves[k].path@.len() > 0 && asked.contains(leaves[k].path@[0]@))),
{
    lemma_leaf_result_names(leaves, Some(asked), n);
    let k = choose|k: int| 0 <= k < leaves.len() && leaf_name(#[trigger] leaves[k]) == x && leaf_selected(leaves[k], asked);
    assert(leaf_name(leaves[k]) == x);
}

/// Reads the chosen leaf columns of every row group: for each row group in
/// turn, each leaf whose name, or whose path's first part, is asked for (or
/// every leaf when none is asked for) is read with all encodings, grouped
/// into rows when it repeats, and added to the column of its name. Each
/// column returned holds, in order, what the chunks read of leaves of its
/// name added; the chunks are read in the order of [`read_schedule`], each
/// as the file's pages of it decode. It fails exactly when one of those
/// chunks cannot be read.
pub fn read_leaf_columns(
    md: &FileMetaData,
    data: &[u8],
    leaves: &[LeafColumn],
    n_row_groups: usize,
    columns: Option<Vec<String>>,
) -> (res: Result<Vec<NamedColumn>, ReadError>)
    ensures
        res matches Ok(cols) ==> leaf_columns_read(
            cols@,
            *md,
            data@,
            leaves@,
            asked_names(columns),
            n_row_groups as nat,
        ),
        res is Ok <==> schedule_decodes(
            read_schedule(leaves@, leaf_names_to_read(leaves@, asked_names(columns)), n_row_groups as nat),
            *md,
            data@,
            leaves@,
        ),
        n_row_groups == 0 || chosen_leaves(leaves@, leaf_names_to_read(leaves@, asked_names(columns))).len()
            == 0 ==> (res matches Ok(cols) && cols@.len() == 0),
{
    let ghost asked = asked_names(columns);
    let to_read = match columns {
        Some(c) => c,
        None => leaf_name_list(leaves),
    };
    let ghost tr = string_views(to_read@);
    assert(tr == leaf_names_to_read(leaves@, asked));
    let ghost chosen = chosen_leaves(leaves@, tr);
    let ghost full = add_names(Seq::empty(), chosen);
    proof {
        lemma_add_names(Seq::empty(), chosen);
    }
    let mut result: Vec<NamedColumn> = Vec::new();
    let ghost mut reads: Seq<(nat, nat, Seq<EntryView>)> = Seq::empty();
    let mut rg: usize = 0;
    while rg < n_row_groups
        invariant
            rg <= n_row_groups,
            asked == asked_names(columns),
            tr == leaf_names_to_read(leaves@, asked),
            tr == string_views(to_read@),
            chosen == chosen_leaves(leaves@, tr),
            full == add_names(Seq::empty(), chosen),
            forall|x: Seq<char>| #[trigger] full.contains(x) <==> chosen.contains(x),
            column_names(result@) == (if rg == 0 {
                Seq::<Seq<char>>::empty()
            } else {
                full
            }),
            chosen.len() == 0 ==> result@.len() == 0,
            column_names(result@).no_duplicates(),
            forall|j: int| 0 <= j < result@.len() ==> #[trigger] column_of_leaf(result@[j], leaves@),
            read_pairs(reads) == read_schedule(leaves@, tr, rg as nat),
            forall|i: int| 0 <= i < reads.len() ==> #[trigger] read_valid(reads[i], *md, data@, leaves@),
            forall|i: int| 0 <= i < reads.len() ==> #[trigger] read_listed(result@, leaf_names(leaves@), reads[i]),
            forall|j: int|
                0 <= j < result@.len() ==> entry_views(#[trigger] result@[j].entries@) == gathered(
                    reads,
                    leaf_names(leaves@),
                    result@[j].name@,
                ),
        decreases n_row_groups - rg,
    {
        let ghost start = column_names(result@);
        let ghost start_reads = reads;
        let mut k: usize = 0;
        while k < leaves.len()
            invariant
                k <= leaves@.len(),
                rg < n_row_groups,
                asked == asked_names(columns),
                tr == leaf_names_to_read(leaves@, asked),
                tr == string_views(to_read@),
                chosen == chosen_leaves(leaves@, tr),
                start == Seq::<Seq<char>>::empty() || start == full,
                column_names(result@) == add_names(start, chosen_leaves(leaves@.take(k as int), tr)),
                chosen.len() == 0 ==> result@.len() == 0,
                column_names(result@).no_duplicates(),
                forall|j: int| 0 <= j < result@.len() ==> #[trigger] column_of_leaf(result@[j], leaves@),
                read_pairs(start_reads) == read_schedule(leaves@, tr, rg as nat),
                read_pairs(reads) == read_pairs(start_reads) + row_schedule(
                    leaves@,
                    tr,
                    rg as nat,
                    k as nat,
                ),
                forall|i: int| 0 <= i < reads.len() ==> #[trigger] read_valid(reads[i], *md, data@, leaves@),
                forall|i: int| 0 <= i < reads.len() ==> #[trigger] read_listed(result@, leaf_names(leaves@), reads[i]),
                forall|j: int|
                    0 <= j < result@.len() ==> entry_views(#[trigger] result@[j].entries@)
                        == gathered(reads, leaf_names(leaves@), result@[j].name@),
            decreases leaves@.len() - k,
        {
            assert(leaves@.take(k + 1).drop_last() =~= leaves@.take(k as int));
            assert(leaves@.take(k + 1).last() == leaves@[k as int]);
            let ghost before = chosen_leaves(leaves@.take(k as int), tr);
            let leaf = &leaves[k];
            let name = join_path(leaf.path.as_slice());
            if is_leaf_selected(leaf, &name, to_read.as_slice()) {
                proof {
                    assert(chosen_leaves(leaves@.take(k + 1), tr).len() > 0);
                    lemma_chosen_leaves_prefix(leaves@, tr, k as int + 1);
                }
                let chunk = match read_column_chunk(
                    md,
                    rg,
                    k,
                    data,
                    leaf.info.physical_type,
                    leaf.info.logical_type,
                    leaf.max_rep_level,
                    true,
                ) {
                    Err(e) => {
                        proof {
                            lemma_read_schedule_has(leaves@, tr, n_row_groups as nat, rg as nat, k as nat);
                            let sched = read_schedule(leaves@, tr, n_row_groups as nat);
                            if schedule_decodes(sched, *md, data@, leaves@) {
                                let i = choose|i: int| 0 <= i < sched.len() && sched[i] == (rg as nat, k as nat);
                                assert(leaf_chunk_decoded(*md, data@, leaves@, sched[i].0, sched[i].1) is Ok);
                            }
                        }
                        return Err(e);
                    },
                    Ok(c) => c,
                };
                let ghost chunk_views = cell_views(chunk.cells@);
                let ghost chunk_levels = chunk.rep_levels@;
                let entries = chunk_entries(chunk.cells, chunk.rep_levels, leaf.max_rep_level);
                let ghost read = (rg as nat, k as nat, entry_views(entries@));
                let ghost old_result = result@;
                let ghost old_reads = reads;
                let ghost old_names = column_names(result@);
                append_column(&mut result, name, leaf.info.logical_type, entries);
                proof {
                    reads = reads.push(read);
                    assert(reads.drop_last() =~= old_reads);
                    assert(read_pairs(reads) =~= read_pairs(old_reads).push((rg as nat, k as nat)));
                    assert(before.push(leaf_name(leaves@[k as int])).drop_last() =~= before);
                    lemma_add_name_distinct(old_names, name@);
                    assert(read_valid(read, *md, data@, leaves@));
                    assert(name@ == leaf_name(leaves@[k as int]));
                    lemma_record_read(old_result, result@, old_reads, read, leaf_names(leaves@), name@);
                    let q = first_index(old_names, name@);
                    assert forall|j: int| 0 <= j < result@.len() implies #[trigger] column_of_leaf(
                        result@[j],
                        leaves@,
                    ) by {
                        if j == q {
                            if q == old_result.len() {
                                assert(leaf_name(leaves@[k as int]) == result@[j].name@);
                            } else {
                                assert(column_of_leaf(old_result[j], leaves@));
                                let kk = choose|kk: int|
                                    0 <= kk < leaves@.len() && #[trigger] leaf_name(leaves@[kk])
                                        == old_result[j].name@ && old_result[j].logical_type
                                        == leaves@[kk].info.logical_type;
                                assert(leaf_name(leaves@[kk]) == result@[j].name@);
                            }
                        } else {
                            if q < old_result.len() {
                                assert(result@[j] == old_result[j]);
                            } else {
                                assert(result@[j] == result@.take(q)[j]);
                            }
                            assert(column_of_leaf(old_result[j], leaves@));
                        }
                    }
                    assert forall|i: int| 0 <= i < reads.len() implies #[trigger] read_valid(
                        reads[i],
                        *md,
                        data@,
                        leaves@,
                    ) by {
                        if i < old_reads.len() {
                            assert(reads[i] == old_reads[i]);
                        }
                    }
                }
            }
            k = k + 1;
        }
        proof {
            assert(leaves@.take(leaves@.len() as int) =~= leaves@);
            if start == full {
                lemma_add_names(full, chosen);
                assert forall|i: int| 0 <= i < chosen.len() implies full.contains(
                    #[trigger] chosen[i],
                ) by {
                    assert(chosen.contains(chosen[i]));
                }
            }
            assert(read_schedule(leaves@, tr, (rg + 1) as nat) == read_schedule(leaves@, tr, rg as nat)
                + row_schedule(leaves@, tr, rg as nat, leaves@.len()));
        }
        rg = rg + 1;
    }
    proof {
        let sched = read_schedule(leaves@, tr, n_row_groups as nat);
        assert forall|i: int| 0 <= i < sched.len() implies sched[i].1 < leaves@.len()
            && #[trigger] leaf_chunk_decoded(*md, data@, leaves@, sched[i].0, sched[i].1) is Ok by {
            assert(read_pairs(reads)[i] == sched[i]);
            assert(read_valid(reads[i], *md, data@, leaves@));
        }
    }
    Ok(result)
}

/// Reads the leaf columns asked for by name or by their path's first part
/// (all of them when `columns` is `None`), with every encoding decoded and
/// list columns grouped into rows. The columns returned have distinct
/// names, each the dotted path of a leaf that was asked for, and hold what
/// the file's chunks of those leaves decode to; the read fails exactly when
/// the footer or one of the chunks to read cannot be read.
pub fn read_parquet(data: &[u8], columns: Option<Vec<String>>) -> (res: Result<
    Vec<NamedColumn>,
    ReadError,
>)
    ensures
        file_metadata(data@) is None ==> res matches Err(ReadError::Metadata(_)),
        res matches Ok(cols) ==> column_names(cols@).no_duplicates(),
        res matches Ok(cols) ==> (parsed_footer(data@) matches Some(md) && leaf_columns_read(
            cols@,
            md,
            data@,
            footer_layout(md).0,
            asked_names(columns),
            footer_layout(md).2.len(),
        )),
        parsed_footer(data@) matches Some(md) ==> (res is Ok <==> schedule_decodes(
            read_schedule(
                footer_layout(md).0,
                leaf_names_to_read(footer_layout(md).0, asked_names(columns)),
                footer_layout(md).2.len(),
            ),
            md,
            data@,
            footer_layout(md).0,
        )),
        (file_metadata(data@) matches Some((leaves, _, sizes)) && (sizes.len() == 0 || chosen_leaves(
            leaves,
            leaf_names_to_read(leaves, asked_names(columns)),
        ).len() == 0)) ==> (res matches Ok(cols) && cols@.len() == 0),
{
    let info = match read_file_metadata(data) {
        Err(e) => return Err(ReadError::Metadata(e)),
        Ok(i) => i,
    };
    let n = info.row_group_sizes.len();
    let ghost asked = asked_names(columns);
    let r = read_leaf_columns(&info.md, data, info.leaves.as_slice(), n, columns);
    proof {
        lemma_leaf_result_names(info.leaves@, asked, n as nat);
    }
    r
}

/// The version of this library.
pub fn get_version() -> (v: String)
    ensures
        v@ == "0.1.0"@,
{
    owned("0.1.0")
}

} // verus!
