//! The shape of what a reader returns: named columns of entries, and the
//! names of nested columns.

use vstd::prelude::*;
use crate::cells::{cell_views, Cell, CellView};
use crate::types::LogicalType;

verus! {

broadcast use vstd::string::group_string_axioms;

/// One entry of a column: a value, or a row of a nested column.
#[derive(Debug)]
pub enum Entry {
    Value(Cell),
    Row(Vec<Cell>),
}

/// An [`Entry`] with its cells as views.
pub enum EntryView {
    Value(CellView),
    Row(Seq<CellView>),
}

impl View for Entry {
    type V = EntryView;

    open spec fn view(&self) -> EntryView {
        match self {
            Entry::Value(c) => EntryView::Value(c@),
            Entry::Row(r) => EntryView::Row(cell_views(r@)),
        }
    }
}

/// The views of a sequence of entries.
pub open spec fn entry_views(e: Seq<Entry>) -> Seq<EntryView> {
    e.map_values(|x: Entry| x@)
}

/// A column of the result, under its name, with the logical type its
/// values carry.
#[derive(Debug)]
pub struct NamedColumn {
    pub name: String,
    pub logical_type: Option<LogicalType>,
    pub entries: Vec<Entry>,
}

/// The names of the columns of a result, in order.
pub open spec fn column_names(cols: Seq<NamedColumn>) -> Seq<Seq<char>> {
    cols.map_values(|c: NamedColumn| c.name@)
}

/// `names` with `n` added at the end, unless it is there already.
pub open spec fn add_name(names: Seq<Seq<char>>, n: Seq<char>) -> Seq<Seq<char>> {
    if names.contains(n) {
        names
    } else {
        names.push(n)
    }
}

/// `names` with each of `ns` added in turn (see [`add_name`]).
pub open spec fn add_names(names: Seq<Seq<char>>, ns: Seq<Seq<char>>) -> Seq<Seq<char>>
    decreases ns.len(),
{
    if ns.len() == 0 {
        names
    } else {
        add_name(add_names(names, ns.drop_last()), ns.last())
    }
}

/// A name is among `add_names(names, ns)` exactly when it is among `names`
/// or `ns`; no name occurs twice there unless it did in `names`; and
/// adding names that are all present already changes nothing.
pub proof fn lemma_add_names(names: Seq<Seq<char>>, ns: Seq<Seq<char>>)
    ensures
        forall|x: Seq<char>| #[trigger] add_names(names, ns).contains(x) <==> (names.contains(x)
            || ns.contains(x)),
        names.no_duplicates() ==> add_names(names, ns).no_duplicates(),
        (forall|i: int| 0 <= i < ns.len() ==> names.contains(#[trigger] ns[i])) ==> add_names(
            names,
            ns,
        ) == names,
    decreases ns.len(),
{
    if ns.len() > 0 {
        let prev = add_names(names, ns.drop_last());
        lemma_add_names(names, ns.drop_last());
        assert forall|x: Seq<char>| #[trigger] add_names(names, ns).contains(x) <==> (
        names.contains(x) || ns.contains(x)) by {
            if ns.contains(x) {
                let i = choose|i: int| 0 <= i < ns.len() && ns[i] == x;
                if i < ns.len() - 1 {
                    assert(ns.drop_last()[i] == x);
                }
            }
            if ns.drop_last().contains(x) {
                let i = choose|i: int| 0 <= i < ns.drop_last().len() && ns.drop_last()[i] == x;
                assert(ns[i] == x);
            }
            if !prev.contains(ns.last()) {
                assert(prev.push(ns.last())[prev.len() as int] == ns.last());
                if prev.push(ns.last()).contains(x) {
                    let i = choose|i: int| 0 <= i < prev.len() + 1 && prev.push(ns.last())[i] == x;
                    if i < prev.len() {
                        assert(prev[i] == x);
                    }
                }
                if prev.contains(x) {
                    let i = choose|i: int| 0 <= i < prev.len() && prev[i] == x;
                    assert(prev.push(ns.last())[i] == x);
                }
            }
        }
        if names.no_duplicates() && !prev.contains(ns.last()) {
            assert forall|i: int, j: int|
                0 <= i < prev.len() + 1 && 0 <= j < prev.len() + 1 && i != j implies prev.push(
                ns.last(),
            )[i] != prev.push(ns.last())[j] by {
                if i < prev.len() && j == prev.len() {
                    assert(prev.contains(prev[i]));
                }
                if j < prev.len() && i == prev.len() {
                    assert(prev.contains(prev[j]));
                }
            }
        }
        if forall|i: int| 0 <= i < ns.len() ==> names.contains(#[trigger] ns[i]) {
            assert forall|i: int| 0 <= i < ns.drop_last().len() implies names.contains(
                #[trigger] ns.drop_last()[i],
            ) by {
                assert(ns.drop_last()[i] == ns[i]);
            }
            assert(names.contains(ns[ns.len() - 1]));
        }
    }
}

/// Cells as plain entries.
pub fn value_entries(cells: Vec<Cell>) -> (out: Vec<Entry>)
    ensures
        entry_views(out@) == cell_views(cells@).map_values(|c: CellView| EntryView::Value(c)),
{
    let ghost cs = cells@;
    let n = cells.len();
    let mut stack = crate::nulls::reversed(cells);
    let mut out: Vec<Entry> = Vec::new();
    let mut i: usize = 0;
    while i < n
        invariant
            i <= n,
            n == cs.len(),
            stack@.len() + i == n,
            forall|j: int| 0 <= j < stack@.len() ==> #[trigger] stack@[j] == cs[n - 1 - j],
            entry_views(out@) =~= cell_views(cs.take(i as int)).map_values(
                |c: CellView| EntryView::Value(c),
            ),
        decreases n - i,
    {
        let c = stack.pop().unwrap();
        assert(c == cs[i as int]);
        let ghost cv = c@;
        let ghost prev = out@;
        let e = Entry::Value(c);
        out.push(e);
        assert(entry_views(out@) =~= entry_views(prev).push(EntryView::Value(cv)));
        assert(cs.take(i + 1) =~= cs.take(i as int).push(cs[i as int]));
        assert(cell_views(cs.take(i + 1)).map_values(|c: CellView| EntryView::Value(c))
            =~= cell_views(cs.take(i as int)).map_values(|c: CellView| EntryView::Value(c)).push(
            EntryView::Value(cv),
        ));
        i = i + 1;
    }
    assert(cs.take(n as int) =~= cs);
    out
}

/// Rows of cells as row entries.
pub fn row_entries(rows: Vec<Vec<Cell>>) -> (out: Vec<Entry>)
    ensures
        entry_views(out@) == rows@.map_values(|r: Vec<Cell>| EntryView::Row(cell_views(r@))),
{
    let ghost rs = rows@;
    let n = rows.len();
    let mut stack = crate::nulls::reversed(rows);
    let mut out: Vec<Entry> = Vec::new();
    let mut i: usize = 0;
    while i < n
        invariant
            i <= n,
            n == rs.len(),
            stack@.len() + i == n,
            forall|j: int| 0 <= j < stack@.len() ==> #[trigger] stack@[j] == rs[n - 1 - j],
            entry_views(out@) =~= rs.take(i as int).map_values(
                |r: Vec<Cell>| EntryView::Row(cell_views(r@)),
            ),
        decreases n - i,
    {
        let r = stack.pop().unwrap();
        assert(r == rs[i as int]);
        let ghost rv = EntryView::Row(cell_views(r@));
        let ghost prev = out@;
        let e = Entry::Row(r);
        out.push(e);
        assert(entry_views(out@) =~= entry_views(prev).push(rv));
        assert(rs.take(i + 1) =~= rs.take(i as int).push(rs[i as int]));
        i = i + 1;
    }
    assert(rs.take(n as int) =~= rs);
    out
}

/// The position of the first name equal to `name`, or the number of names
/// when there is none.
pub open spec fn first_index(names: Seq<Seq<char>>, name: Seq<char>) -> int
    decreases names.len(),
{
    if names.len() == 0 {
        0
    } else if names[0] == name {
        0
    } else {
        1 + first_index(names.drop_first(), name)
    }
}

proof fn lemma_first_index(names: Seq<Seq<char>>, name: Seq<char>, k: int)
    requires
        0 <= k <= names.len(),
        forall|j: int| 0 <= j < k ==> names[j] != name,
        k < names.len() ==> names[k] == name,
    ensures
        first_index(names, name) == k,
    decreases names.len(),
{
    if names.len() > 0 && k > 0 {
        assert forall|j: int| 0 <= j < k - 1 implies names.drop_first()[j] != name by {
            assert(names.drop_first()[j] == names[j + 1]);
        }
        lemma_first_index(names.drop_first(), name, k - 1);
    }
}

/// Adds entries under a name: appended to the first column of that name
/// when there is one, as a new last column (with the given logical type)
/// otherwise.
pub fn append_column(
    result: &mut Vec<NamedColumn>,
    name: String,
    logical_type: Option<LogicalType>,
    entries: Vec<Entry>,
)
    ensures
        column_names(final(result)@) == add_name(column_names(old(result)@), name@),
        ({
            let k = first_index(column_names(old(result)@), name@);
            &&& 0 <= k <= old(result)@.len()
            &&& k < old(result)@.len() ==> old(result)@[k].name@ == name@
            &&& k == old(result)@.len() <==> !column_names(old(result)@).contains(name@)
        }),
        ({
            let k = first_index(column_names(old(result)@), name@);
            &&& k < old(result)@.len() ==> final(result)@ == old(result)@.update(
                k,
                final(result)@[k],
            ) && final(result)@[k].name == old(result)@[k].name && final(result)@[k].logical_type
                == old(result)@[k].logical_type && entry_views(
                final(result)@[k].entries@,
            ) == entry_views(old(result)@[k].entries@) + entry_views(entries@)
            &&& k == old(result)@.len() ==> final(result)@.len() == old(result)@.len() + 1
                && final(result)@.take(k) == old(result)@ && final(result)@[k].name@ == name@
                && final(result)@[k].logical_type == logical_type
                && entry_views(final(result)@[k].entries@) == entry_views(entries@)
        }),
{
    let mut k: usize = 0;
    while k < result.len()
        invariant
            k <= result@.len(),
            result@ == old(result)@,
            forall|j: int| 0 <= j < k ==> #[trigger] result@[j].name@ != name@,
        ensures
            k <= result@.len(),
            result@ == old(result)@,
            forall|j: int| 0 <= j < k ==> #[trigger] result@[j].name@ != name@,
            k < result@.len() ==> result@[k as int].name@ == name@,
        decreases result@.len() - k,
    {
        if result[k].name == name {
            break ;
        }
        k = k + 1;
    }
    proof {
        let names = column_names(old(result)@);
        assert forall|j: int| 0 <= j < k implies names[j] != name@ by {
            assert(names[j] == result@[j].name@);
        }
        lemma_first_index(names, name@, k as int);
        if k < names.len() {
            assert(names[k as int] == result@[k as int].name@);
            assert(names.contains(name@));
        } else {
            assert(!names.contains(name@));
        }
    }
    if k < result.len() {
        extend_at(result, k, entries);
        assert(column_names(result@) =~= column_names(old(result)@));
    } else {
        result.push(NamedColumn { name, logical_type, entries });
        assert(result@.take(k as int) =~= old(result)@);
        assert(column_names(result@) =~= column_names(old(result)@).push(name@));
    }
}

/// The (row group, position) pairs of chunk reads.
pub open spec fn read_pairs(reads: Seq<(nat, nat, Seq<EntryView>)>) -> Seq<(nat, nat)> {
    reads.map_values(|r: (nat, nat, Seq<EntryView>)| (r.0, r.1))
}

/// Adding a name keeps the names distinct.
pub proof fn lemma_add_name_distinct(names: Seq<Seq<char>>, n: Seq<char>)
    requires
        names.no_duplicates(),
    ensures
        add_name(names, n).no_duplicates(),
{
    lemma_add_names(names, seq![n]);
    assert(seq![n].drop_last() =~= Seq::<Seq<char>>::empty());
    assert(add_names(names, seq![n]) == add_name(add_names(names, Seq::empty()), n));
}

/// The entries that the chunk reads of columns named `name` added, in the
/// order they were read. A read is (row group, position, entries), and
/// `names` gives the name of the column at each position.
pub open spec fn gathered(reads: Seq<(nat, nat, Seq<EntryView>)>, names: Seq<Seq<char>>, name: Seq<char>) -> Seq<
    EntryView,
>
    decreases reads.len(),
{
    if reads.len() == 0 {
        Seq::empty()
    } else {
        let rest = gathered(reads.drop_last(), names, name);
        if names[reads.last().1 as int] == name {
            rest + reads.last().2
        } else {
            rest
        }
    }
}

/// Whether the position of a chunk read names a column among `cols`.
pub open spec fn read_listed(cols: Seq<NamedColumn>, names: Seq<Seq<char>>, r: (nat, nat, Seq<EntryView>)) -> bool {
    r.1 < names.len() && column_names(cols).contains(names[r.1 as int])
}

/// Reads at positions of other names gather nothing under `name`.
pub proof fn lemma_gathered_absent(reads: Seq<(nat, nat, Seq<EntryView>)>, names: Seq<Seq<char>>, name: Seq<char>)
    requires
        forall|i: int| 0 <= i < reads.len() ==> names[#[trigger] reads[i].1 as int] != name,
    ensures
        gathered(reads, names, name) == Seq::<EntryView>::empty(),
    decreases reads.len(),
{
    if reads.len() > 0 {
        let pre = reads.drop_last();
        assert forall|i: int| 0 <= i < pre.len() implies names[#[trigger] pre[i].1 as int] != name by {
            assert(pre[i] == reads[i]);
        }
        lemma_gathered_absent(pre, names, name);
        assert(names[reads[reads.len() - 1].1 as int] != name);
    }
}

/// Adding the entries of one more chunk read, at a position named `name`,
/// to the columns as [`append_column`] does keeps each column equal to
/// what the reads of its name gathered.
pub proof fn lemma_record_read(
    old_result: Seq<NamedColumn>,
    result: Seq<NamedColumn>,
    old_reads: Seq<(nat, nat, Seq<EntryView>)>,
    read: (nat, nat, Seq<EntryView>),
    names: Seq<Seq<char>>,
    name: Seq<char>,
)
    requires
        read.1 < names.len(),
        names[read.1 as int] == name,
        column_names(old_result).no_duplicates(),
        forall|i: int| 0 <= i < old_reads.len() ==> #[trigger] read_listed(old_result, names, old_reads[i]),
        forall|j: int|
            0 <= j < old_result.len() ==> entry_views(#[trigger] old_result[j].entries@) == gathered(
                old_reads,
                names,
                old_result[j].name@,
            ),
        column_names(result) == add_name(column_names(old_result), name),
        ({
            let k = first_index(column_names(old_result), name);
            &&& 0 <= k <= old_result.len()
            &&& k < old_result.len() ==> old_result[k].name@ == name
            &&& k == old_result.len() <==> !column_names(old_result).contains(name)
            &&& k < old_result.len() ==> result == old_result.update(k, result[k]) && result[k].name
                == old_result[k].name && entry_views(result[k].entries@) == entry_views(
                old_result[k].entries@,
            ) + read.2
            &&& k == old_result.len() ==> result.len() == old_result.len() + 1 && result.take(k)
                == old_result && result[k].name@ == name && entry_views(result[k].entries@) == read.2
        }),
    ensures
        forall|i: int|
            0 <= i < old_reads.len() + 1 ==> #[trigger] read_listed(result, names, old_reads.push(read)[i]),
        forall|j: int|
            0 <= j < result.len() ==> entry_views(#[trigger] result[j].entries@) == gathered(
                old_reads.push(read),
                names,
                result[j].name@,
            ),
{
    let reads = old_reads.push(read);
    let on = column_names(old_result);
    let k = first_index(on, name);
    assert(reads.drop_last() =~= old_reads);
    assert(reads.last() == read);
    assert forall|i: int| 0 <= i < reads.len() implies #[trigger] read_listed(result, names, reads[i]) by {
        if i < old_reads.len() {
            assert(reads[i] == old_reads[i]);
            assert(read_listed(old_result, names, old_reads[i]));
            let x = names[old_reads[i].1 as int];
            let m = choose|m: int| 0 <= m < on.len() && on[m] == x;
            if !on.contains(name) {
                assert(on.push(name)[m] == x);
            }
        } else {
            assert(reads[i] == read);
            if !on.contains(name) {
                assert(on.push(name)[on.len() as int] == name);
            }
        }
    }
    if k == old_result.len() {
        assert forall|i: int| 0 <= i < old_reads.len() implies names[#[trigger] old_reads[i].1 as int]
            != name by {
            assert(read_listed(old_result, names, old_reads[i]));
        }
        lemma_gathered_absent(old_reads, names, name);
    }
    assert forall|j: int| 0 <= j < result.len() implies entry_views(#[trigger] result[j].entries@)
        == gathered(reads, names, result[j].name@) by {
        if j == k {
            if k < old_result.len() {
                assert(result[j].name@ == name);
            }
        } else {
            if k < old_result.len() {
                assert(result[j] == old_result[j]);
                assert(on[k] == name);
            } else {
                assert(result[j] == result.take(k)[j]);
                assert(on.contains(on[j]));
            }
            assert(on[j] == old_result[j].name@);
        }
    }
}

fn extend_at(result: &mut Vec<NamedColumn>, k: usize, entries: Vec<Entry>)
    requires
        k < old(result)@.len(),
    ensures
        final(result)@ == old(result)@.update(k as int, final(result)@[k as int]),
        final(result)@[k as int].name == old(result)@[k as int].name,
        final(result)@[k as int].logical_type == old(result)@[k as int].logical_type,
        entry_views(final(result)@[k as int].entries@) == entry_views(old(result)@[k as int].entries@)
            + entry_views(entries@),
{
    let mut column = result.remove(k);
    let ghost before = column.entries@;
    let mut more = entries;
    let ghost added = more@;
    column.entries.append(&mut more);
    assert(entry_views(column.entries@) =~= entry_views(before) + entry_views(added));
    let ghost c = column;
    result.insert(k, column);
    assert(result@ =~= old(result)@.update(k as int, c));
}

/// The parts joined by `sep`.
pub open spec fn joined(parts: Seq<Seq<char>>, sep: Seq<char>) -> Seq<char>
    decreases parts.len(),
{
    if parts.len() == 0 {
        Seq::empty()
    } else if parts.len() == 1 {
        parts[0]
    } else {
        joined(parts.drop_last(), sep) + sep + parts.last()
    }
}

/// The path of a nested column, its parts joined by dots.
pub fn join_path(parts: &[String]) -> (s: String)
    ensures
        s@ == joined(parts@.map_values(|p: String| p@), "."@),
{
    let mut s = String::new();
    let mut i: usize = 0;
    while i < parts.len()
        invariant
            i <= parts@.len(),
            s@ == joined(parts@.take(i as int).map_values(|p: String| p@), "."@),
        decreases parts@.len() - i,
    {
        let ghost prev = parts@.take(i as int).map_values(|p: String| p@);
        let ghost next = parts@.take(i + 1).map_values(|p: String| p@);
        assert(next.drop_last() =~= prev);
        if i > 0 {
            s.append(".");
        }
        s.append(parts[i].as_str());
        proof {
            if i == 0 {
                assert(s@ =~= next[0]);
            }
        }
        i = i + 1;
    }
    assert(parts@.take(parts@.len() as int) =~= parts@);
    s
}

} // verus!
