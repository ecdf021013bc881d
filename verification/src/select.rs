//! Which columns a reader reads, and under which names it returns them.

use vstd::prelude::*;
use crate::output::{add_names, lemma_add_names};
use crate::pages::{PrimitiveInfo, TopField};

verus! {

/// The text of each string.
pub open spec fn string_views(v: Seq<String>) -> Seq<Seq<char>> {
    v.map_values(|s: String| s@)
}

/// The primitive top-level fields, in schema order.
pub open spec fn primitive_infos(fields: Seq<TopField>) -> Seq<PrimitiveInfo>
    decreases fields.len(),
{
    if fields.len() == 0 {
        Seq::empty()
    } else {
        let rest = primitive_infos(fields.drop_last());
        match fields.last() {
            TopField::Primitive(p) => rest.push(p),
            TopField::Group => rest,
        }
    }
}

/// The names of the primitive top-level fields, in schema order.
pub open spec fn primitive_names(fields: Seq<TopField>) -> Seq<Seq<char>> {
    primitive_infos(fields).map_values(|p: PrimitiveInfo| p.name@)
}

/// The names of the primitive top-level fields that `to_read` holds, in
/// schema order.
pub open spec fn chosen_fields(fields: Seq<TopField>, to_read: Seq<Seq<char>>) -> Seq<Seq<char>>
    decreases fields.len(),
{
    if fields.len() == 0 {
        Seq::empty()
    } else {
        let rest = chosen_fields(fields.drop_last(), to_read);
        match fields.last() {
            TopField::Primitive(p) => if to_read.contains(p.name@) {
                rest.push(p.name@)
            } else {
                rest
            },
            TopField::Group => rest,
        }
    }
}

/// The names to read: those asked for, or every primitive top-level field.
pub open spec fn top_names_to_read(fields: Seq<TopField>, columns: Option<Seq<Seq<char>>>) -> Seq<
    Seq<char>,
> {
    match columns {
        Some(c) => c,
        None => primitive_names(fields),
    }
}

/// The names of the columns that a reader of top-level fields returns: each
/// chosen field's name once, in schema order, and none when the file has
/// no row group.
pub open spec fn top_result_names(
    fields: Seq<TopField>,
    columns: Option<Seq<Seq<char>>>,
    n_row_groups: nat,
) -> Seq<Seq<char>> {
    if n_row_groups == 0 {
        Seq::empty()
    } else {
        add_names(Seq::empty(), chosen_fields(fields, top_names_to_read(fields, columns)))
    }
}

/// Every chosen field's name is one of the names to read.
pub proof fn lemma_chosen_are_asked(fields: Seq<TopField>, to_read: Seq<Seq<char>>)
    ensures
        forall|x: Seq<char>| #[trigger] chosen_fields(fields, to_read).contains(x) ==> to_read.contains(
            x,
        ),
    decreases fields.len(),
{
    if fields.len() > 0 {
        lemma_chosen_are_asked(fields.drop_last(), to_read);
        let rest = chosen_fields(fields.drop_last(), to_read);
        assert forall|x: Seq<char>| #[trigger] chosen_fields(fields, to_read).contains(x) implies to_read.contains(x) by {
            let c = chosen_fields(fields, to_read);
            let i = choose|i: int| 0 <= i < c.len() && c[i] == x;
            if i < rest.len() {
                assert(rest[i] == x);
                assert(rest.contains(x));
            }
        }
    }
}

/// A prefix of the fields has no more chosen fields than the whole.
pub proof fn lemma_chosen_prefix(fields: Seq<TopField>, to_read: Seq<Seq<char>>, j: int)
    requires
        0 <= j <= fields.len(),
    ensures
        chosen_fields(fields.take(j), to_read).len() <= chosen_fields(fields, to_read).len(),
    decreases fields.len(),
{
    if j == fields.len() {
        assert(fields.take(j) =~= fields);
    } else {
        let pre = fields.drop_last();
        assert(pre.take(j) =~= fields.take(j));
        lemma_chosen_prefix(pre, to_read, j);
    }
}

/// With every primitive field's name among the names to read, every
/// primitive field is chosen.
pub proof fn lemma_all_chosen(fields: Seq<TopField>, to_read: Seq<Seq<char>>)
    requires
        forall|i: int| 0 <= i < primitive_names(fields).len() ==> to_read.contains(
            #[trigger] primitive_names(fields)[i],
        ),
    ensures
        chosen_fields(fields, to_read) == primitive_names(fields),
    decreases fields.len(),
{
    if fields.len() > 0 {
        let pre = fields.drop_last();
        assert forall|i: int| 0 <= i < primitive_names(pre).len() implies to_read.contains(
            #[trigger] primitive_names(pre)[i],
        ) by {
            assert(primitive_names(pre)[i] == primitive_names(fields)[i]);
        }
        lemma_all_chosen(pre, to_read);
        match fields.last() {
            TopField::Primitive(p) => {
                let k = primitive_names(pre).len() as int;
                assert(primitive_names(fields)[k] == p.name@);
                assert(primitive_names(fields) =~= primitive_names(pre).push(p.name@));
            },
            TopField::Group => {
                assert(primitive_names(fields) =~= primitive_names(pre));
            },
        }
    }
}

/// Read with no list of columns, a file with a row group gives one column
/// for each distinct name of a primitive top-level field, in schema order.
pub proof fn lemma_default_reads_all(fields: Seq<TopField>, n_row_groups: nat)
    requires
        n_row_groups > 0,
    ensures
        top_result_names(fields, None, n_row_groups) == add_names(Seq::empty(), primitive_names(fields)),
{
    let names = primitive_names(fields);
    assert forall|i: int| 0 <= i < names.len() implies names.contains(#[trigger] names[i]) by {}
    lemma_all_chosen(fields, names);
}

/// The columns a reader returns have distinct names, each of them one of
/// the names asked for.
pub proof fn lemma_top_result_names(
    fields: Seq<TopField>,
    columns: Option<Seq<Seq<char>>>,
    n_row_groups: nat,
)
    ensures
        top_result_names(fields, columns, n_row_groups).no_duplicates(),
        forall|x: Seq<char>| #[trigger] top_result_names(fields, columns, n_row_groups).contains(x)
            ==> top_names_to_read(fields, columns).contains(x),
{
    let to_read = top_names_to_read(fields, columns);
    lemma_chosen_are_asked(fields, to_read);
    lemma_add_names(Seq::empty(), chosen_fields(fields, to_read));
    if n_row_groups == 0 {
        assert forall|x: Seq<char>| #[trigger] top_result_names(fields, columns, n_row_groups).contains(x)
            implies to_read.contains(x) by {}
    }
}

/// Whether `name` is one of `list`.
pub fn contains_name(list: &[String], name: &String) -> (b: bool)
    ensures
        b == string_views(list@).contains(name@),
{
    let mut i: usize = 0;
    while i < list.len()
        invariant
            i <= list@.len(),
            forall|j: int| 0 <= j < i ==> #[trigger] list@[j]@ != name@,
        decreases list@.len() - i,
    {
        if list[i] == *name {
            assert(string_views(list@)[i as int] == name@);
            return true;
        }
        i = i + 1;
    }
    proof {
        if string_views(list@).contains(name@) {
            let j = choose|j: int| 0 <= j < list@.len() && string_views(list@)[j] == name@;
            assert(list@[j]@ == name@);
        }
    }
    false
}

/// The names of the primitive top-level fields.
pub fn primitive_name_list(fields: &[TopField]) -> (v: Vec<String>)
    ensures
        string_views(v@) == primitive_names(fields@),
{
    let mut v: Vec<String> = Vec::new();
    let mut i: usize = 0;
    while i < fields.len()
        invariant
            i <= fields@.len(),
            string_views(v@) == primitive_names(fields@.take(i as int)),
        decreases fields@.len() - i,
    {
        assert(fields@.take(i + 1).drop_last() =~= fields@.take(i as int));
        match &fields[i] {
            TopField::Primitive(p) => {
                let ghost prev = v@;
                v.push(p.name.clone());
                assert(string_views(v@) =~= string_views(prev).push(p.name@));
                assert(primitive_names(fields@.take(i + 1)) =~= primitive_names(
                    fields@.take(i as int),
                ).push(p.name@));
            },
            TopField::Group => {
                assert(primitive_names(fields@.take(i + 1)) =~= primitive_names(
                    fields@.take(i as int),
                ));
            },
        }
        i = i + 1;
    }
    assert(fields@.take(fields@.len() as int) =~= fields@);
    v
}

} // verus!
