//! Repetition levels: grouping the values of a list column into rows.

use vstd::prelude::*;

verus! {

/// The finished rows and the row being filled after the first `k` values:
/// a level of 0 closes the current row (when it holds anything) and opens a
/// new one; any other level continues it.
pub open spec fn group_state<T>(rep: Seq<u32>, vals: Seq<T>, k: nat) -> (Seq<Seq<T>>, Seq<T>)
    decreases k,
{
    if k == 0 {
        (Seq::empty(), Seq::empty())
    } else {
        let (done, cur) = group_state(rep, vals, (k - 1) as nat);
        if rep[k - 1] == 0 && cur.len() > 0 {
            (done.push(cur), seq![vals[k - 1]])
        } else {
            (done, cur.push(vals[k - 1]))
        }
    }
}

/// How many values take part in the grouping: one per repetition level, and
/// no more than there are values.
pub open spec fn grouped_len(rep_len: nat, vals_len: nat) -> nat {
    if rep_len < vals_len {
        rep_len
    } else {
        vals_len
    }
}

/// The rows that the repetition levels make of the values.
pub open spec fn group_by_rep<T>(rep: Seq<u32>, vals: Seq<T>) -> Seq<Seq<T>> {
    let (done, cur) = group_state(rep, vals, grouped_len(rep.len(), vals.len()));
    if cur.len() > 0 {
        done.push(cur)
    } else {
        done
    }
}

proof fn lemma_group_state<T>(rep: Seq<u32>, vals: Seq<T>, k: nat)
    requires
        k <= rep.len(),
        k <= vals.len(),
    ensures
        group_state(rep, vals, k).0.flatten_alt() + group_state(rep, vals, k).1 == vals.take(
            k as int,
        ),
        forall|j: int|
            0 <= j < group_state(rep, vals, k).0.len() ==> #[trigger] group_state(
                rep,
                vals,
                k,
            ).0[j].len() > 0,
        k > 0 ==> group_state(rep, vals, k).1.len() > 0,
    decreases k,
{
    if k > 0 {
        lemma_group_state(rep, vals, (k - 1) as nat);
        let (done, cur) = group_state(rep, vals, (k - 1) as nat);
        assert(vals.take(k as int) =~= vals.take(k - 1).push(vals[k - 1]));
        if rep[k - 1] == 0 && cur.len() > 0 {
            assert(done.push(cur).drop_last() =~= done);
            assert(done.push(cur).flatten_alt() == done.flatten_alt() + cur);
            assert(done.push(cur).flatten_alt() + seq![vals[k - 1]] =~= done.flatten_alt() + cur
                + seq![vals[k - 1]]);
        } else {
            assert(done.flatten_alt() + cur.push(vals[k - 1]) =~= (done.flatten_alt() + cur).push(
                vals[k - 1],
            ));
        }
    }
}

/// Grouping loses, adds and reorders no value: the rows, joined, are the
/// values that had a repetition level, and no row is empty.
pub proof fn lemma_group_by_rep_flatten<T>(rep: Seq<u32>, vals: Seq<T>)
    ensures
        group_by_rep(rep, vals).flatten() == vals.take(grouped_len(rep.len(), vals.len()) as int),
        forall|j: int|
            0 <= j < group_by_rep(rep, vals).len() ==> #[trigger] group_by_rep(rep, vals)[j].len()
                > 0,
{
    let k = grouped_len(rep.len(), vals.len());
    lemma_group_state(rep, vals, k);
    let (done, cur) = group_state(rep, vals, k);
    let g = group_by_rep(rep, vals);
    if cur.len() > 0 {
        assert(done.push(cur).drop_last() =~= done);
        assert(g.flatten_alt() == done.flatten_alt() + cur);
    } else {
        assert(done.flatten_alt() + cur =~= done.flatten_alt());
    }
    g.lemma_flatten_and_flatten_alt_are_equivalent();
}

/// Where each row begins among the values of the rows joined.
pub open spec fn row_starts<T>(rows: Seq<Seq<T>>) -> Seq<int>
    decreases rows.len(),
{
    if rows.len() == 0 {
        Seq::empty()
    } else {
        row_starts(rows.drop_last()).push(rows.drop_last().flatten_alt().len() as int)
    }
}

proof fn lemma_row_starts_below<T>(rows: Seq<Seq<T>>)
    requires
        forall|j: int| 0 <= j < rows.len() ==> #[trigger] rows[j].len() > 0,
    ensures
        forall|j: int| 0 <= j < row_starts(rows).len() ==> #[trigger] row_starts(rows)[j] < rows.flatten_alt().len(),
        row_starts(rows).len() == rows.len(),
        rows.len() > 0 ==> row_starts(rows)[0] == 0,
    decreases rows.len(),
{
    if rows.len() > 0 {
        let init = rows.drop_last();
        assert forall|j: int| 0 <= j < init.len() implies #[trigger] init[j].len() > 0 by {
            assert(init[j] == rows[j]);
        }
        lemma_row_starts_below(init);
        assert(rows.flatten_alt().len() == init.flatten_alt().len() + rows.last().len());
        if rows.len() == 1 {
            assert(init.flatten_alt() =~= Seq::<T>::empty());
        }
    }
}

proof fn lemma_group_state_starts<T>(rep: Seq<u32>, vals: Seq<T>, k: nat)
    requires
        k <= rep.len(),
        k <= vals.len(),
    ensures
        forall|i: int|
            0 < i < k ==> (rep[i] == 0 <==> (row_starts(group_state(rep, vals, k).0).contains(i) || i
                == group_state(rep, vals, k).0.flatten_alt().len())),
    decreases k,
{
    if k > 0 {
        lemma_group_state_starts(rep, vals, (k - 1) as nat);
        lemma_group_state(rep, vals, (k - 1) as nat);
        lemma_group_state(rep, vals, k);
        let (done, cur) = group_state(rep, vals, (k - 1) as nat);
        lemma_row_starts_below(done);
        assert(vals.take(k - 1).len() == k - 1);
        if rep[k - 1] == 0 && cur.len() > 0 {
            let nd = done.push(cur);
            assert(nd.drop_last() =~= done);
            assert(row_starts(nd) == row_starts(done).push(done.flatten_alt().len() as int));
            assert(nd.flatten_alt() == done.flatten_alt() + cur);
            assert forall|i: int| 0 < i < k implies (rep[i] == 0 <==> (row_starts(nd).contains(i) || i
                == nd.flatten_alt().len())) by {
                if i < k - 1 {
                    if row_starts(done).contains(i) {
                        let j = choose|j: int| 0 <= j < row_starts(done).len() && row_starts(done)[j] == i;
                        assert(row_starts(nd)[j] == i);
                    }
                    if row_starts(nd).contains(i) {
                        let j = choose|j: int| 0 <= j < row_starts(nd).len() && row_starts(nd)[j] == i;
                        if j < row_starts(done).len() {
                            assert(row_starts(done)[j] == i);
                        }
                    }
                } else {
                    assert(row_starts(nd)[row_starts(done).len() as int] == done.flatten_alt().len());
                }
            }
        } else {
            assert forall|i: int| 0 < i < k implies (rep[i] == 0 <==> (row_starts(done).contains(i) || i
                == done.flatten_alt().len())) by {
                if i == k - 1 {
                    if row_starts(done).contains(i) {
                        let j = choose|j: int| 0 <= j < row_starts(done).len() && row_starts(done)[j] == i;
                        assert(row_starts(done)[j] < done.flatten_alt().len());
                    }
                }
            }
        }
    }
}

/// Where rows begin: past the first value, a value begins a new row exactly
/// when its repetition level is 0; the first row begins at the first value.
pub proof fn lemma_group_by_rep_starts<T>(rep: Seq<u32>, vals: Seq<T>)
    ensures
        forall|i: int|
            0 < i < grouped_len(rep.len(), vals.len()) ==> (rep[i] == 0 <==> row_starts(
                group_by_rep(rep, vals),
            ).contains(i)),
        group_by_rep(rep, vals).len() > 0 ==> row_starts(group_by_rep(rep, vals))[0] == 0,
        group_by_rep(rep, vals).len() == 0 <==> grouped_len(rep.len(), vals.len()) == 0,
{
    let k = grouped_len(rep.len(), vals.len());
    lemma_group_state_starts(rep, vals, k);
    lemma_group_state(rep, vals, k);
    lemma_group_by_rep_flatten(rep, vals);
    let (done, cur) = group_state(rep, vals, k);
    let g = group_by_rep(rep, vals);
    lemma_row_starts_below(g);
    lemma_row_starts_below(done);
    if cur.len() > 0 {
        assert(g.drop_last() =~= done);
        assert(row_starts(g) == row_starts(done).push(done.flatten_alt().len() as int));
        assert forall|i: int| 0 < i < k implies (rep[i] == 0 <==> row_starts(g).contains(i)) by {
            if row_starts(done).contains(i) {
                let j = choose|j: int| 0 <= j < row_starts(done).len() && row_starts(done)[j] == i;
                assert(row_starts(g)[j] == i);
            }
            if i == done.flatten_alt().len() {
                assert(row_starts(g)[row_starts(done).len() as int] == i);
            }
            if row_starts(g).contains(i) {
                let j = choose|j: int| 0 <= j < row_starts(g).len() && row_starts(g)[j] == i;
                if j < row_starts(done).len() {
                    assert(row_starts(done)[j] == i);
                }
            }
        }
    } else {
        assert(k == 0);
    }
}

proof fn lemma_group_state_map<A, B>(rep: Seq<u32>, vals: Seq<A>, f: spec_fn(A) -> B, k: nat)
    requires
        k <= vals.len(),
        k <= rep.len(),
    ensures
        group_state(rep, vals.map_values(f), k).0 == group_state(rep, vals, k).0.map_values(
            |r: Seq<A>| r.map_values(f),
        ),
        group_state(rep, vals.map_values(f), k).1 == group_state(rep, vals, k).1.map_values(f),
    decreases k,
{
    if k > 0 {
        lemma_group_state_map(rep, vals, f, (k - 1) as nat);
        let (done, cur) = group_state(rep, vals, (k - 1) as nat);
        let g = |r: Seq<A>| r.map_values(f);
        if rep[k - 1] == 0 && cur.len() > 0 {
            assert(done.push(cur).map_values(g) =~= done.map_values(g).push(cur.map_values(f)));
            assert(seq![vals[k - 1]].map_values(f) =~= seq![vals.map_values(f)[k - 1]]);
        } else {
            assert(cur.push(vals[k - 1]).map_values(f) =~= cur.map_values(f).push(
                vals.map_values(f)[k - 1],
            ));
        }
    }
}

/// Grouping commutes with changing each value: grouping the changed values
/// gives the rows of the original values, each value changed.
pub proof fn lemma_group_by_rep_map<A, B>(rep: Seq<u32>, vals: Seq<A>, f: spec_fn(A) -> B)
    ensures
        group_by_rep(rep, vals.map_values(f)) == group_by_rep(rep, vals).map_values(
            |r: Seq<A>| r.map_values(f),
        ),
{
    let k = grouped_len(rep.len(), vals.len());
    lemma_group_state_map(rep, vals, f, k);
    let (done, cur) = group_state(rep, vals, k);
    let g = |r: Seq<A>| r.map_values(f);
    if cur.len() > 0 {
        assert(done.push(cur).map_values(g) =~= done.map_values(g).push(cur.map_values(f)));
    }
}

/// Groups values into rows by their repetition levels: a level of 0 starts a
/// new row, any other level continues the current one. Values past the last
/// level are dropped; no levels or no values give no rows.
pub fn group_by_repetition<T>(values: Vec<T>, rep_levels: &[u32]) -> (rows: Vec<Vec<T>>)
    ensures
        rows@.map_values(|r: Vec<T>| r@) == group_by_rep(rep_levels@, values@),
{
    let ghost vals = values@;
    let n = values.len();
    let mut pending = values;
    let mut stack: Vec<T> = Vec::new();
    while pending.len() > 0
        invariant
            n == vals.len(),
            pending@ == vals.take(pending@.len() as int),
            stack@.len() + pending@.len() == n,
            forall|j: int| 0 <= j < stack@.len() ==> #[trigger] stack@[j] == vals[n - 1 - j],
        decreases pending@.len(),
    {
        let x = pending.pop().unwrap();
        stack.push(x);
        assert(pending@ =~= vals.take(pending@.len() as int));
    }
    let mut result: Vec<Vec<T>> = Vec::new();
    let mut current: Vec<T> = Vec::new();
    let mut i: usize = 0;
    let limit = if rep_levels.len() < n {
        rep_levels.len()
    } else {
        n
    };
    while i < limit
        invariant
            i <= limit,
            limit == grouped_len(rep_levels@.len(), vals.len()),
            n == vals.len(),
            stack@.len() + i == n,
            forall|j: int| 0 <= j < stack@.len() ==> #[trigger] stack@[j] == vals[n - 1 - j],
            result@.map_values(|r: Vec<T>| r@) == group_state(rep_levels@, vals, i as nat).0,
            current@ == group_state(rep_levels@, vals, i as nat).1,
        decreases limit - i,
    {
        let v = stack.pop().unwrap();
        assert(v == vals[i as int]);
        if rep_levels[i] == 0 && current.len() > 0 {
            let finished = current;
            let ghost prev = result@;
            result.push(finished);
            assert(result@.map_values(|r: Vec<T>| r@) =~= prev.map_values(|r: Vec<T>| r@).push(
                finished@,
            ));
            current = Vec::new();
            current.push(v);
            assert(current@ =~= seq![vals[i as int]]);
        } else {
            current.push(v);
        }
        i = i + 1;
    }
    if current.len() > 0 {
        let ghost prev = result@;
        let last = current;
        result.push(last);
        assert(result@.map_values(|r: Vec<T>| r@) =~= prev.map_values(|r: Vec<T>| r@).push(last@));
    }
    result
}

} // verus!
