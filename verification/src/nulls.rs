//! Definition levels: putting nulls back between the stored values, and
//! building the levels of a nullable column.

use vstd::prelude::*;

verus! {

/// How many entries of `levels` equal `level`.
pub open spec fn count_present(levels: Seq<u32>, level: u32) -> nat
    decreases levels.len(),
{
    if levels.len() == 0 {
        0
    } else {
        count_present(levels.drop_last(), level) + if levels.last() == level {
            1nat
        } else {
            0nat
        }
    }
}

/// One slot per level: the next stored value where the level says the value
/// is present, a null elsewhere.
pub open spec fn interleave<T>(levels: Seq<u32>, level: u32, vals: Seq<T>) -> Seq<Option<T>> {
    Seq::new(
        levels.len(),
        |i: int|
            if levels[i] == level {
                Some(vals[count_present(levels.take(i), level) as int])
            } else {
                None
            },
    )
}

/// Why stored values and definition levels do not fit together.
#[derive(Debug, Clone, Copy, PartialEq, Eq)]
pub enum NullsError {
    /// A level says "present" but the values have run out.
    MissingValue,
    /// Values are left over after the last level.
    TooManyValues,
}

pub proof fn lemma_count_present_take(levels: Seq<u32>, level: u32, i: int)
    requires
        0 <= i < levels.len(),
    ensures
        count_present(levels.take(i + 1), level) == count_present(levels.take(i), level) + if levels[i]
            == level {
            1nat
        } else {
            0nat
        },
        count_present(levels.take(i), level) <= i,
{
    assert(levels.take(i + 1).drop_last() =~= levels.take(i));
    lemma_count_present_bound(levels.take(i), level);
}

pub proof fn lemma_count_present_bound(levels: Seq<u32>, level: u32)
    ensures
        count_present(levels, level) <= levels.len(),
    decreases levels.len(),
{
    if levels.len() > 0 {
        lemma_count_present_bound(levels.drop_last(), level);
    }
}

/// Puts a null wherever a definition level is below `present_level`, and the
/// next stored value wherever it equals it. Fails when the levels ask for
/// more values than there are, or leave some unused.
pub fn interleave_nulls<T>(def_levels: &[u32], present_level: u32, values: Vec<T>) -> (res: Result<
    Vec<Option<T>>,
    NullsError,
>)
    ensures
        res matches Ok(out) ==> count_present(def_levels@, present_level) == values@.len() && out@
            == interleave(def_levels@, present_level, values@),
        res matches Err(e) ==> (e == NullsError::MissingValue <==> count_present(
            def_levels@,
            present_level,
        ) > values@.len()),
        res matches Err(e) ==> (e == NullsError::TooManyValues <==> count_present(
            def_levels@,
            present_level,
        ) < values@.len()),
        res is Ok <==> count_present(def_levels@, present_level) == values@.len(),
{
    let ghost vals = values@;
    let n = values.len();
    let mut pending = values;
    let mut stack: Vec<T> = Vec::new();
    while pending.len() > 0
        invariant
            n == vals.len(),
            pending@ == vals.take(pending@.len() as int),
            stack@.len() + pending@.len() == n,
            forall|j: int| 0 <= j < stack@.len() ==> #[trigger] stack@[j] == vals[n - 1 - j],
        decreases pending@.len(),
    {
        let x = pending.pop().unwrap();
        stack.push(x);
        assert(pending@ =~= vals.take(pending@.len() as int));
    }
    let mut out: Vec<Option<T>> = Vec::new();
    let mut i: usize = 0;
    while i < def_levels.len()
        invariant
            i <= def_levels@.len(),
            n == vals.len(),
            vals == values@,
            count_present(def_levels@.take(i as int), present_level) + stack@.len() == n,
            forall|j: int| 0 <= j < stack@.len() ==> #[trigger] stack@[j] == vals[n - 1 - j],
            out@ =~= interleave(def_levels@.take(i as int), present_level, vals),
        decreases def_levels@.len() - i,
    {
        proof {
            lemma_count_present_take(def_levels@, present_level, i as int);
        }
        let ghost k = count_present(def_levels@.take(i as int), present_level);
        if def_levels[i] == present_level {
            match stack.pop() {
                None => {
                    proof {
                        lemma_count_present_more(def_levels@, present_level, i as int + 1);
                        assert(count_present(def_levels@, present_level) > vals.len());
                    }
                    return Err(NullsError::MissingValue);
                },
                Some(v) => {
                    assert(v == vals[k as int]);
                    out.push(Some(v));
                },
            }
        } else {
            out.push(None);
        }
        proof {
            let l2 = def_levels@.take(i + 1);
            assert forall|j: int| 0 <= j <= i implies l2.take(j) =~= def_levels@.take(
                i as int,
            ).take(j) || j == i by {
                if j < i {
                    assert(l2.take(j) =~= def_levels@.take(i as int).take(j));
                }
            }
            assert(l2.take(i as int) =~= def_levels@.take(i as int));
            assert(out@ =~= interleave(l2, present_level, vals));
        }
        i = i + 1;
    }
    assert(def_levels@.take(def_levels@.len() as int) =~= def_levels@);
    if stack.len() > 0 {
        return Err(NullsError::TooManyValues);
    }
    Ok(out)
}

pub proof fn lemma_count_present_more(levels: Seq<u32>, level: u32, i: int)
    requires
        0 <= i <= levels.len(),
    ensures
        count_present(levels.take(i), level) <= count_present(levels, level),
    decreases levels.len() - i,
{
    if i < levels.len() {
        lemma_count_present_take(levels, level, i);
        lemma_count_present_more(levels, level, i + 1);
    } else {
        assert(levels.take(i) =~= levels);
    }
}


/// The same items in the opposite order.
pub fn reversed<T>(v: Vec<T>) -> (r: Vec<T>)
    ensures
        r@.len() == v@.len(),
        forall|j: int| 0 <= j < r@.len() ==> #[trigger] r@[j] == v@[v@.len() - 1 - j],
{
    let ghost vals = v@;
    let n = v.len();
    let mut pending = v;
    let mut stack: Vec<T> = Vec::new();
    while pending.len() > 0
        invariant
            n == vals.len(),
            pending@ == vals.take(pending@.len() as int),
            stack@.len() + pending@.len() == n,
            forall|j: int| 0 <= j < stack@.len() ==> #[trigger] stack@[j] == vals[n - 1 - j],
        decreases pending@.len(),
    {
        let x = pending.pop().unwrap();
        stack.push(x);
        assert(pending@ =~= vals.take(pending@.len() as int));
    }
    stack
}

} // verus!
