//! The byte-array side of the delta encodings: cutting the concatenated
//! values apart by their lengths, and rebuilding values from shared prefixes.

use vstd::prelude::*;

verus! {

/// Why delta-encoded byte arrays could not be rebuilt.
#[derive(Debug, Clone, Copy, PartialEq, Eq)]
pub enum DeltaError {
    /// A value length below zero.
    NegativeLength,
    /// A shared prefix that ends inside a multi-byte UTF-8 character.
    PrefixSplitsCharacter,
}

/// The sum of the lengths.
pub open spec fn sum_lengths(lens: Seq<i32>) -> int
    decreases lens.len(),
{
    if lens.len() == 0 {
        0
    } else {
        sum_lengths(lens.drop_last()) + lens.last()
    }
}

/// Whether no length is below zero.
pub open spec fn lengths_nonnegative(lens: Seq<i32>) -> bool {
    forall|i: int| 0 <= i < lens.len() ==> #[trigger] lens[i] >= 0
}

/// Value `i` is the next `lens[i]` bytes of `values`, or empty where they run
/// past its end.
pub open spec fn length_slices(lens: Seq<i32>, values: Seq<u8>) -> Seq<Seq<u8>> {
    Seq::new(
        lens.len(),
        |i: int|
            {
                let start = sum_lengths(lens.take(i));
                let end = start + lens[i];
                if end <= values.len() {
                    values.subrange(start, end)
                } else {
                    Seq::empty()
                }
            },
    )
}

proof fn lemma_sum_lengths_take(lens: Seq<i32>, i: int)
    requires
        0 <= i < lens.len(),
    ensures
        sum_lengths(lens.take(i + 1)) == sum_lengths(lens.take(i)) + lens[i],
{
    assert(lens.take(i + 1).drop_last() =~= lens.take(i));
}

proof fn lemma_sum_lengths_nonneg(lens: Seq<i32>, i: int)
    requires
        0 <= i <= lens.len(),
        forall|j: int| 0 <= j < i ==> #[trigger] lens[j] >= 0,
    ensures
        sum_lengths(lens.take(i)) >= 0,
    decreases i,
{
    if i > 0 {
        lemma_sum_lengths_take(lens, i - 1);
        lemma_sum_lengths_nonneg(lens, i - 1);
    } else {
        assert(lens.take(0) =~= Seq::<i32>::empty());
    }
}

/// Copies `s[start..end]`.
pub fn copy_range(s: &[u8], start: usize, end: usize) -> (r: Vec<u8>)
    requires
        start <= end <= s@.len(),
    ensures
        r@ == s@.subrange(start as int, end as int),
{
    let mut r: Vec<u8> = Vec::new();
    let mut j: usize = start;
    while j < end
        invariant
            start <= j <= end,
            end <= s@.len(),
            r@ == s@.subrange(start as int, j as int),
        decreases end - j,
    {
        r.push(s[j]);
        assert(s@.subrange(start as int, j + 1) =~= s@.subrange(start as int, j as int).push(
            s@[j as int],
        ));
        j = j + 1;
    }
    r
}

/// Cuts `values` into consecutive pieces of the given lengths; a piece that
/// runs past the end comes out empty (and so do all after it). Fails on a
/// negative length.
pub fn split_by_lengths(lengths: &[i32], values: &[u8]) -> (res: Result<Vec<Vec<u8>>, DeltaError>)
    ensures
        res is Err <==> !lengths_nonnegative(lengths@),
        res matches Ok(v) ==> v@.map_values(|x: Vec<u8>| x@) == length_slices(lengths@, values@),
{
    let mut out: Vec<Vec<u8>> = Vec::new();
    let mut offset: usize = 0;
    let mut exhausted = false;
    let mut i: usize = 0;
    while i < lengths.len()
        invariant
            i <= lengths@.len(),
            forall|j: int| 0 <= j < i ==> #[trigger] lengths@[j] >= 0,
            !exhausted ==> offset == sum_lengths(lengths@.take(i as int)) && offset <= values@.len(),
            exhausted ==> sum_lengths(lengths@.take(i as int)) > values@.len(),
            out@.map_values(|x: Vec<u8>| x@) =~= length_slices(lengths@, values@).take(i as int),
        decreases lengths@.len() - i,
    {
        proof {
            lemma_sum_lengths_take(lengths@, i as int);
            lemma_sum_lengths_nonneg(lengths@, i as int);
        }
        let len = lengths[i];
        if len < 0 {
            return Err(DeltaError::NegativeLength);
        }
        let ghost prev = out@;
        let piece: Vec<u8>;
        if !exhausted && (len as usize) <= values.len() - offset {
            let end = offset + len as usize;
            piece = copy_range(values, offset, end);
            offset = end;
        } else {
            piece = Vec::new();
            exhausted = true;
        }
        out.push(piece);
        assert(out@.map_values(|x: Vec<u8>| x@) =~= prev.map_values(|x: Vec<u8>| x@).push(piece@));
        assert(length_slices(lengths@, values@).take(i + 1) =~= length_slices(
            lengths@,
            values@,
        ).take(i as int).push(length_slices(lengths@, values@)[i as int]));
        i = i + 1;
    }
    assert(length_slices(lengths@, values@).take(lengths@.len() as int) =~= length_slices(
        lengths@,
        values@,
    ));
    Ok(out)
}

/// The suffix length of value `i`, or 0 past the last one.
pub open spec fn suffix_len_at(lens: Seq<i32>, i: int) -> int {
    if 0 <= i < lens.len() {
        lens[i] as int
    } else {
        0
    }
}

/// Where the suffix of value `i` starts in the suffix bytes.
pub open spec fn suffix_start(lens: Seq<i32>, i: nat) -> int
    decreases i,
{
    if i == 0 {
        0
    } else {
        suffix_start(lens, (i - 1) as nat) + suffix_len_at(lens, i - 1)
    }
}

/// Whether a prefix of `p` bytes of `s` ends between two UTF-8 characters
/// (or takes the whole of `s`).
pub open spec fn prefix_on_boundary(s: Seq<u8>, p: int) -> bool {
    p >= s.len() || !(0x80 <= s[p] && s[p] < 0xC0)
}

/// The first `p` bytes of `s`, or all of it when it is shorter.
pub open spec fn keep_prefix(s: Seq<u8>, p: int) -> Seq<u8> {
    if p <= s.len() {
        s.take(p)
    } else {
        s
    }
}

/// Values rebuilt from shared prefixes: value `i` is the first `prefixes[i]`
/// bytes of value `i - 1` (of nothing for the first), followed by its own
/// suffix, or by nothing where the suffix runs past the suffix bytes.
pub open spec fn prefixed_values(prefixes: Seq<u32>, lens: Seq<i32>, suffixes: Seq<u8>) -> Result<
    Seq<Seq<u8>>,
    DeltaError,
>
    decreases prefixes.len(),
{
    if prefixes.len() == 0 {
        Ok(Seq::empty())
    } else {
        let i = prefixes.len() - 1;
        match prefixed_values(prefixes.drop_last(), lens, suffixes) {
            Err(e) => Err(e),
            Ok(earlier) => {
                let previous = if i == 0 {
                    Seq::<u8>::empty()
                } else {
                    earlier.last()
                };
                let p = prefixes[i] as int;
                if suffix_len_at(lens, i) < 0 {
                    Err(DeltaError::NegativeLength)
                } else if !prefix_on_boundary(previous, p) {
                    Err(DeltaError::PrefixSplitsCharacter)
                } else {
                    let start = suffix_start(lens, i as nat);
                    let end = start + suffix_len_at(lens, i);
                    let suffix = if 0 <= start && end <= suffixes.len() {
                        suffixes.subrange(start, end)
                    } else {
                        Seq::empty()
                    };
                    Ok(earlier.push(keep_prefix(previous, p) + suffix))
                }
            },
        }
    }
}

proof fn lemma_suffix_start_nonneg(lens: Seq<i32>, i: nat)
    requires
        forall|j: int| 0 <= j < i ==> suffix_len_at(lens, j) >= 0,
    ensures
        suffix_start(lens, i) >= 0,
    decreases i,
{
    if i > 0 {
        lemma_suffix_start_nonneg(lens, (i - 1) as nat);
    }
}

/// Rebuilds values that share prefixes with the one before them: value `i`
/// takes the first `prefixes[i]` bytes of value `i - 1` and appends the
/// next `suffix_lengths[i]` suffix bytes (nothing when they run past the end,
/// no suffix when the lengths run out). Fails on a negative suffix length and
/// on a prefix that would split a UTF-8 character.
pub fn rebuild_prefixed(prefixes: &[u32], suffix_lengths: &[i32], suffixes: &[u8]) -> (res: Result<
    Vec<Vec<u8>>,
    DeltaError,
>)
    ensures
        match res {
            Ok(v) => prefixed_values(prefixes@, suffix_lengths@, suffixes@) == Ok::<
                Seq<Seq<u8>>,
                DeltaError,
            >(v@.map_values(|x: Vec<u8>| x@)),
            Err(e) => prefixed_values(prefixes@, suffix_lengths@, suffixes@) == Err::<
                Seq<Seq<u8>>,
                DeltaError,
            >(e),
        },
{
    let mut out: Vec<Vec<u8>> = Vec::new();
    let mut previous: Vec<u8> = Vec::new();
    let mut offset: usize = 0;
    let mut exhausted = false;
    let mut i: usize = 0;
    assert(prefixes@.take(0) =~= Seq::<u32>::empty());
    assert(out@.map_values(|x: Vec<u8>| x@) =~= Seq::<Seq<u8>>::empty());
    while i < prefixes.len()
        invariant
            i <= prefixes@.len(),
            prefixed_values(prefixes@.take(i as int), suffix_lengths@, suffixes@) == Ok::<
                Seq<Seq<u8>>,
                DeltaError,
            >(out@.map_values(|x: Vec<u8>| x@)),
            out@.len() == i,
            i > 0 ==> previous@ == out@[i - 1]@,
            i == 0 ==> previous@.len() == 0,
            forall|j: int| 0 <= j < i ==> suffix_len_at(suffix_lengths@, j) >= 0,
            !exhausted ==> offset == suffix_start(suffix_lengths@, i as nat) && offset
                <= suffixes@.len(),
            exhausted ==> suffix_start(suffix_lengths@, i as nat) > suffixes@.len(),
        decreases prefixes@.len() - i,
    {
        let ghost pre_i = prefixes@.take(i as int);
        let ghost pre_next = prefixes@.take(i + 1);
        assert(pre_next.drop_last() =~= pre_i);
        proof {
            lemma_suffix_start_nonneg(suffix_lengths@, i as nat);
        }
        let suffix_len: i32 = if i < suffix_lengths.len() {
            suffix_lengths[i]
        } else {
            0
        };
        if suffix_len < 0 {
            proof {
                lemma_prefix_error_persists(prefixes@, suffix_lengths@, suffixes@, i + 1);
            }
            return Err(DeltaError::NegativeLength);
        }
        let p = prefixes[i];
        let keep: usize;
        if (p as usize) <= previous.len() {
            if (p as usize) < previous.len() && 0x80u8 <= previous[p as usize] && previous[p
                as usize] < 0xC0u8 {
                proof {
                    lemma_prefix_error_persists(prefixes@, suffix_lengths@, suffixes@, i + 1);
                }
                return Err(DeltaError::PrefixSplitsCharacter);
            }
            keep = p as usize;
        } else {
            keep = previous.len();
        }
        let mut current = copy_range(previous.as_slice(), 0, keep);
        assert(current@ =~= keep_prefix(previous@, p as int));
        let ghost before_suffix = current@;
        if !exhausted && (suffix_len as usize) <= suffixes.len() - offset {
            let end = offset + suffix_len as usize;
            let mut j: usize = offset;
            while j < end
                invariant
                    offset <= j <= end,
                    end <= suffixes@.len(),
                    current@ == before_suffix + suffixes@.subrange(offset as int, j as int),
                decreases end - j,
            {
                current.push(suffixes[j]);
                assert(suffixes@.subrange(offset as int, j + 1) =~= suffixes@.subrange(
                    offset as int,
                    j as int,
                ).push(suffixes@[j as int]));
                j = j + 1;
            }
            offset = end;
        } else {
            exhausted = true;
            assert(before_suffix + Seq::<u8>::empty() =~= before_suffix);
        }
        previous = copy_range(current.as_slice(), 0, current.len());
        assert(current@.subrange(0, current@.len() as int) =~= current@);
        let ghost prev_out = out@;
        out.push(current);
        assert(out@.map_values(|x: Vec<u8>| x@) =~= prev_out.map_values(|x: Vec<u8>| x@).push(
            current@,
        ));
        i = i + 1;
    }
    assert(prefixes@.take(prefixes@.len() as int) =~= prefixes@);
    Ok(out)
}

proof fn lemma_prefix_error_persists(
    prefixes: Seq<u32>,
    lens: Seq<i32>,
    suffixes: Seq<u8>,
    k: int,
)
    requires
        0 < k <= prefixes.len(),
        prefixed_values(prefixes.take(k), lens, suffixes) is Err,
    ensures
        prefixed_values(prefixes, lens, suffixes) == prefixed_values(prefixes.take(k), lens, suffixes),
    decreases prefixes.len() - k,
{
    if k < prefixes.len() {
        assert(prefixes.take(k + 1).drop_last() =~= prefixes.take(k));
        lemma_prefix_error_persists(prefixes, lens, suffixes, k + 1);
    } else {
        assert(prefixes.take(k) =~= prefixes);
    }
}

} // verus!
