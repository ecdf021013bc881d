//! Decoding the pages of one column chunk into cells.

use vstd::prelude::*;
use crate::cells::{
    boolean_cells, byte_cells, cell_views, copy_cell, double_cells, float_cells, int32_cell,
    int32_cells, int64_cell, int64_cells, Cell, CellView,
};
use crate::plain::{
    bit_of, decode_boolean_values, decode_byte_strings, decode_fixed_len_byte_array,
    decode_int32_column, decode_int64_column, decode_words32, decode_words32_column,
    decode_words64, decode_words64_column, parse_binary, BinaryError,
};
use crate::delta::{
    length_slices, lengths_nonnegative, prefixed_values, rebuild_prefixed, split_by_lengths,
    DeltaError,
};
use crate::levels::{
    decode_dictionary_indices, decode_levels, hybrid_values, indices_from_section, levels_decoded,
    levels_from_stream, IndexError, LevelError, LevelKind,
};
use crate::nulls::{count_present, interleave, interleave_nulls, NullsError};
use crate::pages::{DataPageParts, Encoding};
use crate::delta_stream::{
    decode_delta_binary_packed, decode_delta_byte_array, decode_delta_length_byte_array,
    delta_binary_packed, delta_length_parts, delta_prefix_parts, DeltaStage,
};
use crate::cells::{delta_cell, delta_cells};
use crate::types::{is_time_like, is_unsigned_integer, time_like, unsigned_integer, LogicalType, PhysicalType};

verus! {

/// A values section that ends before all its values.
#[derive(Debug, Clone, Copy, PartialEq, Eq, Structural)]
pub enum ValuesError {
    /// Fixed-width values run past the end.
    ShortValues,
    /// Bit-packed booleans run past the end.
    ShortBooleans,
    /// A byte array's length prefix runs past the end.
    ShortLength,
    /// A byte array's bytes run past the end.
    ShortByteArray,
    /// Fixed-length byte arrays run past the end.
    ShortFixedLen,
    /// A dictionary of a type that has no dictionary encoding here.
    UnsupportedDictionaryType,
}

/// The error for a byte array that does not fit.
pub open spec fn binary_values_error(e: BinaryError) -> ValuesError {
    match e {
        BinaryError::ShortLength => ValuesError::ShortLength,
        BinaryError::ShortValue => ValuesError::ShortByteArray,
    }
}

/// Cells of the first `count` PLAIN values of the given type, `Ok(None)` for
/// a type that is skipped (INT96), or the error for a section too short.
pub open spec fn plain_cell_views(
    values: Seq<u8>,
    count: nat,
    physical: PhysicalType,
    logical: Option<LogicalType>,
) -> Result<Option<Seq<CellView>>, ValuesError> {
    match physical {
        PhysicalType::Int32 => if 4 * count > values.len() {
            Err(ValuesError::ShortValues)
        } else {
            Ok(
                Some(
                    decode_words32(values, count).map_values(
                        |w: u32| int32_cell(w as i32, is_unsigned_integer(logical)),
                    ),
                ),
            )
        },
        PhysicalType::Int64 => if 8 * count > values.len() {
            Err(ValuesError::ShortValues)
        } else {
            Ok(
                Some(
                    decode_words64(values, count).map_values(
                        |w: u64| int64_cell(w as i64, !is_time_like(logical)),
                    ),
                ),
            )
        },
        PhysicalType::Float => if 4 * count > values.len() {
            Err(ValuesError::ShortValues)
        } else {
            Ok(Some(decode_words32(values, count).map_values(|w: u32| CellView::Float(w))))
        },
        PhysicalType::Double => if 8 * count > values.len() {
            Err(ValuesError::ShortValues)
        } else {
            Ok(Some(decode_words64(values, count).map_values(|w: u64| CellView::Double(w))))
        },
        PhysicalType::Boolean => if count > 8 * values.len() {
            Err(ValuesError::ShortBooleans)
        } else {
            Ok(Some(Seq::new(count, |i: int| CellView::Boolean(bit_of(values, i)))))
        },
        PhysicalType::ByteArray => match parse_binary(values, 0, count) {
            Ok(v) => Ok(Some(v.map_values(|b: Seq<u8>| CellView::Text(b)))),
            Err(e) => Err(binary_values_error(e)),
        },
        PhysicalType::FixedLenByteArray(size) => if count * size > values.len() {
            Err(ValuesError::ShortFixedLen)
        } else {
            Ok(
                Some(
                    Seq::new(
                        count,
                        |i: int| CellView::Bytes(values.subrange(i * size, i * size + size)),
                    ),
                ),
            )
        },
        PhysicalType::Int96 => Ok(None),
    }
}

/// Decodes the first `count` PLAIN values of a page into cells: INT32 as
/// numbers (read unsigned for an unsigned integer type), INT64 as big
/// integers (numbers for times and timestamps), floats by their bits,
/// booleans bit-packed, byte arrays as text, fixed-length byte arrays as
/// bytes. INT96 values are skipped (`Ok(None)`).
pub fn plain_cells(values: &[u8], count: usize, physical: PhysicalType, logical: Option<LogicalType>) -> (res:
    Result<Option<Vec<Cell>>, ValuesError>)
    ensures
        match res {
            Ok(Some(c)) => plain_cell_views(values@, count as nat, physical, logical) == Ok::<
                Option<Seq<CellView>>,
                ValuesError,
            >(Some(cell_views(c@))),
            Ok(None) => plain_cell_views(values@, count as nat, physical, logical) == Ok::<
                Option<Seq<CellView>>,
                ValuesError,
            >(None),
            Err(e) => plain_cell_views(values@, count as nat, physical, logical) == Err::<
                Option<Seq<CellView>>,
                ValuesError,
            >(e),
        },
{
    match physical {
        PhysicalType::Int32 => match decode_int32_column(values, count) {
            None => Err(ValuesError::ShortValues),
            Some(v) => {
                let cells = int32_cells(v.as_slice(), unsigned_integer(logical));
                assert(cell_views(cells@) =~= decode_words32(values@, count as nat).map_values(
                    |w: u32| int32_cell(w as i32, is_unsigned_integer(logical)),
                ));
                Ok(Some(cells))
            },
        },
        PhysicalType::Int64 => match decode_int64_column(values, count) {
            None => Err(ValuesError::ShortValues),
            Some(v) => {
                let cells = int64_cells(v.as_slice(), !time_like(logical));
                assert(cell_views(cells@) =~= decode_words64(values@, count as nat).map_values(
                    |w: u64| int64_cell(w as i64, !is_time_like(logical)),
                ));
                Ok(Some(cells))
            },
        },
        PhysicalType::Float => match decode_words32_column(values, count) {
            None => Err(ValuesError::ShortValues),
            Some(v) => {
                let cells = float_cells(v.as_slice());
                assert(cell_views(cells@) =~= decode_words32(values@, count as nat).map_values(
                    |w: u32| CellView::Float(w),
                ));
                Ok(Some(cells))
            },
        },
        PhysicalType::Double => match decode_words64_column(values, count) {
            None => Err(ValuesError::ShortValues),
            Some(v) => {
                let cells = double_cells(v.as_slice());
                assert(cell_views(cells@) =~= decode_words64(values@, count as nat).map_values(
                    |w: u64| CellView::Double(w),
                ));
                Ok(Some(cells))
            },
        },
        PhysicalType::Boolean => match decode_boolean_values(values, count) {
            None => Err(ValuesError::ShortBooleans),
            Some(v) => {
                let cells = boolean_cells(v.as_slice());
                assert(cell_views(cells@) =~= Seq::new(
                    count as nat,
                    |i: int| CellView::Boolean(bit_of(values@, i)),
                ));
                Ok(Some(cells))
            },
        },
        PhysicalType::ByteArray => match decode_byte_strings(values, count) {
            Err(BinaryError::ShortLength) => Err(ValuesError::ShortLength),
            Err(BinaryError::ShortValue) => Err(ValuesError::ShortByteArray),
            Ok(v) => {
                let ghost vs = v@;
                let cells = byte_cells(v, true);
                assert(cell_views(cells@) =~= crate::plain::byte_strings(vs).map_values(
                    |b: Seq<u8>| CellView::Text(b),
                ));
                Ok(Some(cells))
            },
        },
        PhysicalType::FixedLenByteArray(size) => match decode_fixed_len_byte_array(
            values,
            count,
            size,
        ) {
            None => Err(ValuesError::ShortFixedLen),
            Some(v) => {
                let ghost vs = v@;
                let cells = byte_cells(v, false);
                assert(cell_views(cells@) =~= Seq::new(
                    count as nat,
                    |i: int| CellView::Bytes(values@.subrange(i * size, i * size + size)),
                ));
                Ok(Some(cells))
            },
        },
        PhysicalType::Int96 => Ok(None),
    }
}


/// Cells of a dictionary page: its values decoded as PLAIN values (INT32
/// always signed), or an error for BOOLEAN and INT96.
pub open spec fn dictionary_cell_views(
    buffer: Seq<u8>,
    count: nat,
    physical: PhysicalType,
    logical: Option<LogicalType>,
) -> Result<Seq<CellView>, ValuesError> {
    let plain = match physical {
        PhysicalType::Int32 => plain_cell_views(buffer, count, physical, None),
        _ => plain_cell_views(buffer, count, physical, logical),
    };
    match physical {
        PhysicalType::Boolean => Err(ValuesError::UnsupportedDictionaryType),
        PhysicalType::Int96 => Err(ValuesError::UnsupportedDictionaryType),
        _ => match plain {
            Ok(Some(v)) => Ok(v),
            Ok(None) => Ok(Seq::empty()),
            Err(e) => Err(e),
        },
    }
}

/// Decodes the values of a dictionary page.
pub fn decode_dictionary_page(
    buffer: &[u8],
    num_values: usize,
    physical: PhysicalType,
    logical: Option<LogicalType>,
) -> (res: Result<Vec<Cell>, ValuesError>)
    ensures
        match res {
            Ok(c) => dictionary_cell_views(buffer@, num_values as nat, physical, logical) == Ok::<
                Seq<CellView>,
                ValuesError,
            >(cell_views(c@)),
            Err(e) => dictionary_cell_views(buffer@, num_values as nat, physical, logical) == Err::<
                Seq<CellView>,
                ValuesError,
            >(e),
        },
{
    match physical {
        PhysicalType::Boolean => Err(ValuesError::UnsupportedDictionaryType),
        PhysicalType::Int96 => Err(ValuesError::UnsupportedDictionaryType),
        PhysicalType::Int32 => match plain_cells(buffer, num_values, physical, None) {
            Ok(Some(c)) => Ok(c),
            Ok(None) => Ok(Vec::new()),
            Err(e) => Err(e),
        },
        _ => match plain_cells(buffer, num_values, physical, logical) {
            Ok(Some(c)) => Ok(c),
            Ok(None) => Ok(Vec::new()),
            Err(e) => Err(e),
        },
    }
}

/// The dictionary entry each index names, or a null where it names none.
pub open spec fn looked_up(dict: Seq<CellView>, indices: Seq<usize>) -> Seq<CellView> {
    indices.map_values(
        |i: usize|
            if (i as int) < dict.len() {
                dict[i as int]
            } else {
                CellView::Null
            },
    )
}

/// Replaces each index by a copy of the dictionary entry it names (a null
/// where it names none).
pub fn lookup_dictionary(dict: &[Cell], indices: &[usize]) -> (out: Vec<Cell>)
    ensures
        cell_views(out@) == looked_up(cell_views(dict@), indices@),
{
    let mut out: Vec<Cell> = Vec::new();
    let mut i: usize = 0;
    while i < indices.len()
        invariant
            i <= indices@.len(),
            cell_views(out@) =~= looked_up(cell_views(dict@), indices@.take(i as int)),
        decreases indices@.len() - i,
    {
        let idx = indices[i];
        let c = if idx < dict.len() {
            copy_cell(&dict[idx])
        } else {
            Cell::Null
        };
        let ghost prev = out@;
        out.push(c);
        assert(cell_views(out@) =~= cell_views(prev).push(c@));
        assert(indices@.take(i + 1) =~= indices@.take(i as int).push(idx));
        assert(looked_up(cell_views(dict@), indices@.take(i + 1)) =~= looked_up(
            cell_views(dict@),
            indices@.take(i as int),
        ).push(c@));
        i = i + 1;
    }
    assert(indices@.take(indices@.len() as int) =~= indices@);
    out
}

/// The cells of a page once nulls are put back: the values themselves where
/// no definition levels are stored, otherwise one cell per level.
pub open spec fn placed_cells(def_levels: Option<Seq<u32>>, max_def_level: i16, vals: Seq<CellView>) -> Result<
    Seq<CellView>,
    NullsError,
> {
    match def_levels {
        None => Ok(vals),
        Some(levels) => {
            let p = max_def_level as u32;
            if count_present(levels, p) > vals.len() {
                Err(NullsError::MissingValue)
            } else if count_present(levels, p) < vals.len() {
                Err(NullsError::TooManyValues)
            } else {
                Ok(
                    interleave(levels, p, vals).map_values(
                        |o: Option<CellView>|
                            match o {
                                Some(c) => c,
                                None => CellView::Null,
                            },
                    ),
                )
            }
        },
    }
}

/// Puts nulls back between a page's values: where definition levels are
/// stored, a null for each level below `max_def_level` and the next value
/// for each level equal to it.
pub fn place_values(def_levels: Option<&[u32]>, max_def_level: i16, values: Vec<Cell>) -> (res:
    Result<Vec<Cell>, NullsError>)
    ensures
        match res {
            Ok(c) => placed_cells(
                match def_levels {
                    Some(l) => Some(l@),
                    None => None,
                },
                max_def_level,
                cell_views(values@),
            ) == Ok::<Seq<CellView>, NullsError>(cell_views(c@)),
            Err(e) => placed_cells(
                match def_levels {
                    Some(l) => Some(l@),
                    None => None,
                },
                max_def_level,
                cell_views(values@),
            ) == Err::<Seq<CellView>, NullsError>(e),
        },
{
    match def_levels {
        None => Ok(values),
        Some(levels) => {
            let ghost vals = values@;
            let p = max_def_level as u32;
            match interleave_nulls(levels, p, values) {
                Err(e) => Err(e),
                Ok(slots) => {
                    let ghost sl = slots@;
                    let mut out: Vec<Cell> = Vec::new();
                    let mut stack = crate::nulls::reversed(slots);
                    let n = stack.len();
                    let mut i: usize = 0;
                    while i < n
                        invariant
                            i <= n,
                            n == sl.len(),
                            stack@.len() + i == n,
                            forall|j: int| 0 <= j < stack@.len() ==> #[trigger] stack@[j] == sl[n - 1 - j],
                            cell_views(out@) =~= sl.take(i as int).map_values(
                                |o: Option<Cell>|
                                    match o {
                                        Some(c) => c@,
                                        None => CellView::Null,
                                    },
                            ),
                        decreases n - i,
                    {
                        let slot = stack.pop().unwrap();
                        assert(slot == sl[i as int]);
                        let c = match slot {
                            Some(c) => c,
                            None => Cell::Null,
                        };
                        let ghost prev = out@;
                        out.push(c);
                        assert(cell_views(out@) =~= cell_views(prev).push(c@));
                        assert(sl.take(i + 1) =~= sl.take(i as int).push(sl[i as int]));
                        i = i + 1;
                    }
                    proof {
                        assert(sl.take(n as int) =~= sl);
                        let cv = cell_views(vals);
                        assert(count_present(levels@, p) == vals.len());
                        assert(interleave(levels@, p, cv).map_values(
                            |o: Option<CellView>|
                                match o {
                                    Some(c) => c,
                                    None => CellView::Null,
                                },
                        ) =~= cell_views(out@)) by {
                            assert forall|k: int| 0 <= k < levels@.len() implies #[trigger] cell_views(
                                out@,
                            )[k] == (match interleave(levels@, p, cv)[k] {
                                Some(c) => c,
                                None => CellView::Null,
                            }) by {
                                if levels@[k] == p {
                                    crate::nulls::lemma_count_present_more(levels@, p, k + 1);
                                    crate::nulls::lemma_count_present_take(levels@, p, k);
                                }
                            }
                        }
                    }
                    Ok(out)
                },
            }
        },
    }
}


/// Why a file could not be read.
#[derive(Debug)]
pub enum ReadError {
    /// The footer could not be parsed.
    Metadata(parquet2::error::Error),
    /// The pages of a column chunk could not be located.
    Pages(parquet2::error::Error),
    /// A page could not be read.
    Page(parquet2::error::Error),
    /// A page could not be decompressed.
    Decompress(parquet2::error::Error),
    /// A data page could not be cut into levels and values.
    PageBuffer(parquet2::error::Error),
    /// A data page's header names an unknown encoding, or level lengths
    /// past its buffer.
    PageHeader,
    /// Repetition or definition levels could not be decoded.
    Levels(LevelError),
    /// Dictionary indices could not be decoded.
    DictionaryIndices(IndexError),
    /// A dictionary-encoded page came before any dictionary page.
    DictionaryMissing,
    /// A values section ended early, or a dictionary has an unsupported type.
    Values(ValuesError),
    /// Values and definition levels do not fit together.
    Nulls(NullsError),
    /// DELTA_BINARY_PACKED data could not be decoded.
    DeltaBinary,
    /// DELTA_BINARY_PACKED data in a column that is not INT32 or INT64.
    DeltaUnsupported(PhysicalType),
    /// DELTA_LENGTH_BYTE_ARRAY data could not be decoded.
    DeltaLength,
    /// DELTA_BYTE_ARRAY data could not be decoded.
    DeltaByteArray(DeltaStage),
    /// Delta-encoded byte arrays could not be rebuilt.
    Delta(DeltaError),
    /// A row group has no chunk for a column of the schema.
    MissingColumnChunk,
}

/// What a data page adds to its column: cells (none for a type that is
/// skipped) and, for nested columns, repetition levels.
#[derive(Debug)]
pub struct PageCells {
    pub cells: Option<Vec<Cell>>,
    pub rep_levels: Option<Vec<u32>>,
}

/// Whether a page stores dictionary indices.
pub open spec fn is_dictionary_encoding(e: Encoding) -> bool {
    e == Encoding::PlainDictionary || e == Encoding::RleDictionary
}

/// How many values a page holds: those whose definition level is the
/// maximum, or all of them where no levels are stored.
pub open spec fn present_count(levels: Option<Seq<u32>>, max_def_level: i16, num_values: nat) -> nat {
    match levels {
        Some(l) => count_present(l, max_def_level as u32),
        None => num_values,
    }
}

/// The views of the cells, where there are cells.
pub open spec fn opt_cell_views(o: Option<Vec<Cell>>) -> Option<Seq<CellView>> {
    match o {
        Some(c) => Some(cell_views(c@)),
        None => None,
    }
}

/// What the values section of a page that does not hold dictionary indices
/// decodes to, for `count` present values: the delta encodings (when
/// allowed) by what `parquet2` decodes them to, anything else as PLAIN
/// values; `Ok(None)` for a type that is skipped, `Err(())` where the
/// section cannot be decoded.
pub open spec fn section_cells(
    values: Seq<u8>,
    count: nat,
    encoding: Encoding,
    physical: PhysicalType,
    logical: Option<LogicalType>,
    allow_delta: bool,
) -> Result<Option<Seq<CellView>>, ()> {
    if allow_delta && encoding == Encoding::DeltaBinaryPacked {
        match physical {
            PhysicalType::Int32 | PhysicalType::Int64 => match delta_binary_packed(values) {
                Some(v) => Ok(Some(v.map_values(|x: i64| delta_cell(x, physical, logical)))),
                None => Err(()),
            },
            _ => Err(()),
        }
    } else if allow_delta && encoding == Encoding::DeltaLengthByteArray {
        match delta_length_parts(values) {
            Some((lens, bytes)) => if lengths_nonnegative(lens) {
                Ok(Some(length_slices(lens, bytes).map_values(|b: Seq<u8>| CellView::Text(b))))
            } else {
                Err(())
            },
            None => Err(()),
        }
    } else if allow_delta && encoding == Encoding::DeltaByteArray {
        match delta_prefix_parts(values) {
            Ok((p, l, sfx)) => match prefixed_values(p, l, sfx) {
                Ok(v) => Ok(Some(v.map_values(|b: Seq<u8>| CellView::Text(b)))),
                Err(_) => Err(()),
            },
            Err(_) => Err(()),
        }
    } else {
        match plain_cell_views(values, count, physical, logical) {
            Ok(o) => Ok(o),
            Err(_) => Err(()),
        }
    }
}

/// The levels, if any.
pub open spec fn opt_levels(o: Option<Vec<u32>>) -> Option<Seq<u32>> {
    match o {
        Some(l) => Some(l@),
        None => None,
    }
}

/// Whether `cells` and `reps` are what a data page decodes to, given the
/// dictionary in effect: repetition levels (exactly when the column repeats
/// and the page has values) that the stream can decode to; for a page of
/// dictionary indices, the dictionary entries that indices the section can
/// decode to name, with nulls put back by definition levels the stream can
/// decode to; for any other page, the cells of its values section (see
/// [`section_cells`]) with nulls put back likewise.
pub open spec fn page_decodes_to(
    page: DataPageParts,
    physical: PhysicalType,
    logical: Option<LogicalType>,
    max_rep_level: i16,
    dictionary: Option<Seq<CellView>>,
    allow_delta: bool,
    cells: Option<Seq<CellView>>,
    reps: Option<Seq<u32>>,
) -> bool {
    &&& cells matches Some(c) ==> (page.max_def_level != 0 && page.num_values != 0 ==> c.len()
        == page.num_values)
    &&& reps matches Some(r) ==> r.len() == page.num_values && levels_from_stream(
        page.rep_levels@,
        max_rep_level,
        page.num_values as nat,
        r,
    )
    &&& (reps is Some <==> (max_rep_level > 0 && page.num_values != 0))
    &&& !is_dictionary_encoding(page.encoding) && (page.max_def_level == 0 || page.num_values == 0)
        ==> section_cells(
        page.values@,
        page.num_values as nat,
        page.encoding,
        physical,
        logical,
        allow_delta,
    ) == Ok::<Option<Seq<CellView>>, ()>(cells)
    &&& !is_dictionary_encoding(page.encoding) && page.max_def_level != 0 && page.num_values != 0
        ==> exists|levels: Seq<u32>|
        #[trigger] levels_from_stream(page.def_levels@, page.max_def_level, page.num_values as nat, levels)
            && match section_cells(
            page.values@,
            count_present(levels, page.max_def_level as u32),
            page.encoding,
            physical,
            logical,
            allow_delta,
        ) {
            Ok(Some(c)) => cells matches Some(x) && placed_cells(Some(levels), page.max_def_level, c)
                == Ok::<Seq<CellView>, NullsError>(x),
            Ok(None) => cells is None,
            Err(_) => false,
        }
    &&& is_dictionary_encoding(page.encoding) ==> (dictionary matches Some(d) && cells matches Some(x)
        && exists|levels: Option<Seq<u32>>, indices: Seq<usize>|
        (levels is None <==> (page.max_def_level == 0 || page.num_values == 0)) && (levels matches Some(
            l,
        ) ==> levels_from_stream(page.def_levels@, page.max_def_level, page.num_values as nat, l))
            && indices_from_section(
            page.values@,
            present_count(levels, page.max_def_level, page.num_values as nat),
            indices,
        ) && #[trigger] placed_cells(levels, page.max_def_level, looked_up(d, indices)) == Ok::<
            Seq<CellView>,
            NullsError,
        >(x))
}

/// The dictionary indices a values section holds for `present` values (see
/// [`decode_dictionary_indices`]).
pub open spec fn indices_decoded(values: Seq<u8>, present: nat) -> Result<Seq<usize>, ()> {
    if values.len() == 0 {
        Ok(Seq::empty())
    } else if values[0] == 0 {
        Ok(Seq::new(present, |i: int| 0usize))
    } else {
        match hybrid_values(values.skip(1), values[0] as nat, present) {
            Ok(acc) => Ok(acc.map_values(|x: u32| x as usize)),
            Err(_) => Err(()),
        }
    }
}

/// What the values section of a page decodes to for `present` values: the
/// dictionary entries its indices name (`Err` without a dictionary), or
/// the cells of any other section (see [`section_cells`]).
pub open spec fn page_values(
    values: Seq<u8>,
    encoding: Encoding,
    present: nat,
    physical: PhysicalType,
    logical: Option<LogicalType>,
    dictionary: Option<Seq<CellView>>,
    allow_delta: bool,
) -> Result<Option<Seq<CellView>>, ()> {
    if is_dictionary_encoding(encoding) {
        match dictionary {
            None => Err(()),
            Some(dict) => match indices_decoded(values, present) {
                Ok(ix) => Ok(Some(looked_up(dict, ix))),
                Err(_) => Err(()),
            },
        }
    } else {
        section_cells(values, present, encoding, physical, logical, allow_delta)
    }
}

/// What a data page decodes to, given the dictionary in effect: its cells
/// (none for a type that is skipped) and repetition levels, or `Err` where
/// its levels, dictionary indices or values cannot be decoded, a dictionary
/// page is missing, or values and levels do not fit together.
pub open spec fn page_decode(
    page: DataPageParts,
    physical: PhysicalType,
    logical: Option<LogicalType>,
    max_rep_level: i16,
    dictionary: Option<Seq<CellView>>,
    allow_delta: bool,
) -> Result<(Option<Seq<CellView>>, Option<Seq<u32>>), ()> {
    sections_decode(
        page.rep_levels@,
        page.def_levels@,
        page.values@,
        page.num_values,
        page.max_def_level,
        page.encoding,
        physical,
        logical,
        max_rep_level,
        dictionary,
        allow_delta,
    )
}

/// What a data page with these sections, value count, maximum definition
/// level and encoding decodes to (see [`page_decode`]).
pub open spec fn sections_decode(
    rep_levels: Seq<u8>,
    def_levels: Seq<u8>,
    values: Seq<u8>,
    num_values: usize,
    max_def_level: i16,
    encoding: Encoding,
    physical: PhysicalType,
    logical: Option<LogicalType>,
    max_rep_level: i16,
    dictionary: Option<Seq<CellView>>,
    allow_delta: bool,
) -> Result<(Option<Seq<CellView>>, Option<Seq<u32>>), ()> {
    let n = num_values as nat;
    let reps = if max_rep_level > 0 {
        levels_decoded(rep_levels, max_rep_level, n)
    } else {
        Ok(None)
    };
    match reps {
        Err(_) => Err(()),
        Ok(r) => match levels_decoded(def_levels, max_def_level, n) {
            Err(_) => Err(()),
            Ok(d) => {
                let present = present_count(d, max_def_level, n);
                match page_values(values, encoding, present, physical, logical, dictionary, allow_delta) {
                    Err(_) => Err(()),
                    Ok(None) => Ok((None, r)),
                    Ok(Some(v)) => match placed_cells(d, max_def_level, v) {
                        Ok(c) => Ok((Some(c), r)),
                        Err(_) => Err(()),
                    },
                }
            },
        },
    }
}

/// Decodes the values section of a data page holding `present` values:
/// dictionary indices looked up in the dictionary, the delta encodings when
/// `allow_delta`, PLAIN values otherwise; `Ok(None)` for a type that is
/// skipped.
pub fn decode_section_values(
    page: &DataPageParts,
    present: usize,
    physical: PhysicalType,
    logical: Option<LogicalType>,
    dictionary: &Option<Vec<Cell>>,
    allow_delta: bool,
) -> (res: Result<Option<Vec<Cell>>, ReadError>)
    ensures
        match page_values(
            page.values@,
            page.encoding,
            present as nat,
            physical,
            logical,
            opt_cell_views(*dictionary),
            allow_delta,
        ) {
            Ok(o) => res matches Ok(v) && opt_cell_views(v) == o,
            Err(_) => res is Err,
        },
        res matches Err(ReadError::DictionaryMissing) ==> is_dictionary_encoding(page.encoding)
            && dictionary is None,
        is_dictionary_encoding(page.encoding) && res is Ok ==> (indices_decoded(page.values@, present as nat) matches Ok(ix)
            && indices_from_section(page.values@, present as nat, ix)),
{
    let encoding = page.encoding;
    let values: Vec<Cell>;
    if encoding == Encoding::PlainDictionary || encoding == Encoding::RleDictionary {
        match dictionary {
            None => return Err(ReadError::DictionaryMissing),
            Some(dict) => {
                let indices = match decode_dictionary_indices(page.values.as_slice(), present) {
                    Err(e) => return Err(ReadError::DictionaryIndices(e)),
                    Ok(ix) => ix,
                };
                values = lookup_dictionary(dict.as_slice(), indices.as_slice());
            },
        }
    } else if allow_delta && encoding == Encoding::DeltaBinaryPacked {
        match physical {
            PhysicalType::Int32 | PhysicalType::Int64 => {
                let ints = match decode_delta_binary_packed(page.values.as_slice()) {
                    None => return Err(ReadError::DeltaBinary),
                    Some(v) => v,
                };
                values = delta_cells(ints.as_slice(), physical, logical);
                assert(section_cells(page.values@, present as nat, encoding, physical, logical, allow_delta)
                    == Ok::<Option<Seq<CellView>>, ()>(Some(cell_views(values@))));
            },
            _ => return Err(ReadError::DeltaUnsupported(physical)),
        }
    } else if allow_delta && encoding == Encoding::DeltaLengthByteArray {
        let (lengths, bytes) = match decode_delta_length_byte_array(page.values.as_slice()) {
            None => return Err(ReadError::DeltaLength),
            Some(parts) => parts,
        };
        let pieces = match split_by_lengths(lengths.as_slice(), bytes.as_slice()) {
            Err(e) => return Err(ReadError::Delta(e)),
            Ok(p) => p,
        };
        let ghost ps = pieces@;
        values = byte_cells(pieces, true);
        assert(cell_views(values@) =~= length_slices(lengths@, bytes@).map_values(
            |b: Seq<u8>| CellView::Text(b),
        )) by {
            assert(crate::plain::byte_strings(ps) == ps.map_values(|x: Vec<u8>| x@));
        }
    } else if allow_delta && encoding == Encoding::DeltaByteArray {
        let (prefixes, suffix_lengths, suffixes) = match decode_delta_byte_array(
            page.values.as_slice(),
        ) {
            Err(stage) => return Err(ReadError::DeltaByteArray(stage)),
            Ok(parts) => parts,
        };
        let rebuilt = match rebuild_prefixed(
            prefixes.as_slice(),
            suffix_lengths.as_slice(),
            suffixes.as_slice(),
        ) {
            Err(e) => return Err(ReadError::Delta(e)),
            Ok(v) => v,
        };
        let ghost rs = rebuilt@;
        values = byte_cells(rebuilt, true);
        assert(cell_views(values@) =~= rs.map_values(|x: Vec<u8>| x@).map_values(
            |b: Seq<u8>| CellView::Text(b),
        )) by {
            assert(crate::plain::byte_strings(rs) == rs.map_values(|x: Vec<u8>| x@));
        }
    } else {
        match plain_cells(page.values.as_slice(), present, physical, logical) {
            Err(e) => return Err(ReadError::Values(e)),
            Ok(None) => {
                return Ok(None);
            },
            Ok(Some(v)) => {
                values = v;
            },
        }
    }
    Ok(Some(values))
}

/// Decodes one data page of a column: repetition levels (when the column
/// repeats and nesting is read), definition levels, then the values by the
/// page's encoding (dictionary indices, the delta encodings when
/// `allow_delta`, PLAIN otherwise), with nulls put back.
pub fn decode_data_page(
    page: &DataPageParts,
    physical: PhysicalType,
    logical: Option<LogicalType>,
    max_rep_level: i16,
    dictionary: &Option<Vec<Cell>>,
    allow_delta: bool,
) -> (res: Result<PageCells, ReadError>)
    ensures
        res matches Ok(pc) ==> page_decodes_to(
            *page,
            physical,
            logical,
            max_rep_level,
            opt_cell_views(*dictionary),
            allow_delta,
            opt_cell_views(pc.cells),
            opt_levels(pc.rep_levels),
        ),
        res matches Err(ReadError::DictionaryMissing) ==> is_dictionary_encoding(page.encoding)
            && dictionary is None,
        match page_decode(*page, physical, logical, max_rep_level, opt_cell_views(*dictionary), allow_delta) {
            Ok((c, r)) => res matches Ok(pc) && opt_cell_views(pc.cells) == c && opt_levels(pc.rep_levels) == r,
            Err(_) => res is Err,
        },
        !is_dictionary_encoding(page.encoding) && page.max_def_level == 0 && max_rep_level <= 0
            ==> (res is Ok <==> section_cells(
            page.values@,
            page.num_values as nat,
            page.encoding,
            physical,
            logical,
            allow_delta,
        ) is Ok),
{
    let num_values = page.num_values;
    let mut rep_levels: Option<Vec<u32>> = None;
    if max_rep_level > 0 {
        match decode_levels(page.rep_levels.as_slice(), max_rep_level, num_values, LevelKind::Repetition) {
            Err(e) => return Err(ReadError::Levels(e)),
            Ok(r) => {
                rep_levels = r;
            },
        }
    }
    let def_levels = match decode_levels(
        page.def_levels.as_slice(),
        page.max_def_level,
        num_values,
        LevelKind::Definition,
    ) {
        Err(e) => return Err(ReadError::Levels(e)),
        Ok(d) => d,
    };
    let present = match &def_levels {
        Some(levels) => count_equal(levels.as_slice(), page.max_def_level as u32),
        None => num_values,
    };
    proof {
        if let Some(l) = &def_levels {
            crate::nulls::lemma_count_present_bound(l@, page.max_def_level as u32);
        }
    }
    let levels_ref: Option<&[u32]> = match &def_levels {
        Some(levels) => Some(levels.as_slice()),
        None => None,
    };
    let values = match decode_section_values(page, present, physical, logical, dictionary, allow_delta) {
        Err(e) => return Err(e),
        Ok(None) => return Ok(PageCells { cells: None, rep_levels }),
        Ok(Some(v)) => v,
    };
    let ghost vals = values@;
    match place_values(levels_ref, page.max_def_level, values) {
        Err(e) => Err(ReadError::Nulls(e)),
        Ok(cells) => {
            proof {
                if page.max_def_level != 0 && num_values != 0 {
                    let levels = def_levels.unwrap()@;
                    assert(cell_views(cells@).len() == levels.len());
                }
            }
            Ok(PageCells { cells: Some(cells), rep_levels })
        },
    }
}

/// How many levels equal `level`.
pub fn count_equal(levels: &[u32], level: u32) -> (n: usize)
    ensures
        n == count_present(levels@, level),
{
    let mut n: usize = 0;
    let mut i: usize = 0;
    while i < levels.len()
        invariant
            i <= levels@.len(),
            n == count_present(levels@.take(i as int), level),
            n <= i,
        decreases levels@.len() - i,
    {
        proof {
            crate::nulls::lemma_count_present_take(levels@, level, i as int);
        }
        if levels[i] == level {
            n = n + 1;
        }
        i = i + 1;
    }
    assert(levels@.take(levels@.len() as int) =~= levels@);
    n
}

} // verus!
