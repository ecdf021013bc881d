//! Reading every page of one column chunk.

use vstd::prelude::*;
use crate::cells::{cell_views, Cell, CellView};
use crate::column::{
    decode_data_page, decode_dictionary_page, dictionary_cell_views, opt_cell_views, opt_levels,
    page_decodes_to, sections_decode, PageCells, ReadError, ValuesError,
};
use crate::pages::{DataPageParts, DictPageParts};
use crate::pq::{
    column_pages, data_page_buffer, data_page_header, data_page_max_levels, decompress_page,
    length_prefix, next_compressed_page, page_buffer_len, page_header, page_max_levels, page_parts,
    prefix_overflows, raw_data_page, split_data_page, split_panics, unread_page_bytes, v1_section,
    PageHeader, PageParts, compressed_header, compressed_page_header, decompress_panics,
    CompressedHeader, chunk_stream, data_page_encoding, data_page_num_values, decompressed,
    page_sections, page_split, reader_fails, reader_pages, ChunkStream, PageSplit,
};
use parquet2::page::{CompressedPage, DataPage};
use crate::types::{LogicalType, PhysicalType};
use parquet2::metadata::FileMetaData;

verus! {

/// The cells of a column chunk, and its repetition levels.
#[derive(Debug)]
pub struct ChunkValues {
    pub cells: Vec<Cell>,
    pub rep_levels: Vec<u32>,
}

/// A page of a column chunk as the reader decoded it.
pub enum ChunkPage {
    /// A dictionary page, and the cells it decoded to.
    Dictionary(DictPageParts, Seq<CellView>),
    /// A data page cut into its sections, and the cells and repetition
    /// levels it added.
    Data(DataPageParts, Option<Seq<CellView>>, Option<Seq<u32>>),
}

/// The dictionary in effect after some pages: the cells of the last
/// dictionary page among them.
pub open spec fn dictionary_after(pages: Seq<ChunkPage>) -> Option<Seq<CellView>>
    decreases pages.len(),
{
    if pages.len() == 0 {
        None
    } else {
        match pages.last() {
            ChunkPage::Dictionary(_, d) => Some(d),
            ChunkPage::Data(..) => dictionary_after(pages.drop_last()),
        }
    }
}

/// The cells that data pages added, in order.
pub open spec fn chunk_cells(pages: Seq<ChunkPage>) -> Seq<CellView>
    decreases pages.len(),
{
    if pages.len() == 0 {
        Seq::empty()
    } else {
        let rest = chunk_cells(pages.drop_last());
        match pages.last() {
            ChunkPage::Data(_, Some(c), _) => rest + c,
            _ => rest,
        }
    }
}

/// The repetition levels that data pages added, in order.
pub open spec fn chunk_reps(pages: Seq<ChunkPage>) -> Seq<u32>
    decreases pages.len(),
{
    if pages.len() == 0 {
        Seq::empty()
    } else {
        let rest = chunk_reps(pages.drop_last());
        match pages.last() {
            ChunkPage::Data(_, _, Some(r)) => rest + r,
            _ => rest,
        }
    }
}

/// Whether a page was decoded as the reader decodes it, given the
/// dictionary in effect before it.
pub open spec fn page_read(
    page: ChunkPage,
    dictionary: Option<Seq<CellView>>,
    physical: PhysicalType,
    logical: Option<LogicalType>,
    max_rep_level: i16,
    allow_delta: bool,
) -> bool {
    match page {
        ChunkPage::Dictionary(d, c) => dictionary_cell_views(
            d.buffer@,
            d.num_values as nat,
            physical,
            logical,
        ) == Ok::<Seq<CellView>, ValuesError>(c),
        ChunkPage::Data(p, cells, reps) => page_decodes_to(
            p,
            physical,
            logical,
            max_rep_level,
            dictionary,
            allow_delta,
            cells,
            reps,
        ),
    }
}

/// Whether every page was decoded as the reader decodes it, each data page
/// with the dictionary of the last dictionary page before it.
pub open spec fn pages_read(
    pages: Seq<ChunkPage>,
    physical: PhysicalType,
    logical: Option<LogicalType>,
    max_rep_level: i16,
    allow_delta: bool,
) -> bool {
    forall|i: int|
        0 <= i < pages.len() ==> #[trigger] page_read(
            pages[i],
            dictionary_after(pages.take(i)),
            physical,
            logical,
            max_rep_level,
            allow_delta,
        )
}

proof fn lemma_pages_read_push(
    pages: Seq<ChunkPage>,
    page: ChunkPage,
    physical: PhysicalType,
    logical: Option<LogicalType>,
    max_rep_level: i16,
    allow_delta: bool,
)
    requires
        pages_read(pages, physical, logical, max_rep_level, allow_delta),
        page_read(page, dictionary_after(pages), physical, logical, max_rep_level, allow_delta),
    ensures
        pages_read(pages.push(page), physical, logical, max_rep_level, allow_delta),
        pages.push(page).drop_last() == pages,
{
    let all = pages.push(page);
    assert(all.drop_last() =~= pages);
    assert forall|i: int| 0 <= i < all.len() implies #[trigger] page_read(
        all[i],
        dictionary_after(all.take(i)),
        physical,
        logical,
        max_rep_level,
        allow_delta,
    ) by {
        if i < pages.len() {
            assert(all.take(i) =~= pages.take(i));
            assert(all[i] == pages[i]);
        } else {
            assert(all.take(i) =~= pages);
        }
    }
}

/// What one page of a column chunk adds, given the dictionary in effect
/// before it: the dictionary in effect after it, its cells and its
/// repetition levels; `Err` where it cannot be decompressed, cut into
/// sections or decoded.
#[verifier::opaque]
pub open spec fn page_step(
    page: CompressedPage,
    dictionary: Option<Seq<CellView>>,
    physical: PhysicalType,
    logical: Option<LogicalType>,
    max_rep_level: i16,
    allow_delta: bool,
) -> Result<(Option<Seq<CellView>>, Seq<CellView>, Seq<u32>), ()> {
    if decompress_panics(compressed_page_header(page)) {
        Err(())
    } else {
        match decompressed(page) {
            None => Err(()),
            Some(pg) => match page_split(pg) {
                PageSplit::Dict(b, n) => match dictionary_cell_views(b, n as nat, physical, logical) {
                    Ok(c) => Ok((Some(c), Seq::empty(), Seq::empty())),
                    Err(_) => Err(()),
                },
                PageSplit::Data(dp) => {
                    let h = data_page_header(dp);
                    let b = data_page_buffer(dp);
                    let lv = data_page_max_levels(dp);
                    if split_panics(h, b, lv.0, lv.1) {
                        Err(())
                    } else {
                        match page_sections(h, b, lv.0, lv.1) {
                            None => Err(()),
                            Some((rep, def, values)) => match sections_decode(
                                rep,
                                def,
                                values,
                                data_page_num_values(dp),
                                lv.1,
                                data_page_encoding(dp),
                                physical,
                                logical,
                                max_rep_level,
                                dictionary,
                                allow_delta,
                            ) {
                                Ok((c, r)) => Ok(
                                    (
                                        dictionary,
                                        match c {
                                            Some(x) => x,
                                            None => Seq::empty(),
                                        },
                                        match r {
                                            Some(x) => x,
                                            None => Seq::empty(),
                                        },
                                    ),
                                ),
                                Err(_) => Err(()),
                            },
                        }
                    }
                },
            },
        }
    }
}

/// The cells and repetition levels that a chunk's pages decode to, in
/// order, starting with the given dictionary in effect; `Err` where a page
/// cannot be read or the reader ends with an error (`fails`).
pub open spec fn pages_decoded(
    pages: Seq<CompressedPage>,
    fails: bool,
    dictionary: Option<Seq<CellView>>,
    physical: PhysicalType,
    logical: Option<LogicalType>,
    max_rep_level: i16,
    allow_delta: bool,
) -> Result<(Seq<CellView>, Seq<u32>), ()>
    decreases pages.len(),
{
    if pages.len() == 0 {
        if fails {
            Err(())
        } else {
            Ok((Seq::empty(), Seq::empty()))
        }
    } else {
        match page_step(pages[0], dictionary, physical, logical, max_rep_level, allow_delta) {
            Err(_) => Err(()),
            Ok((d, c, r)) => match pages_decoded(
                pages.drop_first(),
                fails,
                d,
                physical,
                logical,
                max_rep_level,
                allow_delta,
            ) {
                Ok((cs, rs)) => Ok((c + cs, r + rs)),
                Err(_) => Err(()),
            },
        }
    }
}

/// What reading column chunk `column` of row group `row_group` gives: `Err`
/// where the footer has no such chunk, its reader cannot be made or its
/// pages do not decode; otherwise the cells and repetition levels of its
/// pages (see [`pages_decoded`]).
pub open spec fn chunk_decoded(
    md: FileMetaData,
    row_group: usize,
    column: usize,
    data: Seq<u8>,
    physical: PhysicalType,
    logical: Option<LogicalType>,
    max_rep_level: i16,
    allow_delta: bool,
) -> Result<(Seq<CellView>, Seq<u32>), ()> {
    match chunk_stream(md, row_group, column, data) {
        ChunkStream::Pages(ps, fails) => pages_decoded(
            ps,
            fails,
            None,
            physical,
            logical,
            max_rep_level,
            allow_delta,
        ),
        _ => Err(()),
    }
}

/// The cells and levels read so far followed by what the pages still to
/// come decode to.
pub open spec fn decoded_after(
    cells: Seq<CellView>,
    reps: Seq<u32>,
    rest: Result<(Seq<CellView>, Seq<u32>), ()>,
) -> Result<(Seq<CellView>, Seq<u32>), ()> {
    match rest {
        Ok((cs, rs)) => Ok((cells + cs, reps + rs)),
        Err(_) => Err(()),
    }
}

/// Whether a compressed page can be decompressed without a panic in
/// `parquet2` (see [`decompress_panics`]).
fn can_decompress(p: &CompressedPage) -> (b: bool)
    ensures
        b == !decompress_panics(compressed_page_header(*p)),
{
    match compressed_header(p) {
        CompressedHeader::V2 { uncompressed, rep_length, def_length } => {
            let sum = rep_length as i64 + def_length as i64;
            uncompressed || (i32::MIN as i64 <= sum && sum <= i32::MAX as i64)
        },
        _ => true,
    }
}

/// The length prefix at the start of `b`, where there are four bytes.
fn prefix_of(b: &[u8]) -> (r: Option<u64>)
    ensures
        b@.len() < 4 ==> r is None,
        b@.len() >= 4 ==> r == Some(length_prefix(b@) as u64),
{
    if b.len() < 4 {
        None
    } else {
        let w: u32 = (b[0] as u32) | ((b[1] as u32) << 8u32) | ((b[2] as u32) << 16u32) | ((b[3] as u32)
            << 24u32);
        Some(w as u64)
    }
}

/// Whether four plus the length prefix at the start of `b` overflows
/// `usize` (see [`prefix_overflows`]).
fn prefix_too_large(b: &[u8]) -> (r: bool)
    ensures
        r == prefix_overflows(b@),
{
    match prefix_of(b) {
        None => false,
        Some(l) => l + 4 > usize::MAX as u64,
    }
}

/// Where the length-prefixed section at the start of `b` ends (see
/// [`v1_section`]); `None` where it runs past the end.
fn section_end(b: &[u8]) -> (r: Option<usize>)
    ensures
        match v1_section(b@) {
            None => r is None,
            Some((_, rest)) => r matches Some(e) && e <= b@.len() && rest == b@.skip(e as int),
        },
{
    match prefix_of(b) {
        None => None,
        Some(l) => {
            if l > b.len() as u64 || 4 > b.len() as u64 - l {
                None
            } else {
                Some(4 + l as usize)
            }
        },
    }
}

/// Whether a data page can be cut into levels and values without a panic
/// in `parquet2` (see [`split_panics`]).
fn can_split(p: &DataPage) -> (b: bool)
    ensures
        b == !split_panics(
            data_page_header(*p),
            data_page_buffer(*p),
            data_page_max_levels(*p).0,
            data_page_max_levels(*p).1,
        ),
{
    let n = page_buffer_len(p);
    let (max_rep, max_def) = page_max_levels(p);
    match page_header(p) {
        PageHeader::V1 { encoding } => {
            if !(encoding == 0 || (2 <= encoding && encoding <= 9)) {
                return false;
            }
            if max_rep <= 0 && max_def <= 0 {
                return true;
            }
            let (buf, _) = raw_data_page(p);
            if max_rep > 0 && prefix_too_large(buf.as_slice()) {
                return false;
            }
            if max_def > 0 {
                if max_rep > 0 {
                    match section_end(buf.as_slice()) {
                        None => return true,
                        Some(end) => {
                            let rest = crate::levels::slice_from(buf.as_slice(), end);
                            assert(rest@ =~= buf@.skip(end as int));
                            return !prefix_too_large(rest);
                        },
                    }
                } else {
                    return !prefix_too_large(buf.as_slice());
                }
            }
            true
        },
        PageHeader::V2 { encoding, rep_length, def_length } => {
            if !(encoding == 0 || (2 <= encoding && encoding <= 9)) {
                return false;
            }
            if rep_length < 0 || def_length < 0 {
                return true;
            }
            (rep_length as u64) + (def_length as u64) <= (n as u64)
        },
    }
}

/// The cells, or levels, where there are any; empty otherwise.
pub open spec fn or_empty<T>(o: Option<Seq<T>>) -> Seq<T> {
    match o {
        Some(x) => x,
        None => Seq::empty(),
    }
}

/// What one page gave the reader: the cells of a dictionary page, or what a
/// data page adds.
enum PageRead {
    Dictionary(Vec<Cell>),
    Data(PageCells),
}

proof fn lemma_decoded_advance(
    whole: Result<(Seq<CellView>, Seq<u32>), ()>,
    cells: Seq<CellView>,
    reps: Seq<u32>,
    ps: Seq<CompressedPage>,
    fails: bool,
    dictionary: Option<Seq<CellView>>,
    next_dictionary: Option<Seq<CellView>>,
    c: Seq<CellView>,
    r: Seq<u32>,
    physical: PhysicalType,
    logical: Option<LogicalType>,
    max_rep_level: i16,
    allow_delta: bool,
)
    requires
        ps.len() > 0,
        page_step(ps[0], dictionary, physical, logical, max_rep_level, allow_delta) == Ok::<
            (Option<Seq<CellView>>, Seq<CellView>, Seq<u32>),
            (),
        >((next_dictionary, c, r)),
        whole == decoded_after(
            cells,
            reps,
            pages_decoded(ps, fails, dictionary, physical, logical, max_rep_level, allow_delta),
        ),
    ensures
        whole == decoded_after(
            cells + c,
            reps + r,
            pages_decoded(ps.drop_first(), fails, next_dictionary, physical, logical, max_rep_level, allow_delta),
        ),
{
    let rest = pages_decoded(ps.drop_first(), fails, next_dictionary, physical, logical, max_rep_level, allow_delta);
    if let Ok((cs, rs)) = rest {
        assert(cells + (c + cs) =~= (cells + c) + cs);
        assert(reps + (r + rs) =~= (reps + r) + rs);
    }
}

proof fn lemma_decoded_fails(
    whole: Result<(Seq<CellView>, Seq<u32>), ()>,
    cells: Seq<CellView>,
    reps: Seq<u32>,
    ps: Seq<CompressedPage>,
    fails: bool,
    dictionary: Option<Seq<CellView>>,
    physical: PhysicalType,
    logical: Option<LogicalType>,
    max_rep_level: i16,
    allow_delta: bool,
)
    requires
        ps.len() > 0 ==> page_step(ps[0], dictionary, physical, logical, max_rep_level, allow_delta) is Err,
        ps.len() == 0 ==> fails,
        whole == decoded_after(
            cells,
            reps,
            pages_decoded(ps, fails, dictionary, physical, logical, max_rep_level, allow_delta),
        ),
    ensures
        whole is Err,
{
}

/// Decompresses, cuts and decodes one page of a chunk with the dictionary
/// in effect before it.
fn read_page(
    compressed: CompressedPage,
    dictionary: &Option<Vec<Cell>>,
    physical: PhysicalType,
    logical: Option<LogicalType>,
    max_rep_level: i16,
    allow_delta: bool,
) -> (res: Result<(PageRead, Ghost<ChunkPage>), ReadError>)
    ensures
        match page_step(compressed, opt_cell_views(*dictionary), physical, logical, max_rep_level, allow_delta) {
            Ok((d, c, r)) => res matches Ok((pr, _)) && match pr {
                PageRead::Dictionary(v) => d == Some(cell_views(v@)) && c == Seq::<CellView>::empty() && r
                    == Seq::<u32>::empty(),
                PageRead::Data(pc) => d == opt_cell_views(*dictionary) && c == or_empty(
                    opt_cell_views(pc.cells),
                ) && r == or_empty(opt_levels(pc.rep_levels)),
            },
            Err(_) => res is Err,
        },
        res matches Ok((pr, g)) ==> page_read(
            g@,
            opt_cell_views(*dictionary),
            physical,
            logical,
            max_rep_level,
            allow_delta,
        ) && match pr {
            PageRead::Dictionary(v) => g@ matches ChunkPage::Dictionary(_, dc) && dc == cell_views(v@),
            PageRead::Data(pc) => g@ matches ChunkPage::Data(_, gc, gr) && gc == opt_cell_views(pc.cells)
                && gr == opt_levels(pc.rep_levels),
        },
{
    reveal(page_step);
    if !can_decompress(&compressed) {
        return Err(ReadError::PageHeader);
    }
    let page = match decompress_page(compressed) {
        Err(e) => return Err(ReadError::Decompress(e)),
        Ok(p) => p,
    };
    match page_parts(page) {
        PageParts::Dict(d) => {
            match decode_dictionary_page(d.buffer.as_slice(), d.num_values, physical, logical) {
                Err(e) => Err(ReadError::Values(e)),
                Ok(values) => {
                    let ghost entry = ChunkPage::Dictionary(d, cell_views(values@));
                    Ok((PageRead::Dictionary(values), Ghost(entry)))
                },
            }
        },
        PageParts::Data(dp) => {
            if !can_split(&dp) {
                return Err(ReadError::PageHeader);
            }
            let parts = match split_data_page(&dp) {
                Err(e) => return Err(ReadError::PageBuffer(e)),
                Ok(p) => p,
            };
            let pc = match decode_data_page(
                &parts,
                physical,
                logical,
                max_rep_level,
                dictionary,
                allow_delta,
            ) {
                Err(e) => return Err(e),
                Ok(pc) => pc,
            };
            let ghost entry = ChunkPage::Data(parts, opt_cell_views(pc.cells), opt_levels(pc.rep_levels));
            Ok((PageRead::Data(pc), Ghost(entry)))
        },
    }
}

/// Reads the pages of column chunk `column` of row group `row_group`: a
/// dictionary page replaces the dictionary, each data page adds its cells and
/// (for a repeated column) its repetition levels. It succeeds exactly when
/// the chunk's pages decode ([`chunk_decoded`]), and then gives what they
/// decode to; those are also what a sequence of pages read one by one
/// decodes to, each data page with the dictionary in effect before it.
pub fn read_column_chunk(
    md: &FileMetaData,
    row_group: usize,
    column: usize,
    data: &[u8],
    physical: PhysicalType,
    logical: Option<LogicalType>,
    max_rep_level: i16,
    allow_delta: bool,
) -> (res: Result<ChunkValues, ReadError>)
    ensures
        match chunk_decoded(*md, row_group, column, data@, physical, logical, max_rep_level, allow_delta) {
            Ok((c, r)) => res matches Ok(v) && cell_views(v.cells@) == c && v.rep_levels@ == r,
            Err(_) => res is Err,
        },
        chunk_stream(*md, row_group, column, data@) is Missing ==> res matches Err(
            ReadError::MissingColumnChunk,
        ),
        res matches Ok(c) ==> (max_rep_level <= 0 ==> c.rep_levels@.len() == 0),
        res matches Ok(c) ==> exists|pages: Seq<ChunkPage>|
            #[trigger] pages_read(pages, physical, logical, max_rep_level, allow_delta) && cell_views(
                c.cells@,
            ) == chunk_cells(pages) && c.rep_levels@ == chunk_reps(pages),
{
    let mut pages = match column_pages(md, row_group, column, data) {
        None => return Err(ReadError::MissingColumnChunk),
        Some(Err(e)) => return Err(ReadError::Pages(e)),
        Some(Ok(p)) => p,
    };
    let mut cells: Vec<Cell> = Vec::new();
    let mut reps: Vec<u32> = Vec::new();
    let mut dictionary: Option<Vec<Cell>> = None;
    let ghost mut seen: Seq<ChunkPage> = Seq::empty();
    let ghost whole = chunk_decoded(*md, row_group, column, data@, physical, logical, max_rep_level, allow_delta);
    assert(cell_views(cells@) =~= Seq::<CellView>::empty());
    proof {
        let rest = pages_decoded(reader_pages(pages), reader_fails(pages), None, physical, logical, max_rep_level, allow_delta);
        if let Ok((cs, rs)) = rest {
            assert(Seq::<CellView>::empty() + cs =~= cs);
            assert(Seq::<u32>::empty() + rs =~= rs);
        }
    }
    loop
        invariant
            whole == chunk_decoded(*md, row_group, column, data@, physical, logical, max_rep_level, allow_delta),
            !(chunk_stream(*md, row_group, column, data@) is Missing),
            whole == decoded_after(
                cell_views(cells@),
                reps@,
                pages_decoded(
                    reader_pages(pages),
                    reader_fails(pages),
                    opt_cell_views(dictionary),
                    physical,
                    logical,
                    max_rep_level,
                    allow_delta,
                ),
            ),
            max_rep_level <= 0 ==> reps@.len() == 0,
            pages_read(seen, physical, logical, max_rep_level, allow_delta),
            cell_views(cells@) == chunk_cells(seen),
            reps@ == chunk_reps(seen),
            opt_cell_views(dictionary) == dictionary_after(seen),
        ensures
            reader_pages(pages).len() == 0,
            !reader_fails(pages),
        decreases unread_page_bytes(pages),
    {
        let ghost ps = reader_pages(pages);
        let ghost fails = reader_fails(pages);
        let ghost before = opt_cell_views(dictionary);
        let ghost cells_before = cell_views(cells@);
        let ghost reps_before = reps@;
        let compressed = match next_compressed_page(&mut pages) {
            None => break ,
            Some(Err(e)) => {
                proof {
                    lemma_decoded_fails(whole, cells_before, reps_before, ps, fails, before, physical, logical, max_rep_level, allow_delta);
                }
                return Err(ReadError::Page(e));
            },
            Some(Ok(p)) => p,
        };
        let (outcome, Ghost(entry)) = match read_page(
            compressed,
            &dictionary,
            physical,
            logical,
            max_rep_level,
            allow_delta,
        ) {
            Err(e) => {
                proof {
                    lemma_decoded_fails(whole, cells_before, reps_before, ps, fails, before, physical, logical, max_rep_level, allow_delta);
                }
                return Err(e);
            },
            Ok(x) => x,
        };
        proof {
            lemma_pages_read_push(seen, entry, physical, logical, max_rep_level, allow_delta);
            seen = seen.push(entry);
        }
        match outcome {
            PageRead::Dictionary(values) => {
                proof {
                    assert(cells_before + Seq::<CellView>::empty() =~= cells_before);
                    assert(reps_before + Seq::<u32>::empty() =~= reps_before);
                    lemma_decoded_advance(
                        whole,
                        cells_before,
                        reps_before,
                        ps,
                        fails,
                        before,
                        Some(cell_views(values@)),
                        Seq::empty(),
                        Seq::empty(),
                        physical,
                        logical,
                        max_rep_level,
                        allow_delta,
                    );
                }
                dictionary = Some(values);
            },
            PageRead::Data(pc) => {
                let ghost c = or_empty(opt_cell_views(pc.cells));
                let ghost r = or_empty(opt_levels(pc.rep_levels));
                proof {
                    lemma_decoded_advance(
                        whole,
                        cells_before,
                        reps_before,
                        ps,
                        fails,
                        before,
                        before,
                        c,
                        r,
                        physical,
                        logical,
                        max_rep_level,
                        allow_delta,
                    );
                }
                if let Some(mut x) = pc.cells {
                    cells.append(&mut x);
                }
                if let Some(mut x) = pc.rep_levels {
                    reps.append(&mut x);
                }
                assert(cell_views(cells@) =~= cells_before + c);
                assert(reps@ =~= reps_before + r);
                assert(cell_views(cells@) =~= chunk_cells(seen));
                assert(reps@ =~= chunk_reps(seen));
            },
        }
    }
    proof {
        assert(cell_views(cells@) + Seq::<CellView>::empty() =~= cell_views(cells@));
        assert(reps@ + Seq::<u32>::empty() =~= reps@);
    }
    Ok(ChunkValues { cells, rep_levels: reps })
}

} // verus!
