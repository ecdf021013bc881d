//! The values a reader hands back, and how stored numbers, flags and byte
//! strings become those values.

use vstd::prelude::*;
use crate::nulls::reversed;
use crate::plain::byte_strings;
use crate::types::{is_time_like, is_unsigned_integer, time_like, unsigned_integer, LogicalType, PhysicalType};

verus! {

/// One value of a column as the reader returns it.
#[derive(Debug, PartialEq, Eq)]
pub enum Cell {
    /// No value.
    Null,
    /// An integer to be shown as an ordinary number.
    Number(i64),
    /// A signed 64-bit integer to be shown as a big integer.
    BigInt(i64),
    /// An unsigned 64-bit integer to be shown as a big integer.
    BigUint(u64),
    /// A 32-bit float, by its bits.
    Float(u32),
    /// A 64-bit float, by its bits.
    Double(u64),
    Boolean(bool),
    /// Text, as the UTF-8 bytes stored in the file.
    Text(Vec<u8>),
    /// Raw bytes of a fixed-length byte array.
    Bytes(Vec<u8>),
}

/// A [`Cell`] with its bytes as a sequence.
#[verifier::ext_equal]
pub enum CellView {
    Null,
    Number(i64),
    BigInt(i64),
    BigUint(u64),
    Float(u32),
    Double(u64),
    Boolean(bool),
    Text(Seq<u8>),
    Bytes(Seq<u8>),
}

impl View for Cell {
    type V = CellView;

    open spec fn view(&self) -> CellView {
        match self {
            Cell::Null => CellView::Null,
            Cell::Number(v) => CellView::Number(*v),
            Cell::BigInt(v) => CellView::BigInt(*v),
            Cell::BigUint(v) => CellView::BigUint(*v),
            Cell::Float(v) => CellView::Float(*v),
            Cell::Double(v) => CellView::Double(*v),
            Cell::Boolean(v) => CellView::Boolean(*v),
            Cell::Text(v) => CellView::Text(v@),
            Cell::Bytes(v) => CellView::Bytes(v@),
        }
    }
}

/// The views of a sequence of cells.
pub open spec fn cell_views(cells: Seq<Cell>) -> Seq<CellView> {
    cells.map_values(|c: Cell| c@)
}

/// A copy of a cell.
pub fn copy_cell(c: &Cell) -> (r: Cell)
    ensures
        r@ == c@,
{
    let r = copy_cell_parts(c);
    assert(r@ =~= c@);
    r
}

fn copy_cell_parts(c: &Cell) -> (r: Cell)
    ensures
        r@ =~= c@,
{
    match c {
        Cell::Null => Cell::Null,
        Cell::Number(v) => Cell::Number(*v),
        Cell::BigInt(v) => Cell::BigInt(*v),
        Cell::BigUint(v) => Cell::BigUint(*v),
        Cell::Float(v) => Cell::Float(*v),
        Cell::Double(v) => Cell::Double(*v),
        Cell::Boolean(v) => Cell::Boolean(*v),
        Cell::Text(v) => Cell::Text(crate::delta::copy_range(v.as_slice(), 0, v.len())),
        Cell::Bytes(v) => Cell::Bytes(crate::delta::copy_range(v.as_slice(), 0, v.len())),
    }
}

/// An INT32 value: its unsigned reading for an unsigned integer type.
pub open spec fn int32_cell(v: i32, unsigned: bool) -> CellView {
    if unsigned {
        CellView::Number((v as u32) as i64)
    } else {
        CellView::Number(v as i64)
    }
}

/// An INT64 value: a big integer, or a number for times and timestamps.
pub open spec fn int64_cell(v: i64, big: bool) -> CellView {
    if big {
        CellView::BigInt(v)
    } else {
        CellView::Number(v)
    }
}

/// A delta-decoded integer: a big integer for INT64 columns other than times
/// and timestamps, an unsigned big integer for unsigned integer types, the
/// low 32 bits for INT32 columns, and a number otherwise.
pub open spec fn delta_cell(v: i64, physical: PhysicalType, logical: Option<LogicalType>) -> CellView {
    if physical == PhysicalType::Int64 && !is_time_like(logical) {
        CellView::BigInt(v)
    } else if is_unsigned_integer(logical) {
        CellView::BigUint(v as u64)
    } else if physical == PhysicalType::Int32 {
        CellView::Number((v as i32) as i64)
    } else {
        CellView::Number(v)
    }
}

/// INT32 values as cells.
pub fn int32_cells(vals: &[i32], unsigned: bool) -> (out: Vec<Cell>)
    ensures
        cell_views(out@) == vals@.map_values(|v: i32| int32_cell(v, unsigned)),
{
    let mut out: Vec<Cell> = Vec::new();
    let mut i: usize = 0;
    while i < vals.len()
        invariant
            i <= vals@.len(),
            cell_views(out@) =~= vals@.take(i as int).map_values(|v: i32| int32_cell(v, unsigned)),
        decreases vals@.len() - i,
    {
        let v = vals[i];
        let c = if unsigned {
            Cell::Number((v as u32) as i64)
        } else {
            Cell::Number(v as i64)
        };
        let ghost prev = out@;
        out.push(c);
        assert(cell_views(out@) =~= cell_views(prev).push(c@));
        assert(vals@.take(i + 1).map_values(|v: i32| int32_cell(v, unsigned)) =~= vals@.take(
            i as int,
        ).map_values(|v: i32| int32_cell(v, unsigned)).push(int32_cell(v, unsigned)));
        i = i + 1;
    }
    assert(vals@.take(vals@.len() as int) =~= vals@);
    out
}

/// INT64 values as cells.
pub fn int64_cells(vals: &[i64], big: bool) -> (out: Vec<Cell>)
    ensures
        cell_views(out@) == vals@.map_values(|v: i64| int64_cell(v, big)),
{
    let mut out: Vec<Cell> = Vec::new();
    let mut i: usize = 0;
    while i < vals.len()
        invariant
            i <= vals@.len(),
            cell_views(out@) =~= vals@.take(i as int).map_values(|v: i64| int64_cell(v, big)),
        decreases vals@.len() - i,
    {
        let v = vals[i];
        let c = if big {
            Cell::BigInt(v)
        } else {
            Cell::Number(v)
        };
        let ghost prev = out@;
        out.push(c);
        assert(cell_views(out@) =~= cell_views(prev).push(c@));
        assert(vals@.take(i + 1).map_values(|v: i64| int64_cell(v, big)) =~= vals@.take(
            i as int,
        ).map_values(|v: i64| int64_cell(v, big)).push(int64_cell(v, big)));
        i = i + 1;
    }
    assert(vals@.take(vals@.len() as int) =~= vals@);
    out
}

/// Delta-decoded integers as cells.
pub fn delta_cells(vals: &[i64], physical: PhysicalType, logical: Option<LogicalType>) -> (out: Vec<
    Cell,
>)
    ensures
        cell_views(out@) == vals@.map_values(|v: i64| delta_cell(v, physical, logical)),
{
    let big = physical == PhysicalType::Int64 && !time_like(logical);
    let unsigned = unsigned_integer(logical);
    let is_int32 = physical == PhysicalType::Int32;
    let mut out: Vec<Cell> = Vec::new();
    let mut i: usize = 0;
    while i < vals.len()
        invariant
            i <= vals@.len(),
            big == (physical == PhysicalType::Int64 && !is_time_like(logical)),
            unsigned == is_unsigned_integer(logical),
            is_int32 == (physical == PhysicalType::Int32),
            cell_views(out@) =~= vals@.take(i as int).map_values(
                |v: i64| delta_cell(v, physical, logical),
            ),
        decreases vals@.len() - i,
    {
        let v = vals[i];
        let c = if big {
            Cell::BigInt(v)
        } else if unsigned {
            Cell::BigUint(v as u64)
        } else if is_int32 {
            Cell::Number((v as i32) as i64)
        } else {
            Cell::Number(v)
        };
        let ghost prev = out@;
        out.push(c);
        assert(cell_views(out@) =~= cell_views(prev).push(c@));
        assert(vals@.take(i + 1).map_values(|v: i64| delta_cell(v, physical, logical)) =~= vals@.take(
            i as int,
        ).map_values(|v: i64| delta_cell(v, physical, logical)).push(delta_cell(v, physical, logical)));
        i = i + 1;
    }
    assert(vals@.take(vals@.len() as int) =~= vals@);
    out
}

/// 32-bit words as float cells.
pub fn float_cells(vals: &[u32]) -> (out: Vec<Cell>)
    ensures
        cell_views(out@) == vals@.map_values(|v: u32| CellView::Float(v)),
{
    let mut out: Vec<Cell> = Vec::new();
    let mut i: usize = 0;
    while i < vals.len()
        invariant
            i <= vals@.len(),
            cell_views(out@) =~= vals@.take(i as int).map_values(|v: u32| CellView::Float(v)),
        decreases vals@.len() - i,
    {
        let ghost prev = out@;
        let c = Cell::Float(vals[i]);
        out.push(c);
        assert(cell_views(out@) =~= cell_views(prev).push(c@));
        assert(vals@.take(i + 1).map_values(|v: u32| CellView::Float(v)) =~= vals@.take(
            i as int,
        ).map_values(|v: u32| CellView::Float(v)).push(CellView::Float(vals@[i as int])));
        i = i + 1;
    }
    assert(vals@.take(vals@.len() as int) =~= vals@);
    out
}

/// 64-bit words as double cells.
pub fn double_cells(vals: &[u64]) -> (out: Vec<Cell>)
    ensures
        cell_views(out@) == vals@.map_values(|v: u64| CellView::Double(v)),
{
    let mut out: Vec<Cell> = Vec::new();
    let mut i: usize = 0;
    while i < vals.len()
        invariant
            i <= vals@.len(),
            cell_views(out@) =~= vals@.take(i as int).map_values(|v: u64| CellView::Double(v)),
        decreases vals@.len() - i,
    {
        let ghost prev = out@;
        let c = Cell::Double(vals[i]);
        out.push(c);
        assert(cell_views(out@) =~= cell_views(prev).push(c@));
        assert(vals@.take(i + 1).map_values(|v: u64| CellView::Double(v)) =~= vals@.take(
            i as int,
        ).map_values(|v: u64| CellView::Double(v)).push(CellView::Double(vals@[i as int])));
        i = i + 1;
    }
    assert(vals@.take(vals@.len() as int) =~= vals@);
    out
}

/// Flags as boolean cells.
pub fn boolean_cells(vals: &[bool]) -> (out: Vec<Cell>)
    ensures
        cell_views(out@) == vals@.map_values(|v: bool| CellView::Boolean(v)),
{
    let mut out: Vec<Cell> = Vec::new();
    let mut i: usize = 0;
    while i < vals.len()
        invariant
            i <= vals@.len(),
            cell_views(out@) =~= vals@.take(i as int).map_values(|v: bool| CellView::Boolean(v)),
        decreases vals@.len() - i,
    {
        let ghost prev = out@;
        let c = Cell::Boolean(vals[i]);
        out.push(c);
        assert(cell_views(out@) =~= cell_views(prev).push(c@));
        assert(vals@.take(i + 1).map_values(|v: bool| CellView::Boolean(v)) =~= vals@.take(
            i as int,
        ).map_values(|v: bool| CellView::Boolean(v)).push(CellView::Boolean(vals@[i as int])));
        i = i + 1;
    }
    assert(vals@.take(vals@.len() as int) =~= vals@);
    out
}

/// Byte strings as text cells (`text`) or raw byte cells.
pub fn byte_cells(vals: Vec<Vec<u8>>, text: bool) -> (out: Vec<Cell>)
    ensures
        cell_views(out@) == byte_strings(vals@).map_values(
            |v: Seq<u8>|
                if text {
                    CellView::Text(v)
                } else {
                    CellView::Bytes(v)
                },
        ),
{
    let ghost vs = vals@;
    let n = vals.len();
    let mut stack = reversed(vals);
    let mut out: Vec<Cell> = Vec::new();
    let mut i: usize = 0;
    while i < n
        invariant
            i <= n,
            n == vs.len(),
            stack@.len() + i == n,
            forall|j: int| 0 <= j < stack@.len() ==> #[trigger] stack@[j] == vs[n - 1 - j],
            cell_views(out@) =~= byte_strings(vs.take(i as int)).map_values(
                |v: Seq<u8>|
                    if text {
                        CellView::Text(v)
                    } else {
                        CellView::Bytes(v)
                    },
            ),
        decreases n - i,
    {
        let v = stack.pop().unwrap();
        assert(v == vs[i as int]);
        let ghost vv = v@;
        let ghost prev = out@;
        let c = if text {
            Cell::Text(v)
        } else {
            Cell::Bytes(v)
        };
        out.push(c);
        assert(cell_views(out@) =~= cell_views(prev).push(c@));
        assert(vs.take(i + 1) =~= vs.take(i as int).push(vs[i as int]));
        assert(byte_strings(vs.take(i + 1)) =~= byte_strings(vs.take(i as int)).push(vv));
        assert(byte_strings(vs.take(i + 1)).map_values(
            |v: Seq<u8>|
                if text {
                    CellView::Text(v)
                } else {
                    CellView::Bytes(v)
                },
        ) =~= byte_strings(vs.take(i as int)).map_values(
            |v: Seq<u8>|
                if text {
                    CellView::Text(v)
                } else {
                    CellView::Bytes(v)
                },
        ).push(c@));
        i = i + 1;
    }
    assert(vs.take(n as int) =~= vs);
    out
}

} // verus!
