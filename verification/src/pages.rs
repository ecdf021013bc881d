//! What the readers take from a file's metadata and pages, as plain values.

use vstd::prelude::*;
use crate::types::{LogicalType, PhysicalType, Repetition};

verus! {

/// The description of a primitive (leaf) field.
#[derive(Debug)]
pub struct PrimitiveInfo {
    pub name: String,
    pub repetition: Repetition,
    pub physical_type: PhysicalType,
    pub logical_type: Option<LogicalType>,
}

/// A primitive field as plain values: its name, repetition, physical type
/// and logical type.
pub open spec fn info_view(p: PrimitiveInfo) -> (Seq<char>, Repetition, PhysicalType, Option<LogicalType>) {
    (p.name@, p.repetition, p.physical_type, p.logical_type)
}

/// A leaf column of the schema, with its path from the root.
#[derive(Debug)]
pub struct LeafColumn {
    pub path: Vec<String>,
    pub info: PrimitiveInfo,
    pub max_def_level: i16,
    pub max_rep_level: i16,
}

/// A top-level field of the schema.
#[derive(Debug)]
pub enum TopField {
    Primitive(PrimitiveInfo),
    Group,
}

/// How the values of a data page are encoded.
#[derive(Debug, Clone, Copy, PartialEq, Eq, Structural)]
pub enum Encoding {
    Plain,
    PlainDictionary,
    Rle,
    BitPacked,
    DeltaBinaryPacked,
    DeltaLengthByteArray,
    DeltaByteArray,
    RleDictionary,
    ByteStreamSplit,
}

/// A dictionary page: its PLAIN-encoded values and how many there are.
#[derive(Debug)]
pub struct DictPageParts {
    pub buffer: Vec<u8>,
    pub num_values: usize,
}

/// A data page cut into its three sections.
#[derive(Debug)]
pub struct DataPageParts {
    pub rep_levels: Vec<u8>,
    pub def_levels: Vec<u8>,
    pub values: Vec<u8>,
    pub num_values: usize,
    pub max_def_level: i16,
    pub encoding: Encoding,
}

} // verus!
