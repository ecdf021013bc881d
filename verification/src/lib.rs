//! A small Parquet reader and writer: plain value codecs, definition and
//! repetition levels, dictionary and delta decoding, the three readers'
//! column selection and assembly, and the writer's schema rules, value
//! encoding and row groups. The file format's framing (metadata, page
//! headers, compression) is handled by the `parquet2` crate.

pub mod cells;
pub mod chunk;
pub mod column;
pub mod delta;
pub mod delta_stream;
pub mod encode;
pub mod levels;
pub mod nested;
pub mod nulls;
pub mod output;
pub mod pages;
pub mod plain;
pub mod reader;
pub mod reader_lite;
pub mod reader_full;
pub mod select;
pub mod pq;
pub mod pq_write;
pub mod types;
pub mod writer;
