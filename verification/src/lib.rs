//! The layers of a small Parquet reader, each with its behaviour stated and proved: bytes and
//! the Thrift compact protocol, the trailer, footer and schema, page headers, PLAIN values, the
//! RLE, delta and byte-stream-split encodings, the page codecs, statistics and the skipping
//! decisions they support, a simulated object store and the footer read through it, and the
//! bookkeeping of a table that changes.

pub mod bloom;
pub mod bytes;
pub mod changes;
pub mod column;
pub mod compress;
pub mod crypto;
pub mod decode;
pub mod delta;
pub mod encoding;
pub mod engine;
pub mod format;
pub mod json;
pub mod layout;
pub mod logical;
pub mod metadata;
pub mod nested;
pub mod object_store;
pub mod page_index;
pub mod pages;
pub mod parquet_thrift;
pub mod plain;
pub mod prune;
pub mod reader;
pub mod report;
pub mod rle;
pub mod scan;
pub mod schema;
pub mod stats;
pub mod table;
pub mod text;
pub mod thrift;
