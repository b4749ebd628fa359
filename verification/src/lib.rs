//! Decoding of Parquet decimal column chunks into fixed-width column buffers.
//!
//! Parquet stores a decimal as a big-endian two's-complement byte string, of a
//! width fixed by the schema or of a length that varies per value. The column
//! store keeps decimals in one of six fixed widths. This crate converts one
//! into the other, page by page, keeping null rows and honouring a row filter.
//!
//! - [`convert`] converts one value, and [`value`] says which integer its
//!   bytes stand for before and after.
//! - [`slicer`] and [`rle`] hand out the values of a page one by one, from
//!   plain pages and from dictionary-encoded ones; [`dict_decoder`] holds
//!   the dictionaries and [`hybrid_rle`] reads the runs of small numbers.
//! - [`column_sink`] converts the values of a slicer and appends them to the
//!   column buffer.
//! - [`decode`] walks the rows of a [`page`] and drives a sink.
//! - [`decimal`] holds the entry points.

pub mod column_sink;
pub mod column_type;
pub mod convert;
pub mod decimal;
pub mod decode;
pub mod dict_decoder;
pub mod error;
pub mod hybrid_rle;
pub mod page;
pub mod rle;
pub mod slicer;
pub mod value;
