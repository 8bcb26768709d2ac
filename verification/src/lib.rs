//! A verified codec for versioned binary localisation tables.
//!
//! A `Loc` packed file is a self-identifying binary envelope (byte-order
//! marker, "LOC" tag, version, row count) wrapping a table of typed rows whose
//! layout is given by a versioned schema `Definition`. This crate decodes such
//! buffers into structured tables, encodes them back byte-exactly, converts
//! tables to and from a tab-separated interchange text, and shrinks a table by
//! diffing its rows against reference ("vanilla") baselines.

pub mod codec;
pub mod data;
pub mod error;
pub mod loc;
pub mod schema;
pub mod strings;
pub mod table;
pub mod tsv;
pub mod utf16;

pub use data::DecodedData;
pub use error::TableError;
pub use loc::{Loc, TSV_NAME_LOC};
pub use schema::{Definition, Field, FieldType, Schema};
pub use table::Table;
