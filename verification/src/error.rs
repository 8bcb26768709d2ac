//! The error taxonomy of the codec.
//!
//! Every operation of the codec is total: it returns either a fully valid
//! result or one of these errors. There is no best-effort decoding.

use vstd::prelude::*;

verus! {

/// Everything that can go wrong while decoding, encoding, mutating or
/// converting a table.
#[derive(Clone, Copy, Debug, PartialEq, Eq, Structural)]
pub enum TableError {
    /// The buffer is shorter than the fixed header, or its byte-order marker
    /// or type tag do not match: the file is not a Loc file at all.
    NotALocFile,
    /// The header announces zero rows and the schema has no definition for
    /// the header's version: there is nothing to decode, but the buffer is
    /// not evidence of corruption either.
    EmptyTableWithNoDefinition,
    /// The header announces rows, but the schema has no definition for the
    /// header's version.
    DefinitionNotFound,
    /// Decoding consumed a different number of bytes than the buffer holds:
    /// `expected` is the buffer's length, `actual` the bytes consumed.
    SizeMismatch { expected: usize, actual: usize },
    /// A read would have run past the end of the buffer.
    OutOfBounds,
    /// A string payload is not valid text in its declared encoding.
    InvalidString,
    /// A boolean byte held something other than 0 or 1.
    InvalidBool,
    /// A row handed to a mutation does not match the table's definition;
    /// `row` is the index of the first offending row.
    ShapeMismatch { row: usize },
    /// A tab-separated record disagrees with the expected table kind,
    /// version, field count or field types.
    TsvFormatMismatch,
}

} // verus!
