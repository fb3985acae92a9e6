use vstd::prelude::*;

verus! {

/// What is not implemented by this reader.
#[derive(Debug, Clone, Copy, PartialEq, Eq, Structural)]
pub enum UnsupportedFeature {
    /// A cell whose payload spills onto overflow pages.
    Overflow,
    /// A text encoding other than UTF-8.
    Encoding,
    /// A statement other than `SELECT`.
    Statement,
    /// A filter on a column whose value is a double, which has no text here.
    RealComparison,
}

/// Every way in which reading a database or running a query fails.
#[derive(Debug, Clone, Copy, PartialEq, Eq, Structural)]
pub enum SqliteError {
    /// A page past the end of the file.
    IoOutOfRange,
    /// The header magic is not `"SQLite format 3\0"`.
    NotASqliteFile,
    Unsupported(UnsupportedFeature),
    /// The buffer ended inside a varint or a value.
    DecodeTruncated,
    /// A malformed record, page or schema row.
    DecodeRecord,
    UnknownTable,
    UnknownColumn,
    ParseError,
}

} // verus!
