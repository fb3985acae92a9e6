//! A read-only query engine over the SQLite 3 on-disk format: varints and
//! records, B-tree pages, the schema catalog, a small SQL grammar and an
//! executor that walks table and index B-trees.

pub mod cell;
pub mod codec;
pub mod error;
pub mod page;
pub mod query;
pub mod reader;
pub mod schema;
pub mod sql;
pub mod text;

pub use codec::parse_varint;
pub use error::{SqliteError, UnsupportedFeature};
