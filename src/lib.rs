//! An embedded, schema-driven, in-memory table store: typed values, a
//! fluent query builder, filtering in disjunctive normal form answered
//! through secondary and full-text indexes, equi-joins, ordering and
//! paging, unique and autoincrement fields, per-row expiry, and the framing
//! and replay of a write-ahead log. Each operation is stated over a
//! mathematical model of the engine and proved against it.
//!
//! The engine is a plain value: files, the clock, the log writer and
//! background tasks belong to its caller, which hands it the current time
//! and the decoded log records.

pub mod text;
pub mod value;
pub mod schema;
pub mod query;
pub mod row;
pub mod filter;
pub mod db;
pub mod select;
pub mod insert;
pub mod mutate;
pub mod wal;
pub mod execute;
pub mod store;
pub mod index;

pub use db::{Database, DbError, Table};
pub use execute::WalOperation;
pub use query::{Condition, IntoValues, Query, QueryOp};
pub use row::Row;
pub use schema::{DbConfig, FieldConfig, TableConfig};
pub use value::{Decimal, FieldType, Value};
pub use wal::{encode_frame, split_frames};
