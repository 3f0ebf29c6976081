//! A single-database store: schema-typed tables of tagged scalar values,
//! registered by unique name in a database, persisted as one versioned
//! binary snapshot, and driven through a single exclusively-held session.

pub mod codec;
pub mod database;
pub mod session;
pub mod table;
pub mod types;

pub use database::{Database, SavedDatabase};
pub use session::Session;
pub use table::Table;
pub use types::{DbError, DbType, DbValue, Row, Timestamp};
