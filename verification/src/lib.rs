//! A verified tabular-data engine: an in-memory columnar table type,
//! the four transformations a table explorer offers (filter, grouped
//! aggregation, relational join, wide-to-long melt), a CSV reader, and
//! the registry of titled containers that owns every live table.

pub mod aggregate;
pub mod container;
pub mod csv;
pub mod error;
pub mod filter;
pub mod join;
pub mod melt;
pub mod registry;
pub mod summary;
pub mod table;
pub mod value;
