//! An immutable, dictionary-encoded column of optional strings with scan,
//! filter, aggregate and grouping queries.

pub mod column;
pub mod dictionary;
pub mod groups;
pub mod ingest;
pub mod laws;
pub mod lex;
pub mod model;
pub mod operator;
pub mod plain;
pub mod rle;
pub mod row_ids;
pub mod runs;
pub mod string_array;
pub mod value;
pub mod value_set;
