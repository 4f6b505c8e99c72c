//! An embeddable, schema-typed object database core: a binary object codec
//! with fixed- and variable-offset field layout, backend-independent reader
//! and writer views over one stored object, and a transactional instance
//! that owns collections and executes filtered queries over them.

pub mod codec;
pub mod data_type;
pub mod error;
pub mod filter;
pub mod instance;
pub mod query;
pub mod json;
pub mod laws;
pub mod object;
pub mod reader;
pub mod schema;
pub mod text;
pub mod writer;
