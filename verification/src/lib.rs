//! A local full-text search engine: an inverted index built over a document
//! corpus, stored in an ordered byte-key store, and queried through a small
//! boolean algebra over posting sets plus a TF-IDF ranking stage.
//!
//! The modules follow the data: `codec` fixes the persisted byte layout,
//! `docset` and `postings` carry the in-memory build, `store` speaks to the
//! persistent partitions, and `parser`, `query` and `rank` form the read
//! side.

pub mod codec;
pub mod docset;
pub mod parser;
pub mod postings;
pub mod query;
pub mod rank;
pub mod store;
pub mod text;
