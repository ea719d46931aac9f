//! A small feed aggregation library: a tolerant streaming markup parser
//! for syndication documents, two timestamp grammars, entry
//! normalization, deduplication and time ordering, a flat-file record
//! store, page rendering, and the refresh trigger computation.
pub mod config;
pub mod decimal;
pub mod entry;
pub mod merge;
pub mod normalize;
pub mod parser;
pub mod render;
pub mod schedule;
pub mod store;
pub mod text;
pub mod timestamp;
