//! Local photo search.

pub mod cache;
pub mod calendar;
pub mod face;
pub mod indexer;
pub mod media;
pub mod names;
pub mod number;
pub mod path;
pub mod people;
pub mod query;
pub mod query_laws;
pub mod ranking;
pub mod record;
pub mod residue;
pub mod runtime;
pub mod score;
pub mod search;
pub mod settings;
pub mod text;
pub mod thumbnail;
