//! A small catalog library for a music archive: artists, albums, tracks,
//! batches and entregas (delivery groupings), with an idempotent bulk
//! importer that reconciles payload-local positional references against
//! store-assigned identifiers, and a path-sanitized article helper.

pub mod articles;
pub mod importer;
pub mod laws;
pub mod models;
pub mod store;
