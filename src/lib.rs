//! Three-way synchronisation of a file repository between a local copy and a
//! remote server: item trees, the reconciliation engine, the action executor,
//! the content-addressed store and the baseline codec.
pub mod codec;
pub mod connection;
pub mod diff;
pub mod enc_string;
pub mod executor;
pub mod item;
pub mod meta_dir;
pub mod record;
pub mod store;
pub mod user;
pub mod zip;

