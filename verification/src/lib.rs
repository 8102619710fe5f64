//! A replicated, eventually consistent store of named sets, built on an
//! add-wins observed-remove set whose state is kept as rows.

pub mod api;
pub mod blob;
pub mod buffers;
pub mod config;
pub mod convergence;
pub mod histories;
pub mod laws;
pub mod mem_storage;
pub mod proto;
pub mod replica_model;
pub mod replication;
pub mod resp;
pub mod server;
pub mod sql_utils;
pub mod storage;
pub mod store_lemmas;
pub mod store_model;
pub mod text;
pub mod types;
pub mod version_vector;
pub mod vv_text;
