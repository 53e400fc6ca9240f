//! A cursor-based pagination engine for a self-referencing category store.
//!
//! The crate models the store as an ordered table of category rows and
//! verifies the full read pipeline: planning the page window, scanning a
//! keyset range, aggregating joined rows into entities, and assembling the
//! final page with its cursors and page-info flags. The write path (create,
//! upsert, delete) is verified against the same table model.

pub mod codec;
pub mod entity;
pub mod error;
pub mod pagination;
pub mod query;
pub mod store;
pub mod utils;

pub use error::CategoryError;
