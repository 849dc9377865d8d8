//! A single-file key/value store: a copy-on-write tree of fixed-size pages.
//!
//! A database is an image of fixed-size pages. Page 0 names the root of a tree and a map
//! of free pages. Leaves hold one key with its value each, nodes hold pointers to their
//! children. Nothing that is saved is written over before a transaction is committed.
pub mod error;
pub mod flags;
pub mod options;
pub mod blocks;
pub mod bytes;
pub mod hash;
pub mod order;
pub mod layout;
pub mod tree;
pub mod path;
pub mod contents;
pub mod fetch;
pub mod node;
pub mod leaf;
pub mod store;
pub mod freemap;
pub mod saved;
pub mod db;
pub mod txn;
pub mod wtxn;
pub mod cow;
pub mod split;
pub mod insert;
pub mod entry;
pub mod remove;
pub mod commit;
pub mod audit;
pub mod laws;
pub mod laws_read;
pub mod laws_size;
pub mod laws_bytes;
pub mod laws_open;
pub mod laws_write;
pub mod laws_shape;
pub mod laws_root;

pub use audit::is_database;
pub use blocks::{order_to_size, size_to_order};
pub use bytes::{page_range, size_to_pages};
pub use db::{Rmdb, RmdbTxnState};
pub use error::RmdbError;
pub use flags::RmdbFlags;
pub use options::{payload_size, rmdb_minsize, RmdbOptions};
pub use txn::{RmdbCursor, RmdbTxn};
pub use wtxn::RmdbWTxn;
