//! An embedded key-value database.
//!
//! A B-tree in pages of four kilobytes holds the pairs, and a write-ahead log what is about to be
//! done to it. The library works on what the files hold and hands out requests; it does no input
//! or output itself.
pub mod audit;
pub mod btree;
pub mod btree_walk;
pub mod build_laws;
pub mod bytes;
pub mod capacity;
pub mod constants;
pub mod counts;
pub mod crash;
pub mod cuts;
pub mod database;
pub mod effects;
pub mod entries;
pub mod error;
pub mod export;
pub mod formats;
pub mod growth;
pub mod laws;
pub mod meaning;
pub mod node;
pub mod page;
pub mod pager;
pub mod replay;
pub mod requests;
pub mod rounds;
pub mod shape;
pub mod space;
pub mod storage;
pub mod store;
pub mod survey;
pub mod tree;
pub mod tree_laws;
pub mod wal;
pub mod wal_laws;

pub use constants::{
    MetaData, NodeHeader, NodeType, PageId, WalRecordHeader, WalRecordType, DB_VERSION,
    INVALID_PAGE_ID, MAGIC, MAX_KEY_SIZE, MAX_VALUE_SIZE, META_PAGE_ID, PAGE_SIZE, ROOT_PAGE_ID,
};
pub use database::{Database, InspectStats, Options, Stats, VerifyStats};
pub use error::{KvdbError, Result};
pub use requests::Request;
pub use storage::FileOp;
