//! An embedded key-value substrate for blockchain-style state.
//!
//! One store value, [`Db`], is multiplexed into independent logical maps by
//! prefix; a copy-on-write DAG of map snapshots is layered above it, and a
//! versioned Merkle trie store above that.

pub mod bytes;
pub mod dag;
pub mod dagmap;
pub mod dagmap_rawkey;
pub mod ende;
pub mod engine;
pub mod error;
pub mod keccak;
pub mod kv;
pub mod mapx;
pub mod mpt;
pub mod multikey;
