//! Storage key encoding, prefix ranges over a key-value store, the genesis
//! builder and test accounts of a small blockchain framework.
pub mod hash;
pub mod lex;
pub mod keys;
pub mod storage;
pub mod types;
pub mod genesis;
pub mod account;
pub mod map_key;
pub mod prefix;
pub mod mock;
