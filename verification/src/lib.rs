//! An append-only, content-addressed Merkle log with a fixed-size perfect
//! binary hash tree beside it, and the deterministic parts of the harness
//! that drives both.

pub mod auth;
pub mod block;
pub mod cache;
pub mod codec;
pub mod cut;
pub mod device;
pub mod divergence;
pub mod driver;
pub mod entry;
pub mod formula;
pub mod hash;
pub mod hashtree;
pub mod log;
pub mod memkvs;
pub mod mixer;
pub mod recovery;
pub mod stat;
pub mod storage;

pub use crate::memkvs::MemKVS;
pub use crate::mixer::splitmix64;
