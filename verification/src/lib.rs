//! A vector store whose vectors live in byte regions: raw and compressed
//! encodings, dirty-state tracking (holes, updates, pushed values), and the
//! derived (eager, lazy, computed) vectors built on top of them.

pub mod error;
pub mod version;
pub mod header;
pub mod region;
pub mod codec;
pub mod collections;
pub mod options;
pub mod raw;
pub mod fold;
pub mod compressed;
pub mod stored;
pub mod eager;
pub mod lazy;
pub mod computed;
pub mod stamped;
pub mod bench;
pub mod cached;
