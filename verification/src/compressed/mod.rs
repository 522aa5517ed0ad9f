//! Compressed vectors: values grouped in pages, each page compressed with
//! Pcodec, with a page table in a region of its own.

pub mod page;
pub mod pco;
pub mod vec;
pub mod iterators;
