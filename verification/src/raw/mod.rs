//! Raw vectors: fixed-size values stored one after the other past the header,
//! with holes (deleted indices), updated values and pushed values held in
//! memory until written.

pub mod read_write;
pub mod read_only;
pub mod reader;
pub mod iterators;
