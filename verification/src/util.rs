//! General-purpose helpers.

pub mod bytes;
pub mod ordmap;
pub mod select;
pub mod sort;
pub mod varint;
