//! The numbers that the library is tuned with.

pub mod memory;
pub mod xml;
