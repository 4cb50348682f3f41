//! The XML document inside a database file.
pub mod times;
pub mod timestamp;
