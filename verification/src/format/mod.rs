//! How databases are written to files.
pub mod xml_db;
