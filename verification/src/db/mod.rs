//! The contents of a password database.
pub mod attachment;
pub mod autotype;
pub mod compare;
pub mod custom_data;
pub mod database;
pub mod entry;
pub mod group;
pub mod icon;
pub mod times;
pub mod tree;
pub mod value;
pub mod view_laws;
