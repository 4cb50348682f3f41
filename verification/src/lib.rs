pub mod datetime;
pub mod datum;
pub mod db;
pub mod format;
pub mod ids;
pub mod key;
pub mod merge;
pub mod text_map;
