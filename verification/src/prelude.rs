//! The names that most users of the metainfo schema need.
pub use crate::bencoded::{BInt, BString, FileInfo, Files, Info, Metainfo};
