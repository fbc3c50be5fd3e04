//! ZIP/PNG polyglot files.

pub mod data;
pub mod to_zipng;
pub mod write_zipng;
pub mod writing;
