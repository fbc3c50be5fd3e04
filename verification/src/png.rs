//! PNG images: their in-memory representation and their serialization.

pub mod data;
pub mod palettes;
pub mod reading;
pub mod sizes;
pub mod to_png;
pub mod write_png;
pub mod writing;
