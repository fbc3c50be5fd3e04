//! Writers for PNG images, ZIP archives and zlib streams, and the
//! building blocks they share.

pub mod checksums;
pub mod deflate;
pub mod generic;
pub mod inline;
pub mod io;
pub mod opstructs;

pub use crate::checksums::{adler32, crc32};
pub mod encoding;
pub mod padding;
pub mod png;
pub mod royalroad;
pub mod sept;
pub mod storage;
pub mod text;
pub mod unterminated;
pub mod web;
pub mod zip;
pub mod zipng;
pub mod zlib;
