//! Codec for a fixed binary container format that bundles a set of named
//! files into one archive: a name directory with per-name checksums, a size
//! table, and a block-aligned data blob.

pub mod archive;
pub mod bytes;
pub mod data;
pub mod decode;
pub mod encode;
pub mod error;
pub mod manifest;
pub mod text;
pub mod util;
