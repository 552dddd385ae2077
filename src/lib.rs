//! Hides labelled messages in PNG files as chunks of their own.
//!
//! A file is the PNG signature followed by chunks (`length`, a four-letter tag, data and a
//! CRC-32), the last of which is `IEND`. The library reads such a file, finds, adds and
//! removes chunks by tag, and writes the file back byte for byte.
pub mod chunk;
pub mod chunk_type;
pub mod commands;
pub mod png;
mod text;
