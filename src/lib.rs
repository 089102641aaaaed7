//! Decoder for X3 archives: lossless compressed single-channel audio.
pub mod archive;
pub mod bitreader;
pub mod crc;
pub mod decoder;
pub mod error;
pub mod metadata;
pub mod reader;
pub mod x3;
pub mod xml;
