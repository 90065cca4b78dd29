//! Decoder for the entropy-coded data of lossless (process 14) JPEG images: canonical
//! Huffman tables, byte de-stuffing, magnitude-category decoding and predictive
//! reconstruction of the samples.

pub mod canonical;
pub mod decoder;
pub mod entropy;
pub mod error;
pub mod headers;
pub mod huffman;
pub mod predict;

pub use decoder::{parse_scan_header, Jpeg};
pub use entropy::{get_huffmaned_value, BitCursor};
pub use error::DecodeError;
pub use headers::{is_jpeg, Component, FrameHeader, HeaderParameter, ScanHeader};
pub use huffman::{make_ssss_table, number_of_used_bits, SSSSTable};
pub use predict::{make_prediciton, reconstruct};
