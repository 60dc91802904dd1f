//! The codec stages, each usable on its own.
pub mod rle;
pub mod mtf;
pub mod order;
pub mod bwt;
pub mod huffman;
