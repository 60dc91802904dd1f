//! A multi-stage text compressor (Burrows-Wheeler, move-to-front, zero-run
//! coding, canonical Huffman) and the printable container that frames its
//! output.
pub mod error;
pub mod compressor;
pub mod diropql;
