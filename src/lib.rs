//! A small codec for uncompressed, strip-organised TIFF images.
//!
//! The library works on whole files held in memory: a reader parses the
//! header and walks the chain of image file directories, a writer lays out
//! strips and directories frame by frame and hands back the finished bytes.
pub mod bytes;
pub mod error;
pub mod ifd;
pub mod frame;
pub mod header;
pub mod sample;
pub mod strip;
pub mod reader;
pub mod layout;
pub mod writer;
pub mod laws;
