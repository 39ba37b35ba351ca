//! Decoder for the LZSS10 and LZSS11 compressed byte formats.
//!
//! A compressed stream starts with a four-byte header: a format tag
//! (`0x10` or `0x11`) followed by the uncompressed size as a 24-bit
//! little-endian integer.  The rest of the stream is a sequence of
//! control bytes, each of whose eight bits (most significant first)
//! says whether the next token is a literal byte or a back-reference
//! into the output produced so far.

mod bytes;
pub mod decoder;
pub mod laws;
pub mod model;

pub use decoder::decompress;
pub use decoder::decompress_lzss10;
pub use decoder::decompress_lzss11;
pub use model::Format;
pub use model::LzssError;
