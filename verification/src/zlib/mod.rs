//! zlib streams (RFC 1950) and DEFLATE (RFC 1951).

pub mod adler;
pub mod bits;
pub mod huffman;
pub mod inflate;
pub mod deflate;
pub mod prefix;
pub mod roundtrip;

pub use adler::adler32;
pub use deflate::{deflate_zlib, deflate_zlib_stored};
pub use inflate::{inflate_zlib, Inflated};
