//! Compression and decompression of SEGA's PRS byte-stream format, an LZ77
//! variant named after the file extension commonly used for its payloads.
//!
//! Two incompatible dialects of PRS exist: `Legacy` (Dreamcast/Saturn-era
//! titles) and `Modern` (later titles). They differ only in the minimum
//! length encoded by the long-copy extended-length byte, but a buffer carries
//! no dialect tag, so the caller must know which dialect to use.
//!
//! The codec is verified: compression is an exact mathematical function of
//! the input, decompression of a compressed buffer provably yields the
//! buffer back under either dialect ([`roundtrip::lemma_roundtrip`]), and a
//! buffer repeating a short pattern provably shrinks
//! ([`effectiveness::lemma_repetition_compresses`]).

pub mod cmd;
pub mod compress;
pub mod decompress;
pub mod effectiveness;
pub mod flavor;
pub mod roundtrip;
pub mod sink;
pub mod variant;

pub use crate::cmd::Cmd;
pub use crate::compress::Encoder;
pub use crate::compress::IntoInnerError;
pub use crate::compress::compress;
pub use crate::compress::compress_buf;
pub use crate::decompress::Ctx;
pub use crate::decompress::DecompressError;
pub use crate::decompress::decompress;
pub use crate::decompress::decompress_buf;
pub use crate::flavor::Flavor;
pub use crate::sink::PrsSink;
pub use crate::variant::Legacy;
pub use crate::variant::Modern;
pub use crate::variant::Sealed;
pub use crate::variant::Variant;
