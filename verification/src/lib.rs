//! Codec for the looping background-music timing container format.
//!
//! The binary layout is a 4-byte magic tag, a little-endian 32-bit entry
//! count, and that many fixed-size records.  A lossless textual mirror of
//! the same data, with optional human-readable label annotations, is
//! provided alongside the binary codec.

pub mod bytes;
pub mod codec;
pub mod dec;
pub mod labels;
pub mod text;

pub use codec::BgmPropertyFile;
pub use codec::Entry;
pub use codec::Error;
pub use labels::LabelPair;
pub use labels::LabelTable;
pub use labels::parse_labels;
pub use text::from_text;
pub use text::to_text;
