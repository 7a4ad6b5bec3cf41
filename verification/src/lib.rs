//! A verified bencode codec for BitTorrent metainfo files.
//!
//! The crate decodes bencode documents into a value tree, re-encodes value
//! trees in canonical (sorted-key) form, extracts typed torrent metadata from
//! a decoded tree, and computes the torrent's info hash over the exact byte
//! span of the `info` dictionary in the source document.

pub mod encoding;
pub mod hashing;
pub mod parsing;
pub mod peers;
pub mod roundtrip;
pub mod text;
pub mod torrent;
pub mod value;
