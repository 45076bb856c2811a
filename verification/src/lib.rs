//! Bencode and what BitTorrent builds on it: a decoder and a canonical
//! encoder for bencode terms, the typed metainfo of a single-file torrent
//! with its info-hash, and the announce to a tracker with its compact peer
//! list.
//!
//! Every function is stated over a mathematical model of its data (`Term`
//! for a bencode value, sequences of bytes for input and output) and proved
//! to compute what its contract says. `roundtrip` and `canonical` hold the
//! laws that tie the decoder and the encoder together, `failures` those on
//! how the decoder fails. `trusted` holds the few calls into other crates,
//! whose contracts are taken on trust.

pub mod canonical;
pub mod decimal;
pub mod decode;
pub mod encode;
pub mod failures;
pub mod fields;
pub mod metainfo;
pub mod order;
pub mod roundtrip;
pub mod text;
pub mod tracker;
pub mod trusted;
pub mod value;
