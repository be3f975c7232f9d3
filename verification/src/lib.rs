//! A minimal BitTorrent protocol engine: the bencode codec, the torrent
//! descriptor model with its canonical info-hash, the tracker announce query
//! and compact peer-list decoding, the peer wire handshake and streaming
//! frame codec, and the piece transfer state machine with block splitting
//! and hash verification.

pub mod bencode;
pub mod digest;
pub mod engine;
pub mod torrent;
pub mod tracker;
pub mod wire;
