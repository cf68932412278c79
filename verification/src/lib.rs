//! A BitTorrent client core: the bencode codec, the torrent metainfo model
//! and its info-hash derivation, the tracker announce client, the peer wire
//! protocol, and the piece manager that drives a verified download.
pub mod bencode;
pub mod util;
pub mod bittorrent;
pub mod metainfo;
pub mod piece;
pub mod tracker;
pub mod wire;
