//! The core of a BitTorrent v1 leecher: a binary-safe bencode codec, the
//! metainfo model with its info-hash and piece hashes, the tracker announce
//! formats, and the peer wire protocol with its session state machine and
//! piece reassembly.
//!
//! Everything here is pure: bytes in, values out. Sockets, files and HTTP
//! live with the caller, which feeds what it read to these functions and
//! sends what they hand back.

pub mod ascii;
pub mod bencode;
pub mod decimal;
pub mod decoder;
pub mod endian;
pub mod file;
pub mod grammar;
pub mod handshake;
pub mod json;
pub mod hashing;
pub mod lex;
pub mod message;
pub mod network;
pub mod piece;
pub mod roundtrip;
pub mod session;
pub mod text;
pub mod tracker;
