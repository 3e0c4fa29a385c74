//! Core of a small BitTorrent client: the bencode codec, the torrent
//! descriptor model, tracker request/response handling and the peer wire
//! protocol, each with machine-checked contracts.
//!
//! The library neither opens files nor sockets. It turns bytes into values
//! and values into bytes, and says for each step of an exchange what is to
//! be sent and what an answer means.

pub mod bencode;
pub mod decimal;
pub mod error;
pub mod hash;
pub mod octets;
pub mod protocol;
pub mod report;
pub mod text;
pub mod types;
