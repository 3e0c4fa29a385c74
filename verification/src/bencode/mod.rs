//! Bencode: the self-describing format of torrent descriptors and tracker
//! responses.

pub mod canonical;
pub mod decode;
pub mod dictionary;
pub mod encode;
pub mod grammar;
pub mod order;
pub mod unique;
pub mod value;

pub use decode::decode;
pub use decode::decode_bencoded_value;
pub use encode::encode;
pub use value::BencodeValue;
