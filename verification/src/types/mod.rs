//! The torrent descriptor and the tracker's answer, as typed values.

pub mod descriptor;
pub mod hashes;
pub mod infohash;
pub mod keys;
pub mod meaning;
pub mod peers;
pub mod response;

pub use descriptor::File;
pub use descriptor::Files;
pub use descriptor::Info;
pub use descriptor::Torrent;
pub use hashes::Hashes;
pub use peers::PeerAddress;
pub use peers::Peers;
pub use response::TrackerResponse;
