//! The tracker exchange and the peer wire protocol, as functions on bytes.
//!
//! Nothing here touches a socket: a caller sends what these functions build
//! and hands back what it received.

pub mod arrival;
pub mod bytes;
pub mod message;
pub mod piece;
pub mod session;
pub mod tracker;

pub use piece::download_piece;
pub use piece::piece_requests;
pub use piece::PieceBuffer;
pub use piece::CHUNK_LEN;
pub use message::expect_message;
pub use message::frame_length;
pub use message::read_framed_message;
pub use message::MessageKind;
pub use message::WireMessage;
pub use session::handshake_message;
pub use session::perform_handshake_with_peer;
pub use session::send_am_interested;
pub use session::wait_for_bitfield;
pub use session::wait_for_unchoke;
pub use tracker::announce_request;
pub use tracker::get_peers_from_tracker;
pub use tracker::urlencode_u8_slice;
