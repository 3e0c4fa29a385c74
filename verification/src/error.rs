//! The errors of the library.

use vstd::prelude::*;

verus! {

/// How a peer broke the wire protocol, with the values that show it.
#[derive(Debug, Clone, Copy, PartialEq, Eq, Structural)]
#[allow(inconsistent_fields)]
pub enum Violation {
    /// The handshake reply names another info hash than the one sent.
    WrongInfoHash,
    /// A message of another kind than the one awaited arrived.
    UnexpectedMessage { expected: u8, actual: u8 },
    /// The bitfield does not have one bit per piece, rounded up to whole bytes.
    BitfieldLength { expected: usize, actual: usize },
    /// A message does not have the length that its kind calls for; `length`
    /// counts the identifier and what follows it.
    MessageLength { id: u8, length: usize },
    /// A `piece` message is for another piece than the one requested.
    WrongPieceIndex { expected: u32, actual: u32 },
    /// A block is longer than one request may ask for.
    BlockTooLong { length: usize },
    /// A block does not start at a multiple of the block size.
    MisalignedBlock { begin: u32 },
    /// A block reaches past the end of the piece.
    BlockOutOfBounds { begin: u32, length: usize, piece_length: u32 },
    /// A block is short although it does not end the piece.
    ShortBlock { begin: u32, length: usize },
}

/// Why an operation of the library failed.
#[derive(Debug, Clone, Copy, PartialEq, Eq, Structural)]
pub enum Error {
    /// The bytes are not bencode, or a length in them does not fit what follows.
    MalformedEncoding,
    /// A dictionary key is not a byte string.
    NonStringKey,
    /// A descriptor lacks a field it must have.
    MissingField,
    /// The tracker could not be reached.
    TrackerUnreachable,
    /// The peer sent something the protocol does not allow.
    ProtocolViolation(Violation),
    /// The peer closed the connection.
    ConnectionClosed,
    /// A reassembled piece does not have the expected hash.
    IntegrityError,
}

} // verus!
