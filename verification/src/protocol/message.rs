//! The messages of the peer wire protocol.
//!
//! On the wire a message is a frame: a length prefix of four bytes, most
//! significant byte first, then as many bytes as the prefix says, of which
//! the first is the identifier of the message and the rest its payload.

use crate::error::Error;
use crate::error::Violation;
use crate::octets::copy_range;
use crate::protocol::bytes::be_u32;
use crate::protocol::bytes::lemma_be_u32_of_bytes;
use crate::protocol::bytes::push_be_u32;
use crate::protocol::bytes::read_be_u32;
use crate::protocol::bytes::u32_be_bytes;
use vstd::prelude::*;
use vstd::slice::slice_subrange;

verus! {

/// The identifier of an `unchoke` message.
pub const MSG_UNCHOKE: u8 = 1;

/// The identifier of an `interested` message.
pub const MSG_INTERESTED: u8 = 2;

/// The identifier of a `bitfield` message.
pub const MSG_BITFIELD: u8 = 5;

/// The identifier of a `request` message.
pub const MSG_REQUEST: u8 = 6;

/// The identifier of a `piece` message.
pub const MSG_PIECE: u8 = 7;

/// The kinds of message that this client sends or awaits.
#[derive(Debug, Clone, Copy, PartialEq, Eq, Structural)]
pub enum MessageKind {
    Unchoke,
    Interested,
    Bitfield,
    Request,
    Piece,
}

/// A message of the wire protocol.
#[derive(Debug, Clone, PartialEq, Eq)]
pub enum WireMessage {
    /// Which pieces the peer has: one bit for each, the first piece in the
    /// highest bit of the first byte.
    Bitfield(Vec<u8>),
    /// The sender would like to download.
    Interested,
    /// The sender will answer requests.
    Unchoke,
    /// Asks for `length` bytes of the piece `index` from offset `begin` on.
    Request { index: u32, begin: u32, length: u32 },
    /// Brings the bytes of the piece `index` from offset `begin` on.
    Piece { index: u32, begin: u32, block: Vec<u8> },
}

/// The model of a [`WireMessage`].
pub enum Message {
    Bitfield(Seq<u8>),
    Interested,
    Unchoke,
    Request { index: u32, begin: u32, length: u32 },
    Piece { index: u32, begin: u32, block: Seq<u8> },
}

impl View for WireMessage {
    type V = Message;

    open spec fn view(&self) -> Message {
        match self {
            WireMessage::Bitfield(bits) => Message::Bitfield(bits@),
            WireMessage::Interested => Message::Interested,
            WireMessage::Unchoke => Message::Unchoke,
            WireMessage::Request { index, begin, length } => Message::Request {
                index: *index,
                begin: *begin,
                length: *length,
            },
            WireMessage::Piece { index, begin, block } => Message::Piece {
                index: *index,
                begin: *begin,
                block: block@,
            },
        }
    }
}

/// The identifier byte of each kind of message.
pub open spec fn kind_id(kind: MessageKind) -> u8 {
    match kind {
        MessageKind::Unchoke => MSG_UNCHOKE,
        MessageKind::Interested => MSG_INTERESTED,
        MessageKind::Bitfield => MSG_BITFIELD,
        MessageKind::Request => MSG_REQUEST,
        MessageKind::Piece => MSG_PIECE,
    }
}

/// The kind of a message.
pub open spec fn kind_of(message: Message) -> MessageKind {
    match message {
        Message::Bitfield(_) => MessageKind::Bitfield,
        Message::Interested => MessageKind::Interested,
        Message::Unchoke => MessageKind::Unchoke,
        Message::Request { .. } => MessageKind::Request,
        Message::Piece { .. } => MessageKind::Piece,
    }
}

/// What follows the identifier of a message: nothing, the bits, or index,
/// offset and then the length or the block.
pub open spec fn payload_of(message: Message) -> Seq<u8> {
    match message {
        Message::Bitfield(bits) => bits,
        Message::Interested => Seq::empty(),
        Message::Unchoke => Seq::empty(),
        Message::Request { index, begin, length } => u32_be_bytes(index) + u32_be_bytes(begin)
            + u32_be_bytes(length),
        Message::Piece { index, begin, block } => u32_be_bytes(index) + u32_be_bytes(begin)
            + block,
    }
}

/// A message without its length prefix: the identifier, then the payload.
pub open spec fn body_of(message: Message) -> Seq<u8> {
    seq![kind_id(kind_of(message))] + payload_of(message)
}

/// A message as it is sent: the length of identifier and payload, then
/// both.
pub open spec fn frame_of(message: Message) -> Seq<u8> {
    u32_be_bytes(body_of(message).len() as u32) + body_of(message)
}

/// How many bytes follow a length prefix; a prefix of zero means that the
/// peer has closed the connection.
pub open spec fn frame_size(prefix: Seq<u8>) -> Result<u32, Error> {
    if be_u32(prefix) == 0 {
        Err(Error::ConnectionClosed)
    } else {
        Ok(be_u32(prefix) as u32)
    }
}

/// Reads the length prefix of a frame.
pub fn frame_length(prefix: &[u8; 4]) -> (outcome: Result<u32, Error>)
    ensures
        outcome == frame_size(prefix@),
{
    assert(prefix@.subrange(0, 4) =~= prefix@);
    let length: u32 = read_be_u32(prefix.as_slice(), 0);
    if length == 0 {
        Err(Error::ConnectionClosed)
    } else {
        Ok(length)
    }
}

/// What is left of a frame once its identifier was found to be `expected`.
/// An empty frame means that the peer has closed the connection; another
/// identifier is a violation that names it.
pub open spec fn message_body(frame: Seq<u8>, expected: u8) -> Result<Seq<u8>, Error> {
    if frame.len() == 0 {
        Err(Error::ConnectionClosed)
    } else if frame[0] != expected {
        Err(Error::ProtocolViolation(Violation::UnexpectedMessage { expected, actual: frame[0] }))
    } else {
        Ok(frame.subrange(1, frame.len() as int))
    }
}

/// The message that a frame holds where a message of the kind `kind` is
/// awaited. `frame` is the message without its length prefix.
///
/// A `request` has exactly index, offset and length; a `piece` has at
/// least index and offset; a frame of another length is a violation.
pub open spec fn message_in(frame: Seq<u8>, kind: MessageKind) -> Result<Message, Error> {
    match message_body(frame, kind_id(kind)) {
        Err(e) => Err(e),
        Ok(payload) => match kind {
            MessageKind::Unchoke => Ok(Message::Unchoke),
            MessageKind::Interested => Ok(Message::Interested),
            MessageKind::Bitfield => Ok(Message::Bitfield(payload)),
            MessageKind::Request => if payload.len() == 12 {
                Ok(
                    Message::Request {
                        index: be_u32(payload.subrange(0, 4)) as u32,
                        begin: be_u32(payload.subrange(4, 8)) as u32,
                        length: be_u32(payload.subrange(8, 12)) as u32,
                    },
                )
            } else {
                Err(
                    Error::ProtocolViolation(
                        Violation::MessageLength { id: MSG_REQUEST, length: frame.len() as usize },
                    ),
                )
            },
            MessageKind::Piece => if payload.len() >= 8 {
                Ok(
                    Message::Piece {
                        index: be_u32(payload.subrange(0, 4)) as u32,
                        begin: be_u32(payload.subrange(4, 8)) as u32,
                        block: payload.subrange(8, payload.len() as int),
                    },
                )
            } else {
                Err(
                    Error::ProtocolViolation(
                        Violation::MessageLength { id: MSG_PIECE, length: frame.len() as usize },
                    ),
                )
            },
        },
    }
}

impl MessageKind {
    /// The identifier byte of this kind of message.
    pub fn id(self) -> (id: u8)
        ensures
            id == kind_id(self),
    {
        match self {
            MessageKind::Unchoke => MSG_UNCHOKE,
            MessageKind::Interested => MSG_INTERESTED,
            MessageKind::Bitfield => MSG_BITFIELD,
            MessageKind::Request => MSG_REQUEST,
            MessageKind::Piece => MSG_PIECE,
        }
    }
}

/// Reads one framed message where a message of the kind `expected` is
/// awaited, and gives what follows its identifier. `frame` is the message
/// without its length prefix.
pub fn expect_message<'a>(frame: &'a [u8], expected: u8) -> (outcome: Result<&'a [u8], Error>)
    ensures
        match message_body(frame@, expected) {
            Ok(body) => outcome matches Ok(b) && b@ == body,
            Err(e) => outcome matches Err(f) && f == e,
        },
{
    if frame.len() == 0 {
        return Err(Error::ConnectionClosed);
    }
    if frame[0] != expected {
        return Err(
            Error::ProtocolViolation(Violation::UnexpectedMessage { expected, actual: frame[0] }),
        );
    }
    Ok(slice_subrange(frame, 1, frame.len()))
}

/// Reads one framed message where a message of the kind `kind` is awaited.
/// `frame` is the message without its length prefix.
pub fn read_framed_message(frame: &[u8], kind: MessageKind) -> (outcome: Result<WireMessage, Error>)
    ensures
        match message_in(frame@, kind) {
            Ok(message) => outcome matches Ok(m) && m@ == message,
            Err(e) => outcome matches Err(f) && f == e,
        },
{
    let payload: &[u8] = match expect_message(frame, kind.id()) {
        Ok(payload) => payload,
        Err(e) => {
            return Err(e);
        },
    };
    match kind {
        MessageKind::Unchoke => Ok(WireMessage::Unchoke),
        MessageKind::Interested => Ok(WireMessage::Interested),
        MessageKind::Bitfield => {
            let bits: Vec<u8> = copy_range(payload, 0, payload.len());
            assert(bits@ =~= payload@);
            Ok(WireMessage::Bitfield(bits))
        },
        MessageKind::Request => {
            if payload.len() != 12 {
                return Err(
                    Error::ProtocolViolation(
                        Violation::MessageLength { id: MSG_REQUEST, length: frame.len() },
                    ),
                );
            }
            Ok(
                WireMessage::Request {
                    index: read_be_u32(payload, 0),
                    begin: read_be_u32(payload, 4),
                    length: read_be_u32(payload, 8),
                },
            )
        },
        MessageKind::Piece => {
            if payload.len() < 8 {
                return Err(
                    Error::ProtocolViolation(
                        Violation::MessageLength { id: MSG_PIECE, length: frame.len() },
                    ),
                );
            }
            Ok(
                WireMessage::Piece {
                    index: read_be_u32(payload, 0),
                    begin: read_be_u32(payload, 4),
                    block: copy_range(payload, 8, payload.len()),
                },
            )
        },
    }
}

impl WireMessage {
    /// The kind of this message.
    pub fn kind(&self) -> (kind: MessageKind)
        ensures
            kind == kind_of(self@),
    {
        match self {
            WireMessage::Bitfield(_) => MessageKind::Bitfield,
            WireMessage::Interested => MessageKind::Interested,
            WireMessage::Unchoke => MessageKind::Unchoke,
            WireMessage::Request { .. } => MessageKind::Request,
            WireMessage::Piece { .. } => MessageKind::Piece,
        }
    }

    /// The frame that sends this message. The length prefix has four
    /// bytes, so identifier and payload must not be longer than it can say.
    pub fn to_frame(&self) -> (frame: Vec<u8>)
        requires
            body_of(self@).len() <= u32::MAX,
        ensures
            frame@ == frame_of(self@),
    {
        let mut frame: Vec<u8> = Vec::new();
        match self {
            WireMessage::Bitfield(bits) => {
                push_be_u32(&mut frame, (bits.len() + 1) as u32);
                frame.push(MSG_BITFIELD);
                push_all(&mut frame, bits.as_slice());
            },
            WireMessage::Interested => {
                push_be_u32(&mut frame, 1);
                frame.push(MSG_INTERESTED);
            },
            WireMessage::Unchoke => {
                push_be_u32(&mut frame, 1);
                frame.push(MSG_UNCHOKE);
            },
            WireMessage::Request { index, begin, length } => {
                push_be_u32(&mut frame, 13);
                frame.push(MSG_REQUEST);
                push_be_u32(&mut frame, *index);
                push_be_u32(&mut frame, *begin);
                push_be_u32(&mut frame, *length);
            },
            WireMessage::Piece { index, begin, block } => {
                push_be_u32(&mut frame, (block.len() + 9) as u32);
                frame.push(MSG_PIECE);
                push_be_u32(&mut frame, *index);
                push_be_u32(&mut frame, *begin);
                push_all(&mut frame, block.as_slice());
            },
        }
        assert(frame@ =~= frame_of(self@));
        frame
    }
}

/// Appends `bytes`.
fn push_all(out: &mut Vec<u8>, bytes: &[u8])
    ensures
        final(out)@ == old(out)@ + bytes@,
{
    let mut i: usize = 0;
    while i < bytes.len()
        invariant
            i <= bytes@.len(),
            out@ == old(out)@ + bytes@.subrange(0, i as int),
        decreases bytes@.len() - i,
    {
        out.push(bytes[i]);
        i = i + 1;
        assert(out@ =~= old(out)@ + bytes@.subrange(0, i as int));
    }
    assert(bytes@.subrange(0, i as int) =~= bytes@);
}

/// A frame says what it was made of.
///
/// The length prefix of a message's frame counts the bytes that follow it,
/// and where the kind of the message is awaited, those bytes are read as
/// the message.
pub proof fn lemma_message_round_trip(message: Message)
    requires
        body_of(message).len() <= u32::MAX,
    ensures
        frame_of(message).len() == 4 + body_of(message).len(),
        frame_size(frame_of(message).subrange(0, 4)) == Ok::<u32, Error>(
            body_of(message).len() as u32,
        ),
        frame_of(message).subrange(4, frame_of(message).len() as int) == body_of(message),
        message_in(body_of(message), kind_of(message)) == Ok::<Message, Error>(message),
{
    let body = body_of(message);
    let frame = frame_of(message);
    lemma_be_u32_of_bytes(body.len() as u32);
    assert(frame.subrange(0, 4) =~= u32_be_bytes(body.len() as u32));
    assert(frame.subrange(4, frame.len() as int) =~= body);
    let payload = body.subrange(1, body.len() as int);
    assert(payload =~= payload_of(message));
    match message {
        Message::Request { index, begin, length } => {
            lemma_be_u32_of_bytes(index);
            lemma_be_u32_of_bytes(begin);
            lemma_be_u32_of_bytes(length);
            assert(payload.subrange(0, 4) =~= u32_be_bytes(index));
            assert(payload.subrange(4, 8) =~= u32_be_bytes(begin));
            assert(payload.subrange(8, 12) =~= u32_be_bytes(length));
        },
        Message::Piece { index, begin, block } => {
            lemma_be_u32_of_bytes(index);
            lemma_be_u32_of_bytes(begin);
            assert(payload.subrange(0, 4) =~= u32_be_bytes(index));
            assert(payload.subrange(4, 8) =~= u32_be_bytes(begin));
            assert(payload.subrange(8, payload.len() as int) =~= block);
        },
        _ => {},
    }
}

} // verus!
