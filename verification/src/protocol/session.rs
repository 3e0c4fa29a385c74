//! The messages around a download: the handshake, and the frames that open
//! the exchange with a peer.

use crate::error::Error;
use crate::error::Violation;
use crate::octets::copy_range;
use crate::octets::same_bytes;
use crate::octets::viewed;
use crate::protocol::message::expect_message;
use crate::protocol::message::frame_of;
use crate::protocol::message::message_body;
use crate::protocol::message::Message;
use crate::protocol::message::WireMessage;
use crate::protocol::message::MSG_BITFIELD;
use crate::protocol::message::MSG_UNCHOKE;
use vstd::prelude::*;

verus! {

/// How many bytes a handshake has, in either direction.
pub const HANDSHAKE_LEN: usize = 68;

/// The protocol's name, `BitTorrent protocol`, as the handshake spells it.
pub open spec fn protocol_name() -> Seq<u8> {
    seq![
        66u8, 105u8, 116u8, 84u8, 111u8, 114u8, 114u8, 101u8, 110u8, 116u8, 32u8, 112u8, 114u8,
        111u8, 116u8, 111u8, 99u8, 111u8, 108u8,
    ]
}

/// The identifier that this client gives itself in a handshake: the digits
/// `01234567890123456789`.
pub open spec fn local_peer_id() -> Seq<u8> {
    seq![
        48u8, 49u8, 50u8, 51u8, 52u8, 53u8, 54u8, 55u8, 56u8, 57u8, 48u8, 49u8, 50u8, 51u8, 52u8,
        53u8, 54u8, 55u8, 56u8, 57u8,
    ]
}

/// The handshake that is sent for `info_hash`: the length of the protocol's
/// name, the name, eight reserved zero bytes, the info hash and the local
/// peer identifier.
pub open spec fn handshake_frame(info_hash: Seq<u8>) -> Seq<u8> {
    seq![19u8] + protocol_name() + Seq::new(8, |i: int| 0u8) + info_hash + local_peer_id()
}

/// Builds the 68 bytes that open a connection for `info_hash`.
pub fn handshake_message(info_hash: &[u8; 20]) -> (message: Vec<u8>)
    ensures
        message@ == handshake_frame(info_hash@),
        message@.len() == 68,
{
    let name: [u8; 19] = [
        66, 105, 116, 84, 111, 114, 114, 101, 110, 116, 32, 112, 114, 111, 116, 111, 99, 111, 108,
    ];
    let mut message: Vec<u8> = Vec::with_capacity(HANDSHAKE_LEN);
    message.push(19u8);
    let mut i: usize = 0;
    while i < 19
        invariant
            i <= 19,
            name@ == protocol_name(),
            message@ == seq![19u8] + protocol_name().subrange(0, i as int),
        decreases 19 - i,
    {
        message.push(name[i]);
        i = i + 1;
        assert(message@ =~= seq![19u8] + protocol_name().subrange(0, i as int));
    }
    i = 0;
    while i < 8
        invariant
            i <= 8,
            message@ == seq![19u8] + protocol_name() + Seq::new(i as nat, |k: int| 0u8),
        decreases 8 - i,
    {
        message.push(0u8);
        i = i + 1;
        assert(message@ =~= seq![19u8] + protocol_name() + Seq::new(i as nat, |k: int| 0u8));
    }
    i = 0;
    while i < 20
        invariant
            i <= 20,
            message@ == seq![19u8] + protocol_name() + Seq::new(8, |k: int| 0u8)
                + info_hash@.subrange(0, i as int),
        decreases 20 - i,
    {
        message.push(info_hash[i]);
        i = i + 1;
        assert(message@ =~= seq![19u8] + protocol_name() + Seq::new(8, |k: int| 0u8)
            + info_hash@.subrange(0, i as int));
    }
    assert(info_hash@.subrange(0, 20) =~= info_hash@);
    i = 0;
    while i < 20
        invariant
            i <= 20,
            message@ == seq![19u8] + protocol_name() + Seq::new(8, |k: int| 0u8) + info_hash@
                + local_peer_id().subrange(0, i as int),
        decreases 20 - i,
    {
        message.push(48u8 + (i % 10) as u8);
        i = i + 1;
        assert(message@ =~= seq![19u8] + protocol_name() + Seq::new(8, |k: int| 0u8)
            + info_hash@ + local_peer_id().subrange(0, i as int));
    }
    assert(local_peer_id().subrange(0, 20) =~= local_peer_id());
    message
}

/// What a peer's handshake means to a client that sent `info_hash`: the
/// peer's identifier, bytes 48 to 67, if bytes 28 to 47 repeat the info
/// hash, and a protocol violation if they do not.
pub open spec fn handshake_answer(info_hash: Seq<u8>, reply: Seq<u8>) -> Result<Seq<u8>, Error> {
    if reply.subrange(28, 48) == info_hash {
        Ok(reply.subrange(48, 68))
    } else {
        Err(Error::ProtocolViolation(Violation::WrongInfoHash))
    }
}

/// Judges the 68 bytes with which a peer answered [`handshake_message`] and
/// gives the peer's identifier. No reply with another info hash is accepted.
pub fn perform_handshake_with_peer(info_hash: &[u8; 20], reply: &[u8; 68]) -> (outcome: Result<
    Vec<u8>,
    Error,
>)
    ensures
        viewed(outcome) == handshake_answer(info_hash@, reply@),
        outcome is Ok <==> reply@.subrange(28, 48) == info_hash@,
{
    let theirs: Vec<u8> = copy_range(reply.as_slice(), 28, 48);
    if !same_bytes(info_hash.as_slice(), theirs.as_slice()) {
        return Err(Error::ProtocolViolation(Violation::WrongInfoHash));
    }
    Ok(copy_range(reply.as_slice(), 48, 68))
}

/// How many bytes a bitfield for `num_pieces` pieces has: one bit each,
/// rounded up to whole bytes.
pub open spec fn bitfield_len(num_pieces: int) -> int {
    (num_pieces + 7) / 8
}

/// What the frame that follows the handshake must be: a `bitfield` message
/// with one bit for each of `num_pieces` pieces.
pub open spec fn bitfield_of(frame: Seq<u8>, num_pieces: int) -> Result<Seq<u8>, Error> {
    match message_body(frame, MSG_BITFIELD) {
        Err(e) => Err(e),
        Ok(bits) => if bits.len() == bitfield_len(num_pieces) {
            Ok(bits)
        } else {
            Err(
                Error::ProtocolViolation(
                    Violation::BitfieldLength {
                        expected: bitfield_len(num_pieces) as usize,
                        actual: bits.len() as usize,
                    },
                ),
            )
        },
    }
}

/// Takes the bitfield out of the frame that a peer sends after its
/// handshake. `frame` is the message without its length prefix.
pub fn wait_for_bitfield(frame: &[u8], num_pieces: usize) -> (outcome: Result<Vec<u8>, Error>)
    ensures
        viewed(outcome) == bitfield_of(frame@, num_pieces as int),
{
    let bits: &[u8] = match expect_message(frame, MSG_BITFIELD) {
        Ok(bits) => bits,
        Err(e) => {
            return Err(e);
        },
    };
    let expected: usize = num_pieces / 8 + if num_pieces % 8 > 0 {
        1usize
    } else {
        0usize
    };
    let actual: usize = bits.len();
    if actual != expected {
        return Err(Error::ProtocolViolation(Violation::BitfieldLength { expected, actual }));
    }
    let copy: Vec<u8> = copy_range(bits, 0, bits.len());
    assert(copy@ =~= bits@);
    Ok(copy)
}

/// The frame that tells a peer of this client's interest: length 1,
/// identifier 2.
pub open spec fn interested_frame() -> Seq<u8> {
    frame_of(Message::Interested)
}

/// Builds the `interested` message.
pub fn send_am_interested() -> (frame: Vec<u8>)
    ensures
        frame@ == interested_frame(),
{
    WireMessage::Interested.to_frame()
}

/// What the frame that follows `interested` must be: an `unchoke` message.
pub open spec fn unchoke_of(frame: Seq<u8>) -> Result<(), Error> {
    match message_body(frame, MSG_UNCHOKE) {
        Err(e) => Err(e),
        Ok(_) => Ok(()),
    }
}

/// Checks that the frame a peer sent in answer to `interested` is an
/// `unchoke` message. `frame` is the message without its length prefix.
pub fn wait_for_unchoke(frame: &[u8]) -> (outcome: Result<(), Error>)
    ensures
        outcome == unchoke_of(frame@),
{
    match expect_message(frame, MSG_UNCHOKE) {
        Ok(_) => Ok(()),
        Err(e) => Err(e),
    }
}

} // verus!
