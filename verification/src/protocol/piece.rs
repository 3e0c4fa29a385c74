//! Downloading one piece: the requests to send and the blocks that come back.

use crate::error::Error;
use crate::error::Violation;
use crate::hash::sha1_digest;
use crate::hash::sha1_of;
use crate::octets::same_bytes;
use crate::octets::viewed;
use crate::protocol::bytes::read_be_u32;
use crate::protocol::message::frame_of;
use crate::protocol::message::message_in;
use crate::protocol::message::Message;
use crate::protocol::message::MessageKind;
use crate::protocol::message::WireMessage;
use crate::protocol::message::MSG_PIECE;
use vstd::prelude::*;

verus! {

/// The most bytes that one request asks for.
pub const CHUNK_LEN: u32 = 16_384;

/// How many blocks a piece of `piece_length` bytes is asked for in.
pub open spec fn block_count(piece_length: u32) -> int {
    piece_length as int / 16_384 + if piece_length as int % 16_384 > 0 {
        1int
    } else {
        0int
    }
}

/// Where the `i`-th block of a piece begins.
pub open spec fn block_begin(i: int) -> int {
    i * 16_384
}

/// How long the `i`-th block of a piece of `piece_length` bytes is: a full
/// block, but for what is left at the end.
pub open spec fn block_length(piece_length: u32, i: int) -> int {
    if (i + 1) * 16_384 <= piece_length {
        16_384
    } else {
        piece_length - i * 16_384
    }
}

/// The frame of one `request` message: length prefix 13, identifier 6, then
/// index, offset and length.
pub open spec fn request_frame(index: u32, begin: u32, length: u32) -> Seq<u8> {
    frame_of(Message::Request { index, begin, length })
}

/// The frame of the `i`-th request for a piece.
pub open spec fn piece_request(piece_index: u32, piece_length: u32, i: int) -> Seq<u8> {
    request_frame(
        piece_index,
        block_begin(i) as u32,
        block_length(piece_length, i) as u32,
    )
}

/// Builds the frame of one `request` message.
pub fn build_request(index: u32, begin: u32, length: u32) -> (frame: Vec<u8>)
    ensures
        frame@ == request_frame(index, begin, length),
        frame@.len() == 17,
{
    (WireMessage::Request { index, begin, length }).to_frame()
}

/// The requests that ask for a whole piece, in the order in which they are
/// sent: one per full block, then one for the rest if there is any.
pub fn piece_requests(piece_index: u32, piece_length: u32) -> (frames: Vec<Vec<u8>>)
    ensures
        frames@.len() == block_count(piece_length),
        forall|i: int|
            0 <= i < frames@.len() ==> (#[trigger] frames@[i])@ == piece_request(
                piece_index,
                piece_length,
                i,
            ),
{
    let whole_chunks: u32 = piece_length / CHUNK_LEN;
    let last_chunk_len: u32 = piece_length % CHUNK_LEN;
    let mut frames: Vec<Vec<u8>> = Vec::new();
    let mut i: u32 = 0;
    while i < whole_chunks
        invariant
            i <= whole_chunks,
            whole_chunks == piece_length / 16_384,
            frames@.len() == i,
            forall|k: int|
                0 <= k < frames@.len() ==> (#[trigger] frames@[k])@ == piece_request(
                    piece_index,
                    piece_length,
                    k,
                ),
        decreases whole_chunks - i,
    {
        frames.push(build_request(piece_index, i * CHUNK_LEN, CHUNK_LEN));
        i = i + 1;
    }
    if last_chunk_len > 0 {
        frames.push(build_request(piece_index, whole_chunks * CHUNK_LEN, last_chunk_len));
    }
    frames
}

/// What a `piece` message carries, once it has passed every check.
pub struct Block {
    /// Where in the piece the block starts.
    pub begin: int,
    /// The bytes of the block.
    pub bytes: Seq<u8>,
}

/// Checks one received message against the piece that was asked for.
///
/// `payload` is the frame without its length prefix. It must hold a `piece`
/// message. Then the checks run in a fixed order and the first that fails
/// names the error: the piece index, the block's length, its alignment, its
/// end, and that only the last block is short.
pub open spec fn checked_block(piece_index: u32, piece_length: u32, payload: Seq<u8>) -> Result<
    Block,
    Error,
> {
    match message_in(payload, MessageKind::Piece) {
        Err(e) => Err(e),
        Ok(message) => {
            let index = message->Piece_index;
            let begin = message->Piece_begin;
            let bytes = message->Piece_block;
            if index != piece_index {
                Err(
                    Error::ProtocolViolation(
                        Violation::WrongPieceIndex { expected: piece_index, actual: index },
                    ),
                )
            } else if bytes.len() > 16_384 {
                Err(
                    Error::ProtocolViolation(
                        Violation::BlockTooLong { length: bytes.len() as usize },
                    ),
                )
            } else if begin % 16_384 != 0 {
                Err(Error::ProtocolViolation(Violation::MisalignedBlock { begin }))
            } else if begin + bytes.len() > piece_length {
                Err(
                    Error::ProtocolViolation(
                        Violation::BlockOutOfBounds {
                            begin,
                            length: bytes.len() as usize,
                            piece_length,
                        },
                    ),
                )
            } else if bytes.len() < 16_384 && begin + bytes.len() != piece_length {
                Err(
                    Error::ProtocolViolation(
                        Violation::ShortBlock { begin, length: bytes.len() as usize },
                    ),
                )
            } else {
                Ok(Block { begin: begin as int, bytes })
            }
        },
    }
}

/// `data` with `bytes` written over it from offset `begin` on.
pub open spec fn with_block(data: Seq<u8>, begin: int, bytes: Seq<u8>) -> Seq<u8>
    recommends
        0 <= begin,
        begin + bytes.len() <= data.len(),
{
    data.subrange(0, begin) + bytes + data.subrange(begin + bytes.len(), data.len() as int)
}

/// The buffer in which the blocks of one piece come together.
///
/// It is as long as the piece from the start, filled with zeros, so that a
/// block can be put at its offset whenever it arrives.
pub struct PieceBuffer {
    piece_index: u32,
    piece_length: u32,
    data: Vec<u8>,
    received: u32,
}

impl PieceBuffer {
    /// The buffer is as long as its piece, and no more blocks were accepted
    /// than were asked for.
    pub closed spec fn wf(&self) -> bool {
        &&& self.data@.len() == self.piece_length
        &&& self.received <= block_count(self.piece_length)
    }

    /// The index of the piece that is being downloaded.
    pub closed spec fn piece_index(&self) -> u32 {
        self.piece_index
    }

    /// The length of the piece in bytes.
    pub closed spec fn piece_length(&self) -> u32 {
        self.piece_length
    }

    /// The bytes gathered so far; zero where no block has been put yet.
    pub closed spec fn data(&self) -> Seq<u8> {
        self.data@
    }

    /// How many blocks have been accepted.
    pub closed spec fn received(&self) -> int {
        self.received as int
    }

    /// Whether as many blocks have been accepted as were asked for.
    pub open spec fn complete(&self) -> bool {
        self.received() == block_count(self.piece_length())
    }

    /// A buffer of `piece_length` zero bytes for piece `piece_index`.
    pub fn new(piece_index: u32, piece_length: u32) -> (buffer: PieceBuffer)
        ensures
            buffer.wf(),
            buffer.piece_index() == piece_index,
            buffer.piece_length() == piece_length,
            buffer.data() == Seq::new(piece_length as nat, |i: int| 0u8),
            buffer.received() == 0,
    {
        let mut data: Vec<u8> = Vec::new();
        let mut i: u32 = 0;
        while i < piece_length
            invariant
                i <= piece_length,
                data@ == Seq::new(i as nat, |k: int| 0u8),
            decreases piece_length - i,
        {
            data.push(0u8);
            i = i + 1;
            assert(data@ =~= Seq::new(i as nat, |k: int| 0u8));
        }
        PieceBuffer { piece_index, piece_length, data, received: 0 }
    }

    /// A well-formed buffer has taken in no more blocks than were asked for.
    pub proof fn lemma_received_bounds(&self)
        requires
            self.wf(),
        ensures
            0 <= self.received() <= block_count(self.piece_length()),
            self.received() <= usize::MAX,
            self.data().len() == self.piece_length(),
    {
    }

    /// Whether every block that was asked for has been accepted.
    pub fn is_complete(&self) -> (done: bool)
        requires
            self.wf(),
        ensures
            done == self.complete(),
    {
        let whole: u32 = self.piece_length / CHUNK_LEN;
        let expected: u32 = if self.piece_length % CHUNK_LEN > 0 {
            whole + 1
        } else {
            whole
        };
        self.received == expected
    }

    /// Takes in one received message while blocks are still awaited.
    ///
    /// A message that passes [`checked_block`] has its block copied to its
    /// offset, whatever the order of arrival; any other message is refused
    /// with its error and leaves the buffer as it was.
    pub fn accept(&mut self, payload: &[u8]) -> (outcome: Result<(), Error>)
        requires
            old(self).wf(),
            !old(self).complete(),
        ensures
            final(self).wf(),
            final(self).piece_index() == old(self).piece_index(),
            final(self).piece_length() == old(self).piece_length(),
            final(self).data().len() == old(self).piece_length(),
            match checked_block(old(self).piece_index(), old(self).piece_length(), payload@) {
                Ok(block) => {
                    &&& outcome == Ok::<(), Error>(())
                    &&& final(self).data() == with_block(old(self).data(), block.begin, block.bytes)
                    &&& final(self).received() == old(self).received() + 1
                },
                Err(e) => {
                    &&& outcome == Err::<(), Error>(e)
                    &&& *final(self) == *old(self)
                },
            },
    {
        if payload.len() == 0 {
            return Err(Error::ConnectionClosed);
        }
        let id: u8 = payload[0];
        if id != MSG_PIECE {
            return Err(
                Error::ProtocolViolation(
                    Violation::UnexpectedMessage { expected: MSG_PIECE, actual: id },
                ),
            );
        }
        if payload.len() < 9 {
            return Err(
                Error::ProtocolViolation(
                    Violation::MessageLength { id: MSG_PIECE, length: payload.len() },
                ),
            );
        }
        let index: u32 = read_be_u32(payload, 1);
        let begin: u32 = read_be_u32(payload, 5);
        let length: usize = payload.len() - 9;
        proof {
            let body = payload@.subrange(1, payload@.len() as int);
            assert(body.subrange(0, 4) =~= payload@.subrange(1, 5));
            assert(body.subrange(4, 8) =~= payload@.subrange(5, 9));
            assert(body.subrange(8, body.len() as int) =~= payload@.subrange(
                9,
                payload@.len() as int,
            ));
        }
        if index != self.piece_index {
            return Err(
                Error::ProtocolViolation(
                    Violation::WrongPieceIndex { expected: self.piece_index, actual: index },
                ),
            );
        }
        if length > CHUNK_LEN as usize {
            return Err(Error::ProtocolViolation(Violation::BlockTooLong { length }));
        }
        if begin % CHUNK_LEN != 0 {
            return Err(Error::ProtocolViolation(Violation::MisalignedBlock { begin }));
        }
        if begin as u64 + length as u64 > self.piece_length as u64 {
            return Err(
                Error::ProtocolViolation(
                    Violation::BlockOutOfBounds { begin, length, piece_length: self.piece_length },
                ),
            );
        }
        if length < CHUNK_LEN as usize && begin as u64 + length as u64 != self.piece_length as u64 {
            return Err(Error::ProtocolViolation(Violation::ShortBlock { begin, length }));
        }
        let ghost bytes = payload@.subrange(9, payload@.len() as int);
        let ghost before = self.data@;
        let offset: usize = begin as usize;
        let mut k: usize = 0;
        while k < length
            invariant
                k <= length,
                length <= 16_384,
                length == bytes.len(),
                payload@.len() == length + 9,
                bytes == payload@.subrange(9, payload@.len() as int),
                offset + length <= before.len(),
                self.data@.len() == before.len(),
                self.piece_length == old(self).piece_length,
                self.piece_index == old(self).piece_index,
                self.received == old(self).received,
                before.len() == self.piece_length,
                self.received < block_count(self.piece_length),
                self.data@ == with_block(before, offset as int, bytes.subrange(0, k as int)),
            decreases length - k,
        {
            self.data.set(offset + k, payload[9 + k]);
            k = k + 1;
            assert(self.data@ =~= with_block(before, offset as int, bytes.subrange(0, k as int)));
        }
        assert(bytes.subrange(0, length as int) =~= bytes);
        self.received = self.received + 1;
        Ok(())
    }

    /// Ends the download: hands out the bytes if their SHA-1 digest is
    /// `expected_hash`, and drops them otherwise.
    pub fn finish(self, expected_hash: &[u8; 20]) -> (outcome: Result<Vec<u8>, Error>)
        ensures
            viewed(outcome) == verified(self.data(), expected_hash@),
    {
        let digest: [u8; 20] = sha1_of(self.data.as_slice());
        if same_bytes(digest.as_slice(), expected_hash.as_slice()) {
            Ok(self.data)
        } else {
            Err(Error::IntegrityError)
        }
    }
}

/// The bytes of a piece if they have the expected SHA-1 digest.
pub open spec fn verified(data: Seq<u8>, expected_hash: Seq<u8>) -> Result<Seq<u8>, Error> {
    if sha1_digest(data) == expected_hash {
        Ok(data)
    } else {
        Err(Error::IntegrityError)
    }
}

/// The piece buffer after the first `n` of `frames` were taken in, or the
/// error of the first among them that was refused. Where fewer than `n` frames
/// came, the connection has closed too early.
pub open spec fn gathered(
    piece_index: u32,
    piece_length: u32,
    frames: Seq<Seq<u8>>,
    n: nat,
) -> Result<Seq<u8>, Error>
    decreases n,
{
    if n == 0 {
        Ok(Seq::new(piece_length as nat, |i: int| 0u8))
    } else {
        match gathered(piece_index, piece_length, frames, (n - 1) as nat) {
            Err(e) => Err(e),
            Ok(data) => if frames.len() < n {
                Err(Error::ConnectionClosed)
            } else {
                match checked_block(piece_index, piece_length, frames[n - 1]) {
                    Err(e) => Err(e),
                    Ok(block) => Ok(with_block(data, block.begin, block.bytes)),
                }
            },
        }
    }
}

/// What a download of one piece comes to, given the frames that the peer
/// sent in reply to the requests: as many frames as there were requests are
/// taken in, in the order of arrival, and the result must have the hash.
pub open spec fn downloaded(
    piece_index: u32,
    piece_length: u32,
    piece_hash: Seq<u8>,
    frames: Seq<Seq<u8>>,
) -> Result<Seq<u8>, Error> {
    match gathered(piece_index, piece_length, frames, block_count(piece_length) as nat) {
        Err(e) => Err(e),
        Ok(data) => verified(data, piece_hash),
    }
}

/// Puts one piece together from the frames that answered its requests and
/// checks it against `piece_hash`.
///
/// Each of `frames` is one message without its length prefix. The blocks may
/// come in any order. The first frame that is not an acceptable block ends
/// the download with its error; so does a missing frame; frames beyond the
/// number of requests are not looked at.
pub fn download_piece(
    piece_index: u32,
    piece_length: u32,
    piece_hash: &[u8; 20],
    frames: &Vec<Vec<u8>>,
) -> (outcome: Result<Vec<u8>, Error>)
    ensures
        viewed(outcome) == downloaded(piece_index, piece_length, piece_hash@, frames.deep_view()),
{
    let mut buffer = PieceBuffer::new(piece_index, piece_length);
    let mut n: usize = 0;
    while !buffer.is_complete()
        invariant
            buffer.wf(),
            buffer.piece_index() == piece_index,
            buffer.piece_length() == piece_length,
            n == buffer.received(),
            gathered(piece_index, piece_length, frames.deep_view(), n as nat) == Ok::<
                Seq<u8>,
                Error,
            >(buffer.data()),
        decreases block_count(piece_length) - buffer.received(),
    {
        proof {
            buffer.lemma_received_bounds();
        }
        if n >= frames.len() {
            proof {
                lemma_gathered_fails_on(
                    piece_index,
                    piece_length,
                    frames.deep_view(),
                    n as nat + 1,
                    block_count(piece_length) as nat,
                );
            }
            return Err(Error::ConnectionClosed);
        }
        assert(frames.deep_view()[n as int] == frames@[n as int]@);
        match buffer.accept(frames[n].as_slice()) {
            Ok(()) => {},
            Err(e) => {
                proof {
                    lemma_gathered_fails_on(
                        piece_index,
                        piece_length,
                        frames.deep_view(),
                        n as nat + 1,
                        block_count(piece_length) as nat,
                    );
                }
                return Err(e);
            },
        }
        n = n + 1;
    }
    buffer.finish(piece_hash)
}

/// Once the first `n` frames fail, so does every longer run of them, with
/// the same error.
pub proof fn lemma_gathered_fails_on(
    piece_index: u32,
    piece_length: u32,
    frames: Seq<Seq<u8>>,
    n: nat,
    m: nat,
)
    requires
        n <= m,
        gathered(piece_index, piece_length, frames, n) is Err,
    ensures
        gathered(piece_index, piece_length, frames, m) == gathered(
            piece_index,
            piece_length,
            frames,
            n,
        ),
    decreases m,
{
    if n < m {
        lemma_gathered_fails_on(piece_index, piece_length, frames, n, (m - 1) as nat);
    }
}

} // verus!
