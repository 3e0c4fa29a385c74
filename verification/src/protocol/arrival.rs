//! The blocks of a piece may arrive in any order.

use crate::bencode::order::is_permutation;
use crate::error::Error;
use crate::protocol::message::body_of;
use crate::protocol::message::lemma_message_round_trip;
use crate::protocol::message::Message;
use crate::protocol::piece::block_begin;
use crate::protocol::piece::block_count;
use crate::protocol::piece::block_length;
use crate::protocol::piece::checked_block;
use crate::protocol::piece::gathered;
use crate::protocol::piece::with_block;
use crate::protocol::piece::Block;
use vstd::prelude::*;

verus! {

/// A `piece` message without its length prefix: the identifier, the index
/// of the piece, the offset of the block, the block.
pub open spec fn piece_message(index: u32, begin: u32, block: Seq<u8>) -> Seq<u8> {
    body_of(Message::Piece { index, begin, block })
}

/// The `i`-th block of `data`, as a peer that has the piece answers the
/// `i`-th request for it.
pub open spec fn block_message(piece_index: u32, data: Seq<u8>, i: int) -> Seq<u8> {
    piece_message(
        piece_index,
        block_begin(i) as u32,
        data.subrange(block_begin(i), block_begin(i) + block_length(data.len() as u32, i)),
    )
}

/// The answer to a request of a piece passes every check.
pub proof fn lemma_block_message_accepted(piece_index: u32, data: Seq<u8>, i: int)
    requires
        data.len() <= u32::MAX,
        0 <= i < block_count(data.len() as u32),
    ensures
        checked_block(piece_index, data.len() as u32, block_message(piece_index, data, i)) == Ok::<
            Block,
            Error,
        >(
            Block {
                begin: block_begin(i),
                bytes: data.subrange(
                    block_begin(i),
                    block_begin(i) + block_length(data.len() as u32, i),
                ),
            },
        ),
{
    let begin = block_begin(i);
    let length = block_length(data.len() as u32, i);
    let block = data.subrange(begin, begin + length);
    lemma_message_round_trip(Message::Piece { index: piece_index, begin: begin as u32, block });
}

/// Whether `at` is a place in the `i`-th block of a piece.
pub open spec fn in_block(piece_length: u32, i: int, at: int) -> bool {
    block_begin(i) <= at < block_begin(i) + block_length(piece_length, i)
}

/// Whether `buffer` holds the bytes of `data` in the `i`-th block.
pub open spec fn holds_block(buffer: Seq<u8>, data: Seq<u8>, i: int) -> bool {
    forall|at: int| in_block(data.len() as u32, i, at) ==> #[trigger] buffer[at] == data[at]
}

/// Whether `buffer` holds the bytes of `data` in each of the blocks that
/// the first `k` places of `order` name.
pub open spec fn holds_blocks(buffer: Seq<u8>, data: Seq<u8>, order: Seq<int>, k: int) -> bool {
    &&& buffer.len() == data.len()
    &&& forall|q: int| 0 <= q < k ==> holds_block(buffer, data, #[trigger] order[q])
}

/// After the answers to the first `k` requests in some order were taken in,
/// the buffer holds those blocks.
proof fn lemma_gathered_blocks(
    piece_index: u32,
    data: Seq<u8>,
    frames: Seq<Seq<u8>>,
    order: Seq<int>,
    k: nat,
)
    requires
        data.len() <= u32::MAX,
        is_permutation(order, block_count(data.len() as u32)),
        frames.len() == order.len(),
        forall|q: int|
            0 <= q < frames.len() ==> #[trigger] frames[q] == block_message(
                piece_index,
                data,
                order[q],
            ),
        k <= frames.len(),
    ensures
        gathered(piece_index, data.len() as u32, frames, k) is Ok,
        holds_blocks(
            gathered(piece_index, data.len() as u32, frames, k)->Ok_0,
            data,
            order,
            k as int,
        ),
    decreases k,
{
    let piece_length = data.len() as u32;
    if k > 0 {
        lemma_gathered_blocks(piece_index, data, frames, order, (k - 1) as nat);
        let before = gathered(piece_index, piece_length, frames, (k - 1) as nat)->Ok_0;
        let i = order[k - 1];
        assert(0 <= i < block_count(piece_length));
        assert(frames[k - 1] == block_message(piece_index, data, i));
        lemma_block_message_accepted(piece_index, data, i);
        let begin = block_begin(i);
        let length = block_length(piece_length, i);
        let block = data.subrange(begin, begin + length);
        let after = with_block(before, begin, block);
        assert(gathered(piece_index, piece_length, frames, k) == Ok::<Seq<u8>, Error>(after));
        assert forall|q: int| 0 <= q < k implies holds_block(after, data, #[trigger] order[q]) by {
            assert(0 <= order[q] < block_count(piece_length));
            assert forall|at: int| in_block(piece_length, order[q], at) implies #[trigger] after[at]
                == data[at] by {
                if begin <= at < begin + length {
                    assert(after[at] == block[at - begin]);
                } else {
                    assert(after[at] == before[at]);
                    if q < k - 1 {
                        assert(holds_block(before, data, order[q]));
                    }
                }
            }
        }
    }
}

/// The blocks of a piece may arrive in any order.
///
/// Where a peer answers each request for a piece once, with the bytes that
/// the piece has there, the buffer holds the piece when the last answer is
/// in, whatever the order of the answers.
pub proof fn lemma_any_order(piece_index: u32, data: Seq<u8>, frames: Seq<Seq<u8>>, order: Seq<int>)
    requires
        data.len() <= u32::MAX,
        is_permutation(order, block_count(data.len() as u32)),
        frames.len() == order.len(),
        forall|q: int|
            0 <= q < frames.len() ==> #[trigger] frames[q] == block_message(
                piece_index,
                data,
                order[q],
            ),
    ensures
        gathered(piece_index, data.len() as u32, frames, frames.len()) == Ok::<Seq<u8>, Error>(
            data,
        ),
{
    let piece_length = data.len() as u32;
    lemma_gathered_blocks(piece_index, data, frames, order, frames.len());
    let buffer = gathered(piece_index, piece_length, frames, frames.len())->Ok_0;
    assert forall|at: int| 0 <= at < data.len() implies buffer[at] == data[at] by {
        let i = at / 16_384;
        assert(0 <= i < block_count(piece_length));
        assert(order.contains(i));
        let q = choose|q: int| 0 <= q < order.len() && order[q] == i;
        assert(holds_block(buffer, data, order[q]));
        assert(in_block(piece_length, i, at));
    }
    assert(buffer =~= data);
}

} // verus!
