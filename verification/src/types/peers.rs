//! The peers that a tracker names.

use crate::error::Error;
use crate::protocol::bytes::be_u16;
use crate::protocol::bytes::read_be_u16;
use vstd::prelude::*;

verus! {

/// How many bytes one peer takes in a compact peer list.
pub const PEER_LEN: usize = 6;

/// Where a peer listens: an IPv4 address and a port.
#[derive(Debug, Clone, Copy, PartialEq, Eq)]
pub struct PeerAddress {
    /// The four bytes of the address, as they are written with dots.
    pub ip: [u8; 4],
    pub port: u16,
}

/// The peers of a tracker's answer, in the tracker's order.
#[derive(Debug, Clone, PartialEq, Eq)]
pub struct Peers(pub Vec<PeerAddress>);

/// The address that six bytes of a compact peer list spell: four bytes of
/// IPv4 address, then the port, most significant byte first.
pub open spec fn spells_peer(peer: PeerAddress, chunk: Seq<u8>) -> bool {
    &&& chunk.len() == 6
    &&& peer.ip@ == chunk.subrange(0, 4)
    &&& peer.port == be_u16(chunk.subrange(4, 6))
}

/// Whether `peers` are what a compact peer list holds: its `i`-th run of six
/// bytes is peer `i`.
pub open spec fn peers_of(blob: Seq<u8>, peers: Seq<PeerAddress>) -> bool {
    &&& blob.len() == 6 * peers.len()
    &&& forall|i: int|
        0 <= i < peers.len() ==> spells_peer(#[trigger] peers[i], blob.subrange(6 * i, 6 * i + 6))
}

/// A compact peer list of `6 * m` bytes holds `m` peers.
pub proof fn lemma_peers_count(blob: Seq<u8>, peers: Seq<PeerAddress>, m: nat)
    requires
        peers_of(blob, peers),
        blob.len() == 6 * m,
    ensures
        peers.len() == m,
{
}

impl Peers {
    /// Splits a compact peer list into addresses. A list of `6 * m` bytes
    /// gives `m` addresses in order; any other length is refused.
    pub fn from_bytes(blob: &[u8]) -> (outcome: Result<Peers, Error>)
        ensures
            outcome is Ok <==> blob@.len() % 6 == 0,
            outcome matches Ok(peers) ==> peers_of(blob@, peers.0@),
            outcome matches Err(e) ==> e == Error::MalformedEncoding,
    {
        if blob.len() % PEER_LEN != 0 {
            return Err(Error::MalformedEncoding);
        }
        let count: usize = blob.len() / PEER_LEN;
        let mut peers: Vec<PeerAddress> = Vec::with_capacity(count);
        let mut i: usize = 0;
        while i < count
            invariant
                i <= count,
                count * 6 == blob@.len(),
                blob@.len() <= usize::MAX,
                peers@.len() == i,
                forall|k: int|
                    0 <= k < i ==> spells_peer(
                        #[trigger] peers@[k],
                        blob@.subrange(6 * k, 6 * k + 6),
                    ),
            decreases count - i,
        {
            let at: usize = i * PEER_LEN;
            let ip: [u8; 4] = [blob[at], blob[at + 1], blob[at + 2], blob[at + 3]];
            let port: u16 = read_be_u16(blob, at + 4);
            let ghost chunk = blob@.subrange(6 * i, 6 * i + 6);
            assert(ip@ =~= chunk.subrange(0, 4));
            assert(chunk.subrange(4, 6) =~= blob@.subrange(at + 4, at + 6));
            peers.push(PeerAddress { ip, port });
            i = i + 1;
        }
        Ok(Peers(peers))
    }
}

} // verus!
