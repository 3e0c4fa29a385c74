//! What there is to say of a descriptor, a peer or a handshake, as lines of
//! text.

use crate::hash::hex_text;
use crate::hash::to_hex;
use crate::text::decimal_text;
use crate::text::push_char;
use crate::text::push_number;
use crate::types::descriptor::total_length;
use crate::types::descriptor::Torrent;
use crate::types::descriptor::TorrentModel;
use crate::types::infohash::info_hash;
use crate::types::peers::PeerAddress;
use vstd::prelude::*;
use vstd::string::StringExecFns;

verus! {

/// A peer's address as it is written: the four numbers of the IPv4 address
/// with dots between them, a colon, the port.
pub open spec fn peer_text(ip: Seq<u8>, port: u16) -> Seq<char> {
    decimal_text(ip[0] as nat) + seq!['.'] + decimal_text(ip[1] as nat) + seq!['.']
        + decimal_text(ip[2] as nat) + seq!['.'] + decimal_text(ip[3] as nat) + seq![':']
        + decimal_text(port as nat)
}

impl PeerAddress {
    /// The address as text, such as `192.168.1.5:6881`.
    pub fn to_text(&self) -> (text: String)
        ensures
            text@ == peer_text(self.ip@, self.port),
    {
        let mut text: String = String::new();
        push_number(&mut text, self.ip[0] as u64);
        push_char(&mut text, '.');
        push_number(&mut text, self.ip[1] as u64);
        push_char(&mut text, '.');
        push_number(&mut text, self.ip[2] as u64);
        push_char(&mut text, '.');
        push_number(&mut text, self.ip[3] as u64);
        push_char(&mut text, ':');
        push_number(&mut text, self.port as u64);
        assert(text@ =~= peer_text(self.ip@, self.port));
        text
    }
}

/// The line that names a peer by the identifier of its handshake.
pub open spec fn peer_id_text(peer_id: Seq<u8>) -> Seq<char> {
    "Peer ID: "@ + hex_text(peer_id)
}

/// The line that names a peer by the identifier of its handshake, in
/// hexadecimal.
pub fn peer_id_line(peer_id: &[u8]) -> (line: String)
    ensures
        line@ == peer_id_text(peer_id@),
{
    let mut line: String = String::from_str("Peer ID: ");
    let digits: String = to_hex(peer_id);
    line.append(digits.as_str());
    line
}

/// The lines that describe a descriptor: the tracker's address, the length
/// of the content, the info hash, the piece length, and under a heading the
/// digest of each piece.
pub open spec fn info_text(torrent: TorrentModel) -> Seq<Seq<char>> {
    seq![
        "Tracker URL: "@ + torrent.announce,
        "Length: "@ + decimal_text(total_length(torrent.info.files)),
        "Info Hash: "@ + hex_text(info_hash(torrent.info)),
        "Piece Length: "@ + decimal_text(torrent.info.piece_length),
        "Piece Hashes:"@,
    ] + Seq::new(torrent.info.pieces.len(), |i: int| hex_text(torrent.info.pieces[i]))
}

/// The texts of a run of lines.
pub open spec fn lines_text(lines: Seq<String>) -> Seq<Seq<char>> {
    Seq::new(lines.len(), |i: int| lines[i]@)
}

/// Describes a descriptor in lines of text.
pub fn info_lines(torrent: &Torrent) -> (lines: Vec<String>)
    requires
        total_length(torrent@.info.files) <= usize::MAX,
    ensures
        lines_text(lines@) == info_text(torrent@),
{
    let mut lines: Vec<String> = Vec::new();
    let mut line: String = String::from_str("Tracker URL: ");
    line.append(torrent.announce.as_str());
    lines.push(line);
    let mut line: String = String::from_str("Length: ");
    push_number(&mut line, torrent.info.files.length() as u64);
    lines.push(line);
    let mut line: String = String::from_str("Info Hash: ");
    let hash: [u8; 20] = torrent.info.calculate_info_hash();
    let digits: String = to_hex(hash.as_slice());
    line.append(digits.as_str());
    lines.push(line);
    let mut line: String = String::from_str("Piece Length: ");
    push_number(&mut line, torrent.info.piece_length as u64);
    lines.push(line);
    lines.push(String::from_str("Piece Hashes:"));
    let ghost head = lines_text(lines@);
    let ghost pieces = torrent@.info.pieces;
    assert(head =~= info_text(torrent@).subrange(0, 5));
    let mut i: usize = 0;
    while i < torrent.info.pieces.0.len()
        invariant
            i <= torrent.info.pieces.0@.len(),
            pieces == torrent@.info.pieces,
            pieces.len() == torrent.info.pieces.0@.len(),
            head.len() == 5,
            lines_text(lines@) == head + Seq::new(i as nat, |k: int| hex_text(pieces[k])),
        decreases torrent.info.pieces.0@.len() - i,
    {
        let ghost before = lines_text(lines@);
        let ghost count = lines@.len();
        assert(before.len() == count);
        assert(before.len() == 5 + i);
        let digits: String = to_hex(torrent.info.pieces.0[i].as_slice());
        assert(digits@ == hex_text(pieces[i as int]));
        lines.push(digits);
        i = i + 1;
        proof {
            let shown = lines_text(lines@);
            let wanted = head + Seq::new(i as nat, |k: int| hex_text(pieces[k]));
            assert(lines@.len() == count + 1);
            assert(shown.len() == wanted.len());
            assert forall|k: int| 0 <= k < shown.len() implies shown[k] == wanted[k] by {
                if k < shown.len() - 1 {
                    assert(shown[k] == before[k]);
                }
            }
            assert(shown =~= wanted);
        }
    }
    assert(lines_text(lines@) =~= info_text(torrent@));
    lines
}

} // verus!
