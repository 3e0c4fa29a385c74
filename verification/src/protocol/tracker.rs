//! The exchange with a tracker: the announce request, and the peers of the
//! answer.

use crate::bencode::decode::decode;
use crate::bencode::value::BencodeValue;
use crate::error::Error;
use crate::text::decimal_text;
use crate::text::push_char;
use crate::text::push_number;
use crate::types::peers::peers_of;
use crate::types::peers::PeerAddress;
use crate::types::response::response_in;
use crate::types::response::TrackerResponse;
use vstd::prelude::*;
use vstd::std_specs::iter::IteratorSpec;
use vstd::string::StringExecFns;

verus! {

/// The hexadecimal digit, in upper case, of a number below 16.
pub open spec fn hex_upper(n: int) -> char {
    if n < 10 {
        (48 + n) as u8 as char
    } else {
        (55 + n) as u8 as char
    }
}

/// `bytes` with every byte written as `%` and two upper-case hexadecimal
/// digits: the bytes are binary data, so none is left as it is.
pub open spec fn percent_encoded(bytes: Seq<u8>) -> Seq<char>
    decreases bytes.len(),
{
    if bytes.len() == 0 {
        Seq::empty()
    } else {
        percent_encoded(bytes.drop_last()) + seq![
            '%',
            hex_upper(bytes.last() as int / 16),
            hex_upper(bytes.last() as int % 16),
        ]
    }
}

/// The upper-case hexadecimal digit of `n`.
fn hex_digit(n: u8) -> (c: char)
    requires
        n < 16,
    ensures
        c == hex_upper(n as int),
{
    if n < 10 {
        (48 + n) as char
    } else {
        (55 + n) as char
    }
}

/// Percent-encodes every byte of `slice`.
pub fn urlencode_u8_slice(slice: &[u8]) -> (escaped: String)
    ensures
        escaped@ == percent_encoded(slice@),
        escaped@.len() == 3 * slice@.len(),
{
    let mut escaped: String = String::new();
    let mut i: usize = 0;
    while i < slice.len()
        invariant
            i <= slice@.len(),
            escaped@ == percent_encoded(slice@.subrange(0, i as int)),
            escaped@.len() == 3 * i,
        decreases slice@.len() - i,
    {
        let byte: u8 = slice[i];
        push_char(&mut escaped, '%');
        push_char(&mut escaped, hex_digit(byte / 16));
        push_char(&mut escaped, hex_digit(byte % 16));
        i = i + 1;
        proof {
            let upto = slice@.subrange(0, i as int);
            assert(upto.drop_last() =~= slice@.subrange(0, i - 1));
            assert(escaped@ =~= percent_encoded(upto.drop_last()) + seq![
                '%',
                hex_upper(upto.last() as int / 16),
                hex_upper(upto.last() as int % 16),
            ]);
        }
    }
    assert(slice@.subrange(0, i as int) =~= slice@);
    escaped
}

/// The query of an announce request: the info hash, percent-encoded byte for
/// byte, this client's fixed identity and counters, and how many bytes are
/// still to be fetched.
pub open spec fn announce_query(info_hash: Seq<u8>, left: nat) -> Seq<char> {
    "info_hash="@ + percent_encoded(info_hash) + "&peer_id=00112233445566778899"@ + "&port=6881"@
        + "&uploaded=0"@ + "&downloaded=0"@ + "&left="@ + decimal_text(left) + "&compact=1"@
}

/// The address of an announce request: the tracker's address, then `&` if it
/// has a query already and `?` if not, then the query.
pub open spec fn announce_address(announce_url: Seq<char>, info_hash: Seq<u8>, left: nat) -> Seq<
    char,
> {
    announce_url + seq![if announce_url.contains('?') {
        '&'
    } else {
        '?'
    }] + announce_query(info_hash, left)
}

/// Whether `text` holds the character `c`.
fn has_char(text: &str, c: char) -> (found: bool)
    ensures
        found == text@.contains(c),
{
    let mut chars = text.chars();
    let ghost mut seen: int = 0;
    loop
        invariant
            0 <= seen <= text@.len(),
            chars.remaining() == text@.skip(seen),
            forall|k: int| 0 <= k < seen ==> text@[k] != c,
        decreases text@.len() - seen,
    {
        match chars.next() {
            None => {
                return false;
            },
            Some(d) => {
                assert(d == text@[seen]);
                if d == c {
                    return true;
                }
                proof {
                    assert(text@.skip(seen).drop_first() =~= text@.skip(seen + 1));
                    seen = seen + 1;
                }
            },
        }
    }
}

/// Builds the address that is fetched to announce to a tracker.
pub fn announce_request(announce_url: String, info_hash: &[u8; 20], left: usize) -> (url: String)
    ensures
        url@ == announce_address(announce_url@, info_hash@, left as nat),
{
    let mut url: String = announce_url;
    if has_char(url.as_str(), '?') {
        push_char(&mut url, '&');
    } else {
        push_char(&mut url, '?');
    }
    url.append("info_hash=");
    let escaped: String = urlencode_u8_slice(info_hash.as_slice());
    url.append(escaped.as_str());
    url.append("&peer_id=00112233445566778899");
    url.append("&port=6881");
    url.append("&uploaded=0");
    url.append("&downloaded=0");
    url.append("&left=");
    push_number(&mut url, left as u64);
    url.append("&compact=1");
    assert(url@ =~= announce_address(announce_url@, info_hash@, left as nat));
    url
}

/// Reads the peers out of the body of a tracker's answer, in the tracker's
/// order.
pub fn get_peers_from_tracker(body: &[u8]) -> (outcome: Result<Vec<PeerAddress>, Error>)
    ensures
        match response_in(body@) {
            Ok((_, blob)) => outcome matches Ok(peers) && peers_of(blob, peers@),
            Err(e) => outcome matches Err(f) && f == e,
        },
{
    let value: BencodeValue = match decode(body) {
        Ok(value) => value,
        Err(e) => {
            return Err(e);
        },
    };
    match TrackerResponse::from_bencode(&value) {
        Ok(response) => Ok(response.peers.0),
        Err(e) => Err(e),
    }
}

} // verus!
