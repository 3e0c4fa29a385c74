//! The answer of a tracker to an announce request.

use crate::bencode::dictionary::field;
use crate::bencode::dictionary::find;
use crate::bencode::grammar::decoded;
use crate::bencode::value::Bencode;
use crate::bencode::value::BencodeValue;
use crate::error::Error;
use crate::types::descriptor::size_of;
use crate::types::keys::KEY_INTERVAL;
use crate::types::keys::KEY_PEERS;
use crate::types::peers::peers_of;
use crate::types::peers::Peers;
use vstd::prelude::*;

verus! {

/// What a tracker answers: when to ask again, and who has the content.
#[derive(Debug, Clone, PartialEq, Eq)]
pub struct TrackerResponse {
    /// The seconds to wait before the next request.
    pub interval: usize,
    pub peers: Peers,
}

/// What a tracker's answer holds: its `interval` and the bytes of its
/// compact `peers` list.
///
/// An answer without an `interval`, without `peers`, or with `peers` that
/// are not made of whole six-byte addresses is malformed.
pub open spec fn response_of(value: Bencode) -> Result<(nat, Seq<u8>), Error> {
    match (size_of(field(value, KEY_INTERVAL@)), field(value, KEY_PEERS@)) {
        (Some(interval), Some(Bencode::Bytes(blob))) => if blob.len() % 6 == 0 {
            Ok((interval, blob))
        } else {
            Err(Error::MalformedEncoding)
        },
        _ => Err(Error::MalformedEncoding),
    }
}

/// What the body of a tracker's answer holds: it must decode, and the
/// value must be an answer.
pub open spec fn response_in(body: Seq<u8>) -> Result<(nat, Seq<u8>), Error> {
    match decoded(body) {
        Err(e) => Err(e),
        Ok((value, _)) => response_of(value),
    }
}

impl TrackerResponse {
    /// Reads a tracker's answer out of a decoded value.
    pub fn from_bencode(value: &BencodeValue) -> (outcome: Result<TrackerResponse, Error>)
        requires
            value@.wf(),
        ensures
            match response_of(value@) {
                Ok((interval, blob)) => outcome matches Ok(r) && r.interval == interval
                    && peers_of(blob, r.peers.0@),
                Err(e) => outcome matches Err(f) && f == e,
            },
    {
        let interval: usize = match find(value, &KEY_INTERVAL) {
            Some(BencodeValue::Integer(i)) => {
                if *i >= 0 && *i as u64 <= usize::MAX as u64 {
                    *i as usize
                } else {
                    return Err(Error::MalformedEncoding);
                }
            },
            _ => {
                return Err(Error::MalformedEncoding);
            },
        };
        match find(value, &KEY_PEERS) {
            Some(BencodeValue::Bytes(blob)) => match Peers::from_bytes(blob.as_slice()) {
                Ok(peers) => Ok(TrackerResponse { interval, peers }),
                Err(e) => Err(e),
            },
            _ => Err(Error::MalformedEncoding),
        }
    }
}

} // verus!
