//! The dictionary keys of descriptors and tracker responses.

use vstd::prelude::*;

verus! {

/// `announce`
pub const KEY_ANNOUNCE: [u8; 8] = [97, 110, 110, 111, 117, 110, 99, 101];

/// `files`
pub const KEY_FILES: [u8; 5] = [102, 105, 108, 101, 115];

/// `info`
pub const KEY_INFO: [u8; 4] = [105, 110, 102, 111];

/// `interval`
pub const KEY_INTERVAL: [u8; 8] = [105, 110, 116, 101, 114, 118, 97, 108];

/// `length`
pub const KEY_LENGTH: [u8; 6] = [108, 101, 110, 103, 116, 104];

/// `name`
pub const KEY_NAME: [u8; 4] = [110, 97, 109, 101];

/// `path`
pub const KEY_PATH: [u8; 4] = [112, 97, 116, 104];

/// `peers`
pub const KEY_PEERS: [u8; 5] = [112, 101, 101, 114, 115];

/// `piece length`
pub const KEY_PIECE_LENGTH: [u8; 12] = [112, 105, 101, 99, 101, 32, 108, 101, 110, 103, 116, 104];

/// `pieces`
pub const KEY_PIECES: [u8; 6] = [112, 105, 101, 99, 101, 115];

} // verus!
