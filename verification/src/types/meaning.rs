//! A descriptor means the same however its dictionaries order their keys.

use crate::bencode::canonical::alike;
use crate::bencode::canonical::finds_among;
use crate::bencode::canonical::found_among;
use crate::bencode::canonical::same_value;
use crate::bencode::grammar::lemma_key_position;
use crate::bencode::dictionary::field;
use crate::bencode::grammar::decoded;
use crate::bencode::grammar::key_position;
use crate::bencode::value::has_key;
use crate::bencode::value::Bencode;
use crate::types::descriptor::file_of;
use crate::types::descriptor::files_of;
use crate::types::descriptor::info_of;
use crate::types::descriptor::path_of;
use crate::types::descriptor::size_of;
use crate::types::descriptor::text_of;
use crate::types::descriptor::torrent_in;
use crate::types::descriptor::torrent_of;
use crate::types::infohash::info_hash;
use crate::types::keys::KEY_ANNOUNCE;
use crate::types::keys::KEY_FILES;
use crate::types::keys::KEY_INFO;
use crate::types::keys::KEY_LENGTH;
use crate::types::keys::KEY_NAME;
use crate::types::keys::KEY_PATH;
use crate::types::keys::KEY_PIECES;
use crate::types::keys::KEY_PIECE_LENGTH;
use vstd::prelude::*;

verus! {

/// Whether two fields are both absent, or both there with the same value.
pub open spec fn same_field(a: Option<Bencode>, b: Option<Bencode>) -> bool {
    match (a, b) {
        (Some(x), Some(y)) => x.wf() && y.wf() && same_value(x, y),
        (None, None) => true,
        _ => false,
    }
}

/// The same dictionaries map a key to the same value.
pub proof fn lemma_field_same(a: Bencode, b: Bencode, key: Seq<u8>)
    requires
        a.wf(),
        b.wf(),
        same_value(a, b),
    ensures
        same_field(field(a, key), field(b, key)),
{
    match (a, b) {
        (Bencode::Dictionary(x), Bencode::Dictionary(y)) => {
            if has_key(x, key) {
                let i = key_position(x, key)->0;
                assert(found_among(x[i], y));
                let j = choose|j: int| 0 <= j < y.len() && alike(x[i], #[trigger] y[j]);
                lemma_key_position(y, key, j);
                assert(x[i].1.wf());
                assert(y[j].1.wf());
            } else if has_key(y, key) {
                let j = key_position(y, key)->0;
                assert(finds_among(x, y[j]));
                let i = choose|i: int| 0 <= i < x.len() && alike(#[trigger] x[i], y[j]);
                assert(x[i].0 == key);
            }
        },
        _ => {},
    }
}

/// The same fields hold the same text.
pub proof fn lemma_text_same(a: Option<Bencode>, b: Option<Bencode>)
    requires
        same_field(a, b),
    ensures
        text_of(a) == text_of(b),
{
}

/// The same fields hold the same size.
pub proof fn lemma_size_same(a: Option<Bencode>, b: Option<Bencode>)
    requires
        same_field(a, b),
    ensures
        size_of(a) == size_of(b),
{
}

/// The same fields hold the same path.
pub proof fn lemma_path_same(a: Option<Bencode>, b: Option<Bencode>)
    requires
        same_field(a, b),
    ensures
        path_of(a) == path_of(b),
{
    match (a, b) {
        (Some(Bencode::List(x)), Some(Bencode::List(y))) => {
            assert forall|i: int| 0 <= i < x.len() implies text_of(Some(#[trigger] x[i]))
                == text_of(Some(y[i])) by {
                assert(same_value(x[i], y[i]));
                assert(x[i].wf() && y[i].wf());
                lemma_text_same(Some(x[i]), Some(y[i]));
            }
            let all_x = forall|i: int| 0 <= i < x.len() ==> text_of(Some(#[trigger] x[i])) is Some;
            let all_y = forall|i: int| 0 <= i < y.len() ==> text_of(Some(#[trigger] y[i])) is Some;
            if all_x {
                assert forall|i: int| 0 <= i < y.len() implies text_of(
                    Some(#[trigger] y[i]),
                ) is Some by {
                    assert(text_of(Some(x[i])) is Some);
                }
                assert(path_of(a)->0 =~= path_of(b)->0);
            } else {
                let i = choose|i: int| 0 <= i < x.len() && !(text_of(Some(#[trigger] x[i])) is Some);
                assert(text_of(Some(y[i])) is None);
            }
        },
        _ => {},
    }
}

/// The same dictionaries describe the same file.
pub proof fn lemma_file_same(a: Bencode, b: Bencode)
    requires
        a.wf(),
        b.wf(),
        same_value(a, b),
    ensures
        file_of(a) == file_of(b),
{
    lemma_field_same(a, b, KEY_LENGTH@);
    lemma_field_same(a, b, KEY_PATH@);
    lemma_size_same(field(a, KEY_LENGTH@), field(b, KEY_LENGTH@));
    lemma_path_same(field(a, KEY_PATH@), field(b, KEY_PATH@));
}

/// The same info dictionaries describe the same layout.
pub proof fn lemma_files_same(a: Bencode, b: Bencode)
    requires
        a.wf(),
        b.wf(),
        same_value(a, b),
    ensures
        files_of(a) == files_of(b),
{
    lemma_field_same(a, b, KEY_LENGTH@);
    lemma_field_same(a, b, KEY_FILES@);
    lemma_size_same(field(a, KEY_LENGTH@), field(b, KEY_LENGTH@));
    if size_of(field(a, KEY_LENGTH@)) is None {
        match (field(a, KEY_FILES@), field(b, KEY_FILES@)) {
            (Some(Bencode::List(x)), Some(Bencode::List(y))) => {
                assert forall|i: int| 0 <= i < x.len() implies file_of(#[trigger] x[i]) == file_of(
                    y[i],
                ) by {
                    assert(same_value(x[i], y[i]));
                    assert(x[i].wf() && y[i].wf());
                    lemma_file_same(x[i], y[i]);
                }
                let all_x = forall|i: int| 0 <= i < x.len() ==> file_of(#[trigger] x[i]) is Some;
                if all_x {
                    assert forall|i: int| 0 <= i < y.len() implies file_of(
                        #[trigger] y[i],
                    ) is Some by {
                        assert(file_of(x[i]) is Some);
                    }
                    let fx = Seq::new(x.len(), |i: int| file_of(x[i])->0);
                    let fy = Seq::new(y.len(), |i: int| file_of(y[i])->0);
                    assert(fx =~= fy);
                } else {
                    let i = choose|i: int| 0 <= i < x.len() && !(file_of(#[trigger] x[i]) is Some);
                    assert(file_of(y[i]) is None);
                }
            },
            _ => {},
        }
    }
}

/// The same info dictionaries describe the same info.
pub proof fn lemma_info_same(a: Bencode, b: Bencode)
    requires
        a.wf(),
        b.wf(),
        same_value(a, b),
    ensures
        info_of(a) == info_of(b),
{
    lemma_field_same(a, b, KEY_NAME@);
    lemma_field_same(a, b, KEY_PIECE_LENGTH@);
    lemma_field_same(a, b, KEY_PIECES@);
    lemma_text_same(field(a, KEY_NAME@), field(b, KEY_NAME@));
    lemma_size_same(field(a, KEY_PIECE_LENGTH@), field(b, KEY_PIECE_LENGTH@));
    lemma_files_same(a, b);
}

/// A descriptor says the same whatever the order of the keys in it.
///
/// Two well-formed values that are the same but for the order in which
/// their dictionaries hold their entries are the same descriptor, or fail
/// to be one for the same reason.
pub proof fn lemma_torrent_same(a: Bencode, b: Bencode)
    requires
        a.wf(),
        b.wf(),
        same_value(a, b),
    ensures
        torrent_of(a) == torrent_of(b),
{
    lemma_field_same(a, b, KEY_ANNOUNCE@);
    lemma_field_same(a, b, KEY_INFO@);
    lemma_text_same(field(a, KEY_ANNOUNCE@), field(b, KEY_ANNOUNCE@));
    match (field(a, KEY_INFO@), field(b, KEY_INFO@)) {
        (Some(x), Some(y)) => {
            lemma_info_same(x, y);
        },
        _ => {},
    }
}

/// The info hash does not depend on the order of the keys in the bytes
/// that a descriptor was read from.
///
/// Where two inputs decode to values that are the same but for the order
/// of their dictionaries' entries, they give the same descriptor, and so
/// the same info hash.
pub proof fn lemma_info_hash_ignores_key_order(first: Seq<u8>, second: Seq<u8>)
    requires
        decoded(first) is Ok,
        decoded(second) is Ok,
        decoded(first)->Ok_0.0.wf(),
        decoded(second)->Ok_0.0.wf(),
        same_value(decoded(first)->Ok_0.0, decoded(second)->Ok_0.0),
    ensures
        torrent_in(first) == torrent_in(second),
        torrent_in(first) is Ok ==> info_hash(torrent_in(first)->Ok_0.info) == info_hash(
            torrent_in(second)->Ok_0.info,
        ),
{
    lemma_torrent_same(decoded(first)->Ok_0.0, decoded(second)->Ok_0.0);
}

} // verus!
