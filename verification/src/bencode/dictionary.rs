//! Dictionaries as mappings: looking a key up, and testing that no key
//! occurs twice.

use crate::bencode::grammar::lemma_key_position;
use crate::bencode::grammar::key_position;
use crate::bencode::value::distinct_keys;
use crate::bencode::value::entries_view;
use crate::bencode::value::has_key;
use crate::bencode::value::items_view;
use crate::bencode::value::lemma_dictionary_view;
use crate::bencode::value::lemma_list_view;
use crate::bencode::value::Bencode;
use crate::bencode::value::BencodeValue;
use crate::octets::same_bytes;
use vstd::prelude::*;

verus! {

/// What `key` is mapped to by `entries`, if it is a key of theirs.
pub open spec fn lookup(entries: Seq<(Seq<u8>, Bencode)>, key: Seq<u8>) -> Option<Bencode> {
    match key_position(entries, key) {
        Some(i) => Some(entries[i].1),
        None => None,
    }
}

/// What `key` is mapped to by `value`, if `value` is a dictionary with that
/// key.
pub open spec fn field(value: Bencode, key: Seq<u8>) -> Option<Bencode> {
    match value {
        Bencode::Dictionary(entries) => lookup(entries, key),
        _ => None,
    }
}

/// Looks `key` up in the dictionary `value`.
pub fn find<'a>(value: &'a BencodeValue, key: &[u8]) -> (found: Option<&'a BencodeValue>)
    requires
        value@.wf(),
    ensures
        match field(value@, key@) {
            Some(v) => found matches Some(f) && f@ == v && v.wf(),
            None => found is None,
        },
{
    match value {
        BencodeValue::Dictionary(entries) => {
            let ghost shown = entries_view(entries@);
            proof {
                lemma_dictionary_view(*entries);
            }
            let mut i: usize = 0;
            while i < entries.len()
                invariant
                    i <= entries@.len(),
                    shown == entries_view(entries@),
                    value@ == Bencode::Dictionary(shown),
                    distinct_keys(shown),
                    forall|k: int| 0 <= k < shown.len() ==> (#[trigger] shown[k]).1.wf(),
                    forall|k: int| 0 <= k < i ==> (#[trigger] shown[k]).0 != key@,
                decreases entries@.len() - i,
            {
                if same_bytes(entries[i].0.as_slice(), key) {
                    proof {
                        lemma_key_position(shown, key@, i as int);
                        assert(shown[i as int].1.wf());
                        assert(shown[i as int].1 == entries@[i as int].1@);
                    }
                    return Some(&entries[i].1);
                }
                i = i + 1;
            }
            assert(!has_key(shown, key@));
            None
        },
        _ => None,
    }
}

/// Whether the key of the entry at `at` stands at no place before it.
fn key_is_new(entries: &Vec<(Vec<u8>, BencodeValue)>, at: usize) -> (new: bool)
    requires
        at < entries@.len(),
    ensures
        new == forall|k: int| 0 <= k < at ==> (#[trigger] entries@[k]).0@ != entries@[at as int].0@,
{
    let mut k: usize = 0;
    while k < at
        invariant
            k <= at,
            at < entries@.len(),
            forall|q: int| 0 <= q < k ==> (#[trigger] entries@[q]).0@ != entries@[at as int].0@,
        decreases at - k,
    {
        if same_bytes(entries[k].0.as_slice(), entries[at].0.as_slice()) {
            return false;
        }
        k = k + 1;
    }
    true
}

impl BencodeValue {
    /// Whether the value is well formed: whether every dictionary in it is
    /// a mapping.
    pub fn well_formed(&self) -> (wf: bool)
        ensures
            wf == self@.wf(),
        decreases self,
    {
        match self {
            BencodeValue::Bytes(_) => true,
            BencodeValue::Integer(_) => true,
            BencodeValue::List(items) => {
                let ghost shown = items_view(items@);
                proof {
                    lemma_list_view(*items);
                }
                let mut i: usize = 0;
                while i < items.len()
                    invariant
                        i <= items@.len(),
                        self == BencodeValue::List(*items),
                        shown == items_view(items@),
                        self@ == Bencode::List(shown),
                        forall|k: int| 0 <= k < i ==> (#[trigger] shown[k]).wf(),
                    decreases items@.len() - i,
                {
                    proof {
                        assert(self->List_0 == *items);
                        assert(decreases_to!(self => self->List_0));
                        assert(decreases_to!(self->List_0 => self->List_0[i as int]));
                    }
                    if !items[i].well_formed() {
                        proof {
                            assert(!shown[i as int].wf());
                            let value = self@;
                            if value.wf() {
                                assert(value->List_0[i as int].wf());
                            }
                        }
                        return false;
                    }
                    i = i + 1;
                }
                proof {
                    let value = self@;
                    assert(value->List_0 == shown);
                    assert(value.wf());
                }
                true
            },
            BencodeValue::Dictionary(entries) => {
                let ghost shown = entries_view(entries@);
                proof {
                    lemma_dictionary_view(*entries);
                }
                let mut i: usize = 0;
                while i < entries.len()
                    invariant
                        i <= entries@.len(),
                        self == BencodeValue::Dictionary(*entries),
                        shown == entries_view(entries@),
                        self@ == Bencode::Dictionary(shown),
                        forall|k: int| 0 <= k < i ==> (#[trigger] shown[k]).1.wf(),
                        forall|a: int, b: int|
                            0 <= a < b < i ==> (#[trigger] shown[a]).0 != (#[trigger] shown[b]).0,
                    decreases entries@.len() - i,
                {
                    proof {
                        assert(self->Dictionary_0 == *entries);
                        assert(decreases_to!(self => self->Dictionary_0));
                        assert(decreases_to!(self->Dictionary_0 => self->Dictionary_0[i as int]));
                        assert(decreases_to!(self->Dictionary_0[i as int] => self->Dictionary_0[i as int].1));
                    }
                    if !key_is_new(entries, i) {
                        proof {
                            let k = choose|k: int|
                                0 <= k < i && (#[trigger] entries@[k]).0@ == entries@[i as int].0@;
                            assert(shown[k].0 == shown[i as int].0);
                            let value = self@;
                            if value.wf() {
                                assert(value->Dictionary_0[k].0 != value->Dictionary_0[i as int].0);
                            }
                        }
                        return false;
                    }
                    if !entries[i].1.well_formed() {
                        proof {
                            assert(!shown[i as int].1.wf());
                            let value = self@;
                            if value.wf() {
                                assert(value->Dictionary_0[i as int].1.wf());
                            }
                        }
                        return false;
                    }
                    proof {
                        assert forall|a: int, b: int| 0 <= a < b < i + 1 implies (
                        #[trigger] shown[a]).0 != (#[trigger] shown[b]).0 by {
                            if b == i {
                                assert(entries@[a].0@ != entries@[i as int].0@);
                            }
                        }
                    }
                    i = i + 1;
                }
                proof {
                    let value = self@;
                    assert(value->Dictionary_0 == shown);
                    assert(value.wf());
                }
                true
            },
        }
    }
}

} // verus!
