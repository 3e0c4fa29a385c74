//! The encoder, which writes every value in its one canonical form.

use crate::bencode::grammar::COLON;
use crate::bencode::grammar::DICT_START;
use crate::bencode::grammar::END;
use crate::bencode::grammar::INT_START;
use crate::bencode::grammar::LIST_START;
use crate::bencode::grammar::MINUS;
use crate::bencode::order::keys_of;
use crate::bencode::order::lemma_sort_order;
use crate::bencode::order::sort_order;
use crate::bencode::order::sorted_order;
use crate::bencode::value::entries_view;
use crate::bencode::value::items_view;
use crate::bencode::value::lemma_dictionary_view;
use crate::bencode::value::lemma_list_view;
use crate::bencode::value::Bencode;
use crate::bencode::value::BencodeValue;
use crate::decimal::decimal;
use crate::decimal::push_decimal;
use vstd::prelude::*;

verus! {

/// A byte string on the wire: its length in decimal, a colon, the bytes.
pub open spec fn encoded_bytes(bytes: Seq<u8>) -> Seq<u8> {
    decimal(bytes.len()) + seq![COLON] + bytes
}

/// An integer in decimal, with `-` before a negative one.
pub open spec fn numeral(i: int) -> Seq<u8> {
    if i < 0 {
        seq![MINUS] + decimal((-i) as nat)
    } else {
        decimal(i as nat)
    }
}

/// The bytes that `value` is written as: a byte string with its length
/// before it, an integer between `i` and `e`, a list as its items between
/// `l` and `e`, a dictionary as its keys and values between `d` and `e`.
///
/// The entries of a dictionary are written in the ascending order of their
/// keys, whatever order they stand in.
pub open spec fn encoded(value: Bencode) -> Seq<u8>
    decreases value, 0nat,
{
    match value {
        Bencode::Bytes(bytes) => encoded_bytes(bytes),
        Bencode::Integer(i) => seq![INT_START] + numeral(i) + seq![END],
        Bencode::List(items) => seq![LIST_START] + encoded_items(items, items.len()) + seq![END],
        Bencode::Dictionary(entries) => seq![DICT_START] + encoded_entries(
            entries,
            sort_order(keys_of(entries)),
            entries.len(),
        ) + seq![END],
    }
}

/// The first `n` of `items`, each as it is written, end to end.
pub open spec fn encoded_items(items: Seq<Bencode>, n: nat) -> Seq<u8>
    decreases items, n,
{
    if n == 0 || n > items.len() {
        Seq::empty()
    } else {
        encoded_items(items, (n - 1) as nat) + encoded(items[n - 1])
    }
}

/// The first `n` entries in the order `order`, each as its key and its
/// value are written, end to end.
pub open spec fn encoded_entries(entries: Seq<(Seq<u8>, Bencode)>, order: Seq<int>, n: nat) -> Seq<
    u8,
>
    decreases entries, n,
{
    if n == 0 || n > order.len() {
        Seq::empty()
    } else {
        let j = order[n - 1];
        encoded_entries(entries, order, (n - 1) as nat) + if 0 <= j < entries.len() {
            encoded_bytes(entries[j].0) + encoded(entries[j].1)
        } else {
            Seq::empty()
        }
    }
}

/// Appends a byte string as it is written.
pub fn push_bytes(out: &mut Vec<u8>, bytes: &[u8])
    ensures
        final(out)@ == old(out)@ + encoded_bytes(bytes@),
{
    push_decimal(out, bytes.len() as u64);
    out.push(COLON);
    let ghost start = out@;
    let mut i: usize = 0;
    while i < bytes.len()
        invariant
            i <= bytes@.len(),
            out@ == start + bytes@.subrange(0, i as int),
        decreases bytes@.len() - i,
    {
        out.push(bytes[i]);
        i = i + 1;
        assert(out@ =~= start + bytes@.subrange(0, i as int));
    }
    assert(bytes@.subrange(0, i as int) =~= bytes@);
    assert(out@ =~= old(out)@ + encoded_bytes(bytes@));
}

/// Appends `value` as it is written.
pub fn encode_into(value: &BencodeValue, out: &mut Vec<u8>)
    ensures
        final(out)@ == old(out)@ + encoded(value@),
    decreases value,
{
    match value {
        BencodeValue::Bytes(bytes) => {
            push_bytes(out, bytes.as_slice());
        },
        BencodeValue::Integer(i) => {
            out.push(INT_START);
            if *i < 0 {
                out.push(MINUS);
                let magnitude: u64 = if *i == i64::MIN {
                    0x8000_0000_0000_0000
                } else {
                    (-*i) as u64
                };
                push_decimal(out, magnitude);
            } else {
                push_decimal(out, *i as u64);
            }
            out.push(END);
            assert(out@ =~= old(out)@ + encoded(value@));
        },
        BencodeValue::List(items) => {
            let ghost shown = items_view(items@);
            proof {
                lemma_list_view(*items);
            }
            out.push(LIST_START);
            let mut i: usize = 0;
            while i < items.len()
                invariant
                    i <= items@.len(),
                    shown == items_view(items@),
                    value == BencodeValue::List(*items),
                    out@ == old(out)@ + seq![LIST_START] + encoded_items(shown, i as nat),
                decreases items@.len() - i,
            {
                proof {
                    assert(value->List_0 == *items);
                    assert(decreases_to!(value => value->List_0));
                    assert(decreases_to!(value->List_0 => value->List_0[i as int]));
                }
                encode_into(&items[i], out);
                i = i + 1;
                assert(out@ =~= old(out)@ + seq![LIST_START] + encoded_items(shown, i as nat));
            }
            out.push(END);
            assert(out@ =~= old(out)@ + encoded(value@));
        },
        BencodeValue::Dictionary(entries) => {
            let ghost shown = entries_view(entries@);
            let ghost ideal = sort_order(keys_of(shown));
            proof {
                lemma_dictionary_view(*entries);
                lemma_sort_order(keys_of(shown));
            }
            let order: Vec<usize> = sorted_order(entries);
            out.push(DICT_START);
            let mut k: usize = 0;
            while k < order.len()
                invariant
                    k <= order@.len(),
                    order@.len() == entries@.len(),
                    shown == entries_view(entries@),
                    ideal == sort_order(keys_of(shown)),
                    ideal.len() == entries@.len(),
                    value == BencodeValue::Dictionary(*entries),
                    forall|q: int| 0 <= q < order@.len() ==> #[trigger] order@[q] == ideal[q],
                    forall|q: int| 0 <= q < order@.len() ==> #[trigger] order@[q] < entries@.len(),
                    out@ == old(out)@ + seq![DICT_START] + encoded_entries(shown, ideal, k as nat),
                decreases order@.len() - k,
            {
                let j: usize = order[k];
                push_bytes(out, entries[j].0.as_slice());
                proof {
                    assert(value->Dictionary_0 == *entries);
                    assert(decreases_to!(value => value->Dictionary_0));
                    assert(decreases_to!(value->Dictionary_0 => value->Dictionary_0[j as int]));
                    assert(decreases_to!(value->Dictionary_0[j as int] => value->Dictionary_0[j as int].1));
                }
                encode_into(&entries[j].1, out);
                k = k + 1;
                proof {
                    assert(ideal[k - 1] == j);
                    assert(shown[j as int] == (entries@[j as int].0@, entries@[j as int].1@));
                    assert(out@ =~= old(out)@ + seq![DICT_START] + encoded_entries(
                        shown,
                        ideal,
                        k as nat,
                    ));
                }
            }
            out.push(END);
            assert(out@ =~= old(out)@ + encoded(value@));
        },
    }
}

/// The bytes that `value` is written as.
pub fn encode(value: &BencodeValue) -> (out: Vec<u8>)
    ensures
        out@ == encoded(value@),
{
    let mut out: Vec<u8> = Vec::new();
    encode_into(value, &mut out);
    assert(out@ =~= encoded(value@));
    out
}

} // verus!
