//! One value, one encoding: the order in which a dictionary happens to
//! hold its entries leaves no trace in the bytes.

use crate::bencode::canonical::alike;
use crate::bencode::canonical::finds_among;
use crate::bencode::canonical::found_among;
use crate::bencode::canonical::same_value;
use crate::bencode::encode::encoded;
use crate::bencode::encode::encoded_entries;
use crate::bencode::encode::encoded_items;
use crate::bencode::order::ascending;
use crate::bencode::order::bytes_le;
use crate::bencode::order::is_permutation;
use crate::bencode::order::keys_of;
use crate::bencode::order::lemma_bytes_le_antisymmetric;
use crate::bencode::order::lemma_sort_order;
use crate::bencode::order::sort_order;
use crate::bencode::value::distinct_keys;
use crate::bencode::value::Bencode;
use vstd::prelude::*;

verus! {

/// Whether the keys ascend and no two are the same.
pub open spec fn strictly_ascending(keys: Seq<Seq<u8>>) -> bool {
    forall|a: int, b: int|
        0 <= a < b < keys.len() ==> bytes_le(#[trigger] keys[a], #[trigger] keys[b]) && keys[a]
            != keys[b]
}

/// Whether each key of one run is a key of the other.
pub open spec fn same_keys(first: Seq<Seq<u8>>, second: Seq<Seq<u8>>) -> bool {
    &&& forall|i: int| 0 <= i < first.len() ==> second.contains(#[trigger] first[i])
    &&& forall|j: int| 0 <= j < second.len() ==> first.contains(#[trigger] second[j])
}

/// There is one way only to put keys in strictly ascending order.
pub proof fn lemma_ascending_unique(first: Seq<Seq<u8>>, second: Seq<Seq<u8>>)
    requires
        strictly_ascending(first),
        strictly_ascending(second),
        same_keys(first, second),
    ensures
        first == second,
    decreases first.len(),
{
    if first.len() == 0 {
        if second.len() > 0 {
            assert(first.contains(second[0]));
        }
        assert(first =~= second);
    } else {
        assert(second.contains(first[0]));
        let j = choose|j: int| 0 <= j < second.len() && second[j] == first[0];
        assert(first.contains(second[0]));
        let i = choose|i: int| 0 <= i < first.len() && first[i] == second[0];
        if j > 0 {
            assert(bytes_le(second[0], second[j]));
        }
        if i > 0 {
            assert(bytes_le(first[0], first[i]));
        }
        if i > 0 && j > 0 {
            lemma_bytes_le_antisymmetric(first[0], second[0]);
        }
        assert(first[0] == second[0]);
        let rest_first = first.drop_first();
        let rest_second = second.drop_first();
        assert forall|a: int, b: int| 0 <= a < b < rest_first.len() implies bytes_le(
            #[trigger] rest_first[a],
            #[trigger] rest_first[b],
        ) && rest_first[a] != rest_first[b] by {
            assert(bytes_le(first[a + 1], first[b + 1]) && first[a + 1] != first[b + 1]);
        }
        assert forall|a: int, b: int| 0 <= a < b < rest_second.len() implies bytes_le(
            #[trigger] rest_second[a],
            #[trigger] rest_second[b],
        ) && rest_second[a] != rest_second[b] by {
            assert(bytes_le(second[a + 1], second[b + 1]) && second[a + 1] != second[b + 1]);
        }
        assert forall|k: int| 0 <= k < rest_first.len() implies rest_second.contains(
            #[trigger] rest_first[k],
        ) by {
            assert(second.contains(first[k + 1]));
            let q = choose|q: int| 0 <= q < second.len() && second[q] == first[k + 1];
            assert(bytes_le(first[0], first[k + 1]) && first[0] != first[k + 1]);
            assert(q != 0);
            assert(rest_second[q - 1] == rest_first[k]);
        }
        assert forall|k: int| 0 <= k < rest_second.len() implies rest_first.contains(
            #[trigger] rest_second[k],
        ) by {
            assert(first.contains(second[k + 1]));
            let q = choose|q: int| 0 <= q < first.len() && first[q] == second[k + 1];
            assert(bytes_le(second[0], second[k + 1]) && second[0] != second[k + 1]);
            assert(q != 0);
            assert(rest_first[q - 1] == rest_second[k]);
        }
        lemma_ascending_unique(rest_first, rest_second);
        assert(first =~= seq![first[0]] + rest_first);
        assert(second =~= seq![second[0]] + rest_second);
    }
}

/// The keys of `entries` as `order` takes them.
pub open spec fn keys_in_order(entries: Seq<(Seq<u8>, Bencode)>, order: Seq<int>) -> Seq<Seq<u8>> {
    Seq::new(order.len(), |q: int| entries[order[q]].0)
}

/// The distinct keys of a dictionary, taken in their sorted order, ascend
/// strictly.
proof fn lemma_sorted_keys(entries: Seq<(Seq<u8>, Bencode)>)
    requires
        distinct_keys(entries),
    ensures
        is_permutation(sort_order(keys_of(entries)), entries.len() as int),
        strictly_ascending(keys_in_order(entries, sort_order(keys_of(entries)))),
{
    let keys = keys_of(entries);
    let order = sort_order(keys);
    lemma_sort_order(keys);
    let sorted = keys_in_order(entries, order);
    assert forall|a: int, b: int| 0 <= a < b < sorted.len() implies bytes_le(
        #[trigger] sorted[a],
        #[trigger] sorted[b],
    ) && sorted[a] != sorted[b] by {
        let ja = order[a];
        let jb = order[b];
        assert(bytes_le(keys[ja], keys[jb]));
        assert(ja != jb);
        if ja < jb {
            assert(entries[ja].0 != entries[jb].0);
        } else {
            assert(entries[jb].0 != entries[ja].0);
        }
    }
}

/// What it is for two dictionaries to be the same: each entry of either
/// has its like in the other.
proof fn lemma_same_dictionaries(first: Bencode, second: Bencode)
    requires
        same_value(first, second),
        first is Dictionary,
    ensures
        second is Dictionary,
        forall|i: int|
            0 <= i < first->Dictionary_0.len() ==> found_among(
                #[trigger] first->Dictionary_0[i],
                second->Dictionary_0,
            ),
        forall|j: int|
            0 <= j < second->Dictionary_0.len() ==> finds_among(
                first->Dictionary_0,
                #[trigger] second->Dictionary_0[j],
            ),
{
}

/// The same dictionaries have the same keys in their sorted order, and
/// like values under them.
proof fn lemma_same_in_order(first: Seq<(Seq<u8>, Bencode)>, second: Seq<(Seq<u8>, Bencode)>)
    requires
        distinct_keys(first),
        distinct_keys(second),
        same_value(Bencode::Dictionary(first), Bencode::Dictionary(second)),
    ensures
        first.len() == second.len(),
        is_permutation(sort_order(keys_of(first)), first.len() as int),
        is_permutation(sort_order(keys_of(second)), second.len() as int),
        forall|q: int|
            0 <= q < first.len() ==> alike(
                #[trigger] first[sort_order(keys_of(first))[q]],
                second[sort_order(keys_of(second))[q]],
            ),
{
    let order_first = sort_order(keys_of(first));
    let order_second = sort_order(keys_of(second));
    lemma_sorted_keys(first);
    lemma_sorted_keys(second);
    let sorted_first = keys_in_order(first, order_first);
    let sorted_second = keys_in_order(second, order_second);
    lemma_same_dictionaries(Bencode::Dictionary(first), Bencode::Dictionary(second));
    assert(forall|i: int| 0 <= i < first.len() ==> found_among(#[trigger] first[i], second));
    assert(forall|j: int| 0 <= j < second.len() ==> finds_among(first, #[trigger] second[j]));
    assert forall|i: int| 0 <= i < sorted_first.len() implies sorted_second.contains(
        #[trigger] sorted_first[i],
    ) by {
        assert(0 <= order_first[i] < first.len());
        let entry = first[order_first[i]];
        assert(found_among(entry, second));
        let j = choose|j: int| 0 <= j < second.len() && alike(entry, #[trigger] second[j]);
        assert(order_second.contains(j));
        let q = choose|q: int| 0 <= q < order_second.len() && order_second[q] == j;
        assert(sorted_second[q] == sorted_first[i]);
    }
    assert forall|j: int| 0 <= j < sorted_second.len() implies sorted_first.contains(
        #[trigger] sorted_second[j],
    ) by {
        assert(0 <= order_second[j] < second.len());
        let entry = second[order_second[j]];
        assert(finds_among(first, entry));
        let i = choose|i: int| 0 <= i < first.len() && alike(#[trigger] first[i], entry);
        assert(order_first.contains(i));
        let q = choose|q: int| 0 <= q < order_first.len() && order_first[q] == i;
        assert(sorted_first[q] == sorted_second[j]);
    }
    lemma_ascending_unique(sorted_first, sorted_second);
    assert(sorted_first.len() == sorted_second.len());
    assert forall|q: int| 0 <= q < first.len() implies alike(
        #[trigger] first[order_first[q]],
        second[order_second[q]],
    ) by {
        assert(0 <= order_first[q] < first.len());
        assert(0 <= order_second[q] < second.len());
        let entry = first[order_first[q]];
        assert(sorted_first[q] == sorted_second[q]);
        assert(found_among(entry, second));
        let j = choose|j: int| 0 <= j < second.len() && alike(entry, #[trigger] second[j]);
        let k = order_second[q];
        assert(second[j].0 == second[k].0);
        if j < k {
            assert(second[j].0 != second[k].0);
        } else if k < j {
            assert(second[k].0 != second[j].0);
        }
    }
}

/// Values that are the same but for the order of their dictionaries'
/// entries are written as the same bytes.
///
/// This is what makes the encoding canonical: a hash of the bytes is a
/// hash of the value, whatever order the value was read or built in.
pub proof fn lemma_encoding_unique(first: Bencode, second: Bencode)
    requires
        first.wf(),
        second.wf(),
        same_value(first, second),
    ensures
        encoded(first) == encoded(second),
    decreases first, 0nat, 0nat,
{
    match (first, second) {
        (Bencode::List(x), Bencode::List(y)) => {
            lemma_items_unique(x, y, x.len());
        },
        (Bencode::Dictionary(x), Bencode::Dictionary(y)) => {
            lemma_same_in_order(x, y);
            lemma_entries_unique(x, y, x.len());
        },
        _ => {},
    }
}

/// Like items are written alike.
proof fn lemma_items_unique(first: Seq<Bencode>, second: Seq<Bencode>, n: nat)
    requires
        n <= first.len(),
        first.len() == second.len(),
        forall|i: int| 0 <= i < first.len() ==> (#[trigger] first[i]).wf(),
        forall|i: int| 0 <= i < second.len() ==> (#[trigger] second[i]).wf(),
        forall|i: int| 0 <= i < first.len() ==> same_value(#[trigger] first[i], second[i]),
    ensures
        encoded_items(first, n) == encoded_items(second, n),
    decreases first, n, 1nat,
{
    if n > 0 {
        lemma_items_unique(first, second, (n - 1) as nat);
        assert(same_value(first[n - 1], second[n - 1]));
        lemma_encoding_unique(first[n - 1], second[n - 1]);
    }
}

/// Like entries in the sorted order of their keys are written alike.
proof fn lemma_entries_unique(
    first: Seq<(Seq<u8>, Bencode)>,
    second: Seq<(Seq<u8>, Bencode)>,
    n: nat,
)
    requires
        n <= first.len(),
        first.len() == second.len(),
        forall|i: int| 0 <= i < first.len() ==> (#[trigger] first[i]).1.wf(),
        forall|i: int| 0 <= i < second.len() ==> (#[trigger] second[i]).1.wf(),
        is_permutation(sort_order(keys_of(first)), first.len() as int),
        is_permutation(sort_order(keys_of(second)), second.len() as int),
        forall|q: int|
            0 <= q < first.len() ==> alike(
                #[trigger] first[sort_order(keys_of(first))[q]],
                second[sort_order(keys_of(second))[q]],
            ),
    ensures
        encoded_entries(first, sort_order(keys_of(first)), n) == encoded_entries(
            second,
            sort_order(keys_of(second)),
            n,
        ),
    decreases first, n, 1nat,
{
    if n > 0 {
        lemma_entries_unique(first, second, (n - 1) as nat);
        let i = sort_order(keys_of(first))[n - 1];
        let j = sort_order(keys_of(second))[n - 1];
        assert(0 <= i < first.len());
        assert(0 <= j < second.len());
        assert(alike(first[i], second[j]));
        assert(first[i].1.wf());
        assert(second[j].1.wf());
        lemma_encoding_unique(first[i].1, second[j].1);
    }
}

} // verus!
