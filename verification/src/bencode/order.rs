//! The order of dictionary keys: bytes compared one by one.

use crate::bencode::value::BencodeValue;
use crate::bencode::value::entries_view;
use vstd::prelude::*;

verus! {

/// Whether `a` comes no later than `b`: at the first place where they
/// differ `a` has the smaller byte, or `a` ends there.
pub open spec fn bytes_le(a: Seq<u8>, b: Seq<u8>) -> bool
    decreases a.len(),
{
    if a.len() == 0 {
        true
    } else if b.len() == 0 {
        false
    } else if a[0] != b[0] {
        a[0] < b[0]
    } else {
        bytes_le(a.drop_first(), b.drop_first())
    }
}

/// Of two byte strings one comes no later than the other.
pub proof fn lemma_bytes_le_total(a: Seq<u8>, b: Seq<u8>)
    ensures
        bytes_le(a, b) || bytes_le(b, a),
    decreases a.len(),
{
    if a.len() > 0 && b.len() > 0 && a[0] == b[0] {
        lemma_bytes_le_total(a.drop_first(), b.drop_first());
    }
}

/// The order is transitive.
pub proof fn lemma_bytes_le_transitive(a: Seq<u8>, b: Seq<u8>, c: Seq<u8>)
    requires
        bytes_le(a, b),
        bytes_le(b, c),
    ensures
        bytes_le(a, c),
    decreases a.len(),
{
    if a.len() > 0 && b.len() > 0 && c.len() > 0 && a[0] == b[0] && b[0] == c[0] {
        lemma_bytes_le_transitive(a.drop_first(), b.drop_first(), c.drop_first());
    }
}

/// Byte strings that come no later than each other are the same.
pub proof fn lemma_bytes_le_antisymmetric(a: Seq<u8>, b: Seq<u8>)
    requires
        bytes_le(a, b),
        bytes_le(b, a),
    ensures
        a == b,
    decreases a.len(),
{
    if a.len() > 0 && b.len() > 0 {
        lemma_bytes_le_antisymmetric(a.drop_first(), b.drop_first());
        assert(a =~= seq![a[0]] + a.drop_first());
        assert(b =~= seq![b[0]] + b.drop_first());
    } else {
        assert(a =~= b);
    }
}

/// A byte string with the smaller byte at the first place where two differ
/// comes first.
pub proof fn lemma_bytes_le_at(a: Seq<u8>, b: Seq<u8>, k: int)
    requires
        0 <= k < a.len(),
        k < b.len(),
        forall|i: int| 0 <= i < k ==> a[i] == b[i],
        a[k] < b[k],
    ensures
        bytes_le(a, b),
    decreases k,
{
    if k > 0 {
        assert(a[0] == b[0]);
        assert forall|i: int| 0 <= i < k - 1 implies a.drop_first()[i] == b.drop_first()[i] by {
            assert(a[i + 1] == b[i + 1]);
        }
        lemma_bytes_le_at(a.drop_first(), b.drop_first(), k - 1);
    }
}

/// Whether `a` comes no later than `b` in the order of keys.
pub fn key_le(a: &[u8], b: &[u8]) -> (le: bool)
    ensures
        le == bytes_le(a@, b@),
{
    let mut i: usize = 0;
    assert(a@.skip(0) =~= a@);
    assert(b@.skip(0) =~= b@);
    while i < a.len() && i < b.len()
        invariant
            i <= a.len(),
            i <= b.len(),
            bytes_le(a@, b@) == bytes_le(a@.skip(i as int), b@.skip(i as int)),
        decreases a.len() - i,
    {
        if a[i] != b[i] {
            return a[i] < b[i];
        }
        assert(a@.skip(i as int).drop_first() =~= a@.skip(i + 1));
        assert(b@.skip(i as int).drop_first() =~= b@.skip(i + 1));
        i = i + 1;
    }
    i >= a.len()
}

/// The keys of `entries`, in their order.
pub open spec fn keys_of<V>(entries: Seq<(Seq<u8>, V)>) -> Seq<Seq<u8>> {
    Seq::new(entries.len(), |i: int| entries[i].0)
}

/// Where the index `i` goes among the indices `order`, which are sorted by
/// their keys: behind the last index whose key comes no later than its own.
pub open spec fn place_index(keys: Seq<Seq<u8>>, order: Seq<int>, i: int) -> int
    decreases order.len(),
{
    if order.len() == 0 || bytes_le(keys[order.last()], keys[i]) {
        order.len() as int
    } else {
        place_index(keys, order.drop_last(), i)
    }
}

/// The indices of `keys` in the order of their keys. Equal keys, which a
/// mapping does not have, stay in the order in which they stand.
pub open spec fn sort_order(keys: Seq<Seq<u8>>) -> Seq<int>
    decreases keys.len(),
{
    if keys.len() == 0 {
        Seq::empty()
    } else {
        let before = sort_order(keys.drop_last());
        before.insert(place_index(keys, before, keys.len() - 1), keys.len() - 1)
    }
}

/// What [`place_index`] finds: every index from there on has a later key,
/// the one before it does not.
pub proof fn lemma_place_index(keys: Seq<Seq<u8>>, order: Seq<int>, i: int)
    ensures
        0 <= place_index(keys, order, i) <= order.len(),
        forall|q: int|
            place_index(keys, order, i) <= q < order.len() ==> !bytes_le(
                keys[#[trigger] order[q]],
                keys[i],
            ),
        place_index(keys, order, i) > 0 ==> bytes_le(
            keys[order[place_index(keys, order, i) - 1]],
            keys[i],
        ),
    decreases order.len(),
{
    if !(order.len() == 0 || bytes_le(keys[order.last()], keys[i])) {
        lemma_place_index(keys, order.drop_last(), i);
        let p = place_index(keys, order.drop_last(), i);
        assert forall|q: int| p <= q < order.len() implies !bytes_le(
            keys[#[trigger] order[q]],
            keys[i],
        ) by {
            if q < order.len() - 1 {
                assert(order.drop_last()[q] == order[q]);
            }
        }
        if p > 0 {
            assert(order.drop_last()[p - 1] == order[p - 1]);
        }
    }
}

/// The place that [`place_index`] finds is the only one with its property.
pub proof fn lemma_place_index_is(keys: Seq<Seq<u8>>, order: Seq<int>, i: int, p: int)
    requires
        0 <= p <= order.len(),
        forall|q: int| p <= q < order.len() ==> !bytes_le(keys[#[trigger] order[q]], keys[i]),
        p > 0 ==> bytes_le(keys[order[p - 1]], keys[i]),
    ensures
        place_index(keys, order, i) == p,
    decreases order.len(),
{
    if order.len() > 0 {
        if p == order.len() {
        } else {
            assert(!bytes_le(keys[order[order.len() - 1]], keys[i]));
            assert forall|q: int| p <= q < order.drop_last().len() implies !bytes_le(
                keys[#[trigger] order.drop_last()[q]],
                keys[i],
            ) by {
                assert(order.drop_last()[q] == order[q]);
            }
            if p > 0 {
                assert(order.drop_last()[p - 1] == order[p - 1]);
            }
            lemma_place_index_is(keys, order.drop_last(), i, p);
        }
    }
}

/// Whether `order` names each of the first `n` indices exactly once.
pub open spec fn is_permutation(order: Seq<int>, n: int) -> bool {
    &&& order.len() == n
    &&& forall|k: int| 0 <= k < order.len() ==> 0 <= #[trigger] order[k] < n
    &&& forall|a: int, b: int|
        0 <= a < b < order.len() ==> #[trigger] order[a] != #[trigger] order[b]
    &&& forall|j: int| 0 <= j < n ==> #[trigger] order.contains(j)
}

/// Whether the keys come in ascending order when taken as `order` says.
pub open spec fn ascending(keys: Seq<Seq<u8>>, order: Seq<int>) -> bool {
    forall|a: int, b: int|
        0 <= a < b < order.len() ==> bytes_le(
            keys[#[trigger] order[a]],
            keys[#[trigger] order[b]],
        )
}


/// The sorted order names every index once, and the keys ascend along it.
pub proof fn lemma_sort_order(keys: Seq<Seq<u8>>)
    ensures
        is_permutation(sort_order(keys), keys.len() as int),
        ascending(keys, sort_order(keys)),
    decreases keys.len(),
{
    if keys.len() > 0 {
        let n = keys.len() as int;
        let shorter = keys.drop_last();
        let before = sort_order(shorter);
        lemma_sort_order(shorter);
        let p = place_index(keys, before, n - 1);
        lemma_place_index(keys, before, n - 1);
        let order = sort_order(keys);
        assert(order == before.insert(p, n - 1));
        assert(order.len() == n);
        assert forall|k: int| 0 <= k < order.len() implies 0 <= #[trigger] order[k] < n by {
            if k < p {
                assert(order[k] == before[k]);
            } else if k > p {
                assert(order[k] == before[k - 1]);
            }
        }
        assert forall|a: int, b: int| 0 <= a < b < order.len() implies #[trigger] order[a]
            != #[trigger] order[b] by {
            let ia = if a < p {
                a
            } else {
                a - 1
            };
            let ib = if b < p {
                b
            } else {
                b - 1
            };
            if a != p {
                assert(order[a] == before[ia]);
            }
            if b != p {
                assert(order[b] == before[ib]);
            }
        }
        assert forall|j: int| 0 <= j < n implies #[trigger] order.contains(j) by {
            if j == n - 1 {
                assert(order[p] == j);
            } else {
                assert(before.contains(j));
                let k0 = choose|k: int| 0 <= k < before.len() && before[k] == j;
                if k0 < p {
                    assert(order[k0] == j);
                } else {
                    assert(order[k0 + 1] == before[k0]);
                }
            }
        }
        assert forall|a: int, b: int| 0 <= a < b < order.len() implies bytes_le(
            keys[#[trigger] order[a]],
            keys[#[trigger] order[b]],
        ) by {
            let ia = if a < p {
                a
            } else {
                a - 1
            };
            let ib = if b < p {
                b
            } else {
                b - 1
            };
            if a != p {
                assert(order[a] == before[ia]);
                assert(shorter[before[ia]] == keys[before[ia]]);
            }
            if b != p {
                assert(order[b] == before[ib]);
                assert(shorter[before[ib]] == keys[before[ib]]);
            }
            if a != p && b != p {
                assert(bytes_le(shorter[before[ia]], shorter[before[ib]]));
            } else if a == p {
                assert(!bytes_le(keys[before[ib]], keys[n - 1]));
                lemma_bytes_le_total(keys[before[ib]], keys[n - 1]);
            } else {
                assert(bytes_le(keys[before[p - 1]], keys[n - 1]));
                assert(shorter[before[p - 1]] == keys[before[p - 1]]);
                if ia < p - 1 {
                    assert(bytes_le(shorter[before[ia]], shorter[before[p - 1]]));
                    lemma_bytes_le_transitive(keys[before[ia]], keys[before[p - 1]], keys[n - 1]);
                }
            }
        }
    }
}

/// Keys that ascend as they stand are in their sorted order already.
pub proof fn lemma_sort_order_of_sorted(keys: Seq<Seq<u8>>)
    requires
        forall|a: int, b: int|
            0 <= a < b < keys.len() ==> bytes_le(#[trigger] keys[a], #[trigger] keys[b]),
    ensures
        sort_order(keys) == Seq::new(keys.len(), |i: int| i),
    decreases keys.len(),
{
    if keys.len() > 0 {
        let n = keys.len() as int;
        let shorter = keys.drop_last();
        assert forall|a: int, b: int| 0 <= a < b < shorter.len() implies bytes_le(
            #[trigger] shorter[a],
            #[trigger] shorter[b],
        ) by {
            assert(bytes_le(keys[a], keys[b]));
        }
        lemma_sort_order_of_sorted(shorter);
        let before = sort_order(shorter);
        if n > 1 {
            assert(before[n - 2] == n - 2);
            assert(bytes_le(keys[n - 2], keys[n - 1]));
        }
        lemma_place_index_is(keys, before, n - 1, n - 1);
        assert(sort_order(keys) =~= Seq::new(keys.len(), |i: int| i));
    } else {
        assert(sort_order(keys) =~= Seq::new(keys.len(), |i: int| i));
    }
}

/// The order in which a dictionary's entries are written: by key, ascending.
pub fn sorted_order(entries: &Vec<(Vec<u8>, BencodeValue)>) -> (order: Vec<usize>)
    ensures
        order@.len() == entries@.len(),
        forall|k: int|
            0 <= k < order@.len() ==> #[trigger] order@[k] == sort_order(
                keys_of(entries_view(entries@)),
            )[k],
        forall|k: int| 0 <= k < order@.len() ==> #[trigger] order@[k] < entries@.len(),
{
    let ghost keys = keys_of(entries_view(entries@));
    let mut order: Vec<usize> = Vec::with_capacity(entries.len());
    let mut i: usize = 0;
    assert(keys.subrange(0, 0) =~= Seq::<Seq<u8>>::empty());
    while i < entries.len()
        invariant
            i <= entries@.len(),
            keys == keys_of(entries_view(entries@)),
            order@.len() == i,
            forall|k: int|
                0 <= k < i ==> #[trigger] order@[k] == sort_order(keys.subrange(0, i as int))[k],
            forall|k: int| 0 <= k < i ==> #[trigger] order@[k] < i,
        decreases entries@.len() - i,
    {
        let ghost before = sort_order(keys.subrange(0, i as int));
        let ghost upto = keys.subrange(0, i + 1);
        proof {
            lemma_sort_order(keys.subrange(0, i as int));
            assert(upto.drop_last() =~= keys.subrange(0, i as int));
        }
        let mut p: usize = i;
        while p > 0 && !key_le(entries[order[p - 1]].0.as_slice(), entries[i].0.as_slice())
            invariant
                p <= i,
                i < entries@.len(),
                order@.len() == i,
                before.len() == i,
                keys == keys_of(entries_view(entries@)),
                upto == keys.subrange(0, i + 1),
                forall|k: int| 0 <= k < i ==> #[trigger] order@[k] == before[k],
                forall|k: int| 0 <= k < i ==> #[trigger] order@[k] < i,
                forall|q: int|
                    p <= q < i ==> !bytes_le(upto[#[trigger] before[q]], upto[i as int]),
            decreases p,
        {
            proof {
                let j = order@[p - 1];
                assert(before[p - 1] == j);
                assert(upto[j as int] == entries@[j as int].0@);
                assert(upto[i as int] == entries@[i as int].0@);
            }
            p = p - 1;
        }
        proof {
            if p > 0 {
                let j = order@[p - 1];
                assert(before[p - 1] == j);
                assert(upto[j as int] == entries@[j as int].0@);
                assert(upto[i as int] == entries@[i as int].0@);
            }
            lemma_place_index_is(upto, before, i as int, p as int);
        }
        order.insert(p, i);
        i = i + 1;
        proof {
            let after = sort_order(keys.subrange(0, i as int));
            assert(after == before.insert(p as int, i - 1));
            assert forall|k: int| 0 <= k < i implies #[trigger] order@[k] == after[k] by {
                if k < p {
                    assert(after[k] == before[k]);
                } else if k > p {
                    assert(after[k] == before[k - 1]);
                }
            }
        }
    }
    assert(keys.subrange(0, i as int) =~= keys);
    order
}

} // verus!
