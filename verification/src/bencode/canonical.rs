//! The canonical form of a value, and what decoding makes of encoded bytes.

use crate::bencode::encode::encoded;
use crate::bencode::encode::encoded_bytes;
use crate::bencode::encode::encoded_entries;
use crate::bencode::encode::encoded_items;
use crate::bencode::encode::numeral;
use crate::bencode::grammar::lemma_parsed_wf;
use crate::bencode::grammar::decoded;
use crate::bencode::grammar::digits_end;
use crate::bencode::grammar::lemma_digits_end_step;
use crate::bencode::grammar::parse_bytes;
use crate::bencode::grammar::parse_entries;
use crate::bencode::grammar::parse_integer;
use crate::bencode::grammar::parse_items;
use crate::bencode::grammar::parse_value;
use crate::bencode::grammar::with_entry;
use crate::bencode::grammar::COLON;
use crate::bencode::grammar::DICT_START;
use crate::bencode::grammar::END;
use crate::bencode::grammar::INT_START;
use crate::bencode::grammar::LIST_START;
use crate::bencode::grammar::MINUS;
use crate::bencode::order::is_permutation;
use crate::bencode::order::keys_of;
use crate::bencode::order::lemma_sort_order;
use crate::bencode::order::sort_order;
use crate::bencode::value::distinct_keys;
use crate::bencode::value::has_key;
use crate::bencode::value::Bencode;
use crate::decimal::decimal;
use crate::decimal::is_digit;
use crate::decimal::lemma_decimal;
use crate::error::Error;
use vstd::prelude::*;

verus! {

/// The canonical form of `value`: the same value with the entries of every
/// dictionary in the ascending order of their keys.
pub open spec fn canonical(value: Bencode) -> Bencode
    decreases value, 0nat,
{
    match value {
        Bencode::Bytes(_) => value,
        Bencode::Integer(_) => value,
        Bencode::List(items) => Bencode::List(canonical_items(items, items.len())),
        Bencode::Dictionary(entries) => Bencode::Dictionary(
            canonical_entries(entries, sort_order(keys_of(entries)), entries.len()),
        ),
    }
}

/// The canonical forms of the first `n` of `items`.
pub open spec fn canonical_items(items: Seq<Bencode>, n: nat) -> Seq<Bencode>
    decreases items, n,
{
    if n == 0 || n > items.len() {
        Seq::empty()
    } else {
        canonical_items(items, (n - 1) as nat).push(canonical(items[n - 1]))
    }
}

/// The first `n` entries in the order `order`, each with its value in
/// canonical form.
pub open spec fn canonical_entries(
    entries: Seq<(Seq<u8>, Bencode)>,
    order: Seq<int>,
    n: nat,
) -> Seq<(Seq<u8>, Bencode)>
    decreases entries, n,
{
    if n == 0 || n > order.len() {
        Seq::empty()
    } else {
        let j = order[n - 1];
        canonical_entries(entries, order, (n - 1) as nat).push(
            if 0 <= j < entries.len() {
                (entries[j].0, canonical(entries[j].1))
            } else {
                (Seq::empty(), Bencode::Integer(0))
            },
        )
    }
}

/// Whether two values are the same but for the order in which their
/// dictionaries hold their entries: byte strings and integers are equal,
/// lists are alike item by item, and each entry of one dictionary has an
/// entry of the other with its key and a like value.
pub open spec fn same_value(a: Bencode, b: Bencode) -> bool
    decreases a, 0nat,
{
    match (a, b) {
        (Bencode::Bytes(x), Bencode::Bytes(y)) => x == y,
        (Bencode::Integer(x), Bencode::Integer(y)) => x == y,
        (Bencode::List(x), Bencode::List(y)) => {
            &&& x.len() == y.len()
            &&& forall|i: int| 0 <= i < x.len() ==> same_value(#[trigger] x[i], y[i])
        },
        (Bencode::Dictionary(x), Bencode::Dictionary(y)) => {
            &&& forall|i: int| 0 <= i < x.len() ==> found_among(#[trigger] x[i], y)
            &&& forall|j: int| 0 <= j < y.len() ==> finds_among(x, #[trigger] y[j])
        },
        _ => false,
    }
}

/// Whether `entry` has its like among `others`.
pub open spec fn found_among(entry: (Seq<u8>, Bencode), others: Seq<(Seq<u8>, Bencode)>) -> bool
    decreases entry, 1nat,
{
    exists|j: int| 0 <= j < others.len() && alike(entry, #[trigger] others[j])
}

/// Whether one of `entries` is the like of `other`.
pub open spec fn finds_among(entries: Seq<(Seq<u8>, Bencode)>, other: (Seq<u8>, Bencode)) -> bool
    decreases entries,
{
    exists|i: int| 0 <= i < entries.len() && alike(#[trigger] entries[i], other)
}

/// Whether two entries have the same key and like values.
pub open spec fn alike(a: (Seq<u8>, Bencode), b: (Seq<u8>, Bencode)) -> bool
    decreases a, 0nat,
{
    a.0 == b.0 && same_value(a.1, b.1)
}

/// Where the canonical forms of the first `n` items stand.
pub proof fn lemma_canonical_items(items: Seq<Bencode>, n: nat)
    requires
        n <= items.len(),
    ensures
        canonical_items(items, n).len() == n,
        forall|i: int|
            0 <= i < n ==> #[trigger] canonical_items(items, n)[i] == canonical(items[i]),
    decreases n,
{
    if n > 0 {
        lemma_canonical_items(items, (n - 1) as nat);
    }
}

/// Where the canonical forms of the first `n` entries in an order stand.
pub proof fn lemma_canonical_entries(entries: Seq<(Seq<u8>, Bencode)>, order: Seq<int>, n: nat)
    requires
        n <= order.len(),
        forall|k: int| 0 <= k < order.len() ==> 0 <= #[trigger] order[k] < entries.len(),
    ensures
        canonical_entries(entries, order, n).len() == n,
        forall|q: int|
            0 <= q < n ==> #[trigger] canonical_entries(entries, order, n)[q] == (
                entries[order[q]].0,
                canonical(entries[order[q]].1),
            ),
    decreases n,
{
    if n > 0 {
        lemma_canonical_entries(entries, order, (n - 1) as nat);
        assert(0 <= order[n - 1] < entries.len());
    }
}

/// Entries that are taken in another order, each with a like value in
/// place of its own, make the same dictionary, and their keys stay distinct.
proof fn lemma_reordered_same(
    entries: Seq<(Seq<u8>, Bencode)>,
    order: Seq<int>,
    reordered: Seq<(Seq<u8>, Bencode)>,
)
    requires
        distinct_keys(entries),
        is_permutation(order, entries.len() as int),
        reordered.len() == entries.len(),
        forall|q: int|
            0 <= q < reordered.len() ==> alike(#[trigger] reordered[q], entries[order[q]]),
    ensures
        distinct_keys(reordered),
        same_value(Bencode::Dictionary(reordered), Bencode::Dictionary(entries)),
{
    assert forall|a: int, b: int| 0 <= a < b < reordered.len() implies (#[trigger] reordered[a]).0
        != (#[trigger] reordered[b]).0 by {
        let ja = order[a];
        let jb = order[b];
        assert(alike(reordered[a], entries[ja]));
        assert(alike(reordered[b], entries[jb]));
        assert(ja != jb);
        if ja < jb {
            assert(entries[ja].0 != entries[jb].0);
        } else {
            assert(entries[jb].0 != entries[ja].0);
        }
    }
    assert forall|i: int| 0 <= i < reordered.len() implies found_among(
        #[trigger] reordered[i],
        entries,
    ) by {
        assert(alike(reordered[i], entries[order[i]]));
    }
    assert forall|j: int| 0 <= j < entries.len() implies finds_among(
        reordered,
        #[trigger] entries[j],
    ) by {
        assert(order.contains(j));
        let q = choose|q: int| 0 <= q < order.len() && order[q] == j;
        assert(alike(reordered[q], entries[order[q]]));
    }
}

/// The canonical form of a well-formed value is well formed, and is the
/// same value.
pub proof fn lemma_canonical_same(value: Bencode)
    requires
        value.wf(),
    ensures
        canonical(value).wf(),
        same_value(canonical(value), value),
    decreases value,
{
    match value {
        Bencode::Bytes(_) => {},
        Bencode::Integer(_) => {},
        Bencode::List(items) => {
            lemma_canonical_items(items, items.len());
            let c = canonical_items(items, items.len());
            assert forall|i: int| 0 <= i < c.len() implies (#[trigger] c[i]).wf() && same_value(
                c[i],
                items[i],
            ) by {
                lemma_canonical_same(items[i]);
            }
        },
        Bencode::Dictionary(entries) => {
            let order = sort_order(keys_of(entries));
            lemma_sort_order(keys_of(entries));
            lemma_canonical_entries(entries, order, entries.len());
            let c = canonical_entries(entries, order, entries.len());
            assert forall|q: int| 0 <= q < c.len() implies (#[trigger] c[q]).1.wf() && alike(
                c[q],
                entries[order[q]],
            ) by {
                lemma_canonical_same(entries[order[q]].1);
            }
            lemma_reordered_same(entries, order, c);
        },
    }
}

/// The digits that start at `from` end at `to` if all up to there are
/// digits and what stands there is none.
pub proof fn lemma_digits_end_at(input: Seq<u8>, from: int, to: int)
    requires
        0 <= from <= to <= input.len(),
        forall|k: int| from <= k < to ==> is_digit(#[trigger] input[k]),
        to < input.len() ==> !is_digit(input[to]),
    ensures
        digits_end(input, from) == to,
{
    lemma_digits_end_step(input, from, to);
}

/// Reading a written byte string gives the bytes back.
pub proof fn lemma_parse_encoded_bytes(bytes: Seq<u8>, input: Seq<u8>, at: int)
    requires
        0 <= at,
        at + encoded_bytes(bytes).len() <= input.len(),
        input.subrange(at, at + encoded_bytes(bytes).len()) == encoded_bytes(bytes),
    ensures
        is_digit(input[at]),
        parse_bytes(input, at) == Ok::<(Seq<u8>, int), Error>(
            (bytes, at + encoded_bytes(bytes).len()),
        ),
{
    let written = encoded_bytes(bytes);
    let digits = decimal(bytes.len());
    lemma_decimal(bytes.len());
    let colon = at + digits.len();
    assert forall|k: int| at <= k < colon implies is_digit(#[trigger] input[k]) by {
        assert(input[k] == written[k - at]);
        assert(written[k - at] == digits[k - at]);
    }
    assert(input[colon] == written[colon - at]);
    assert(written[colon - at] == COLON);
    lemma_digits_end_at(input, at, colon);
    assert(input.subrange(at, colon) =~= digits) by {
        assert forall|k: int| 0 <= k < digits.len() implies input.subrange(at, colon)[k]
            == digits[k] by {
            assert(input[at + k] == written[k]);
        }
    }
    assert(input.subrange(colon + 1, colon + 1 + bytes.len()) =~= bytes) by {
        assert forall|k: int| 0 <= k < bytes.len() implies input.subrange(
            colon + 1,
            colon + 1 + bytes.len(),
        )[k] == bytes[k] by {
            assert(input[colon + 1 + k] == written[colon + 1 + k - at]);
        }
    }
    assert(input[at] == written[0]);
    assert(written[0] == digits[0]);
}

/// Reading a written integer gives the integer back.
pub proof fn lemma_parse_encoded_integer(i: int, input: Seq<u8>, at: int)
    requires
        i64::MIN <= i <= i64::MAX,
        0 <= at,
        at + numeral(i).len() + 2 <= input.len(),
        input.subrange(at, at + numeral(i).len() + 2) == seq![INT_START] + numeral(i) + seq![END],
    ensures
        parse_integer(input, at) == Ok::<(int, int), Error>((i, at + numeral(i).len() + 2)),
{
    let written = seq![INT_START] + numeral(i) + seq![END];
    let magnitude: nat = if i < 0 {
        (-i) as nat
    } else {
        i as nat
    };
    let digits = decimal(magnitude);
    lemma_decimal(magnitude);
    let start = if i < 0 {
        at + 2
    } else {
        at + 1
    };
    let end = start + digits.len();
    assert(end == at + numeral(i).len() + 1);
    assert(input[at] == written[0]);
    assert(input[at + 1] == written[1]);
    if i < 0 {
        assert(written[1] == MINUS);
    } else {
        assert(written[1] == digits[0]);
        assert(is_digit(digits[0]));
    }
    assert forall|k: int| start <= k < end implies is_digit(#[trigger] input[k]) by {
        assert(input[k] == written[k - at]);
        assert(written[k - at] == digits[k - start]);
    }
    assert(input[end] == written[end - at]);
    assert(written[end - at] == END);
    lemma_digits_end_at(input, start, end);
    assert(input.subrange(start, end) =~= digits) by {
        assert forall|k: int| 0 <= k < digits.len() implies input.subrange(start, end)[k]
            == digits[k] by {
            assert(input[start + k] == written[start + k - at]);
        }
    }
}

/// What is written never starts with the `e` that ends a list or a
/// dictionary, and is never empty.
pub proof fn lemma_encoded_start(value: Bencode)
    ensures
        encoded(value).len() >= 2,
        encoded(value)[0] != END,
        value is Bytes ==> is_digit(encoded(value)[0]),
        value is Integer ==> encoded(value)[0] == INT_START,
        value is List ==> encoded(value)[0] == LIST_START,
        value is Dictionary ==> encoded(value)[0] == DICT_START,
{
    match value {
        Bencode::Bytes(bytes) => {
            lemma_decimal(bytes.len());
            assert(encoded(value)[0] == decimal(bytes.len())[0]);
        },
        Bencode::Integer(_) => {},
        Bencode::List(_) => {},
        Bencode::Dictionary(_) => {},
    }
}

/// The items written so far are the start of all the items written.
pub proof fn lemma_encoded_items_prefix(items: Seq<Bencode>, k: nat, n: nat)
    requires
        k <= n <= items.len(),
    ensures
        encoded_items(items, k).len() <= encoded_items(items, n).len(),
        encoded_items(items, n).subrange(0, encoded_items(items, k).len() as int)
            == encoded_items(items, k),
    decreases n,
{
    if k < n {
        lemma_encoded_items_prefix(items, k, (n - 1) as nat);
        assert(encoded_items(items, n).subrange(0, encoded_items(items, k).len() as int)
            =~= encoded_items(items, k));
    } else {
        assert(encoded_items(items, n).subrange(0, encoded_items(items, k).len() as int)
            =~= encoded_items(items, k));
    }
}

/// The entries written so far are the start of all the entries written.
pub proof fn lemma_encoded_entries_prefix(
    entries: Seq<(Seq<u8>, Bencode)>,
    order: Seq<int>,
    k: nat,
    n: nat,
)
    requires
        k <= n <= order.len(),
    ensures
        encoded_entries(entries, order, k).len() <= encoded_entries(entries, order, n).len(),
        encoded_entries(entries, order, n).subrange(
            0,
            encoded_entries(entries, order, k).len() as int,
        ) == encoded_entries(entries, order, k),
    decreases n,
{
    if k < n {
        lemma_encoded_entries_prefix(entries, order, k, (n - 1) as nat);
        assert(encoded_entries(entries, order, n).subrange(
            0,
            encoded_entries(entries, order, k).len() as int,
        ) =~= encoded_entries(entries, order, k));
    } else {
        assert(encoded_entries(entries, order, n).subrange(
            0,
            encoded_entries(entries, order, k).len() as int,
        ) =~= encoded_entries(entries, order, k));
    }
}

/// A part of a part of the input is a part of the input.
proof fn lemma_part_of_part(input: Seq<u8>, at: int, whole: Seq<u8>, from: int, part: Seq<u8>)
    requires
        0 <= at,
        at + whole.len() <= input.len(),
        input.subrange(at, at + whole.len()) == whole,
        0 <= from,
        from + part.len() <= whole.len(),
        whole.subrange(from, from + part.len()) == part,
    ensures
        input.subrange(at + from, at + from + part.len()) == part,
{
    assert forall|k: int| 0 <= k < part.len() implies input.subrange(
        at + from,
        at + from + part.len(),
    )[k] == part[k] by {
        assert(whole.subrange(from, from + part.len())[k] == whole[from + k]);
        assert(input.subrange(at, at + whole.len())[from + k] == input[at + from + k]);
    }
    assert(input.subrange(at + from, at + from + part.len()) =~= part);
}

/// Reading what was written gives the canonical form of the value, and
/// ends where the written bytes end, whatever stands around them.
pub proof fn lemma_parse_encoded(value: Bencode, input: Seq<u8>, at: int)
    requires
        value.wf(),
        0 <= at,
        at + encoded(value).len() <= input.len(),
        input.subrange(at, at + encoded(value).len()) == encoded(value),
    ensures
        parse_value(input, at) == Ok::<(Bencode, int), Error>(
            (canonical(value), at + encoded(value).len()),
        ),
    decreases value, 0nat, 0nat,
{
    let written = encoded(value);
    lemma_encoded_start(value);
    assert(input[at] == input.subrange(at, at + written.len())[0]);
    match value {
        Bencode::Bytes(bytes) => {
            lemma_parse_encoded_bytes(bytes, input, at);
        },
        Bencode::Integer(i) => {
            lemma_parse_encoded_integer(i, input, at);
        },
        Bencode::List(items) => {
            let body = encoded_items(items, items.len());
            assert(written.subrange(1, 1 + body.len() as int) =~= body);
            lemma_part_of_part(input, at, written, 1, body);
            assert(input[at + 1 + body.len()] == input.subrange(at, at + written.len())[1
                + body.len() as int]);
            lemma_parse_encoded_items(items, input, at + 1, 0);
        },
        Bencode::Dictionary(entries) => {
            let order = sort_order(keys_of(entries));
            lemma_sort_order(keys_of(entries));
            let body = encoded_entries(entries, order, entries.len());
            assert(written.subrange(1, 1 + body.len() as int) =~= body);
            lemma_part_of_part(input, at, written, 1, body);
            assert(input[at + 1 + body.len()] == input.subrange(at, at + written.len())[1
                + body.len() as int]);
            lemma_parse_encoded_entries(entries, order, input, at + 1, 0);
        },
    }
}

/// Reading the written items of a list from the `k`-th on, with the
/// canonical forms of those before it in hand, gives the canonical forms of
/// them all.
pub proof fn lemma_parse_encoded_items(items: Seq<Bencode>, input: Seq<u8>, start: int, k: nat)
    requires
        forall|i: int| 0 <= i < items.len() ==> (#[trigger] items[i]).wf(),
        k <= items.len(),
        0 <= start,
        start + encoded_items(items, items.len()).len() < input.len(),
        input.subrange(start, start + encoded_items(items, items.len()).len()) == encoded_items(
            items,
            items.len(),
        ),
        input[start + encoded_items(items, items.len()).len()] == END,
    ensures
        parse_items(
            input,
            start + encoded_items(items, k).len(),
            canonical_items(items, k),
        ) == Ok::<(Seq<Bencode>, int), Error>(
            (
                canonical_items(items, items.len()),
                start + encoded_items(items, items.len()).len() + 1,
            ),
        ),
    decreases items, items.len() - k, 1nat,
{
    let n = items.len();
    let body = encoded_items(items, n);
    let here = start + encoded_items(items, k).len();
    lemma_encoded_items_prefix(items, k, n);
    if k < n {
        let item = items[k as int];
        let next_k = (k + 1) as nat;
        lemma_encoded_items_prefix(items, next_k, n);
        lemma_encoded_start(item);
        let upto = encoded_items(items, next_k);
        assert(upto == encoded_items(items, k) + encoded(item));
        assert(body.subrange(encoded_items(items, k).len() as int, upto.len() as int) =~= encoded(
            item,
        )) by {
            assert(body.subrange(0, upto.len() as int) == upto);
            assert forall|q: int| 0 <= q < encoded(item).len() implies body.subrange(
                encoded_items(items, k).len() as int,
                upto.len() as int,
            )[q] == encoded(item)[q] by {
                assert(body.subrange(0, upto.len() as int)[encoded_items(items, k).len() + q]
                    == upto[encoded_items(items, k).len() + q]);
            }
        }
        lemma_part_of_part(input, start, body, encoded_items(items, k).len() as int, encoded(item));
        assert(input[here] == input.subrange(here, here + encoded(item).len())[0]);
        lemma_parse_encoded(item, input, here);
        lemma_parse_encoded_items(items, input, start, next_k);
    } else {
        assert(canonical_items(items, k) == canonical_items(items, n));
    }
}

/// Reading the written entries of a dictionary from the `k`-th on, with the
/// canonical forms of those before it in hand, gives the canonical forms of
/// them all.
pub proof fn lemma_parse_encoded_entries(
    entries: Seq<(Seq<u8>, Bencode)>,
    order: Seq<int>,
    input: Seq<u8>,
    start: int,
    k: nat,
)
    requires
        distinct_keys(entries),
        forall|i: int| 0 <= i < entries.len() ==> (#[trigger] entries[i]).1.wf(),
        is_permutation(order, entries.len() as int),
        k <= entries.len(),
        0 <= start,
        start + encoded_entries(entries, order, entries.len()).len() < input.len(),
        input.subrange(start, start + encoded_entries(entries, order, entries.len()).len())
            == encoded_entries(entries, order, entries.len()),
        input[start + encoded_entries(entries, order, entries.len()).len()] == END,
    ensures
        parse_entries(
            input,
            start + encoded_entries(entries, order, k).len(),
            canonical_entries(entries, order, k),
        ) == Ok::<(Seq<(Seq<u8>, Bencode)>, int), Error>(
            (
                canonical_entries(entries, order, entries.len()),
                start + encoded_entries(entries, order, entries.len()).len() + 1,
            ),
        ),
    decreases entries, entries.len() - k, 1nat,
{
    let n = entries.len();
    let body = encoded_entries(entries, order, n);
    let sofar = encoded_entries(entries, order, k);
    let here = start + sofar.len();
    lemma_encoded_entries_prefix(entries, order, k, n);
    if k < n {
        let j = order[k as int];
        assert(0 <= j < entries.len());
        let key = entries[j].0;
        let value = entries[j].1;
        let next_k = (k + 1) as nat;
        lemma_encoded_entries_prefix(entries, order, next_k, n);
        let upto = encoded_entries(entries, order, next_k);
        let pair = encoded_bytes(key) + encoded(value);
        let key_from = sofar.len() as int;
        let value_from = sofar.len() as int + encoded_bytes(key).len() as int;
        assert(upto == sofar + pair);
        lemma_encoded_start(value);
        lemma_decimal(key.len());
        assert(body.subrange(key_from, value_from) =~= encoded_bytes(key)) by {
            assert(body.subrange(0, upto.len() as int) == upto);
            assert forall|q: int| 0 <= q < encoded_bytes(key).len() implies body.subrange(
                key_from,
                value_from,
            )[q] == encoded_bytes(key)[q] by {
                assert(body.subrange(0, upto.len() as int)[sofar.len() + q] == upto[sofar.len()
                    + q]);
            }
        }
        assert(body.subrange(value_from, upto.len() as int) =~= encoded(value)) by {
            assert(body.subrange(0, upto.len() as int) == upto);
            assert forall|q: int| 0 <= q < encoded(value).len() implies body.subrange(
                value_from,
                upto.len() as int,
            )[q] == encoded(value)[q] by {
                assert(body.subrange(0, upto.len() as int)[sofar.len() + encoded_bytes(key).len()
                    + q] == upto[sofar.len() + encoded_bytes(key).len() + q]);
            }
        }
        lemma_part_of_part(input, start, body, sofar.len() as int, encoded_bytes(key));
        lemma_part_of_part(input, start, body, value_from, encoded(value));
        lemma_parse_encoded_bytes(key, input, here);
        let middle = here + encoded_bytes(key).len();
        assert(parse_value(input, here) == Ok::<(Bencode, int), Error>(
            (Bencode::Bytes(key), middle),
        ));
        lemma_parse_encoded(value, input, middle);
        let seen = canonical_entries(entries, order, k);
        lemma_canonical_entries(entries, order, k);
        assert(!has_key(seen, key)) by {
            if has_key(seen, key) {
                let q = choose|q: int| 0 <= q < seen.len() && (#[trigger] seen[q]).0 == key;
                let jq = order[q];
                assert(seen[q].0 == entries[jq].0);
                assert(order[q] != order[k as int]);
                if jq < j {
                    assert(entries[jq].0 != entries[j].0);
                } else {
                    assert(entries[j].0 != entries[jq].0);
                }
            }
        }
        assert(with_entry(seen, key, canonical(value)) == canonical_entries(
            entries,
            order,
            next_k,
        ));
        lemma_parse_encoded_entries(entries, order, input, start, next_k);
    } else {
        assert(canonical_entries(entries, order, k) == canonical_entries(entries, order, n));
    }
}

/// Decoding, encoding and decoding again gives the same value.
///
/// For every value `v` that some input decodes to, the encoding of `v`
/// decodes, all of it, to the canonical form of `v`, which is the same
/// value as `v` but for the order of the entries in its dictionaries.
pub proof fn lemma_round_trip(input: Seq<u8>)
    requires
        decoded(input) is Ok,
    ensures
        ({
            let value = decoded(input)->Ok_0.0;
            &&& value.wf()
            &&& decoded(encoded(value)) == Ok::<(Bencode, int), Error>(
                (canonical(value), encoded(value).len() as int),
            )
            &&& same_value(canonical(value), value)
        }),
{
    lemma_parsed_wf(input, 0);
    lemma_decode_encode(decoded(input)->Ok_0.0);
}

/// Decoding what was encoded gives the value back.
///
/// For every well-formed value, and so for every value that decoding can
/// give, the encoded bytes decode, all of them, to the canonical form of
/// the value, which is the same value: byte strings, integers and lists
/// item by item as they were, and each dictionary with the same keys and
/// values, in the order of the keys.
pub proof fn lemma_decode_encode(value: Bencode)
    requires
        value.wf(),
    ensures
        decoded(encoded(value)) == Ok::<(Bencode, int), Error>(
            (canonical(value), encoded(value).len() as int),
        ),
        canonical(value).wf(),
        same_value(canonical(value), value),
{
    let written = encoded(value);
    assert(written.subrange(0, written.len() as int) =~= written);
    lemma_parse_encoded(value, written, 0);
    lemma_canonical_same(value);
}

} // verus!
